//! What a node of a highly available setup says about itself and about the store that it uses.
use vstd::prelude::*;

verus! {

/// The name of a node, or of a leader, that is not known.
pub const UNKNOWN: &'static str = "unknown";

/// The name of a node, by the variable of the environment that it is in, if it is in one.
pub fn node_name(out: Option<String>) -> (r: String)
    ensures
        r@ == (match out {
            Some(name) => name@,
            None => UNKNOWN@,
        }),
        names_node(out, r@),
{
    match out {
        Some(name) => name,
        None => UNKNOWN.to_owned(),
    }
}

/// The answer to a request for the page.
pub fn leader_page(out: &str, leader: &str) -> (r: String)
    ensures
        r@
            == "HTTP/1.1 200 OK\r\nContent-Type: text/html; charset=UTF-8\r\n\r\n<html><body>I am "@
            + out@ + "</br>Leader is "@ + leader@ + "</body></html>\r\n"@,
        r@ == page_text(out@, leader@),
{
    let mut page =
        "HTTP/1.1 200 OK\r\nContent-Type: text/html; charset=UTF-8\r\n\r\n<html><body>I am ".to_owned();
    page.append(out);
    page.append("</br>Leader is ");
    page.append(leader);
    page.append("</body></html>\r\n");
    page
}

/// What is said of the pair that was read back from the store, if there was one.
pub fn kv_report(first: Option<(&str, &str)>) -> (r: String)
    ensures
        r@ == (match first {
            Some((key, value)) => "got kv: {"@ + key@ + ": "@ + value@ + "}"@,
            None => "failed to get kv pair"@,
        }),
        first matches Some((key, value)) ==> r@ == pair_text(key@, value@),
{
    match first {
        Some((key, value)) => {
            let mut text = "got kv: {".to_owned();
            text.append(key);
            text.append(": ");
            text.append(value);
            text.append("}");
            text
        },
        None => "failed to get kv pair".to_owned(),
    }
}

/// `name` is what a node is called by the variable `out`.
pub open spec fn names_node(out: Option<String>, name: Seq<char>) -> bool {
    match out {
        Some(given) => name == given@,
        None => name == "unknown"@,
    }
}

/// A node is called by the variable where there is one, and is else unknown.
pub proof fn law_node_names(out: Option<String>, name: Seq<char>, other: Seq<char>)
    requires
        names_node(out, name),
    ensures
        out matches Some(given) ==> name == given@,
        out is None ==> name == "unknown"@,
        names_node(out, other) ==> other == name,
{
}

/// The page of the node `out`, for the leader `leader`.
pub open spec fn page_text(out: Seq<char>, leader: Seq<char>) -> Seq<char> {
    "HTTP/1.1 200 OK\r\nContent-Type: text/html; charset=UTF-8\r\n\r\n<html><body>I am "@ + out
        + "</br>Leader is "@ + leader + "</body></html>\r\n"@
}

/// The page tells the node and, behind it, the leader: pages of one node differ exactly where the leader
/// does, and pages for one leader where the node does.
pub proof fn law_page_tells_both(a: Seq<char>, b: Seq<char>, x: Seq<char>, y: Seq<char>)
    ensures
        page_text(a, x) == page_text(a, y) <==> x == y,
        page_text(a, x) == page_text(b, x) <==> a == b,
        exists|from: int, to: int|
            0 <= from <= from + a.len() <= to <= to + x.len() <= page_text(a, x).len()
                && #[trigger] page_text(a, x).subrange(from, from + a.len()) == a
                && #[trigger] page_text(a, x).subrange(to, to + x.len()) == x,
{
    let head =
        "HTTP/1.1 200 OK\r\nContent-Type: text/html; charset=UTF-8\r\n\r\n<html><body>I am "@;
    let mid = "</br>Leader is "@;
    let end = "</body></html>\r\n"@;
    let from = head.len() as int;
    let to = from + a.len() + mid.len();
    let page = page_text(a, x);
    assert(page =~= head + a + mid + x + end);
    assert(page.subrange(from, from + a.len()) =~= a);
    assert(page.subrange(to, to + x.len()) =~= x);
    if page == page_text(a, y) {
        let other = page_text(a, y);
        assert(other.len() == head.len() + a.len() + mid.len() + y.len() + end.len());
        assert(other.subrange(to, to + y.len()) =~= y);
    }
    if page == page_text(b, x) {
        let other = page_text(b, x);
        assert(other.len() == head.len() + b.len() + mid.len() + x.len() + end.len());
        assert(other.subrange(from, from + b.len()) =~= b);
    }
}

/// What is said of a pair.
pub open spec fn pair_text(key: Seq<char>, value: Seq<char>) -> Seq<char> {
    "got kv: {"@ + key + ": "@ + value + "}"@
}

/// What is said of a pair tells its key and, behind it, its value.
pub proof fn law_pair_tells_both(key: Seq<char>, value: Seq<char>)
    ensures
        exists|from: int, to: int|
            0 <= from <= from + key.len() <= to <= to + value.len() <= pair_text(key, value).len()
                && #[trigger] pair_text(key, value).subrange(from, from + key.len()) == key
                && #[trigger] pair_text(key, value).subrange(to, to + value.len()) == value,
{
    let head = "got kv: {"@;
    let from = head.len() as int;
    let to = from + key.len() + ": "@.len();
    let text = pair_text(key, value);
    assert(text.subrange(from, from + key.len()) =~= key);
    assert(text.subrange(to, to + value.len()) =~= value);
}

} // verus!
