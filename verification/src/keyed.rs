//! Lists of pairs with a row as the key, each key once, in an order that is part of the value.
use vstd::prelude::*;

use crate::row::{Row, RowView};

verus! {

/// Some pair has the key `k`.
pub open spec fn has_key<V>(s: Seq<(RowView, V)>, k: RowView) -> bool {
    exists|i: int| 0 <= i < s.len() && (#[trigger] s[i]).0 == k
}

/// The position of the pair with the key `k`.
pub open spec fn pos<V>(s: Seq<(RowView, V)>, k: RowView) -> int {
    choose|i: int| 0 <= i < s.len() && (#[trigger] s[i]).0 == k
}

/// The value under the key `k`.
pub open spec fn at<V>(s: Seq<(RowView, V)>, k: RowView) -> V {
    s[pos(s, k)].1
}

/// No key occurs twice.
pub open spec fn distinct<V>(s: Seq<(RowView, V)>) -> bool {
    forall|i: int, j: int|
        0 <= i < s.len() && 0 <= j < s.len() && (#[trigger] s[i]).0 == (#[trigger] s[j]).0 ==> i == j
}

/// `v` under the key `k`: in the place of an old value, or at the end.
pub open spec fn set_at<V>(s: Seq<(RowView, V)>, k: RowView, v: V) -> Seq<(RowView, V)> {
    if has_key(s, k) {
        s.update(pos(s, k), (k, v))
    } else {
        s.push((k, v))
    }
}

/// No pair with the key `k`.
pub open spec fn without<V>(s: Seq<(RowView, V)>, k: RowView) -> Seq<(RowView, V)> {
    if has_key(s, k) {
        s.remove(pos(s, k))
    } else {
        s
    }
}

/// `v` under the key `k`, at the end.
pub open spec fn put_last<V>(s: Seq<(RowView, V)>, k: RowView, v: V) -> Seq<(RowView, V)> {
    without(s, k).push((k, v))
}

/// Pairs put into a list one after the other.
pub open spec fn collected<V>(pairs: Seq<(RowView, V)>) -> Seq<(RowView, V)>
    decreases pairs.len(),
{
    if pairs.len() == 0 {
        Seq::empty()
    } else {
        set_at(collected(pairs.drop_last()), pairs.last().0, pairs.last().1)
    }
}

/// What is under each key, whatever the order.
pub open spec fn to_map<V>(s: Seq<(RowView, V)>) -> Map<RowView, V> {
    Map::new(|k: RowView| has_key(s, k), |k: RowView| at(s, k))
}

pub proof fn lemma_at_index<V>(s: Seq<(RowView, V)>, i: int)
    requires
        distinct(s),
        0 <= i < s.len(),
    ensures
        has_key(s, s[i].0),
        pos(s, s[i].0) == i,
        at(s, s[i].0) == s[i].1,
{
    let k = s[i].0;
    assert(has_key(s, k));
    let p = pos(s, k);
    assert(s[p].0 == s[i].0);
}

pub proof fn lemma_set_at<V>(s: Seq<(RowView, V)>, k: RowView, v: V)
    requires
        distinct(s),
    ensures
        distinct(set_at(s, k, v)),
        to_map(set_at(s, k, v)) == to_map(s).insert(k, v),
{
    let t = set_at(s, k, v);
    if has_key(s, k) {
        let p = pos(s, k);
        assert(s[p].0 == k);
        assert forall|i: int, j: int|
            0 <= i < t.len() && 0 <= j < t.len() && (#[trigger] t[i]).0 == (
            #[trigger] t[j]).0 implies i == j by {
            assert(t[i].0 == s[i].0);
            assert(t[j].0 == s[j].0);
        }
        assert(t[p].0 == k);
        assert forall|x: RowView| #[trigger] to_map(s).insert(k, v).contains_key(x) implies has_key(
            t,
            x,
        ) by {
            if x != k {
                let q = pos(s, x);
                assert(s[q].0 == x);
                assert(t[q].0 == x);
            }
        }
        lemma_same_map(t, to_map(s).insert(k, v));
    } else {
        assert forall|i: int, j: int|
            0 <= i < t.len() && 0 <= j < t.len() && (#[trigger] t[i]).0 == (
            #[trigger] t[j]).0 implies i == j by {
            if i < s.len() {
                assert(t[i] == s[i]);
            }
            if j < s.len() {
                assert(t[j] == s[j]);
            }
        }
        assert(t[t.len() - 1].0 == k);
        assert forall|x: RowView| #[trigger] to_map(s).insert(k, v).contains_key(x) implies has_key(
            t,
            x,
        ) by {
            if x != k {
                let q = pos(s, x);
                assert(s[q].0 == x);
                assert(t[q].0 == x);
            }
        }
        lemma_same_map(t, to_map(s).insert(k, v));
    }
}

/// A list stands for `m` where each of its pairs is one of `m` and each key of `m` is one of its.
proof fn lemma_same_map<V>(t: Seq<(RowView, V)>, m: Map<RowView, V>)
    requires
        distinct(t),
        forall|i: int|
            0 <= i < t.len() ==> m.contains_key((#[trigger] t[i]).0) && m[t[i].0] == t[i].1,
        forall|k: RowView| #[trigger] m.contains_key(k) ==> has_key(t, k),
    ensures
        to_map(t) == m,
{
    assert forall|k: RowView| #[trigger] to_map(t).contains_key(k) <==> m.contains_key(k) by {
        if has_key(t, k) {
            let p = pos(t, k);
            assert(t[p].0 == k);
        }
    }
    assert forall|k: RowView| to_map(t).contains_key(k) implies #[trigger] to_map(t)[k] == m[k] by {
        let p = pos(t, k);
        assert(t[p].0 == k);
    }
    assert(to_map(t) =~= m);
}

pub proof fn lemma_without<V>(s: Seq<(RowView, V)>, k: RowView)
    requires
        distinct(s),
    ensures
        distinct(without(s, k)),
        !has_key(without(s, k), k),
        to_map(without(s, k)) == to_map(s).remove(k),
{
    let t = without(s, k);
    if has_key(s, k) {
        let p = pos(s, k);
        assert(s[p].0 == k);
        assert forall|i: int| 0 <= i < t.len() implies #[trigger] t[i] == s[if i < p {
            i
        } else {
            i + 1
        }] by {}
        assert forall|i: int, j: int|
            0 <= i < t.len() && 0 <= j < t.len() && (#[trigger] t[i]).0 == (
            #[trigger] t[j]).0 implies i == j by {
            let a = if i < p { i } else { i + 1 };
            let b = if j < p { j } else { j + 1 };
            assert(s[a].0 == s[b].0);
        }
        assert forall|i: int| 0 <= i < t.len() implies (#[trigger] t[i]).0 != k by {
            let a = if i < p { i } else { i + 1 };
            assert(s[a].0 != s[p].0);
        }
        assert forall|i: int| 0 <= i < t.len() implies to_map(s).remove(k).contains_key(
            (#[trigger] t[i]).0,
        ) && to_map(s).remove(k)[t[i].0] == t[i].1 by {
            let a = if i < p { i } else { i + 1 };
            lemma_at_index(s, a);
        }
        assert forall|x: RowView| #[trigger] to_map(s).remove(k).contains_key(x) implies has_key(
            t,
            x,
        ) by {
            let q = pos(s, x);
            assert(s[q].0 == x);
            let b = if q < p { q } else { q - 1 };
            assert(t[b] == s[q]);
        }
        lemma_same_map(t, to_map(s).remove(k));
    } else {
        assert(to_map(s).remove(k) =~= to_map(s));
    }
}

pub proof fn lemma_push_new<V>(s: Seq<(RowView, V)>, k: RowView, v: V)
    requires
        distinct(s),
        !has_key(s, k),
    ensures
        distinct(s.push((k, v))),
        to_map(s.push((k, v))) == to_map(s).insert(k, v),
{
    lemma_set_at(s, k, v);
}

pub proof fn lemma_put_last<V>(s: Seq<(RowView, V)>, k: RowView, v: V)
    requires
        distinct(s),
    ensures
        distinct(put_last(s, k, v)),
        to_map(put_last(s, k, v)) == to_map(s).insert(k, v),
        has_key(put_last(s, k, v), k),
        at(put_last(s, k, v), k) == v,
        forall|x: RowView| x != k ==> has_key(put_last(s, k, v), x) == has_key(s, x),
        forall|x: RowView| x != k && has_key(s, x) ==> at(put_last(s, k, v), x) == at(s, x),
{
    lemma_without(s, k);
    lemma_push_new(without(s, k), k, v);
    let t = put_last(s, k, v);
    assert(to_map(s).remove(k).insert(k, v) =~= to_map(s).insert(k, v));
    assert(to_map(t).contains_key(k) && to_map(t)[k] == v);
    assert forall|x: RowView| x != k implies has_key(t, x) == has_key(s, x) by {
        assert(to_map(t).contains_key(x) == to_map(s).contains_key(x));
    }
    assert forall|x: RowView| x != k && has_key(s, x) implies at(t, x) == at(s, x) by {
        assert(to_map(t).contains_key(x));
        assert(to_map(t)[x] == to_map(s)[x]);
    }
}

pub proof fn lemma_distinct_prefix<V>(s: Seq<(RowView, V)>)
    requires
        distinct(s),
        s.len() > 0,
    ensures
        distinct(s.drop_last()),
        !has_key(s.drop_last(), s.last().0),
        to_map(s) == to_map(s.drop_last()).insert(s.last().0, s.last().1),
{
    let t = s.drop_last();
    assert forall|i: int, j: int|
        0 <= i < t.len() && 0 <= j < t.len() && (#[trigger] t[i]).0 == (
        #[trigger] t[j]).0 implies i == j by {
        assert(t[i] == s[i]);
        assert(t[j] == s[j]);
    }
    assert forall|i: int| 0 <= i < t.len() implies (#[trigger] t[i]).0 != s.last().0 by {
        assert(t[i] == s[i]);
        assert(s[i].0 != s[s.len() - 1].0);
    }
    lemma_push_new(t, s.last().0, s.last().1);
    assert(t.push((s.last().0, s.last().1)) =~= s);
}

pub proof fn lemma_to_map_finite<V>(s: Seq<(RowView, V)>)
    requires
        distinct(s),
    ensures
        to_map(s).dom().finite(),
        to_map(s).dom().len() == s.len(),
    decreases s.len(),
{
    if s.len() == 0 {
        assert(to_map(s).dom() =~= Set::empty());
    } else {
        lemma_distinct_prefix(s);
        lemma_to_map_finite(s.drop_last());
        assert(to_map(s).dom() =~= to_map(s.drop_last()).dom().insert(s.last().0));
    }
}

/// Pairs with different keys make up the list that they are put into.
pub proof fn law_collected<V>(pairs: Seq<(RowView, V)>)
    requires
        distinct(pairs),
    ensures
        collected(pairs) == pairs,
    decreases pairs.len(),
{
    if pairs.len() > 0 {
        lemma_distinct_prefix(pairs);
        law_collected(pairs.drop_last());
        assert(pairs.drop_last().push((pairs.last().0, pairs.last().1)) =~= pairs);
    }
}

/// A list of values under rows.
pub struct KeyedList<V> {
    pub items: Vec<(Row, V)>,
}

pub open spec fn pair_views<V: View>(pairs: Seq<(Row, V)>) -> Seq<(RowView, V::V)> {
    Seq::new(pairs.len(), |i: int| (pairs[i].0@, pairs[i].1@))
}

impl<V: View> View for KeyedList<V> {
    type V = Seq<(RowView, V::V)>;

    open spec fn view(&self) -> Seq<(RowView, V::V)> {
        Seq::new(self.items@.len(), |i: int| (self.items@[i].0@, self.items@[i].1@))
    }
}

impl<V: View> KeyedList<V> {
    pub fn new() -> (r: Self)
        ensures
            r@ == Seq::<(RowView, V::V)>::empty(),
            distinct(r@),
    {
        let r = KeyedList { items: Vec::new() };
        assert(r@ =~= Seq::<(RowView, V::V)>::empty());
        r
    }

    /// The list of `pairs`; of those with one key, the last one counts.
    pub fn from_pairs(pairs: Vec<(Row, V)>) -> (r: Self)
        ensures
            r@ == collected(pair_views(pairs@)),
            distinct(r@),
    {
        let ghost given = pairs@;
        let ghost all = pair_views(given);
        let mut r = KeyedList::new();
        for pair in it: pairs
            invariant
                it.seq() == given,
                all == pair_views(given),
                distinct(r@),
                r@ == collected(all.take(it.index() as int)),
        {
            proof {
                let i = it.index() as int;
                let next = all.take(i + 1);
                assert(next.drop_last() =~= all.take(i));
                assert(next.last() == all[i]);
            }
            let (key, value) = pair;
            r.insert(key, value);
        }
        assert(all.take(all.len() as int) =~= all);
        r
    }

    pub fn len(&self) -> (n: usize)
        ensures
            n == self@.len(),
    {
        self.items.len()
    }

    /// Where the key is, if it is there.
    pub fn find(&self, key: &Row) -> (r: Option<usize>)
        requires
            distinct(self@),
        ensures
            match r {
                Some(i) => i < self@.len() && has_key(self@, key@) && pos(self@, key@) == i
                    && self@[i as int].0 == key@,
                None => !has_key(self@, key@),
            },
    {
        let n: usize = self.items.len();
        let mut i: usize = 0;
        while i < n
            invariant
                i <= n,
                n == self.items@.len(),
                distinct(self@),
                forall|j: int| 0 <= j < i ==> (#[trigger] self@[j]).0 != key@,
            decreases n - i,
        {
            if self.items[i].0.same(key) {
                assert(self@[i as int].0 == key@);
                proof {
                    lemma_at_index(self@, i as int);
                }
                return Some(i);
            }
            assert(self@[i as int].0 != key@);
            i = i + 1;
        }
        None
    }

    /// Puts `value` under `key`, in the place of an old value or at the end.
    pub fn insert(&mut self, key: Row, value: V)
        requires
            distinct(old(self)@),
        ensures
            final(self)@ == set_at(old(self)@, key@, value@),
            distinct(final(self)@),
    {
        proof {
            lemma_set_at(self@, key@, value@);
        }
        match self.find(&key) {
            Some(i) => {
                self.items.set(i, (key, value));
                assert(self@ =~= set_at(old(self)@, key@, value@));
            },
            None => {
                self.items.push((key, value));
                assert(self@ =~= set_at(old(self)@, key@, value@));
            },
        }
    }

    /// Takes out the value under `key`.
    pub fn remove(&mut self, key: &Row) -> (r: Option<V>)
        requires
            distinct(old(self)@),
        ensures
            final(self)@ == without(old(self)@, key@),
            distinct(final(self)@),
            r is Some == has_key(old(self)@, key@),
            r is Some ==> r->0@ == at(old(self)@, key@),
    {
        proof {
            lemma_without(self@, key@);
        }
        match self.find(key) {
            Some(i) => {
                let (_key, value) = self.items.remove(i);
                assert(self@ =~= without(old(self)@, key@));
                Some(value)
            },
            None => None,
        }
    }
}

/// A value that is put under a key replaces the old one in its place, or comes last; all others stay
/// where they are.
pub proof fn law_put_in_place<V>(s: Seq<(RowView, V)>, k: RowView, v: V)
    requires
        distinct(s),
    ensures
        ({
            let t = set_at(s, k, v);
            let known = exists|i: int| 0 <= i < s.len() && (#[trigger] s[i]).0 == k;
            &&& t.len() == s.len() + (if known { 0int } else { 1 })
            &&& !known ==> t.last() == (k, v)
            &&& forall|i: int|
                0 <= i < s.len() ==> #[trigger] t[i] == (if s[i].0 == k { (k, v) } else { s[i] })
        }),
{
    if has_key(s, k) {
        let p = pos(s, k);
        assert(s[p].0 == k);
        assert forall|i: int| 0 <= i < s.len() implies #[trigger] set_at(s, k, v)[i] == (if s[i].0
            == k {
            (k, v)
        } else {
            s[i]
        }) by {
            if s[i].0 == k {
                assert(s[i].0 == s[p].0);
            }
        }
    }
}

/// What is under a key is taken out; all others stay, in their order.
pub proof fn law_taken_out<V>(s: Seq<(RowView, V)>, k: RowView)
    requires
        distinct(s),
    ensures
        without(s, k) == s.filter(|pair: (RowView, V)| pair.0 != k),
    decreases s.len(),
{
    reveal(Seq::filter);
    if s.len() > 0 {
        let less = s.drop_last();
        let last = s.last();
        lemma_distinct_prefix(s);
        law_taken_out(less, k);
        if last.0 == k {
            lemma_at_index(s, s.len() - 1);
            assert(without(s, k) =~= less);
            assert(without(less, k) == less);
        } else if has_key(s, k) {
            let p = pos(s, k);
            assert(s[p].0 == k);
            assert(less[p].0 == k);
            lemma_at_index(less, p);
            assert(without(s, k) =~= without(less, k).push(last));
        } else {
            assert(!has_key(less, k)) by {
                if has_key(less, k) {
                    let p = pos(less, k);
                    assert(s[p].0 == k);
                }
            }
            assert(s =~= less.push(last));
        }
    } else {
        assert(without(s, k) =~= s);
    }
}

/// What is put last under a key stands last, behind all others, in their order.
pub proof fn law_put_last<V>(s: Seq<(RowView, V)>, k: RowView, v: V)
    requires
        distinct(s),
    ensures
        put_last(s, k, v) == s.filter(|pair: (RowView, V)| pair.0 != k).push((k, v)),
{
    law_taken_out(s, k);
}

/// Of pairs with one key the last one counts.
pub proof fn law_last_pair_counts<V>(pairs: Seq<(RowView, V)>, i: int)
    requires
        0 <= i < pairs.len(),
        forall|j: int| i < j < pairs.len() ==> (#[trigger] pairs[j]).0 != pairs[i].0,
    ensures
        distinct(collected(pairs)),
        collected(pairs).contains(pairs[i]),
    decreases pairs.len(),
{
    let less = pairs.drop_last();
    let last = pairs.last();
    lemma_collected_distinct(pairs);
    lemma_collected_distinct(less);
    let before = collected(less);
    law_put_in_place(before, last.0, last.1);
    let t = collected(pairs);
    if i < less.len() {
        assert forall|j: int| i < j < less.len() implies (#[trigger] less[j]).0 != less[i].0 by {
            assert(less[j] == pairs[j]);
        }
        law_last_pair_counts(less, i);
        assert(pairs[pairs.len() - 1].0 != pairs[i].0);
        let k = choose|k: int| 0 <= k < before.len() && before[k] == pairs[i];
        assert(t[k] == pairs[i]);
    } else {
        if has_key(before, last.0) {
            let k = pos(before, last.0);
            assert(before[k].0 == last.0);
            assert(t[k] == last);
        } else {
            assert(t.last() == last);
            assert(t[t.len() - 1] == last);
        }
    }
}

proof fn lemma_collected_distinct<V>(pairs: Seq<(RowView, V)>)
    ensures
        distinct(collected(pairs)),
    decreases pairs.len(),
{
    if pairs.len() > 0 {
        lemma_collected_distinct(pairs.drop_last());
        lemma_set_at(collected(pairs.drop_last()), pairs.last().0, pairs.last().1);
    }
}

/// A list has its pairs in the order of its items, each with its key and its value.
pub proof fn law_pairs_of_list<V: View>(list: KeyedList<V>, i: int)
    requires
        0 <= i < list.items@.len(),
    ensures
        list@.len() == list.items@.len(),
        list@[i].0 == list.items@[i].0@,
        list@[i].1 == list.items@[i].1@,
        pair_views(list.items@) == list@,
{
    assert(pair_views(list.items@) =~= list@);
}

} // verus!
