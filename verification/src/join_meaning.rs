//! What the output of a join means, in terms of the rows of its two inputs alone.
use vstd::prelude::*;

use crate::JoinType;
use crate::SideType;
use crate::SideType::{Left, Right};
use crate::chunk::{Op, Record};
use crate::hash_join::{HashJoinExecutor, covered};
use crate::join_append::{
    Came, all_came, append_event, came_after, count_of_all, law_append_only_history, output_of_all,
};
use crate::join_history::{
    Event, Setup, World, after_events, changes_on, event_changes, event_keys_listed, held, law_history,
    lawful_event, lemma_rows_sized, lemma_taken_over_concat, output_count, sized,
};
use crate::join_laws::{
    Stores, all_taken_over, belong, count_at, each_once, plain, rows_at, stored, taken_over,
};
use crate::join_model::{
    Rows, join_count, lemma_sum_nonnegative, lemma_sum_remove, lemma_sum_zero,
    matched_alone, matches_of_matched, matches_of_update, net, one_if, pairs, pairs_with, sum,
    updates_alone,
};
use crate::join_run::{Condition, joined_row};
use crate::join_state::JoinRowView;
use crate::join_step::{EvalError, Rules};
use crate::row::{Row, RowView, project, row_has_null};
use crate::schema::DataType;

verus! {

/// As many nulls as columns.
pub open spec fn nulls(width: nat) -> RowView {
    Seq::new(width, |i: int| None::<Seq<u8>>)
}

/// A join of this type is neither a semi nor an anti join.
pub open spec fn joins_columns(join_type: u8) -> bool {
    &&& join_type != JoinType::LeftSemi
    &&& join_type != JoinType::LeftAnti
    &&& join_type != JoinType::RightSemi
    &&& join_type != JoinType::RightAnti
}

/// A join that is neither a semi nor an anti join evaluates its condition on the columns of the left
/// row followed by those of the right row, whichever side the change comes from, and that is the row
/// that it puts out for the two. A row that is put out alone has nulls in the columns of the other
/// side.
pub proof fn law_columns_side_by_side<
    F: Fn(&Row, &Vec<DataType>) -> Result<Vec<Option<bool>>, EvalError>,
    const T: u8,
>(executor: &HashJoinExecutor<F, T>, l: RowView, r: RowView)
    requires
        executor.well_formed(),
        joins_columns(T),
        l.len() == executor.side_l.col_types@.len(),
        r.len() == executor.side_r.col_types@.len(),
    ensures
        executor.output_data_types@.len() == l.len() + r.len(),
        ({
            let from_left = executor.rules::<Left>().layout;
            let from_right = executor.rules::<Right>().layout;
            &&& joined_row(from_left, l, r) == l + r
            &&& joined_row(from_right, r, l) == l + r
            &&& from_left.both(l, r) == l + r
            &&& from_right.both(r, l) == l + r
            &&& from_left.only_update(l) == l + nulls(r.len())
            &&& from_right.only_matched(l) == l + nulls(r.len())
            &&& from_left.only_matched(r) == nulls(l.len()) + r
            &&& from_right.only_update(r) == nulls(l.len()) + r
        }),
{
    let a = executor.rules::<Left>().layout;
    let b = executor.rules::<Right>().layout;
    assert(joined_row(a, l, r) =~= l + r);
    assert(joined_row(b, r, l) =~= l + r);
    assert(a.both(l, r) =~= l + r);
    assert(b.both(r, l) =~= l + r);
    assert(a.only_update(l) =~= l + nulls(r.len()));
    assert(b.only_matched(l) =~= l + nulls(r.len()));
    assert(a.only_matched(r) =~= nulls(l.len()) + r);
    assert(b.only_update(r) =~= nulls(l.len()) + r);
}

/// A semi or anti join puts out the rows of the side that it keeps as they are.
pub proof fn law_kept_rows_as_they_are<
    F: Fn(&Row, &Vec<DataType>) -> Result<Vec<Option<bool>>, EvalError>,
    const T: u8,
>(executor: &HashJoinExecutor<F, T>, l: RowView, r: RowView)
    requires
        executor.well_formed(),
        l.len() == executor.side_l.col_types@.len(),
        r.len() == executor.side_r.col_types@.len(),
    ensures
        T == JoinType::LeftSemi || T == JoinType::LeftAnti ==> {
            &&& executor.output_data_types@.len() == l.len()
            &&& executor.rules::<Left>().layout.only_update(l) == l
            &&& executor.rules::<Right>().layout.only_matched(l) == l
        },
        T == JoinType::RightSemi || T == JoinType::RightAnti ==> {
            &&& executor.output_data_types@.len() == r.len()
            &&& executor.rules::<Right>().layout.only_update(r) == r
            &&& executor.rules::<Left>().layout.only_matched(r) == r
        },
{
    let a = executor.rules::<Left>().layout;
    let b = executor.rules::<Right>().layout;
    if T == JoinType::LeftSemi || T == JoinType::LeftAnti {
        assert(a.only_update(l) =~= l);
        assert(b.only_matched(l) =~= l);
    }
    if T == JoinType::RightSemi || T == JoinType::RightAnti {
        assert(b.only_update(r) =~= r);
        assert(a.only_matched(r) =~= r);
    }
}

/// The columns `indices` of both rows hold the same values.
pub open spec fn agree(a: RowView, b: RowView, indices: Seq<usize>) -> bool {
    forall|i: int|
        0 <= i < indices.len() ==> a[#[trigger] indices[i] as int] == b[indices[i] as int]
}

/// Both rows have the same join key and the same primary key.
pub open spec fn same_place(a: RowView, b: RowView, keys: Seq<usize>, pks: Seq<usize>) -> bool {
    agree(a, b, keys) && agree(a, b, pks)
}

/// The change at `i` brings `row`, and no later one is about a row with the same join key and the same
/// primary key.
pub open spec fn brings_last(
    changes: Seq<Record>,
    keys: Seq<usize>,
    pks: Seq<usize>,
    row: RowView,
    i: int,
) -> bool {
    &&& changes[i].row == row
    &&& changes[i].op == Op::Insert || changes[i].op == Op::UpdateInsert
    &&& forall|j: int|
        i < j < changes.len() ==> !same_place((#[trigger] changes[j]).row, row, keys, pks)
}

/// `row` has come with one of `changes`, and no later one was about a row with the same join key and
/// the same primary key.
pub open spec fn stays(
    changes: Seq<Record>,
    keys: Seq<usize>,
    pks: Seq<usize>,
    row: RowView,
) -> bool {
    exists|i: int| 0 <= i < changes.len() && #[trigger] brings_last(changes, keys, pks, row, i)
}

proof fn lemma_agree(a: RowView, b: RowView, indices: Seq<usize>)
    ensures
        agree(a, b, indices) <==> project(a, indices) == project(b, indices),
{
    if agree(a, b, indices) {
        assert(project(a, indices) =~= project(b, indices));
    } else {
        let i = choose|i: int|
            0 <= i < indices.len() && a[#[trigger] indices[i] as int] != b[indices[i] as int];
        assert(project(a, indices)[i] != project(b, indices)[i]);
    }
}

proof fn lemma_brings_last(
    changes: Seq<Record>,
    keys: Seq<usize>,
    pks: Seq<usize>,
    row: RowView,
    i: int,
)
    requires
        0 <= i < changes.len() - 1,
    ensures
        brings_last(changes, keys, pks, row, i) == (brings_last(
            changes.drop_last(),
            keys,
            pks,
            row,
            i,
        ) && !same_place(changes.last().row, row, keys, pks)),
{
    let less = changes.drop_last();
    let n = changes.len() - 1;
    assert(changes[i] == less[i]);
    if brings_last(changes, keys, pks, row, i) {
        assert(!same_place(changes[n].row, row, keys, pks));
        assert forall|j: int| i < j < less.len() implies !same_place(
            (#[trigger] less[j]).row,
            row,
            keys,
            pks,
        ) by {
            assert(less[j] == changes[j]);
        }
    }
    if brings_last(less, keys, pks, row, i) && !same_place(changes.last().row, row, keys, pks) {
        assert forall|j: int| i < j < changes.len() implies !same_place(
            (#[trigger] changes[j]).row,
            row,
            keys,
            pks,
        ) by {
            if j < n {
                assert(less[j] == changes[j]);
            }
        }
    }
}

proof fn lemma_stays_push(
    changes: Seq<Record>,
    keys: Seq<usize>,
    pks: Seq<usize>,
    row: RowView,
)
    requires
        changes.len() > 0,
    ensures
        ({
            let last = changes.last();
            stays(changes, keys, pks, row) == (last.row == row && (last.op == Op::Insert || last.op
                == Op::UpdateInsert) || stays(changes.drop_last(), keys, pks, row) && !same_place(
                last.row,
                row,
                keys,
                pks,
            ))
        }),
{
    let less = changes.drop_last();
    let n = changes.len() - 1;
    let last = changes.last();
    if last.row == row && (last.op == Op::Insert || last.op == Op::UpdateInsert) {
        assert(brings_last(changes, keys, pks, row, n));
    }
    if stays(less, keys, pks, row) {
        let i = choose|i: int| 0 <= i < less.len() && #[trigger] brings_last(less, keys, pks, row, i);
        lemma_brings_last(changes, keys, pks, row, i);
    }
    if stays(changes, keys, pks, row) {
        let i = choose|i: int|
            0 <= i < changes.len() && #[trigger] brings_last(changes, keys, pks, row, i);
        if i < n {
            lemma_brings_last(changes, keys, pks, row, i);
        }
    }
}

/// What changes leave under a join key are the rows with that key that came and were not taken out or
/// replaced, each under its primary key.
pub proof fn law_taken_over(rules: Rules, key: RowView, changes: Seq<Record>, row: RowView)
    ensures
        ({
            let rows = all_taken_over(Map::empty(), rules, key, changes);
            let pk = project(row, rules.update_pks);
            &&& project(row, rules.update_keys) == key ==> (rows.contains_key(pk) && rows[pk] == row
                <==> stays(changes, rules.update_keys, rules.update_pks, row))
            &&& forall|a: RowView| #[trigger]
                rows.contains_key(a) ==> project(rows[a], rules.update_keys) == key && project(
                    rows[a],
                    rules.update_pks,
                ) == a
        }),
    decreases changes.len(),
{
    if changes.len() == 0 {
        assert(!stays(changes, rules.update_keys, rules.update_pks, row));
    } else {
        let less = changes.drop_last();
        let last = changes.last();
        law_taken_over(rules, key, less, row);
        lemma_stays_push(changes, rules.update_keys, rules.update_pks, row);
        lemma_agree(last.row, row, rules.update_keys);
        lemma_agree(last.row, row, rules.update_pks);
        let before = all_taken_over(Map::empty(), rules, key, less);
        let rows = all_taken_over(Map::empty(), rules, key, changes);
        assert(rows == taken_over(before, rules, key, last));
        let pk = project(row, rules.update_pks);
        if project(row, rules.update_keys) == key {
            if project(last.row, rules.update_keys) == key && project(last.row, rules.update_pks)
                == pk {
                assert(same_place(last.row, row, rules.update_keys, rules.update_pks));
                assert(last.row == row ==> same_place(
                    last.row,
                    row,
                    rules.update_keys,
                    rules.update_pks,
                ));
            } else {
                assert(!same_place(last.row, row, rules.update_keys, rules.update_pks));
                assert(last.row != row);
                assert(rows.contains_key(pk) == before.contains_key(pk));
            }
        }
    }
}

/// Where `f` is zero on all rows but one, it adds up to its value on that one.
proof fn lemma_sum_single(rows: Rows, f: spec_fn(JoinRowView) -> int, k: RowView)
    requires
        rows.dom().finite(),
        forall|x: RowView| #[trigger] rows.contains_key(x) && x != k ==> f(rows[x]) == 0,
    ensures
        sum(rows, f) == (if rows.contains_key(k) {
            f(rows[k])
        } else {
            0
        }),
{
    if rows.contains_key(k) {
        lemma_sum_remove(rows, f, k);
        let rest = rows.remove(k);
        assert forall|x: RowView| #[trigger] rest.contains_key(x) implies f(rest[x]) == 0 by {
            assert(rows.contains_key(x));
        }
        lemma_sum_zero(rest, f);
    } else {
        lemma_sum_zero(rows, f);
    }
}

/// What is nowhere negative adds up to more than zero exactly where it is positive somewhere.
proof fn lemma_sum_positive(rows: Rows, f: spec_fn(JoinRowView) -> int)
    requires
        rows.dom().finite(),
        forall|r: JoinRowView| #[trigger] f(r) >= 0,
    ensures
        sum(rows, f) > 0 <==> exists|k: RowView| #[trigger] rows.contains_key(k) && f(rows[k]) > 0,
{
    if exists|k: RowView| #[trigger] rows.contains_key(k) && f(rows[k]) > 0 {
        let k = choose|k: RowView| #[trigger] rows.contains_key(k) && f(rows[k]) > 0;
        lemma_sum_remove(rows, f, k);
        lemma_sum_nonnegative(rows.remove(k), f);
    } else {
        assert forall|k: RowView| #[trigger] rows.contains_key(k) implies f(rows[k]) == 0 by {
            assert(f(rows[k]) >= 0);
        }
        lemma_sum_zero(rows, f);
    }
}

/// The rows of a side by what they are: `side` says which rows there are.
pub type Side = spec_fn(RowView) -> bool;

/// The row that the condition of a join is evaluated on: the left columns followed by the right ones.
/// A semi or anti join has the columns of the right row in the place of the first ones of the left row,
/// and nulls behind.
pub open spec fn judged_row(setup: Setup, l: RowView, r: RowView) -> RowView {
    if joins_columns(setup.join_type) {
        l + r
    } else {
        Seq::new(
            (l.len() + r.len()) as nat,
            |i: int|
                if i < r.len() {
                    r[i]
                } else if i < l.len() {
                    l[i]
                } else {
                    None
                },
        )
    }
}

/// Two rows match: their join keys hold the same values, none of them null, and the condition is true.
pub open spec fn matching(setup: Setup, c: Condition, l: RowView, r: RowView) -> bool {
    &&& setup.left_keys.len() == setup.right_keys.len()
    &&& forall|i: int|
        0 <= i < setup.left_keys.len() ==> l[#[trigger] setup.left_keys[i] as int] is Some
            && l[setup.left_keys[i] as int] == r[setup.right_keys[i] as int]
    &&& c(judged_row(setup, l, r)) == Ok::<bool, Seq<char>>(true)
}

/// Some right row matches `l`.
pub open spec fn left_matched(setup: Setup, c: Condition, right: Side, l: RowView) -> bool {
    exists|r: RowView| #[trigger] right(r) && matching(setup, c, l, r)
}

/// Some left row matches `r`.
pub open spec fn right_matched(setup: Setup, c: Condition, left: Side, r: RowView) -> bool {
    exists|l: RowView| #[trigger] left(l) && matching(setup, c, l, r)
}

/// How often the join of two sides holds the row `o`.
///
/// A left semi join holds the left rows that some right row matches, a left anti join those that none
/// matches; a right one likewise. Any other join holds the left row and the right row side by side for
/// each two that match; a left outer join also holds each left row that none matches, with nulls on the
/// right; a right outer join each right row that none matches, with nulls on the left; a full outer
/// join both.
pub open spec fn meant(setup: Setup, c: Condition, left: Side, right: Side, o: RowView) -> int {
    let t = setup.join_type;
    if t == JoinType::LeftSemi {
        one_if(left(o) && left_matched(setup, c, right, o))
    } else if t == JoinType::LeftAnti {
        one_if(left(o) && !left_matched(setup, c, right, o))
    } else if t == JoinType::RightSemi {
        one_if(right(o) && right_matched(setup, c, left, o))
    } else if t == JoinType::RightAnti {
        one_if(right(o) && !right_matched(setup, c, left, o))
    } else {
        let l = o.take(setup.left_width as int);
        let r = o.skip(setup.left_width as int);
        if o.len() != setup.left_width + setup.right_width {
            0
        } else {
            one_if(left(l) && right(r) && matching(setup, c, l, r)) + one_if(
                (t == JoinType::LeftOuter || t == JoinType::FullOuter) && left(l) && r == nulls(
                    setup.right_width,
                ) && !left_matched(setup, c, right, l),
            ) + one_if(
                (t == JoinType::RightOuter || t == JoinType::FullOuter) && right(r) && l == nulls(
                    setup.left_width,
                ) && !right_matched(setup, c, left, r),
            )
        }
    }
}

/// The rows under one join key are those of `side` with that key, each under its primary key.
pub open spec fn stand_for(
    rows: Rows,
    side: Side,
    keys: Seq<usize>,
    pks: Seq<usize>,
    key: RowView,
) -> bool {
    &&& forall|a: RowView| #[trigger]
        rows.contains_key(a) ==> side(rows[a].row) && project(rows[a].row, keys) == key && project(
            rows[a].row,
            pks,
        ) == a
    &&& forall|row: RowView|
        #[trigger] side(row) && project(row, keys) == key ==> rows.contains_key(project(row, pks))
            && rows[project(row, pks)].row == row
}

/// Rows with one join key match exactly where they belong together.
proof fn lemma_matching(setup: Setup, c: Condition, key: RowView, l: RowView, r: RowView)
    requires
        l.len() == setup.left_width,
        r.len() == setup.right_width,
        project(l, setup.left_keys) == key,
    ensures
        matching(setup, c, l, r) <==> project(r, setup.right_keys) == key && belong(
            setup.layout(SideType::Left),
            key,
            c,
        )(l, r),
{
    let lay = setup.layout(SideType::Left);
    assert(joined_row(lay, l, r) =~= judged_row(setup, l, r));
    let pl = project(l, setup.left_keys);
    let pr = project(r, setup.right_keys);
    if matching(setup, c, l, r) {
        assert forall|i: int| 0 <= i < pl.len() implies #[trigger] pl[i] is Some && pl[i] == pr[i] by {
            assert(l[setup.left_keys[i] as int] is Some);
        }
        assert(pl =~= pr);
        assert(!row_has_null(key));
    }
    if pr == key && belong(lay, key, c)(l, r) {
        assert(pl.len() == pr.len());
        assert forall|i: int| 0 <= i < setup.left_keys.len() implies l[
        #[trigger] setup.left_keys[i] as int] is Some && l[setup.left_keys[i] as int]
            == r[setup.right_keys[i] as int] by {
            assert(pl[i] == pr[i]);
            if key[i] is None {
                assert(row_has_null(key));
            }
        }
    }
}

/// How often a left row has a match is how often a right row does, under one key.
proof fn lemma_matched(
    setup: Setup,
    c: Condition,
    key: RowView,
    lm: Rows,
    rm: Rows,
    left: Side,
    right: Side,
)
    requires
        sized(lm, setup.left_width),
        sized(rm, setup.right_width),
        stand_for(lm, left, setup.left_keys, setup.left_pks, key),
        stand_for(rm, right, setup.right_keys, setup.right_pks, key),
        sides_fit(setup, left, right),
    ensures
        ({
            let p = belong(setup.layout(SideType::Left), key, c);
            &&& forall|l: RowView|
                left(l) && project(l, setup.left_keys) == key ==> (#[trigger] matches_of_update(
                    p,
                    l,
                    rm,
                ) > 0 <==> left_matched(setup, c, right, l))
            &&& forall|r: RowView|
                right(r) && project(r, setup.right_keys) == key ==> (#[trigger] matches_of_matched(
                    p,
                    lm,
                    r,
                ) > 0 <==> right_matched(setup, c, left, r))
        }),
{
    let p = belong(setup.layout(SideType::Left), key, c);
    assert forall|l: RowView| left(l) && project(l, setup.left_keys) == key implies (
    #[trigger] matches_of_update(p, l, rm) > 0 <==> left_matched(setup, c, right, l)) by {
        let f = |m: JoinRowView| one_if(p(l, m.row));
        lemma_sum_positive(rm, f);
        if matches_of_update(p, l, rm) > 0 {
            let b = choose|b: RowView| #[trigger] rm.contains_key(b) && f(rm[b]) > 0;
            lemma_matching(setup, c, key, l, rm[b].row);
            assert(right(rm[b].row) && matching(setup, c, l, rm[b].row));
        }
        if left_matched(setup, c, right, l) {
            let r = choose|r: RowView| #[trigger] right(r) && matching(setup, c, l, r);
            lemma_matching(setup, c, key, l, r);
            let b = project(r, setup.right_pks);
            assert(rm.contains_key(b) && f(rm[b]) > 0);
        }
    }
    assert forall|r: RowView| right(r) && project(r, setup.right_keys) == key implies (
    #[trigger] matches_of_matched(p, lm, r) > 0 <==> right_matched(setup, c, left, r)) by {
        let f = |u: JoinRowView| one_if(p(u.row, r));
        lemma_sum_positive(lm, f);
        if matches_of_matched(p, lm, r) > 0 {
            let a = choose|a: RowView| #[trigger] lm.contains_key(a) && f(lm[a]) > 0;
            lemma_matching(setup, c, key, lm[a].row, r);
            assert(left(lm[a].row) && matching(setup, c, lm[a].row, r));
        }
        if right_matched(setup, c, left, r) {
            let l = choose|l: RowView| #[trigger] left(l) && matching(setup, c, l, r);
            lemma_matching(setup, c, project(l, setup.left_keys), l, r);
            lemma_matching(setup, c, key, l, r);
            let a = project(l, setup.left_pks);
            assert(lm.contains_key(a) && f(lm[a]) > 0);
        }
    }
}

/// The rows have the columns of their sides.
pub open spec fn sides_fit(setup: Setup, left: Side, right: Side) -> bool {
    &&& forall|l: RowView| #[trigger] left(l) ==> l.len() == setup.left_width
    &&& forall|r: RowView| #[trigger] right(r) ==> r.len() == setup.right_width
}

/// How often `o` is a left row alone, under one key, where `o` is `l` alone if `fits` says so.
proof fn lemma_left_alone(
    setup: Setup,
    c: Condition,
    key: RowView,
    lm: Rows,
    rm: Rows,
    left: Side,
    right: Side,
    hit: bool,
    o: RowView,
    l: RowView,
    fits: bool,
)
    requires
        sized(lm, setup.left_width),
        sized(rm, setup.right_width),
        stand_for(lm, left, setup.left_keys, setup.left_pks, key),
        stand_for(rm, right, setup.right_keys, setup.right_pks, key),
        sides_fit(setup, left, right),
        forall|u: RowView|
            u.len() == setup.left_width ==> (#[trigger] setup.layout(SideType::Left).only_update(u)
                == o <==> u == l && fits),
    ensures
        updates_alone(
            setup.layout(SideType::Left),
            belong(setup.layout(SideType::Left), key, c),
            lm,
            rm,
            hit,
            o,
        ) == one_if(
            fits && left(l) && project(l, setup.left_keys) == key && left_matched(setup, c, right, l)
                == hit,
        ),
{
    let lay = setup.layout(SideType::Left);
    let p = belong(lay, key, c);
    let f = |u: JoinRowView|
        one_if((matches_of_update(p, u.row, rm) > 0) == hit && lay.only_update(u.row) == o);
    let pk = project(l, setup.left_pks);
    assert forall|x: RowView| #[trigger] lm.contains_key(x) && x != pk implies f(lm[x]) == 0 by {
        if lay.only_update(lm[x].row) == o {
            assert(lm[x].row == l);
        }
    }
    lemma_sum_single(lm, f, pk);
    lemma_matched(setup, c, key, lm, rm, left, right);
    if lm.contains_key(pk) {
        let row = lm[pk].row;
        assert(lay.only_update(row) == o <==> row == l && fits);
        assert(left(row));
        assert(matches_of_update(p, row, rm) > 0 <==> left_matched(setup, c, right, row));
    }
}

/// How often `o` is a right row alone, under one key, where `o` is `r` alone if `fits` says so.
proof fn lemma_right_alone(
    setup: Setup,
    c: Condition,
    key: RowView,
    lm: Rows,
    rm: Rows,
    left: Side,
    right: Side,
    hit: bool,
    o: RowView,
    r: RowView,
    fits: bool,
)
    requires
        sized(lm, setup.left_width),
        sized(rm, setup.right_width),
        stand_for(lm, left, setup.left_keys, setup.left_pks, key),
        stand_for(rm, right, setup.right_keys, setup.right_pks, key),
        sides_fit(setup, left, right),
        forall|m: RowView|
            m.len() == setup.right_width ==> (#[trigger] setup.layout(SideType::Left).only_matched(
                m,
            ) == o <==> m == r && fits),
    ensures
        matched_alone(
            setup.layout(SideType::Left),
            belong(setup.layout(SideType::Left), key, c),
            lm,
            rm,
            hit,
            o,
        ) == one_if(
            fits && right(r) && project(r, setup.right_keys) == key && right_matched(
                setup,
                c,
                left,
                r,
            ) == hit,
        ),
{
    let lay = setup.layout(SideType::Left);
    let p = belong(lay, key, c);
    let f = |m: JoinRowView|
        one_if((matches_of_matched(p, lm, m.row) > 0) == hit && lay.only_matched(m.row) == o);
    let pk = project(r, setup.right_pks);
    assert forall|x: RowView| #[trigger] rm.contains_key(x) && x != pk implies f(rm[x]) == 0 by {
        if lay.only_matched(rm[x].row) == o {
            assert(rm[x].row == r);
        }
    }
    lemma_sum_single(rm, f, pk);
    lemma_matched(setup, c, key, lm, rm, left, right);
    if rm.contains_key(pk) {
        let row = rm[pk].row;
        assert(lay.only_matched(row) == o <==> row == r && fits);
        assert(right(row));
        assert(matches_of_matched(p, lm, row) > 0 <==> right_matched(setup, c, left, row));
    }
}

/// How often `o` is a left and a right row side by side, under one key.
proof fn lemma_side_by_side(
    setup: Setup,
    c: Condition,
    key: RowView,
    lm: Rows,
    rm: Rows,
    left: Side,
    right: Side,
    o: RowView,
)
    requires
        joins_columns(setup.join_type),
        sized(lm, setup.left_width),
        sized(rm, setup.right_width),
        stand_for(lm, left, setup.left_keys, setup.left_pks, key),
        stand_for(rm, right, setup.right_keys, setup.right_pks, key),
        sides_fit(setup, left, right),
    ensures
        ({
            let l = o.take(setup.left_width as int);
            let r = o.skip(setup.left_width as int);
            pairs(
                setup.layout(SideType::Left),
                belong(setup.layout(SideType::Left), key, c),
                lm,
                rm,
                o,
            ) == one_if(
                o.len() == setup.left_width + setup.right_width && project(l, setup.left_keys) == key
                    && left(l) && right(r) && matching(setup, c, l, r),
            )
        }),
{
    let lay = setup.layout(SideType::Left);
    let p = belong(lay, key, c);
    let lw = setup.left_width as int;
    let l = o.take(lw);
    let r = o.skip(lw);
    let fits = o.len() == setup.left_width + setup.right_width;
    let a = project(l, setup.left_pks);
    let b = project(r, setup.right_pks);
    assert forall|u: RowView, m: RowView|
        u.len() == setup.left_width && m.len() == setup.right_width implies (#[trigger] lay.both(u, m)
        == o <==> fits && u == l && m == r) by {
        assert(lay.both(u, m) =~= u + m);
        if u + m == o {
            assert((u + m).take(lw) =~= u);
            assert((u + m).skip(lw) =~= m);
        }
        if fits && u == l && m == r {
            assert(u + m =~= o);
        }
    }
    let f = |u: JoinRowView| pairs_with(lay, p, u.row, rm, o);
    assert forall|x: RowView| #[trigger] lm.contains_key(x) implies f(lm[x]) == one_if(
        fits && lm[x].row == l && rm.contains_key(b) && rm[b].row == r && p(l, r),
    ) by {
        let u = lm[x].row;
        let g = |m: JoinRowView| one_if(p(u, m.row) && lay.both(u, m.row) == o);
        assert forall|y: RowView| #[trigger] rm.contains_key(y) && y != b implies g(rm[y]) == 0 by {
            assert(lay.both(u, rm[y].row) == o <==> fits && u == l && rm[y].row == r);
        }
        lemma_sum_single(rm, g, b);
        if rm.contains_key(b) {
            assert(lay.both(u, rm[b].row) == o <==> fits && u == l && rm[b].row == r);
        }
    }
    assert forall|x: RowView| #[trigger] lm.contains_key(x) && x != a implies f(lm[x]) == 0 by {}
    lemma_sum_single(lm, f, a);
    if fits && project(l, setup.left_keys) == key {
        lemma_matching(setup, c, key, l, r);
    }
    if lm.contains_key(a) && lm[a].row == l {
        assert(left(l));
    }
    if rm.contains_key(b) && rm[b].row == r {
        assert(right(r));
    }
}

/// The join key of the left row that `o` would come from.
pub open spec fn left_key_in(setup: Setup, o: RowView) -> RowView {
    if joins_columns(setup.join_type) {
        project(o.take(setup.left_width as int), setup.left_keys)
    } else {
        project(o, setup.left_keys)
    }
}

/// The join key of the right row that `o` would come from.
pub open spec fn right_key_in(setup: Setup, o: RowView) -> RowView {
    if joins_columns(setup.join_type) {
        project(o.skip(setup.left_width as int), setup.right_keys)
    } else {
        project(o, setup.right_keys)
    }
}

/// How often `o` comes from a left row, alone or with a right one.
spec fn meant_of_left(setup: Setup, c: Condition, left: Side, right: Side, o: RowView) -> int {
    let t = setup.join_type;
    let l = o.take(setup.left_width as int);
    let r = o.skip(setup.left_width as int);
    if t == JoinType::LeftSemi {
        one_if(left(o) && left_matched(setup, c, right, o))
    } else if t == JoinType::LeftAnti {
        one_if(left(o) && !left_matched(setup, c, right, o))
    } else if !joins_columns(t) || o.len() != setup.left_width + setup.right_width {
        0
    } else {
        one_if(left(l) && right(r) && matching(setup, c, l, r)) + one_if(
            (t == JoinType::LeftOuter || t == JoinType::FullOuter) && left(l) && r == nulls(
                setup.right_width,
            ) && !left_matched(setup, c, right, l),
        )
    }
}

/// How often `o` comes from a right row alone.
spec fn meant_of_right(setup: Setup, c: Condition, left: Side, right: Side, o: RowView) -> int {
    let t = setup.join_type;
    let l = o.take(setup.left_width as int);
    let r = o.skip(setup.left_width as int);
    if t == JoinType::RightSemi {
        one_if(right(o) && right_matched(setup, c, left, o))
    } else if t == JoinType::RightAnti {
        one_if(right(o) && !right_matched(setup, c, left, o))
    } else if !joins_columns(t) || o.len() != setup.left_width + setup.right_width {
        0
    } else {
        one_if(
            (t == JoinType::RightOuter || t == JoinType::FullOuter) && right(r) && l == nulls(
                setup.left_width,
            ) && !right_matched(setup, c, left, r),
        )
    }
}

/// How often `o` comes from rows with one join key.
proof fn lemma_meant_at(
    setup: Setup,
    c: Condition,
    key: RowView,
    lm: Rows,
    rm: Rows,
    left: Side,
    right: Side,
    o: RowView,
)
    requires
        sized(lm, setup.left_width),
        sized(rm, setup.right_width),
        stand_for(lm, left, setup.left_keys, setup.left_pks, key),
        stand_for(rm, right, setup.right_keys, setup.right_pks, key),
        sides_fit(setup, left, right),
    ensures
        join_count(
            setup.layout(SideType::Left),
            belong(setup.layout(SideType::Left), key, c),
            lm,
            rm,
            o,
        ) == (if left_key_in(setup, o) == key {
            meant_of_left(setup, c, left, right, o)
        } else {
            0
        }) + (if right_key_in(setup, o) == key {
            meant_of_right(setup, c, left, right, o)
        } else {
            0
        }),
{
    let lay = setup.layout(SideType::Left);
    let t = setup.join_type;
    let lw = setup.left_width as int;
    if t == JoinType::LeftSemi || t == JoinType::LeftAnti {
        assert forall|u: RowView| u.len() == setup.left_width implies (#[trigger] lay.only_update(u)
            == o <==> u == o && true) by {
            assert(lay.only_update(u) =~= u);
        }
        let hit = t == JoinType::LeftSemi;
        lemma_left_alone(setup, c, key, lm, rm, left, right, hit, o, o, true);
    } else if t == JoinType::RightSemi || t == JoinType::RightAnti {
        assert forall|m: RowView| m.len() == setup.right_width implies (#[trigger] lay.only_matched(m)
            == o <==> m == o && true) by {
            assert(lay.only_matched(m) =~= m);
        }
        let hit = t == JoinType::RightSemi;
        lemma_right_alone(setup, c, key, lm, rm, left, right, hit, o, o, true);
    } else {
        let l = o.take(lw);
        let r = o.skip(lw);
        let fits = o.len() == setup.left_width + setup.right_width;
        lemma_side_by_side(setup, c, key, lm, rm, left, right, o);
        assert forall|u: RowView| u.len() == setup.left_width implies (#[trigger] lay.only_update(u)
            == o <==> u == l && (fits && r == nulls(setup.right_width))) by {
            assert(lay.only_update(u) =~= u + nulls(setup.right_width));
            if u + nulls(setup.right_width) == o {
                assert(o.take(lw) =~= u);
                assert(o.skip(lw) =~= nulls(setup.right_width));
            }
            if u == l && fits && r == nulls(setup.right_width) {
                assert(u + nulls(setup.right_width) =~= o);
            }
        }
        lemma_left_alone(
            setup,
            c,
            key,
            lm,
            rm,
            left,
            right,
            false,
            o,
            l,
            fits && r == nulls(setup.right_width),
        );
        assert forall|m: RowView| m.len() == setup.right_width implies (#[trigger] lay.only_matched(m)
            == o <==> m == r && (fits && l == nulls(setup.left_width))) by {
            assert(lay.only_matched(m) =~= nulls(setup.left_width) + m);
            if nulls(setup.left_width) + m == o {
                assert(o.take(lw) =~= nulls(setup.left_width));
                assert(o.skip(lw) =~= m);
            }
            if m == r && fits && l == nulls(setup.left_width) {
                assert(nulls(setup.left_width) + m =~= o);
            }
        }
        lemma_right_alone(
            setup,
            c,
            key,
            lm,
            rm,
            left,
            right,
            false,
            o,
            r,
            fits && l == nulls(setup.left_width),
        );
    }
}

/// What two keys contribute adds up over all keys.
proof fn lemma_total_meant(
    setup: Setup,
    world: World,
    c: Condition,
    keys: Seq<RowView>,
    o: RowView,
    x: int,
    y: int,
)
    requires
        each_once(keys),
        forall|key: RowView| #[trigger]
            count_at(
                setup.layout(SideType::Left),
                world.state(SideType::Left),
                world.stores(SideType::Left),
                c,
                key,
                o,
            ) == (if left_key_in(setup, o) == key {
                x
            } else {
                0
            }) + (if right_key_in(setup, o) == key {
                y
            } else {
                0
            }),
    ensures
        output_count(setup, world, c, keys, o) == (if keys.contains(left_key_in(setup, o)) {
            x
        } else {
            0
        }) + (if keys.contains(right_key_in(setup, o)) {
            y
        } else {
            0
        }),
    decreases keys.len(),
{
    if keys.len() > 0 {
        let rest = keys.drop_last();
        assert forall|i: int, j: int|
            0 <= i < rest.len() && 0 <= j < rest.len() && #[trigger] rest[i]
                == #[trigger] rest[j] implies i == j by {
            assert(keys[i] == rest[i] && keys[j] == rest[j]);
        }
        lemma_total_meant(setup, world, c, rest, o, x, y);
        lemma_contains_last(keys, left_key_in(setup, o));
        lemma_contains_last(keys, right_key_in(setup, o));
    }
}

pub proof fn lemma_contains_last(keys: Seq<RowView>, key: RowView)
    requires
        each_once(keys),
        keys.len() > 0,
    ensures
        keys.contains(key) == (keys.drop_last().contains(key) || keys.last() == key),
        keys.last() == key ==> !keys.drop_last().contains(key),
{
    let rest = keys.drop_last();
    let n = keys.len() - 1;
    if rest.contains(key) {
        let i = choose|i: int| 0 <= i < rest.len() && rest[i] == key;
        assert(keys[i] == key);
        if keys.last() == key {
            assert(keys[n] == keys[i]);
        }
    }
    if keys.last() == key {
        assert(keys[n] == key);
    }
    if keys.contains(key) && keys.last() != key {
        let i = choose|i: int| 0 <= i < keys.len() && keys[i] == key;
        assert(rest[i] == key);
    }
}

/// The columns of a side that make up its join key.
pub open spec fn key_columns(setup: Setup, side: u8) -> Seq<usize> {
    if side == SideType::Left {
        setup.left_keys
    } else {
        setup.right_keys
    }
}

/// The number of columns of a side.
pub open spec fn width_of(setup: Setup, side: u8) -> nat {
    if side == SideType::Left {
        setup.left_width
    } else {
        setup.right_width
    }
}

/// Each change of an event has the columns of its side, and its join key is one of `keys`.
pub open spec fn changes_fit(setup: Setup, event: Event, keys: Seq<RowView>) -> bool {
    match event {
        Event::Changes { side, changes } => forall|i: int|
            0 <= i < changes.len() ==> (#[trigger] changes[i]).row.len() == width_of(setup, side)
                && keys.contains(project(changes[i].row, key_columns(setup, side))),
        _ => true,
    }
}

/// The changes of all events have the columns of their side, and their join keys are among `keys`.
pub proof fn lemma_changes_on_fit(setup: Setup, events: Seq<Event>, keys: Seq<RowView>, side: u8)
    requires
        side <= 1,
        forall|i: int| 0 <= i < events.len() ==> changes_fit(setup, #[trigger] events[i], keys),
    ensures
        forall|i: int|
            0 <= i < changes_on(events, side).len() ==> (#[trigger] changes_on(
                events,
                side,
            )[i]).row.len() == width_of(setup, side) && keys.contains(
                project(changes_on(events, side)[i].row, key_columns(setup, side)),
            ),
    decreases events.len(),
{
    if events.len() > 0 {
        let less = events.drop_last();
        assert forall|i: int| 0 <= i < less.len() implies changes_fit(setup, #[trigger] less[i], keys) by {
            assert(less[i] == events[i]);
        }
        lemma_changes_on_fit(setup, less, keys, side);
        let before = changes_on(less, side);
        let more = event_changes(events.last(), side);
        let all = changes_on(events, side);
        assert(changes_fit(setup, events[events.len() - 1], keys));
        assert forall|i: int| 0 <= i < all.len() implies (#[trigger] all[i]).row.len() == width_of(
            setup,
            side,
        ) && keys.contains(project(all[i].row, key_columns(setup, side))) by {
            if i < before.len() {
                assert(all[i] == before[i]);
            } else {
                assert(all[i] == more[i - before.len()]);
            }
        }
    }
}

/// The rows that came on a side and were not removed.
pub open spec fn rows_left_by(changes: Seq<Record>, keys: Seq<usize>, pks: Seq<usize>) -> Side {
    |row: RowView| stays(changes, keys, pks, row)
}

/// How often `o` is put into the output, less how often it is taken out.
pub open spec fn occurs(records: Seq<Record>, o: RowView) -> int {
    records.filter(
        |r: Record| r.row == o && (r.op == Op::Insert || r.op == Op::UpdateInsert),
    ).len() - records.filter(
        |r: Record| r.row == o && (r.op == Op::Delete || r.op == Op::UpdateDelete),
    ).len()
}

pub proof fn lemma_occurs(records: Seq<Record>, o: RowView)
    ensures
        occurs(records, o) == net(records, o),
    decreases records.len(),
{
    reveal(Seq::filter);
    if records.len() > 0 {
        lemma_occurs(records.drop_last(), o);
    }
}

/// The rows of a side stand for those that came and were not removed.
proof fn lemma_stand_for(rows: Rows, rules: Rules, key: RowView, changes: Seq<Record>)
    requires
        plain(rows) == all_taken_over(Map::empty(), rules, key, changes),
    ensures
        stand_for(
            rows,
            rows_left_by(changes, rules.update_keys, rules.update_pks),
            rules.update_keys,
            rules.update_pks,
            key,
        ),
{
    let keys = rules.update_keys;
    let pks = rules.update_pks;
    let there = rows_left_by(changes, keys, pks);
    assert forall|a: RowView| #[trigger] rows.contains_key(a) implies there(rows[a].row) && project(
        rows[a].row,
        keys,
    ) == key && project(rows[a].row, pks) == a by {
        assert(plain(rows).contains_key(a) && plain(rows)[a] == rows[a].row);
        law_taken_over(rules, key, changes, rows[a].row);
    }
    assert forall|row: RowView| #[trigger] there(row) && project(row, keys)
        == key implies rows.contains_key(project(row, pks)) && rows[project(row, pks)].row == row by {
        law_taken_over(rules, key, changes, row);
        assert(plain(rows).contains_key(project(row, pks)));
    }
}

/// From nothing on, whatever happens: the changes that a join has put out hold each row as often as the
/// join of the left rows and the right rows that came and were not removed.
pub proof fn law_output_is_join(
    setup: Setup,
    c: Condition,
    events: Seq<Event>,
    keys: Seq<RowView>,
    o: RowView,
)
    requires
        !setup.append_only,
        setup.symmetric(c),
        forall|i: int|
            0 <= i < events.len() ==> lawful_event(
                setup,
                after_events(setup, World::empty(), c, #[trigger] events.take(i)).0,
                c,
                events[i],
            ),
        each_once(keys),
        forall|i: int|
            0 <= i < events.len() ==> event_keys_listed(setup, #[trigger] events[i], keys),
    ensures
        occurs(after_events(setup, World::empty(), c, events).1, o) == meant(
            setup,
            c,
            rows_left_by(changes_on(events, SideType::Left), setup.left_keys, setup.left_pks),
            rows_left_by(changes_on(events, SideType::Right), setup.right_keys, setup.right_pks),
            o,
        ),
{
    let (after, records) = after_events(setup, World::empty(), c, events);
    law_history(setup, c, events, keys, o);
    lemma_occurs(records, o);
    let changes_l = changes_on(events, SideType::Left);
    let changes_r = changes_on(events, SideType::Right);
    let left = rows_left_by(changes_l, setup.left_keys, setup.left_pks);
    let right = rows_left_by(changes_r, setup.right_keys, setup.right_pks);
    assert forall|i: int| 0 <= i < events.len() implies changes_fit(setup, #[trigger] events[i], keys) by {
        assert(lawful_event(
            setup,
            after_events(setup, World::empty(), c, events.take(i)).0,
            c,
            events[i],
        ));
        assert(event_keys_listed(setup, events[i], keys));
    }
    lemma_changes_on_fit(setup, events, keys, SideType::Left);
    lemma_changes_on_fit(setup, events, keys, SideType::Right);
    lemma_sides_listed(setup, changes_l, changes_r, keys);
    let x = meant_of_left(setup, c, left, right, o);
    let y = meant_of_right(setup, c, left, right, o);
    let lay = setup.layout(SideType::Left);
    let state = after.state(SideType::Left);
    let stores = after.stores(SideType::Left);
    assert forall|key: RowView| #[trigger] count_at(lay, state, stores, c, key, o) == (
    if left_key_in(setup, o) == key {
        x
    } else {
        0
    }) + (if right_key_in(setup, o) == key {
        y
    } else {
        0
    }) by {
        assert(held(after, SideType::Left, key) == all_taken_over(
            Map::empty(),
            setup.rules(SideType::Left),
            key,
            changes_l,
        ));
        assert(held(after, SideType::Right, key) == all_taken_over(
            Map::empty(),
            setup.rules(SideType::Right),
            key,
            changes_r,
        ));
        lemma_stand_for(
            rows_at(after.left, after.left_store, key),
            setup.rules(SideType::Left),
            key,
            changes_l,
        );
        lemma_stand_for(
            rows_at(after.right, after.right_store, key),
            setup.rules(SideType::Right),
            key,
            changes_r,
        );
        lemma_rows_sized(after.left, after.left_store, setup.left_width, key);
        lemma_rows_sized(after.right, after.right_store, setup.right_width, key);
        lemma_meant_at(
            setup,
            c,
            key,
            rows_at(after.left, after.left_store, key),
            rows_at(after.right, after.right_store, key),
            left,
            right,
            o,
        );
    }
    lemma_total_meant(setup, after, c, keys, o, x, y);
}

/// The rows of both sides have the columns of their sides, and their join keys are among `keys`.
proof fn lemma_sides_listed(
    setup: Setup,
    changes_l: Seq<Record>,
    changes_r: Seq<Record>,
    keys: Seq<RowView>,
)
    requires
        forall|i: int|
            0 <= i < changes_l.len() ==> (#[trigger] changes_l[i]).row.len() == setup.left_width
                && keys.contains(project(changes_l[i].row, setup.left_keys)),
        forall|i: int|
            0 <= i < changes_r.len() ==> (#[trigger] changes_r[i]).row.len() == setup.right_width
                && keys.contains(project(changes_r[i].row, setup.right_keys)),
    ensures
        ({
            let left = rows_left_by(changes_l, setup.left_keys, setup.left_pks);
            let right = rows_left_by(changes_r, setup.right_keys, setup.right_pks);
            &&& sides_fit(setup, left, right)
            &&& forall|l: RowView| #[trigger]
                left(l) ==> keys.contains(project(l, setup.left_keys))
            &&& forall|r: RowView| #[trigger]
                right(r) ==> keys.contains(project(r, setup.right_keys))
        }),
{
    let left = rows_left_by(changes_l, setup.left_keys, setup.left_pks);
    let right = rows_left_by(changes_r, setup.right_keys, setup.right_pks);
    assert forall|l: RowView| #[trigger] left(l) implies l.len() == setup.left_width && keys.contains(
        project(l, setup.left_keys),
    ) by {
        let i = choose|i: int|
            0 <= i < changes_l.len() && #[trigger] brings_last(
                changes_l,
                setup.left_keys,
                setup.left_pks,
                l,
                i,
            );
        assert(changes_l[i].row == l);
    }
    assert forall|r: RowView| #[trigger] right(r) implies r.len() == setup.right_width
        && keys.contains(project(r, setup.right_keys)) by {
        let i = choose|i: int|
            0 <= i < changes_r.len() && #[trigger] brings_last(
                changes_r,
                setup.right_keys,
                setup.right_pks,
                r,
                i,
            );
        assert(changes_r[i].row == r);
    }
}

/// New rows are taken over as they come.
proof fn lemma_all_came(rules: Rules, came: Stores, changes: Seq<Record>, key: RowView)
    requires
        forall|i: int| 0 <= i < changes.len() ==> (#[trigger] changes[i]).op.adds(),
    ensures
        plain(stored(all_came(rules, came, changes).update, key)) == all_taken_over(
            plain(stored(came.update, key)),
            rules,
            key,
            changes,
        ),
        all_came(rules, came, changes).matched == came.matched,
    decreases changes.len(),
{
    if changes.len() > 0 {
        let less = changes.drop_last();
        assert forall|i: int| 0 <= i < less.len() implies (#[trigger] less[i]).op.adds() by {
            assert(less[i] == changes[i]);
        }
        lemma_all_came(rules, came, less, key);
        let last = changes.last();
        assert(changes[changes.len() - 1].op.adds());
        let before = stored(all_came(rules, came, less).update, key);
        let now = stored(all_came(rules, came, changes).update, key);
        assert(plain(now) =~= taken_over(plain(before), rules, key, last));
    }
}

/// All rows that came are what their changes leave.
proof fn lemma_came_after(setup: Setup, c: Condition, events: Seq<Event>, key: RowView)
    requires
        forall|i: int|
            0 <= i < events.len() ==> append_event(
                setup,
                after_events(setup, World::empty(), c, #[trigger] events.take(i)).0,
                came_after(setup, events.take(i)),
                c,
                events[i],
            ),
    ensures
        plain(stored(came_after(setup, events).left, key)) == all_taken_over(
            Map::empty(),
            setup.rules(SideType::Left),
            key,
            changes_on(events, SideType::Left),
        ),
        plain(stored(came_after(setup, events).right, key)) == all_taken_over(
            Map::empty(),
            setup.rules(SideType::Right),
            key,
            changes_on(events, SideType::Right),
        ),
    decreases events.len(),
{
    if events.len() == 0 {
        assert(plain(stored(came_after(setup, events).left, key)) =~= Map::empty());
        assert(plain(stored(came_after(setup, events).right, key)) =~= Map::empty());
    } else {
        let n = events.len() - 1;
        let less = events.drop_last();
        assert(events.take(n) =~= less);
        assert forall|i: int| 0 <= i < less.len() implies append_event(
            setup,
            after_events(setup, World::empty(), c, #[trigger] less.take(i)).0,
            came_after(setup, less.take(i)),
            c,
            less[i],
        ) by {
            assert(less.take(i) =~= events.take(i));
            assert(less[i] == events[i]);
        }
        lemma_came_after(setup, c, less, key);
        let came = came_after(setup, less);
        assert(append_event(
            setup,
            after_events(setup, World::empty(), c, events.take(n)).0,
            came_after(setup, events.take(n)),
            c,
            events[n],
        ));
        let left = changes_on(less, SideType::Left);
        let right = changes_on(less, SideType::Right);
        let more_left = event_changes(events.last(), SideType::Left);
        let more_right = event_changes(events.last(), SideType::Right);
        lemma_taken_over_concat(Map::empty(), setup.rules(SideType::Left), key, left, more_left);
        lemma_taken_over_concat(Map::empty(), setup.rules(SideType::Right), key, right, more_right);
        match events.last() {
            Event::Changes { side, changes } => {
                let rules = setup.rules(side);
                assert forall|i: int| 0 <= i < changes.len() implies (
                #[trigger] changes[i]).op.adds() by {
                    assert(crate::join_append::is_new(
                        rules,
                        all_came(rules, came.seen_from(side), changes.take(i)),
                        changes[i],
                    ));
                }
                lemma_all_came(rules, came.seen_from(side), changes, key);
            },
            _ => {},
        }
    }
}

/// What two keys contribute adds up over all keys, of all rows that came.
proof fn lemma_total_meant_of_all(
    setup: Setup,
    came: Came,
    c: Condition,
    keys: Seq<RowView>,
    o: RowView,
    x: int,
    y: int,
)
    requires
        each_once(keys),
        forall|key: RowView| #[trigger]
            count_of_all(
                setup.layout(SideType::Left),
                came.seen_from(SideType::Left),
                c,
                key,
                o,
            ) == (if left_key_in(setup, o) == key {
                x
            } else {
                0
            }) + (if right_key_in(setup, o) == key {
                y
            } else {
                0
            }),
    ensures
        output_of_all(setup, came, c, keys, o) == (if keys.contains(left_key_in(setup, o)) {
            x
        } else {
            0
        }) + (if keys.contains(right_key_in(setup, o)) {
            y
        } else {
            0
        }),
    decreases keys.len(),
{
    if keys.len() > 0 {
        let rest = keys.drop_last();
        assert forall|i: int, j: int|
            0 <= i < rest.len() && 0 <= j < rest.len() && #[trigger] rest[i]
                == #[trigger] rest[j] implies i == j by {
            assert(keys[i] == rest[i] && keys[j] == rest[j]);
        }
        lemma_total_meant_of_all(setup, came, c, rest, o, x, y);
        lemma_contains_last(keys, left_key_in(setup, o));
        lemma_contains_last(keys, right_key_in(setup, o));
    }
}

/// Of streams that only grow, though rows are dropped once they have matched: from nothing on, whatever
/// happens, the changes that a join has put out hold each row as often as the join of the left rows and
/// the right rows that ever came.
pub proof fn law_append_only_output_is_join(
    setup: Setup,
    c: Condition,
    events: Seq<Event>,
    keys: Seq<RowView>,
    o: RowView,
)
    requires
        setup.append_only,
        covered(setup.left_pks, setup.left_keys),
        covered(setup.right_pks, setup.right_keys),
        setup.symmetric(c),
        forall|i: int|
            0 <= i < events.len() ==> append_event(
                setup,
                after_events(setup, World::empty(), c, #[trigger] events.take(i)).0,
                came_after(setup, events.take(i)),
                c,
                events[i],
            ),
        each_once(keys),
        forall|i: int|
            0 <= i < events.len() ==> event_keys_listed(setup, #[trigger] events[i], keys),
    ensures
        occurs(after_events(setup, World::empty(), c, events).1, o) == meant(
            setup,
            c,
            rows_left_by(changes_on(events, SideType::Left), setup.left_keys, setup.left_pks),
            rows_left_by(changes_on(events, SideType::Right), setup.right_keys, setup.right_pks),
            o,
        ),
{
    let records = after_events(setup, World::empty(), c, events).1;
    law_append_only_history(setup, c, events, keys, o);
    lemma_occurs(records, o);
    let came = came_after(setup, events);
    let changes_l = changes_on(events, SideType::Left);
    let changes_r = changes_on(events, SideType::Right);
    let left = rows_left_by(changes_l, setup.left_keys, setup.left_pks);
    let right = rows_left_by(changes_r, setup.right_keys, setup.right_pks);
    assert forall|i: int| 0 <= i < events.len() implies changes_fit(setup, #[trigger] events[i], keys) by {
        assert(append_event(
            setup,
            after_events(setup, World::empty(), c, events.take(i)).0,
            came_after(setup, events.take(i)),
            c,
            events[i],
        ));
        assert(event_keys_listed(setup, events[i], keys));
    }
    lemma_changes_on_fit(setup, events, keys, SideType::Left);
    lemma_changes_on_fit(setup, events, keys, SideType::Right);
    lemma_sides_listed(setup, changes_l, changes_r, keys);
    let x = meant_of_left(setup, c, left, right, o);
    let y = meant_of_right(setup, c, left, right, o);
    let lay = setup.layout(SideType::Left);
    let seen = came.seen_from(SideType::Left);
    assert forall|key: RowView| #[trigger] count_of_all(lay, seen, c, key, o) == (if left_key_in(
        setup,
        o,
    ) == key {
        x
    } else {
        0
    }) + (if right_key_in(setup, o) == key {
        y
    } else {
        0
    }) by {
        lemma_came_after(setup, c, events, key);
        lemma_stand_for(stored(came.left, key), setup.rules(SideType::Left), key, changes_l);
        lemma_stand_for(stored(came.right, key), setup.rules(SideType::Right), key, changes_r);
        assert(sized(stored(seen.update, key), setup.left_width));
        assert(sized(stored(seen.matched, key), setup.right_width));
        lemma_meant_at(
            setup,
            c,
            key,
            stored(came.left, key),
            stored(came.right, key),
            left,
            right,
            o,
        );
    }
    lemma_total_meant_of_all(setup, came, c, keys, o, x, y);
}

/// A semi or anti join evaluates its condition on the matched row over the row of the change, both from
/// the first column on, with nulls behind.
pub proof fn law_condition_of_semi_join<
    F: Fn(&Row, &Vec<DataType>) -> Result<Vec<Option<bool>>, EvalError>,
    const T: u8,
>(executor: &HashJoinExecutor<F, T>, l: RowView, r: RowView, i: int)
    requires
        executor.well_formed(),
        !joins_columns(T),
        l.len() == executor.side_l.col_types@.len(),
        r.len() == executor.side_r.col_types@.len(),
        0 <= i < l.len() + r.len(),
    ensures
        ({
            let from_left = joined_row(executor.rules::<Left>().layout, l, r);
            let from_right = joined_row(executor.rules::<Right>().layout, r, l);
            &&& from_left.len() == l.len() + r.len()
            &&& from_right.len() == l.len() + r.len()
            &&& i < r.len() ==> from_left[i] == r[i]
            &&& r.len() <= i < l.len() ==> from_left[i] == l[i]
            &&& i < l.len() ==> from_right[i] == l[i]
            &&& l.len() <= i < r.len() ==> from_right[i] == r[i]
            &&& i >= l.len() && i >= r.len() ==> from_left[i] is None && from_right[i] is None
        }),
{
}

} // verus!
