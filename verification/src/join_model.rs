//! What a join is: which rows its output holds, and how often, for given rows of its sides.
use vstd::prelude::*;

use crate::chunk::{Op, Record};
use crate::join_builder::Layout;
use crate::join_kind::{anti, kept_side, other_side_kept, other_side_outer, outer_side, semi};
use crate::join_state::{JoinRowView, RowsView};
use crate::join_step::forwarded;
use crate::keyed::{distinct, lemma_distinct_prefix, to_map};
use crate::row::RowView;

verus! {

/// Rows under their primary keys, in no order.
pub type Rows = Map<RowView, JoinRowView>;

/// The sum of `f` over all rows.
pub open spec fn sum(rows: Rows, f: spec_fn(JoinRowView) -> int) -> int
    decreases rows.dom().len(),
    when rows.dom().finite()
{
    if rows.dom().len() == 0 {
        0
    } else {
        let k = rows.dom().choose();
        f(rows[k]) + sum(rows.remove(k), f)
    }
}

/// The sum does not depend on the order.
pub proof fn lemma_sum_remove(rows: Rows, f: spec_fn(JoinRowView) -> int, k: RowView)
    requires
        rows.dom().finite(),
        rows.contains_key(k),
    ensures
        sum(rows, f) == f(rows[k]) + sum(rows.remove(k), f),
        rows.remove(k).dom().finite(),
    decreases rows.dom().len(),
{
    let c = rows.dom().choose();
    assert(rows.dom().contains(k));
    assert(rows.dom().len() > 0) by {
        if rows.dom().len() == 0 {
            vstd::set_lib::lemma_set_empty_equivalency_len(rows.dom());
        }
    }
    assert(rows.dom().contains(c));
    assert(rows.remove(c).dom() =~= rows.dom().remove(c));
    assert(rows.remove(k).dom() =~= rows.dom().remove(k));
    if c != k {
        lemma_sum_remove(rows.remove(c), f, k);
        assert(rows.remove(c).remove(k) =~= rows.remove(k).remove(c));
        assert(rows.remove(k).contains_key(c));
        lemma_sum_remove(rows.remove(k), f, c);
    }
}

pub proof fn lemma_sum_insert(rows: Rows, f: spec_fn(JoinRowView) -> int, k: RowView, v: JoinRowView)
    requires
        rows.dom().finite(),
        !rows.contains_key(k),
    ensures
        sum(rows.insert(k, v), f) == sum(rows, f) + f(v),
        rows.insert(k, v).dom().finite(),
{
    assert(rows.insert(k, v).dom() =~= rows.dom().insert(k));
    lemma_sum_remove(rows.insert(k, v), f, k);
    assert(rows.insert(k, v).remove(k) =~= rows);
}

/// Sums add up row by row.
pub proof fn lemma_sum_add(
    rows: Rows,
    f: spec_fn(JoinRowView) -> int,
    other: Rows,
    g: spec_fn(JoinRowView) -> int,
    h: spec_fn(JoinRowView) -> int,
)
    requires
        rows.dom().finite(),
        rows.dom() == other.dom(),
        forall|k: RowView| #[trigger]
            rows.contains_key(k) ==> g(other[k]) == f(rows[k]) + h(rows[k]),
    ensures
        sum(other, g) == sum(rows, f) + sum(rows, h),
    decreases rows.dom().len(),
{
    if rows.dom().len() > 0 {
        let k = rows.dom().choose();
        assert(rows.dom().contains(k));
        assert(rows.contains_key(k));
        lemma_sum_remove(rows, f, k);
        lemma_sum_remove(rows, h, k);
        lemma_sum_remove(other, g, k);
        assert(rows.remove(k).dom() =~= rows.dom().remove(k));
        assert(other.remove(k).dom() =~= other.dom().remove(k));
        assert forall|x: RowView| #[trigger] rows.remove(k).contains_key(x) implies g(
            other.remove(k)[x],
        ) == f(rows.remove(k)[x]) + h(rows.remove(k)[x]) by {
            assert(rows.contains_key(x));
        }
        lemma_sum_add(rows.remove(k), f, other.remove(k), g, h);
    }
}

/// Sums are equal where they are row by row.
pub proof fn lemma_sum_same(
    rows: Rows,
    f: spec_fn(JoinRowView) -> int,
    other: Rows,
    g: spec_fn(JoinRowView) -> int,
)
    requires
        rows.dom().finite(),
        rows.dom() == other.dom(),
        forall|k: RowView| #[trigger] rows.contains_key(k) ==> g(other[k]) == f(rows[k]),
    ensures
        sum(other, g) == sum(rows, f),
{
    let zero = |r: JoinRowView| 0int;
    lemma_sum_add(rows, f, other, g, zero);
    lemma_sum_zero(rows, zero);
}

pub proof fn lemma_sum_zero(rows: Rows, f: spec_fn(JoinRowView) -> int)
    requires
        rows.dom().finite(),
        forall|k: RowView| #[trigger] rows.contains_key(k) ==> f(rows[k]) == 0,
    ensures
        sum(rows, f) == 0,
    decreases rows.dom().len(),
{
    if rows.dom().len() > 0 {
        let k = rows.dom().choose();
        assert(rows.dom().contains(k));
        assert(rows.contains_key(k));
        lemma_sum_remove(rows, f, k);
        assert(rows.remove(k).dom() =~= rows.dom().remove(k));
        assert forall|x: RowView| #[trigger] rows.remove(k).contains_key(x) implies f(
            rows.remove(k)[x],
        ) == 0 by {
            assert(rows.contains_key(x));
        }
        lemma_sum_zero(rows.remove(k), f);
    }
}

pub proof fn lemma_sum_nonnegative(rows: Rows, f: spec_fn(JoinRowView) -> int)
    requires
        rows.dom().finite(),
        forall|r: JoinRowView| #[trigger] f(r) >= 0,
    ensures
        sum(rows, f) >= 0,
    decreases rows.dom().len(),
{
    if rows.dom().len() > 0 {
        let k = rows.dom().choose();
        assert(rows.dom().contains(k));
        lemma_sum_remove(rows, f, k);
        assert(rows.remove(k).dom() =~= rows.dom().remove(k));
        lemma_sum_nonnegative(rows.remove(k), f);
    }
}

/// The sum of `f` over a list.
pub open spec fn list_sum(rows: RowsView, f: spec_fn(JoinRowView) -> int) -> int
    decreases rows.len(),
{
    if rows.len() == 0 {
        0
    } else {
        list_sum(rows.drop_last(), f) + f(rows.last().1)
    }
}

pub proof fn lemma_list_sum(rows: RowsView, f: spec_fn(JoinRowView) -> int)
    requires
        distinct(rows),
    ensures
        to_map(rows).dom().finite(),
        list_sum(rows, f) == sum(to_map(rows), f),
    decreases rows.len(),
{
    if rows.len() == 0 {
        assert(to_map(rows).dom() =~= Set::empty());
        assert(to_map(rows).dom().len() == 0);
    } else {
        lemma_distinct_prefix(rows);
        lemma_list_sum(rows.drop_last(), f);
        let before = to_map(rows.drop_last());
        assert(!before.contains_key(rows.last().0));
        lemma_sum_insert(before, f, rows.last().0, rows.last().1);
    }
}

/// Which rows of both sides belong together: the first is one of the updated side.
pub type Matches = spec_fn(RowView, RowView) -> bool;

pub open spec fn one_if(b: bool) -> int {
    if b {
        1
    } else {
        0
    }
}

/// How many of `matched` the row `update` matches.
pub open spec fn matches_of_update(p: Matches, update: RowView, matched: Rows) -> int {
    sum(matched, |m: JoinRowView| one_if(p(update, m.row)))
}

/// How many of `updates` the row `matched` matches.
pub open spec fn matches_of_matched(p: Matches, updates: Rows, matched: RowView) -> int {
    sum(updates, |u: JoinRowView| one_if(p(u.row, matched)))
}

/// The degree of each row is the number of rows of the other side that it matches.
pub open spec fn degrees_right(p: Matches, updates: Rows, matched: Rows) -> bool {
    &&& updates.dom().finite()
    &&& matched.dom().finite()
    &&& forall|k: RowView| #[trigger]
        updates.contains_key(k) ==> updates[k].degree == matches_of_update(
            p,
            updates[k].row,
            matched,
        )
    &&& forall|k: RowView| #[trigger]
        matched.contains_key(k) ==> matched[k].degree == matches_of_matched(
            p,
            updates,
            matched[k].row,
        )
}

/// How often `o` is a pair of rows that match.
pub open spec fn pairs(layout: Layout, p: Matches, updates: Rows, matched: Rows, o: RowView) -> int {
    sum(updates, |u: JoinRowView| pairs_with(layout, p, u.row, matched, o))
}

/// How often `o` is a pair of `update` and a row that matches it.
pub open spec fn pairs_with(layout: Layout, p: Matches, update: RowView, matched: Rows, o: RowView) -> int {
    sum(matched, |m: JoinRowView| one_if(p(update, m.row) && layout.both(update, m.row) == o))
}

/// How often `o` is a row of the updated side that matches something (`hit`), or nothing.
pub open spec fn updates_alone(
    layout: Layout,
    p: Matches,
    updates: Rows,
    matched: Rows,
    hit: bool,
    o: RowView,
) -> int {
    sum(
        updates,
        |u: JoinRowView|
            one_if(
                (matches_of_update(p, u.row, matched) > 0) == hit && layout.only_update(u.row) == o,
            ),
    )
}

/// How often `o` is a row of the other side that matches something (`hit`), or nothing.
pub open spec fn matched_alone(
    layout: Layout,
    p: Matches,
    updates: Rows,
    matched: Rows,
    hit: bool,
    o: RowView,
) -> int {
    sum(
        matched,
        |m: JoinRowView|
            one_if(
                (matches_of_matched(p, updates, m.row) > 0) == hit && layout.only_matched(m.row)
                    == o,
            ),
    )
}

/// How often the output of the join holds the row `o`.
///
/// A semi join holds the rows of the side that it keeps that match something, an anti join those
/// that match nothing. Any other join holds the pairs of rows that match, and those rows of the
/// sides that it preserves that match nothing, padded with nulls.
pub open spec fn join_count(layout: Layout, p: Matches, updates: Rows, matched: Rows, o: RowView) -> int {
    if semi(layout.join_type) || anti(layout.join_type) {
        let hit = semi(layout.join_type);
        if kept_side(layout.join_type, layout.side) {
            updates_alone(layout, p, updates, matched, hit, o)
        } else {
            matched_alone(layout, p, updates, matched, hit, o)
        }
    } else {
        pairs(layout, p, updates, matched, o) + (if outer_side(layout.join_type, layout.side) {
            updates_alone(layout, p, updates, matched, false, o)
        } else {
            0
        }) + (if other_side_outer(layout.join_type, layout.side) {
            matched_alone(layout, p, updates, matched, false, o)
        } else {
            0
        })
    }
}

/// How often a change adds the row `o`; negative where it takes it out.
pub open spec fn net_one(r: Record, o: RowView) -> int {
    if r.row == o {
        if r.op.adds() {
            1
        } else {
            -1
        }
    } else {
        0
    }
}

/// How often changes add the row `o`, less how often they take it out.
pub open spec fn net(records: Seq<Record>, o: RowView) -> int
    decreases records.len(),
{
    if records.len() == 0 {
        0
    } else {
        net(records.drop_last(), o) + net_one(records.last(), o)
    }
}

pub proof fn lemma_net_concat(a: Seq<Record>, b: Seq<Record>, o: RowView)
    ensures
        net(a + b, o) == net(a, o) + net(b, o),
    decreases b.len(),
{
    if b.len() == 0 {
        assert(a + b =~= a);
    } else {
        assert((a + b).drop_last() =~= a + b.drop_last());
        lemma_net_concat(a, b.drop_last(), o);
    }
}

pub proof fn lemma_net_short(r: Record, s: Record, o: RowView)
    ensures
        net(Seq::empty(), o) == 0,
        net(seq![r], o) == net_one(r, o),
        net(seq![r, s], o) == net_one(r, o) + net_one(s, o),
{
    assert(seq![r].drop_last() =~= Seq::<Record>::empty());
    assert(net(seq![r], o) == net_one(r, o)) by {
        assert(net(Seq::<Record>::empty(), o) == 0);
    }
    assert(seq![r, s].drop_last() =~= seq![r]);
    assert(seq![r, s].last() == s);
}

/// The rows with a degree higher by one where `update` matches.
pub open spec fn raised(p: Matches, update: RowView, matched: Rows) -> Rows {
    Map::new(
        |k: RowView| matched.contains_key(k),
        |k: RowView|
            if p(update, matched[k].row) {
                JoinRowView { degree: matched[k].degree + 1, ..matched[k] }
            } else {
                matched[k]
            },
    )
}

/// The rows with a degree lower by one where `update` matches.
pub open spec fn lowered(p: Matches, update: RowView, matched: Rows) -> Rows {
    Map::new(
        |k: RowView| matched.contains_key(k),
        |k: RowView|
            if p(update, matched[k].row) {
                JoinRowView { degree: (matched[k].degree - 1) as nat, ..matched[k] }
            } else {
                matched[k]
            },
    )
}

/// What a new row adds to the output through one row of the other side.
pub open spec fn insert_effect(layout: Layout, p: Matches, update: RowView, m: JoinRowView, o: RowView) -> int {
    if p(update, m.row) && !kept_side(layout.join_type, layout.side) {
        net(layout.match_on_insert(update, m), o)
    } else {
        0
    }
}

/// What the removal of a row adds to the output through one row of the other side. The degree of
/// `m` is that before the removal.
pub open spec fn delete_effect(layout: Layout, p: Matches, update: RowView, m: JoinRowView, o: RowView) -> int {
    if p(update, m.row) && !kept_side(layout.join_type, layout.side) {
        net(
            layout.match_on_delete(
                update,
                JoinRowView { degree: (m.degree - 1) as nat, ..m },
            ),
            o,
        )
    } else {
        0
    }
}

pub proof fn lemma_insert_effect(layout: Layout, update: RowView, m: JoinRowView, o: RowView)
    ensures
        net(layout.match_on_insert(update, m), o) == (if semi(layout.join_type) || anti(
            layout.join_type,
        ) {
            if m.degree == 0 && other_side_kept(layout.join_type, layout.side)
                && layout.only_matched(m.row) == o {
                if semi(layout.join_type) {
                    1int
                } else {
                    -1
                }
            } else {
                0
            }
        } else {
            one_if(layout.both(update, m.row) == o) - one_if(
                m.degree == 0 && other_side_outer(layout.join_type, layout.side)
                    && layout.only_matched(m.row) == o,
            )
        }),
{
    let only = layout.only_matched(m.row);
    let both = layout.both(update, m.row);
    lemma_net_short(
        Record { op: Op::UpdateDelete, row: only },
        Record { op: Op::UpdateInsert, row: both },
        o,
    );
    lemma_net_short(
        Record { op: Op::Delete, row: only },
        Record { op: Op::Insert, row: both },
        o,
    );
    lemma_net_short(
        Record { op: Op::Insert, row: only },
        Record { op: Op::Insert, row: both },
        o,
    );
    lemma_net_short(
        Record { op: Op::Insert, row: both },
        Record { op: Op::Insert, row: both },
        o,
    );
}

pub proof fn lemma_delete_effect(layout: Layout, update: RowView, m: JoinRowView, o: RowView)
    ensures
        net(layout.match_on_delete(update, m), o) == (if semi(layout.join_type) || anti(
            layout.join_type,
        ) {
            if m.degree == 0 && other_side_kept(layout.join_type, layout.side)
                && layout.only_matched(m.row) == o {
                if semi(layout.join_type) {
                    -1int
                } else {
                    1
                }
            } else {
                0
            }
        } else {
            one_if(
                m.degree == 0 && other_side_outer(layout.join_type, layout.side)
                    && layout.only_matched(m.row) == o,
            ) - one_if(layout.both(update, m.row) == o)
        }),
{
    let only = layout.only_matched(m.row);
    let both = layout.both(update, m.row);
    lemma_net_short(
        Record { op: Op::UpdateDelete, row: both },
        Record { op: Op::UpdateInsert, row: only },
        o,
    );
    lemma_net_short(
        Record { op: Op::Delete, row: only },
        Record { op: Op::Insert, row: both },
        o,
    );
    lemma_net_short(
        Record { op: Op::Insert, row: only },
        Record { op: Op::Insert, row: both },
        o,
    );
    lemma_net_short(
        Record { op: Op::Delete, row: both },
        Record { op: Op::Insert, row: both },
        o,
    );
}

/// Counts do not depend on degrees.
proof fn lemma_counts_same_rows(p: Matches, matched: Rows, other: Rows, update: RowView)
    requires
        matched.dom().finite(),
        matched.dom() == other.dom(),
        forall|k: RowView| #[trigger] matched.contains_key(k) ==> other[k].row == matched[k].row,
    ensures
        matches_of_update(p, update, other) == matches_of_update(p, update, matched),
{
    let f = |m: JoinRowView| one_if(p(update, m.row));
    lemma_sum_same(matched, f, other, f);
}

/// One more row of the updated side is one more match for the rows that it matches.
proof fn lemma_matches_insert(p: Matches, updates: Rows, pk: RowView, new: JoinRowView, m: RowView)
    requires
        updates.dom().finite(),
        !updates.contains_key(pk),
    ensures
        matches_of_matched(p, updates.insert(pk, new), m) == matches_of_matched(p, updates, m)
            + one_if(p(new.row, m)),
        matches_of_matched(p, updates, m) >= 0,
{
    let f = |u: JoinRowView| one_if(p(u.row, m));
    lemma_sum_insert(updates, f, pk, new);
    lemma_sum_nonnegative(updates, f);
}

pub proof fn lemma_matches_nonnegative(p: Matches, update: RowView, matched: Rows)
    requires
        matched.dom().finite(),
    ensures
        matches_of_update(p, update, matched) >= 0,
{
    lemma_sum_nonnegative(matched, |m: JoinRowView| one_if(p(update, m.row)));
}

/// The rows after a new row has come: itself, with the number of its matches, and the rows that it
/// matches with a degree higher by one.
pub open spec fn with_row(p: Matches, updates: Rows, pk: RowView, row: RowView, matched: Rows) -> Rows {
    updates.insert(pk, JoinRowView { row, degree: matches_of_update(p, row, matched) as nat })
}

/// Degrees stay right where a row comes.
pub proof fn lemma_degrees_insert(p: Matches, updates: Rows, matched: Rows, pk: RowView, row: RowView)
    requires
        degrees_right(p, updates, matched),
        !updates.contains_key(pk),
    ensures
        degrees_right(p, with_row(p, updates, pk, row, matched), raised(p, row, matched)),
{
    let updates2 = with_row(p, updates, pk, row, matched);
    let matched2 = raised(p, row, matched);
    lemma_matches_nonnegative(p, row, matched);
    assert(matched2.dom() =~= matched.dom());
    assert(updates2.dom() =~= updates.dom().insert(pk));
    assert forall|k: RowView| #[trigger] updates2.contains_key(k) implies updates2[k].degree
        == matches_of_update(p, updates2[k].row, matched2) by {
        lemma_counts_same_rows(p, matched, matched2, updates2[k].row);
        if k != pk {
            assert(updates.contains_key(k));
        }
    }
    assert forall|k: RowView| #[trigger] matched2.contains_key(k) implies matched2[k].degree
        == matches_of_matched(p, updates2, matched2[k].row) by {
        assert(matched.contains_key(k));
        lemma_matches_insert(p, updates, pk, updates2[pk], matched[k].row);
    }
}

/// Degrees stay right where a row leaves, and none of those that are lowered was zero.
pub proof fn lemma_degrees_delete(p: Matches, updates: Rows, matched: Rows, pk: RowView)
    requires
        degrees_right(p, updates, matched),
        updates.contains_key(pk),
    ensures
        degrees_right(p, updates.remove(pk), lowered(p, updates[pk].row, matched)),
        forall|k: RowView| #[trigger]
            matched.contains_key(k) && p(updates[pk].row, matched[k].row) ==> matched[k].degree > 0,
        raised(p, updates[pk].row, lowered(p, updates[pk].row, matched)) == matched,
        with_row(
            p,
            updates.remove(pk),
            pk,
            updates[pk].row,
            lowered(p, updates[pk].row, matched),
        ) == updates,
{
    let row = updates[pk].row;
    let updates2 = updates.remove(pk);
    let matched2 = lowered(p, row, matched);
    assert(updates2.dom() =~= updates.dom().remove(pk));
    assert(matched2.dom() =~= matched.dom());
    assert(updates2.insert(pk, updates[pk]) =~= updates);
    assert forall|k: RowView| #[trigger] matched.contains_key(k) implies ({
        &&& p(row, matched[k].row) ==> matched[k].degree > 0
        &&& matched2[k].degree == matches_of_matched(p, updates2, matched[k].row)
    }) by {
        lemma_matches_insert(p, updates2, pk, updates[pk], matched[k].row);
    }
    assert forall|k: RowView| #[trigger] matched2.contains_key(k) implies matched2[k].degree
        == matches_of_matched(p, updates2, matched2[k].row) by {
        assert(matched.contains_key(k));
    }
    assert forall|k: RowView| #[trigger] updates2.contains_key(k) implies updates2[k].degree
        == matches_of_update(p, updates2[k].row, matched2) by {
        assert(updates.contains_key(k));
        lemma_counts_same_rows(p, matched, matched2, updates2[k].row);
    }
    assert forall|k: RowView| #[trigger] matched.contains_key(k) implies raised(p, row, matched2)[k]
        == matched[k] by {
        assert(matched2.contains_key(k));
    }
    assert(raised(p, row, matched2) =~= matched);
    lemma_counts_same_rows(p, matched, matched2, row);
    assert(with_row(p, updates2, pk, row, matched2) =~= updates);
}

/// How often the new row itself is in the output.
proof fn lemma_updates_alone_insert(
    layout: Layout,
    p: Matches,
    updates: Rows,
    matched: Rows,
    pk: RowView,
    row: RowView,
    hit: bool,
    o: RowView,
)
    requires
        updates.dom().finite(),
        matched.dom().finite(),
        !updates.contains_key(pk),
    ensures
        updates_alone(
            layout,
            p,
            with_row(p, updates, pk, row, matched),
            raised(p, row, matched),
            hit,
            o,
        ) == updates_alone(layout, p, updates, matched, hit, o) + one_if(
            (matches_of_update(p, row, matched) > 0) == hit && layout.only_update(row) == o,
        ),
{
    let updates2 = with_row(p, updates, pk, row, matched);
    let matched2 = raised(p, row, matched);
    assert(matched2.dom() =~= matched.dom());
    let f = |u: JoinRowView|
        one_if(
            (matches_of_update(p, u.row, matched) > 0) == hit && layout.only_update(u.row) == o,
        );
    let f2 = |u: JoinRowView|
        one_if(
            (matches_of_update(p, u.row, matched2) > 0) == hit && layout.only_update(u.row) == o,
        );
    lemma_sum_insert(updates, f2, pk, updates2[pk]);
    assert forall|k: RowView| #[trigger] updates.contains_key(k) implies f2(updates[k]) == f(
        updates[k],
    ) by {
        lemma_counts_same_rows(p, matched, matched2, updates[k].row);
    }
    lemma_sum_same(updates, f, updates, f2);
    lemma_counts_same_rows(p, matched, matched2, row);
}

/// How the rows of the other side are affected by a new row.
proof fn lemma_matched_alone_insert(
    layout: Layout,
    p: Matches,
    updates: Rows,
    matched: Rows,
    pk: RowView,
    row: RowView,
    hit: bool,
    o: RowView,
)
    requires
        degrees_right(p, updates, matched),
        !updates.contains_key(pk),
    ensures
        matched_alone(
            layout,
            p,
            with_row(p, updates, pk, row, matched),
            raised(p, row, matched),
            hit,
            o,
        ) == matched_alone(layout, p, updates, matched, hit, o) + sum(
            matched,
            |m: JoinRowView|
                if p(row, m.row) && m.degree == 0 && layout.only_matched(m.row) == o {
                    if hit {
                        1int
                    } else {
                        -1
                    }
                } else {
                    0
                },
        ),
{
    let updates2 = with_row(p, updates, pk, row, matched);
    let matched2 = raised(p, row, matched);
    assert(matched2.dom() =~= matched.dom());
    let f = |m: JoinRowView|
        one_if(
            (matches_of_matched(p, updates, m.row) > 0) == hit && layout.only_matched(m.row) == o,
        );
    let f2 = |m: JoinRowView|
        one_if(
            (matches_of_matched(p, updates2, m.row) > 0) == hit && layout.only_matched(m.row) == o,
        );
    let h = |m: JoinRowView|
        if p(row, m.row) && m.degree == 0 && layout.only_matched(m.row) == o {
            if hit {
                1int
            } else {
                -1
            }
        } else {
            0
        };
    assert forall|k: RowView| #[trigger] matched.contains_key(k) implies f2(matched2[k]) == f(
        matched[k],
    ) + h(matched[k]) by {
        lemma_matches_insert(p, updates, pk, updates2[pk], matched[k].row);
    }
    lemma_sum_add(matched, f, matched2, f2, h);
}

/// How the pairs are affected by a new row.
proof fn lemma_pairs_insert(
    layout: Layout,
    p: Matches,
    updates: Rows,
    matched: Rows,
    pk: RowView,
    row: RowView,
    o: RowView,
)
    requires
        updates.dom().finite(),
        matched.dom().finite(),
        !updates.contains_key(pk),
    ensures
        pairs(
            layout,
            p,
            with_row(p, updates, pk, row, matched),
            raised(p, row, matched),
            o,
        ) == pairs(layout, p, updates, matched, o) + pairs_with(layout, p, row, matched, o),
{
    let updates2 = with_row(p, updates, pk, row, matched);
    let matched2 = raised(p, row, matched);
    assert(matched2.dom() =~= matched.dom());
    let f = |u: JoinRowView| pairs_with(layout, p, u.row, matched, o);
    let f2 = |u: JoinRowView| pairs_with(layout, p, u.row, matched2, o);
    lemma_sum_insert(updates, f2, pk, updates2[pk]);
    assert forall|u: RowView| #[trigger] pairs_with(layout, p, u, matched2, o) == pairs_with(
        layout,
        p,
        u,
        matched,
        o,
    ) by {
        let g = |m: JoinRowView| one_if(p(u, m.row) && layout.both(u, m.row) == o);
        lemma_sum_same(matched, g, matched2, g);
    }
    lemma_sum_same(updates, f, updates, f2);
}

/// What a new row adds to the output: through the rows that it matches, and by itself.
pub proof fn lemma_join_count_insert(
    layout: Layout,
    p: Matches,
    updates: Rows,
    matched: Rows,
    pk: RowView,
    row: RowView,
    op: Op,
    o: RowView,
)
    requires
        layout.side <= 1,
        degrees_right(p, updates, matched),
        !updates.contains_key(pk),
    ensures
        join_count(
            layout,
            p,
            with_row(p, updates, pk, row, matched),
            raised(p, row, matched),
            o,
        ) - join_count(layout, p, updates, matched, o) == sum(
            matched,
            |m: JoinRowView| insert_effect(layout, p, row, m, o),
        ) + (if op.adds() {
            1int
        } else {
            -1
        }) * net(
            forwarded(layout, Record { op, row }, matches_of_update(p, row, matched) as nat),
            o,
        ),
{
    let effect = |m: JoinRowView| insert_effect(layout, p, row, m, o);
    let count = matches_of_update(p, row, matched);
    lemma_matches_nonnegative(p, row, matched);
    let itself = Record { op, row: layout.only_update(row) };
    lemma_net_short(itself, itself, o);
    let sign = if op.adds() {
        1int
    } else {
        -1
    };
    let fwd = net(forwarded(layout, Record { op, row }, count as nat), o);
    assert(sign * fwd == (if op.adds() { fwd } else { -fwd })) by (nonlinear_arith)
        requires
            sign == (if op.adds() { 1int } else { -1int }),
    ;
    if semi(layout.join_type) || anti(layout.join_type) {
        let hit = semi(layout.join_type);
        if kept_side(layout.join_type, layout.side) {
            lemma_updates_alone_insert(layout, p, updates, matched, pk, row, hit, o);
            lemma_sum_zero(matched, effect);
        } else {
            lemma_matched_alone_insert(layout, p, updates, matched, pk, row, hit, o);
            let h = |m: JoinRowView|
                if p(row, m.row) && m.degree == 0 && layout.only_matched(m.row) == o {
                    if hit {
                        1int
                    } else {
                        -1
                    }
                } else {
                    0
                };
            assert forall|k: RowView| #[trigger] matched.contains_key(k) implies effect(matched[k])
                == h(matched[k]) by {
                lemma_insert_effect(layout, row, matched[k], o);
            }
            lemma_sum_same(matched, h, matched, effect);
        }
    } else {
        lemma_pairs_insert(layout, p, updates, matched, pk, row, o);
        lemma_updates_alone_insert(layout, p, updates, matched, pk, row, false, o);
        lemma_matched_alone_insert(layout, p, updates, matched, pk, row, false, o);
        let g = |m: JoinRowView| one_if(p(row, m.row) && layout.both(row, m.row) == o);
        let h = |m: JoinRowView|
            if p(row, m.row) && m.degree == 0 && layout.only_matched(m.row) == o {
                if false {
                    1int
                } else {
                    -1
                }
            } else {
                0
            };
        if other_side_outer(layout.join_type, layout.side) {
            assert forall|k: RowView| #[trigger] matched.contains_key(k) implies effect(matched[k])
                == g(matched[k]) + h(matched[k]) by {
                lemma_insert_effect(layout, row, matched[k], o);
            }
            lemma_sum_add(matched, g, matched, effect, h);
        } else {
            assert forall|k: RowView| #[trigger] matched.contains_key(k) implies effect(matched[k])
                == g(matched[k]) by {
                lemma_insert_effect(layout, row, matched[k], o);
            }
            lemma_sum_same(matched, g, matched, effect);
        }
    }
}

} // verus!
