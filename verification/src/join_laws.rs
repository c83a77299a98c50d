//! What holds of a join as a whole: the changes that it puts out turn the join of what the sides
//! held before into the join of what they hold afterwards.
use vstd::prelude::*;

use crate::chunk::{Op, Record};
use crate::join_builder::Layout;
use crate::join_kind::kept_side;
use crate::join_model::{
    Matches, Rows, degrees_right, delete_effect, insert_effect, join_count, lemma_degrees_delete,
    lemma_degrees_insert, lemma_join_count_insert, lemma_list_sum, lemma_matches_nonnegative,
    lemma_net_concat, lemma_sum_add, lemma_sum_same, list_sum, lowered, matches_of_update, net,
    one_if, raised, sum, with_row,
};
use crate::join_run::{Condition, joined_row, judge, judged_by, run};
use crate::join_state::{
    EntryView, JoinRowView, RowsView, TableView, entry_or_unknown, lemma_content_write, resident,
};
use crate::join_step::{
    Failure, JoinState, JudgedView, Rules, candidates, forwarded, lemma_scan_delete, lemma_scan_insert,
    lemma_step, prepared, scan_delete, scan_insert, state_fits, step,
};
use crate::keyed::{at, distinct, has_key, lemma_put_last, put_last, to_map};
use crate::row::{RowView, project, row_has_null};

verus! {

/// The rows that the state store holds for one side, under their join keys.
pub type Store = Map<RowView, Rows>;

/// What the state store holds under one join key.
pub open spec fn stored(store: Store, key: RowView) -> Rows {
    if store.contains_key(key) {
        store[key]
    } else {
        Map::empty()
    }
}

/// The rows of a side under one join key, in memory or not.
pub open spec fn rows_at(table: TableView, store: Store, key: RowView) -> Rows {
    entry_or_unknown(table, key).content(stored(store, key))
}

/// What the state store holds for both sides, seen from the side that an update comes from.
pub struct Stores {
    pub update: Store,
    pub matched: Store,
}

/// Rows with the join key `key` match where the key has no null and the condition holds.
pub open spec fn belong(layout: Layout, key: RowView, c: Condition) -> Matches {
    |u: RowView, m: RowView| !row_has_null(key) && c(joined_row(layout, u, m)) == Ok::<bool, Seq<char>>(true)
}

/// How often the output row `o` comes from rows with the join key `key`.
pub open spec fn count_at(
    layout: Layout,
    state: JoinState,
    stores: Stores,
    c: Condition,
    key: RowView,
    o: RowView,
) -> int {
    join_count(
        layout,
        belong(layout, key, c),
        rows_at(state.update, stores.update, key),
        rows_at(state.matched, stores.matched, key),
        o,
    )
}

/// The degrees of the rows with the join key `key` are right.
pub open spec fn consistent_at(
    layout: Layout,
    state: JoinState,
    stores: Stores,
    c: Condition,
    key: RowView,
) -> bool {
    degrees_right(
        belong(layout, key, c),
        rows_at(state.update, stores.update, key),
        rows_at(state.matched, stores.matched, key),
    )
}

/// A change that makes sense: a new row has a primary key that is not there yet, and a row that is
/// removed is there.
pub open spec fn sensible(rules: Rules, state: JoinState, stores: Stores, change: Record) -> bool {
    let rows = rows_at(state.update, stores.update, project(change.row, rules.update_keys));
    let pk = project(change.row, rules.update_pks);
    if change.op.adds() {
        !rows.contains_key(pk)
    } else {
        rows.contains_key(pk) && rows[pk].row == change.row
    }
}

/// The verdicts on rows where the condition can be evaluated on all of them.
pub proof fn lemma_judge_clean(layout: Layout, row: RowView, rows: RowsView, c: Condition, n: nat)
    requires
        judge(layout, row, rows, c, n).error is None,
        n <= rows.len(),
    ensures
        judge(layout, row, rows, c, n).verdicts.len() == n,
        forall|i: int|
            0 <= i < n ==> #[trigger] judge(layout, row, rows, c, n).verdicts[i] == (c(
                joined_row(layout, row, rows[i].1.row),
            ) == Ok::<bool, Seq<char>>(true)),
    decreases n,
{
    if n > 0 {
        lemma_judge_clean(layout, row, rows, c, (n - 1) as nat);
    }
}

/// What the scan of an entry for a new row comes to.
proof fn lemma_scan_insert_sums(
    layout: Layout,
    p: Matches,
    row: RowView,
    entry: EntryView,
    verdicts: Seq<bool>,
    o: RowView,
)
    requires
        entry.cached is Some,
        verdicts.len() <= entry.cached->0.len(),
        forall|i: int|
            0 <= i < verdicts.len() ==> #[trigger] verdicts[i] == p(row, entry.cached->0[i].1.row),
    ensures
        ({
            let scan = scan_insert(layout, row, entry, verdicts);
            let seen = entry.cached->0.take(verdicts.len() as int);
            &&& scan.matched == list_sum(seen, |m: JoinRowView| one_if(p(row, m.row)))
            &&& net(scan.records, o) == list_sum(
                seen,
                |m: JoinRowView| insert_effect(layout, p, row, m, o),
            )
        }),
    decreases verdicts.len(),
{
    let rows = entry.cached->0;
    let seen = rows.take(verdicts.len() as int);
    let f = |m: JoinRowView| one_if(p(row, m.row));
    let g = |m: JoinRowView| insert_effect(layout, p, row, m, o);
    if verdicts.len() > 0 {
        let i = verdicts.len() - 1;
        assert forall|j: int| 0 <= j < i implies #[trigger] verdicts.drop_last()[j] == p(
            row,
            rows[j].1.row,
        ) by {
            assert(verdicts[j] == p(row, rows[j].1.row));
        }
        lemma_scan_insert_sums(layout, p, row, entry, verdicts.drop_last(), o);
        assert(seen.drop_last() =~= rows.take(i));
        assert(seen.last() == rows[i]);
        assert(verdicts[i] == p(row, rows[i].1.row));
        let scan = scan_insert(layout, row, entry, verdicts.drop_last());
        lemma_net_concat(scan.records, layout.match_on_insert(row, rows[i].1), o);
    } else {
        assert(seen =~= Seq::empty());
        assert(list_sum(seen, f) == 0);
        assert(list_sum(seen, g) == 0);
    }
}

/// What the scan of an entry for a removed row comes to.
proof fn lemma_scan_delete_sums(
    layout: Layout,
    p: Matches,
    row: RowView,
    entry: EntryView,
    verdicts: Seq<bool>,
    o: RowView,
)
    requires
        entry.cached is Some,
        verdicts.len() <= entry.cached->0.len(),
        forall|i: int|
            0 <= i < verdicts.len() ==> #[trigger] verdicts[i] == p(row, entry.cached->0[i].1.row),
        forall|i: int|
            0 <= i < verdicts.len() && #[trigger] verdicts[i] ==> entry.cached->0[i].1.degree > 0,
    ensures
        ({
            let scan = scan_delete(layout, row, entry, verdicts);
            let seen = entry.cached->0.take(verdicts.len() as int);
            &&& !scan.failed
            &&& scan.matched == list_sum(seen, |m: JoinRowView| one_if(p(row, m.row)))
            &&& net(scan.records, o) == list_sum(
                seen,
                |m: JoinRowView| delete_effect(layout, p, row, m, o),
            )
        }),
    decreases verdicts.len(),
{
    let rows = entry.cached->0;
    let seen = rows.take(verdicts.len() as int);
    let f = |m: JoinRowView| one_if(p(row, m.row));
    let g = |m: JoinRowView| delete_effect(layout, p, row, m, o);
    if verdicts.len() > 0 {
        let i = verdicts.len() - 1;
        assert forall|j: int| 0 <= j < i implies #[trigger] verdicts.drop_last()[j] == p(
            row,
            rows[j].1.row,
        ) by {
            assert(verdicts[j] == p(row, rows[j].1.row));
        }
        assert forall|j: int| 0 <= j < i && #[trigger] verdicts.drop_last()[j] implies rows[j].1.degree
            > 0 by {
            assert(verdicts[j]);
        }
        lemma_scan_delete_sums(layout, p, row, entry, verdicts.drop_last(), o);
        assert(seen.drop_last() =~= rows.take(i));
        assert(seen.last() == rows[i]);
        assert(verdicts[i] == p(row, rows[i].1.row));
        let scan = scan_delete(layout, row, entry, verdicts.drop_last());
        let after = JoinRowView { degree: (rows[i].1.degree - 1) as nat, ..rows[i].1 };
        lemma_net_concat(scan.records, layout.match_on_delete(row, after), o);
    } else {
        assert(seen =~= Seq::empty());
        assert(list_sum(seen, f) == 0);
        assert(list_sum(seen, g) == 0);
    }
}

/// Two lists with the same keys at the same positions.
proof fn lemma_same_keys(a: RowsView, b: RowsView)
    requires
        distinct(a),
        distinct(b),
        a.len() == b.len(),
        forall|i: int| 0 <= i < a.len() ==> (#[trigger] a[i]).0 == b[i].0,
    ensures
        to_map(a).dom() == to_map(b).dom(),
        forall|i: int|
            0 <= i < a.len() ==> to_map(a)[(#[trigger] a[i]).0] == a[i].1 && to_map(b)[a[i].0]
                == b[i].1,
        forall|k: RowView| #[trigger]
            to_map(a).contains_key(k) ==> exists|i: int| 0 <= i < a.len() && (#[trigger] a[i]).0 == k,
{
    assert forall|i: int| 0 <= i < a.len() implies to_map(a)[(#[trigger] a[i]).0] == a[i].1
        && to_map(b)[a[i].0] == b[i].1 by {
        crate::keyed::lemma_at_index(a, i);
        crate::keyed::lemma_at_index(b, i);
    }
    assert forall|k: RowView| #[trigger] to_map(a).dom().contains(k) == to_map(b).dom().contains(
        k,
    ) by {
        if has_key(a, k) {
            let i = crate::keyed::pos(a, k);
            assert(b[i].0 == k);
        }
        if has_key(b, k) {
            let i = crate::keyed::pos(b, k);
            assert(a[i].0 == k);
        }
    }
    assert(to_map(a).dom() =~= to_map(b).dom());
}

pub proof fn lemma_scan_insert_content(
    layout: Layout,
    p: Matches,
    row: RowView,
    entry: EntryView,
    verdicts: Seq<bool>,
    width: nat,
)
    requires
        entry.well_formed(),
        crate::join_state::entry_fits(entry, width),
        entry.cached is Some,
        verdicts.len() == entry.cached->0.len(),
        forall|i: int|
            0 <= i < verdicts.len() ==> #[trigger] verdicts[i] == p(row, entry.cached->0[i].1.row),
    ensures
        to_map(scan_insert(layout, row, entry, verdicts).entry.cached->0) == raised(
            p,
            row,
            to_map(entry.cached->0),
        ),
{
    lemma_scan_insert(layout, row, entry, verdicts, width);
    let a = entry.cached->0;
    let b = scan_insert(layout, row, entry, verdicts).entry.cached->0;
    lemma_same_keys(a, b);
    let r = raised(p, row, to_map(a));
    assert forall|k: RowView| to_map(b).contains_key(k) implies #[trigger] to_map(b)[k] == r[k] by {
        assert(to_map(a).dom().contains(k));
        let i = choose|i: int| 0 <= i < a.len() && (#[trigger] a[i]).0 == k;
        assert(verdicts[i] == p(row, a[i].1.row));
        assert(b[i].0 == a[i].0);
    }
    assert(to_map(b).dom() =~= r.dom());
    assert(to_map(b) =~= r);
}

proof fn lemma_scan_delete_content(
    layout: Layout,
    p: Matches,
    row: RowView,
    entry: EntryView,
    verdicts: Seq<bool>,
    width: nat,
)
    requires
        entry.well_formed(),
        crate::join_state::entry_fits(entry, width),
        entry.cached is Some,
        verdicts.len() == entry.cached->0.len(),
        forall|i: int|
            0 <= i < verdicts.len() ==> #[trigger] verdicts[i] == p(row, entry.cached->0[i].1.row),
        !scan_delete(layout, row, entry, verdicts).failed,
    ensures
        to_map(scan_delete(layout, row, entry, verdicts).entry.cached->0) == lowered(
            p,
            row,
            to_map(entry.cached->0),
        ),
{
    lemma_scan_delete(layout, row, entry, verdicts, width);
    let a = entry.cached->0;
    let b = scan_delete(layout, row, entry, verdicts).entry.cached->0;
    lemma_same_keys(a, b);
    let r = lowered(p, row, to_map(a));
    assert forall|k: RowView| to_map(b).contains_key(k) implies #[trigger] to_map(b)[k] == r[k] by {
        assert(to_map(a).dom().contains(k));
        let i = choose|i: int| 0 <= i < a.len() && (#[trigger] a[i]).0 == k;
        assert(verdicts[i] == p(row, a[i].1.row));
        assert(b[i].0 == a[i].0);
    }
    assert(to_map(b).dom() =~= r.dom());
    assert(to_map(b) =~= r);
}

/// The other keys of both sides are as before.
pub open spec fn untouched(before: JoinState, after: JoinState, stores: Stores, key: RowView) -> bool {
    forall|k: RowView|
        k != key ==> #[trigger] rows_at(after.update, stores.update, k) == rows_at(
            before.update,
            stores.update,
            k,
        ) && rows_at(after.matched, stores.matched, k) == rows_at(
            before.matched,
            stores.matched,
            k,
        )
}

pub proof fn lemma_put_untouched(table: TableView, store: Store, key: RowView, entry: EntryView)
    requires
        distinct(table),
    ensures
        rows_at(put_last(table, key, entry), store, key) == entry.content(stored(store, key)),
        forall|k: RowView|
            k != key ==> #[trigger] rows_at(put_last(table, key, entry), store, k) == rows_at(
                table,
                store,
                k,
            ),
{
    lemma_put_last(table, key, entry);
}

/// The state is in order, and the change makes sense.
pub open spec fn orderly(
    rules: Rules,
    state: JoinState,
    stores: Stores,
    c: Condition,
    change: Record,
) -> bool {
    let key = project(change.row, rules.update_keys);
    &&& rules.layout.side <= 1
    &&& !rules.append_only
    &&& state_fits(rules, state)
    &&& judged_by(rules, state, change.row, c).error is None
    &&& change.row.len() == rules.layout.update_width
    &&& row_has_null(key) || resident(state.matched, key)
    &&& consistent_at(rules.layout, state, stores, c, key)
    &&& sensible(rules, state, stores, change)
}

/// A new row: the changes that are put out are the difference between the join afterwards and the
/// join before, and the degrees stay right.
pub proof fn law_insertion(
    rules: Rules,
    state: JoinState,
    stores: Stores,
    c: Condition,
    change: Record,
    o: RowView,
)
    requires
        orderly(rules, state, stores, c, change),
        change.op.adds(),
    ensures
        ({
            let key = project(change.row, rules.update_keys);
            let now = step(rules, state, change, judged_by(rules, state, change.row, c));
            &&& now.failure is None
            &&& consistent_at(rules.layout, now.state, stores, c, key)
            &&& untouched(state, now.state, stores, key)
            &&& net(now.records, o) == count_at(rules.layout, now.state, stores, c, key, o)
                - count_at(rules.layout, state, stores, c, key, o)
            &&& rows_at(now.state.update, stores.update, key) == with_row(
                belong(rules.layout, key, c),
                rows_at(state.update, stores.update, key),
                project(change.row, rules.update_pks),
                change.row,
                rows_at(state.matched, stores.matched, key),
            )
            &&& rows_at(now.state.matched, stores.matched, key) == raised(
                belong(rules.layout, key, c),
                change.row,
                rows_at(state.matched, stores.matched, key),
            )
        }),
{
    let layout = rules.layout;
    let row = change.row;
    let key = project(row, rules.update_keys);
    let pk = project(row, rules.update_pks);
    let judged = judged_by(rules, state, row, c);
    let now = step(rules, state, change, judged);
    let p = belong(layout, key, c);
    let u = rows_at(state.update, stores.update, key);
    let m = rows_at(state.matched, stores.matched, key);
    let own = entry_or_unknown(state.update, key);
    let count = matches_of_update(p, row, m);
    crate::join_state::lemma_table_fits_at(state.update, key, layout.update_width);
    crate::join_state::lemma_table_fits_at(state.matched, key, layout.matched_width);
    lemma_matches_nonnegative(p, row, m);
    lemma_degrees_insert(p, u, m, pk, row);
    lemma_join_count_insert(layout, p, u, m, pk, row, change.op, o);
    let effect = |x: JoinRowView| insert_effect(layout, p, row, x, o);
    if row_has_null(key) {
        let new = JoinRowView { row, degree: 0 };
        crate::join_model::lemma_sum_zero(m, |x: JoinRowView| one_if(p(row, x.row)));
        crate::join_model::lemma_sum_zero(m, effect);
        lemma_content_write(own, stored(stores.update, key), pk, new);
        lemma_put_untouched(state.update, stores.update, key, own.insert(pk, new));
        assert(raised(p, row, m) =~= m);
    } else {
        let entry = at(state.matched, key);
        let rows = entry.cached->0;
        lemma_judge_clean(layout, row, rows, c, rows.len());
        assert forall|i: int| 0 <= i < judged.verdicts.len() implies #[trigger] judged.verdicts[i]
            == p(row, rows[i].1.row) by {}
        lemma_scan_insert(layout, row, entry, judged.verdicts, layout.matched_width);
        lemma_scan_insert_sums(layout, p, row, entry, judged.verdicts, o);
        lemma_scan_insert_content(layout, p, row, entry, judged.verdicts, layout.matched_width);
        assert(rows.take(judged.verdicts.len() as int) =~= rows);
        lemma_list_sum(rows, |x: JoinRowView| one_if(p(row, x.row)));
        lemma_list_sum(rows, effect);
        let scan = scan_insert(layout, row, entry, judged.verdicts);
        let new = JoinRowView { row, degree: scan.matched };
        lemma_content_write(own, stored(stores.update, key), pk, new);
        lemma_put_untouched(state.update, stores.update, key, own.insert(pk, new));
        lemma_put_untouched(state.matched, stores.matched, key, scan.entry);
        lemma_net_concat(scan.records, forwarded(layout, change, scan.matched), o);
    }
}

/// The removal of a row: the changes that are put out are the difference between the join afterwards
/// and the join before. The degrees stay right, and nothing fails.
pub proof fn law_removal(
    rules: Rules,
    state: JoinState,
    stores: Stores,
    c: Condition,
    change: Record,
    o: RowView,
)
    requires
        orderly(rules, state, stores, c, change),
        !change.op.adds(),
    ensures
        ({
            let key = project(change.row, rules.update_keys);
            let now = step(rules, state, change, judged_by(rules, state, change.row, c));
            let p = belong(rules.layout, key, c);
            let matched = rows_at(state.matched, stores.matched, key);
            &&& now.failure is None
            &&& consistent_at(rules.layout, now.state, stores, c, key)
            &&& untouched(state, now.state, stores, key)
            &&& net(now.records, o) == count_at(rules.layout, now.state, stores, c, key, o)
                - count_at(rules.layout, state, stores, c, key, o)
            &&& rows_at(now.state.update, stores.update, key) == rows_at(
                state.update,
                stores.update,
                key,
            ).remove(project(change.row, rules.update_pks))
            &&& rows_at(now.state.matched, stores.matched, key) == lowered(p, change.row, matched)
        }),
{
    let layout = rules.layout;
    let row = change.row;
    let key = project(row, rules.update_keys);
    let pk = project(row, rules.update_pks);
    let judged = judged_by(rules, state, row, c);
    let now = step(rules, state, change, judged);
    let p = belong(layout, key, c);
    let u = rows_at(state.update, stores.update, key);
    let m = rows_at(state.matched, stores.matched, key);
    let u2 = u.remove(pk);
    let m2 = lowered(p, row, m);
    let own = entry_or_unknown(state.update, key);
    crate::join_state::lemma_table_fits_at(state.update, key, layout.update_width);
    crate::join_state::lemma_table_fits_at(state.matched, key, layout.matched_width);
    lemma_degrees_delete(p, u, m, pk);
    lemma_join_count_insert(layout, p, u2, m2, pk, row, change.op, o);
    lemma_content_write(own, stored(stores.update, key), pk, JoinRowView { row, degree: 0 });
    lemma_put_untouched(state.update, stores.update, key, own.remove(pk));
    let lower = |x: JoinRowView| delete_effect(layout, p, row, x, o);
    assert(m2.dom() =~= m.dom());
    lemma_opposite(layout, p, row, m, o);
    let fwd = forwarded(layout, change, matches_of_update(p, row, m2) as nat);
    assert(-1 * net(fwd, o) == -net(fwd, o)) by (nonlinear_arith);
    let f = |x: JoinRowView| one_if(p(row, x.row));
    lemma_sum_same(m, f, m2, f);
    if row_has_null(key) {
        crate::join_model::lemma_sum_zero(m, f);
        crate::join_model::lemma_sum_zero(m, lower);
        assert(m2 =~= m);
    } else {
        let entry = at(state.matched, key);
        let rows = entry.cached->0;
        lemma_judge_clean(layout, row, rows, c, rows.len());
        assert forall|i: int| 0 <= i < judged.verdicts.len() implies #[trigger] judged.verdicts[i]
            == p(row, rows[i].1.row) by {}
        assert forall|i: int| 0 <= i < judged.verdicts.len() && #[trigger] judged.verdicts[i] implies rows[i].1.degree
            > 0 by {
            crate::keyed::lemma_at_index(rows, i);
            assert(m.contains_key(rows[i].0));
        }
        lemma_scan_delete_sums(layout, p, row, entry, judged.verdicts, o);
        lemma_scan_delete_content(layout, p, row, entry, judged.verdicts, layout.matched_width);
        lemma_scan_delete(layout, row, entry, judged.verdicts, layout.matched_width);
        assert(rows.take(judged.verdicts.len() as int) =~= rows);
        lemma_list_sum(rows, f);
        lemma_list_sum(rows, lower);
        let scan = scan_delete(layout, row, entry, judged.verdicts);
        lemma_put_untouched(state.matched, stores.matched, key, scan.entry);
        lemma_net_concat(scan.records, forwarded(layout, change, scan.matched), o);
    }
}

/// Removing a row does the opposite of what it did when it came.
proof fn lemma_opposite(layout: Layout, p: Matches, row: RowView, matched: Rows, o: RowView)
    requires
        matched.dom().finite(),
        forall|k: RowView| #[trigger]
            matched.contains_key(k) && p(row, matched[k].row) ==> matched[k].degree > 0,
    ensures
        sum(matched, |x: JoinRowView| delete_effect(layout, p, row, x, o)) == -sum(
            lowered(p, row, matched),
            |x: JoinRowView| insert_effect(layout, p, row, x, o),
        ),
{
    let m2 = lowered(p, row, matched);
    let raise = |x: JoinRowView| insert_effect(layout, p, row, x, o);
    let lower = |x: JoinRowView| delete_effect(layout, p, row, x, o);
    let none = |x: JoinRowView| 0int;
    let raised_back = |x: JoinRowView|
        raise(
            if p(row, x.row) {
                JoinRowView { degree: (x.degree - 1) as nat, ..x }
            } else {
                x
            },
        );
    assert(m2.dom() =~= matched.dom());
    assert forall|k: RowView| #[trigger] matched.contains_key(k) implies none(matched[k]) == lower(
        matched[k],
    ) + raised_back(matched[k]) by {
        if p(row, matched[k].row) {
            crate::join_model::lemma_insert_effect(layout, row, m2[k], o);
            crate::join_model::lemma_delete_effect(layout, row, m2[k], o);
        }
    }
    lemma_sum_add(matched, lower, matched, none, raised_back);
    crate::join_model::lemma_sum_zero(matched, none);
    assert forall|k: RowView| #[trigger] matched.contains_key(k) implies raise(m2[k])
        == raised_back(matched[k]) by {}
    lemma_sum_same(matched, raised_back, m2, raise);
}

/// The rows without their degrees.
pub open spec fn plain(rows: Rows) -> Map<RowView, RowView> {
    Map::new(|pk: RowView| rows.contains_key(pk), |pk: RowView| rows[pk].row)
}

/// Rows under one join key after one more change of their side.
pub open spec fn taken_over(rows: Map<RowView, RowView>, rules: Rules, key: RowView, change: Record) -> Map<
    RowView,
    RowView,
> {
    let pk = project(change.row, rules.update_pks);
    if project(change.row, rules.update_keys) != key {
        rows
    } else if change.op.adds() {
        rows.insert(pk, change.row)
    } else {
        rows.remove(pk)
    }
}

/// Rows under one join key after changes of their side.
pub open spec fn all_taken_over(
    rows: Map<RowView, RowView>,
    rules: Rules,
    key: RowView,
    changes: Seq<Record>,
) -> Map<RowView, RowView>
    decreases changes.len(),
{
    if changes.len() == 0 {
        rows
    } else {
        taken_over(all_taken_over(rows, rules, key, changes.drop_last()), rules, key, changes.last())
    }
}

/// A change: the changes that the join puts out for it are the difference between the join
/// afterwards and the join before. The change is taken over into the rows of its own side, the rows of
/// the other side stay, the degrees stay right, and nothing fails.
pub proof fn law_change(
    rules: Rules,
    state: JoinState,
    stores: Stores,
    c: Condition,
    change: Record,
    o: RowView,
)
    requires
        orderly(rules, state, stores, c, change),
    ensures
        ({
            let key = project(change.row, rules.update_keys);
            let now = step(rules, state, change, judged_by(rules, state, change.row, c));
            &&& now.failure is None
            &&& consistent_at(rules.layout, now.state, stores, c, key)
            &&& untouched(state, now.state, stores, key)
            &&& net(now.records, o) == count_at(rules.layout, now.state, stores, c, key, o)
                - count_at(rules.layout, state, stores, c, key, o)
            &&& plain(rows_at(now.state.update, stores.update, key)) == taken_over(
                plain(rows_at(state.update, stores.update, key)),
                rules,
                key,
                change,
            )
            &&& plain(rows_at(now.state.matched, stores.matched, key)) == plain(
                rows_at(state.matched, stores.matched, key),
            )
        }),
{
    let key = project(change.row, rules.update_keys);
    let pk = project(change.row, rules.update_pks);
    let now = step(rules, state, change, judged_by(rules, state, change.row, c));
    let u = rows_at(state.update, stores.update, key);
    let m = rows_at(state.matched, stores.matched, key);
    if change.op.adds() {
        law_insertion(rules, state, stores, c, change, o);
        assert(plain(rows_at(now.state.update, stores.update, key)) =~= plain(u).insert(
            pk,
            change.row,
        ));
    } else {
        law_removal(rules, state, stores, c, change, o);
        assert(plain(rows_at(now.state.update, stores.update, key)) =~= plain(u).remove(pk));
    }
    assert(plain(rows_at(now.state.matched, stores.matched, key)) =~= plain(m));
}

/// The degrees of all rows are right.
pub open spec fn consistent(layout: Layout, state: JoinState, stores: Stores, c: Condition) -> bool {
    forall|key: RowView| #[trigger] consistent_at(layout, state, stores, c, key)
}

/// How often the output row `o` comes from rows with one of the join keys `keys`.
pub open spec fn total_count(
    layout: Layout,
    state: JoinState,
    stores: Stores,
    c: Condition,
    keys: Seq<RowView>,
    o: RowView,
) -> int
    decreases keys.len(),
{
    if keys.len() == 0 {
        0
    } else {
        total_count(layout, state, stores, c, keys.drop_last(), o) + count_at(
            layout,
            state,
            stores,
            c,
            keys.last(),
            o,
        )
    }
}

/// No key occurs twice.
pub open spec fn each_once(keys: Seq<RowView>) -> bool {
    forall|i: int, j: int|
        0 <= i < keys.len() && 0 <= j < keys.len() && #[trigger] keys[i] == #[trigger] keys[j] ==> i
            == j
}

/// What one key adds to the count is what it adds to the total.
proof fn lemma_total_one(
    layout: Layout,
    before: JoinState,
    after: JoinState,
    stores: Stores,
    c: Condition,
    keys: Seq<RowView>,
    key: RowView,
    o: RowView,
)
    requires
        each_once(keys),
        untouched(before, after, stores, key),
    ensures
        total_count(layout, after, stores, c, keys, o) - total_count(
            layout,
            before,
            stores,
            c,
            keys,
            o,
        ) == (if keys.contains(key) {
            count_at(layout, after, stores, c, key, o) - count_at(layout, before, stores, c, key, o)
        } else {
            0
        }),
    decreases keys.len(),
{
    if keys.len() > 0 {
        let rest = keys.drop_last();
        assert forall|i: int, j: int|
            0 <= i < rest.len() && 0 <= j < rest.len() && #[trigger] rest[i]
                == #[trigger] rest[j] implies i == j by {
            assert(keys[i] == rest[i] && keys[j] == rest[j]);
        }
        lemma_total_one(layout, before, after, stores, c, rest, key, o);
        let last = keys.len() - 1;
        if keys.last() == key {
            assert(keys[last] == key);
            assert(!rest.contains(key)) by {
                if rest.contains(key) {
                    let j = choose|j: int| 0 <= j < rest.len() && rest[j] == key;
                    assert(keys[j] == keys[last]);
                }
            }
        } else {
            assert(rows_at(after.update, stores.update, keys.last()) == rows_at(
                before.update,
                stores.update,
                keys.last(),
            ));
            if keys.contains(key) {
                let j = choose|j: int| 0 <= j < keys.len() && keys[j] == key;
                assert(rest[j] == key);
            }
            if rest.contains(key) {
                let j = choose|j: int| 0 <= j < rest.len() && rest[j] == key;
                assert(keys[j] == key);
            }
        }
    }
}

/// The changes make sense, each after those before it.
pub open spec fn all_sensible(
    rules: Rules,
    state: JoinState,
    stores: Stores,
    c: Condition,
    changes: Seq<Record>,
) -> bool {
    forall|i: int|
        0 <= i < changes.len() ==> sensible(
            rules,
            run(rules, state, #[trigger] changes.take(i), c).state,
            stores,
            changes[i],
        )
}

/// The condition could be evaluated wherever it was asked for.
pub open spec fn evaluated(rules: Rules, state: JoinState, c: Condition, changes: Seq<Record>) -> bool {
    forall|i: int|
        0 <= i < changes.len() ==> judged_by(
            rules,
            run(rules, state, #[trigger] changes.take(i), c).state,
            changes[i].row,
            c,
        ).error is None
}

/// The rows have the columns of their side, and the rows that they may match are in memory.
pub open spec fn at_hand(rules: Rules, state: JoinState, changes: Seq<Record>) -> bool {
    forall|i: int|
        0 <= i < changes.len() ==> (#[trigger] changes[i]).row.len() == rules.layout.update_width && (
        row_has_null(project(changes[i].row, rules.update_keys)) || resident(
            state.matched,
            project(changes[i].row, rules.update_keys),
        ))
}

/// All join keys of the changes are among `keys`.
pub open spec fn keys_listed(rules: Rules, changes: Seq<Record>, keys: Seq<RowView>) -> bool {
    forall|i: int|
        0 <= i < changes.len() ==> keys.contains(
            project((#[trigger] changes[i]).row, rules.update_keys),
        )
}

/// A chunk of changes: all that the join puts out for it is the difference between the join
/// afterwards and the join before. `keys` are any join keys among which are those of the changes.
pub proof fn law_chunk(
    rules: Rules,
    state: JoinState,
    stores: Stores,
    c: Condition,
    changes: Seq<Record>,
    keys: Seq<RowView>,
    o: RowView,
)
    requires
        rules.layout.side <= 1,
        !rules.append_only,
        state_fits(rules, state),
        consistent(rules.layout, state, stores, c),
        at_hand(rules, state, changes),
        evaluated(rules, state, c, changes),
        all_sensible(rules, state, stores, c, changes),
        each_once(keys),
        keys_listed(rules, changes, keys),
    ensures
        ({
            let done = run(rules, state, changes, c);
            &&& done.failure is None
            &&& state_fits(rules, done.state)
            &&& consistent(rules.layout, done.state, stores, c)
            &&& net(done.records, o) == total_count(rules.layout, done.state, stores, c, keys, o)
                - total_count(rules.layout, state, stores, c, keys, o)
            &&& forall|key: RowView|
                plain(#[trigger] rows_at(done.state.update, stores.update, key)) == all_taken_over(
                    plain(rows_at(state.update, stores.update, key)),
                    rules,
                    key,
                    changes,
                )
            &&& forall|key: RowView|
                plain(#[trigger] rows_at(done.state.matched, stores.matched, key)) == plain(
                    rows_at(state.matched, stores.matched, key),
                )
            &&& forall|key: RowView|
                resident(state.matched, key) ==> #[trigger] resident(done.state.matched, key)
        }),
    decreases changes.len(),
{
    if changes.len() > 0 {
        let before = changes.drop_last();
        let change = changes.last();
        let n = changes.len() - 1;
        assert(changes.take(n) =~= before);
        assert forall|i: int| 0 <= i < before.len() implies sensible(
            rules,
            run(rules, state, #[trigger] before.take(i), c).state,
            stores,
            before[i],
        ) by {
            assert(before.take(i) =~= changes.take(i));
            assert(before[i] == changes[i]);
        }
        assert forall|i: int| 0 <= i < before.len() implies (
        #[trigger] before[i]).row.len() == rules.layout.update_width && (row_has_null(
            project(before[i].row, rules.update_keys),
        ) || resident(state.matched, project(before[i].row, rules.update_keys))) by {
            assert(before[i] == changes[i]);
        }
        assert forall|i: int| 0 <= i < before.len() implies keys.contains(
            project((#[trigger] before[i]).row, rules.update_keys),
        ) by {
            assert(before[i] == changes[i]);
        }
        assert forall|i: int| 0 <= i < before.len() implies judged_by(
            rules,
            run(rules, state, #[trigger] before.take(i), c).state,
            before[i].row,
            c,
        ).error is None by {
            assert(before.take(i) =~= changes.take(i));
            assert(before[i] == changes[i]);
        }
        law_chunk(rules, state, stores, c, before, keys, o);
        let mid = run(rules, state, before, c).state;
        let key = project(change.row, rules.update_keys);
        assert(change == changes[n]);
        assert(consistent_at(rules.layout, mid, stores, c, key));
        assert(orderly(rules, mid, stores, c, change));
        law_change(rules, mid, stores, c, change, o);
        let judged = judged_by(rules, mid, change.row, c);
        let now = step(rules, mid, change, judged);
        if !row_has_null(key) {
            let rows = candidates(rules, mid, change.row);
            lemma_judge_clean(rules.layout, change.row, rows, c, rows.len());
        }
        lemma_step(rules, mid, change, judged);
        lemma_step_resident(rules, mid, change, judged);
        assert forall|k: RowView| #[trigger]
            consistent_at(rules.layout, now.state, stores, c, k) by {
            if k != key {
                assert(consistent_at(rules.layout, mid, stores, c, k));
                assert(rows_at(now.state.update, stores.update, k) == rows_at(
                    mid.update,
                    stores.update,
                    k,
                ));
            }
        }
        assert forall|k: RowView|
            plain(#[trigger] rows_at(now.state.update, stores.update, k)) == all_taken_over(
                plain(rows_at(state.update, stores.update, k)),
                rules,
                k,
                changes,
            ) by {
            assert(plain(rows_at(mid.update, stores.update, k)) == all_taken_over(
                plain(rows_at(state.update, stores.update, k)),
                rules,
                k,
                before,
            ));
        }
        assert forall|k: RowView|
            plain(#[trigger] rows_at(now.state.matched, stores.matched, k)) == plain(
                rows_at(state.matched, stores.matched, k),
            ) by {
            assert(plain(rows_at(mid.matched, stores.matched, k)) == plain(
                rows_at(state.matched, stores.matched, k),
            ));
            if k != key {
                assert(rows_at(now.state.update, stores.update, k) == rows_at(
                    mid.update,
                    stores.update,
                    k,
                ));
            }
        }
        lemma_total_one(rules.layout, mid, now.state, stores, c, keys, key, o);
        lemma_net_concat(run(rules, state, before, c).records, now.records, o);
    }
}

/// What is in memory stays there through a change.
pub proof fn lemma_step_resident(rules: Rules, state: JoinState, change: Record, judged: JudgedView)
    requires
        state_fits(rules, state),
        ({
            let key = project(change.row, rules.update_keys);
            row_has_null(key) || resident(state.matched, key) && judged.covers(
                at(state.matched, key).cached->0.len(),
            )
        }),
    ensures
        forall|key: RowView|
            resident(state.matched, key) ==> #[trigger] resident(
                step(rules, state, change, judged).state.matched,
                key,
            ),
{
    let key = project(change.row, rules.update_keys);
    if !row_has_null(key) {
        let entry = at(state.matched, key);
        let mw = rules.layout.matched_width;
        crate::join_state::lemma_table_fits_at(state.matched, key, mw);
        lemma_scan_insert(rules.layout, change.row, entry, judged.verdicts, mw);
        lemma_scan_delete(rules.layout, change.row, entry, judged.verdicts, mw);
        let scan_i = scan_insert(rules.layout, change.row, entry, judged.verdicts);
        let scan_d = scan_delete(rules.layout, change.row, entry, judged.verdicts);
        let gone = project(entry.cached->0[0].1.row, rules.matched_pks);
        lemma_put_last(state.matched, key, scan_i.entry);
        lemma_put_last(state.matched, key, scan_d.entry);
        lemma_put_last(state.matched, key, scan_i.entry.remove(gone));
    }
}

/// The change itself is put out at most once, however many rows it matches.
pub proof fn law_forwarded_once(layout: Layout, change: Record, matched: nat)
    ensures
        forwarded(layout, change, matched).len() <= 1,
{
}

/// A semi or anti join puts out at most one change for a change of the side that it keeps.
pub proof fn law_kept_side_once(
    rules: Rules,
    state: JoinState,
    change: Record,
    judged: JudgedView,
)
    requires
        kept_side(rules.layout.join_type, rules.layout.side),
    ensures
        step(rules, state, change, judged).records.len() <= 1,
{
    let entry = at(state.matched, project(change.row, rules.update_keys));
    lemma_kept_side_scan(rules.layout, change.row, entry, judged.verdicts);
}

proof fn lemma_kept_side_scan(layout: Layout, row: RowView, entry: EntryView, verdicts: Seq<bool>)
    requires
        kept_side(layout.join_type, layout.side),
    ensures
        scan_insert(layout, row, entry, verdicts).records.len() == 0,
        scan_delete(layout, row, entry, verdicts).records.len() == 0,
    decreases verdicts.len(),
{
    if verdicts.len() > 0 {
        lemma_kept_side_scan(layout, row, entry, verdicts.drop_last());
    }
}

/// The condition is asked for one row after the other: each verdict is what it says of the row at that
/// place, all rows have a verdict where it can be evaluated on all of them, and else the error is that
/// of the first row on which it cannot.
pub proof fn law_verdicts(layout: Layout, row: RowView, rows: RowsView, c: Condition, n: nat)
    requires
        n <= rows.len(),
    ensures
        ({
            let judged = judge(layout, row, rows, c, n);
            let v = judged.verdicts.len();
            &&& v <= n
            &&& forall|i: int|
                0 <= i < v ==> c(joined_row(layout, row, rows[i].1.row)) == Ok::<bool, Seq<char>>(
                    #[trigger] judged.verdicts[i],
                )
            &&& judged.error is None ==> v == n
            &&& judged.error matches Some(message) ==> v < n && c(
                joined_row(layout, row, rows[v as int].1.row),
            ) == Err::<bool, Seq<char>>(message)
        }),
    decreases n,
{
    if n > 0 {
        law_verdicts(layout, row, rows, c, (n - 1) as nat);
    }
}

/// A change fails exactly where the condition cannot be evaluated, or where a row is removed that
/// matches one which, by its degree, nothing matched. A key with a null fails nowhere.
pub proof fn law_failures(rules: Rules, state: JoinState, change: Record, c: Condition)
    requires
        state_fits(rules, state),
        row_has_null(project(change.row, rules.update_keys)) || resident(
            state.matched,
            project(change.row, rules.update_keys),
        ),
    ensures
        ({
            let key = project(change.row, rules.update_keys);
            let judged = judged_by(rules, state, change.row, c);
            let rows = candidates(rules, state, change.row);
            let removes = change.op == Op::Delete || change.op == Op::UpdateDelete;
            let underflow = removes && exists|i: int|
                0 <= i < judged.verdicts.len() && #[trigger] judged.verdicts[i] && rows[i].1.degree
                    == 0;
            let failure = step(rules, state, change, judged).failure;
            if exists|i: int| 0 <= i < key.len() && #[trigger] key[i] is None {
                failure is None
            } else if underflow {
                failure == Some(Failure::ZeroDegree)
            } else if judged.error is Some {
                failure == Some(Failure::Condition(judged.error->0))
            } else {
                failure is None
            }
        }),
{
    let key = project(change.row, rules.update_keys);
    let judged = judged_by(rules, state, change.row, c);
    if !row_has_null(key) {
        let rows = candidates(rules, state, change.row);
        law_verdicts(rules.layout, change.row, rows, c, rows.len());
        crate::join_state::lemma_table_fits_at(state.matched, key, rules.layout.matched_width);
        lemma_scan_delete(
            rules.layout,
            change.row,
            at(state.matched, key),
            judged.verdicts,
            rules.layout.matched_width,
        );
    }
}

/// Behind a change that fails no other one is looked at; without a failure the changes of a run are
/// those of its first part followed by those of the rest.
pub proof fn law_run_in_parts(
    rules: Rules,
    state: JoinState,
    first: Seq<Record>,
    rest: Seq<Record>,
    c: Condition,
)
    ensures
        ({
            let a = run(rules, state, first, c);
            let b = run(rules, a.state, rest, c);
            let all = run(rules, state, first + rest, c);
            &&& a.failure is Some ==> all == a
            &&& a.failure is None ==> all.state == b.state && all.failure == b.failure && all.records
                == a.records + b.records
        }),
    decreases rest.len(),
{
    let a = run(rules, state, first, c);
    if rest.len() == 0 {
        assert(first + rest =~= first);
        assert(a.records + Seq::<Record>::empty() =~= a.records);
    } else {
        assert((first + rest).drop_last() =~= first + rest.drop_last());
        law_run_in_parts(rules, state, first, rest.drop_last(), c);
        if a.failure is None {
            let b = run(rules, a.state, rest.drop_last(), c);
            let last = step(
                rules,
                b.state,
                rest.last(),
                judged_by(rules, b.state, rest.last().row, c),
            );
            assert(a.records + b.records + last.records =~= a.records + (b.records + last.records));
        }
    }
}

/// A row whose join key has a null in any of its columns matches no row, whatever the condition says.
pub proof fn law_null_key_matches_nothing(
    layout: Layout,
    key: RowView,
    c: Condition,
    i: int,
    a: RowView,
    b: RowView,
)
    requires
        0 <= i < key.len(),
        key[i] is None,
    ensures
        !belong(layout, key, c)(a, b),
{
}

/// A change can be joined where its join key has a null, or where all rows of the other side under the
/// key are in memory and no degree of theirs would leave its type.
pub proof fn law_ready_to_join(rules: Rules, state: JoinState, row: RowView, room: nat)
    ensures
        ({
            let key = project(row, rules.update_keys);
            prepared(rules, state, row, room) <==> {
                ||| exists|i: int| 0 <= i < key.len() && #[trigger] key[i] is None
                ||| {
                    &&& has_key(state.matched, key)
                    &&& at(state.matched, key).cached is Some
                    &&& forall|i: int|
                        0 <= i < at(state.matched, key).cached->0.len() ==> (#[trigger] at(
                            state.matched,
                            key,
                        ).cached->0[i]).1.degree + room <= 0xffff_ffff_ffff_ffff
                }
            }
        }),
{
}

} // verus!
