//! What holds of a join of streams that only ever grow, where a row is dropped once it has found its
//! match.
use vstd::prelude::*;

use crate::SideType;
use crate::chunk::Record;
use crate::hash_join::covered;
use crate::join_builder::Layout;
use crate::join_history::{
    Event, Setup, World, after_event, after_events, event_keys_listed, law_changes_tracked, law_fetch,
    law_flush, lemma_flip, side_good, sized,
};
use crate::join_laws::{
    Store, Stores, at_hand, belong, each_once, evaluated, keys_listed, law_insertion, lemma_put_untouched,
    lemma_step_resident, orderly, rows_at, stored, untouched,
};
use crate::join_model::{
    Matches, Rows, degrees_right, join_count, lemma_net_concat, lemma_sum_same, matched_alone,
    matches_of_matched, matches_of_update, net, one_if, pairs_with, raised, updates_alone, with_row,
};
use crate::join_run::{Condition, judged_by, run};
use crate::join_state::{
    JoinRowView, entry_or_unknown, lemma_content_write, lemma_table_fits_at, resident, rows_fit,
};
use crate::join_step::{
    JoinState, Rules, candidates, lemma_scan_insert, lemma_step, scan_insert, state_fits, step,
};
use crate::keyed::{at, distinct, to_map};
use crate::row::{RowView, project, row_has_null};

verus! {

/// Both maps hold the same rows, whatever the degrees.
pub open spec fn same_rows(a: Rows, b: Rows) -> bool {
    &&& a.dom() == b.dom()
    &&& forall|k: RowView| #[trigger] a.contains_key(k) ==> a[k].row == b[k].row
}

/// Degrees do not matter to what the join is.
proof fn lemma_count_same_rows(
    layout: Layout,
    p: Matches,
    updates: Rows,
    updates2: Rows,
    matched: Rows,
    matched2: Rows,
    o: RowView,
)
    requires
        updates.dom().finite(),
        matched.dom().finite(),
        same_rows(updates, updates2),
        same_rows(matched, matched2),
    ensures
        join_count(layout, p, updates2, matched2, o) == join_count(layout, p, updates, matched, o),
{
    assert forall|u: RowView|
        #![trigger matches_of_update(p, u, matched2)]
        #![trigger pairs_with(layout, p, u, matched2, o)]
        matches_of_update(p, u, matched2) == matches_of_update(p, u, matched) && pairs_with(
            layout,
            p,
            u,
            matched2,
            o,
        ) == pairs_with(layout, p, u, matched, o) by {
        let f = |m: JoinRowView| one_if(p(u, m.row));
        lemma_sum_same(matched, f, matched2, f);
        let g = |m: JoinRowView| one_if(p(u, m.row) && layout.both(u, m.row) == o);
        lemma_sum_same(matched, g, matched2, g);
    }
    assert forall|m: RowView| #[trigger] matches_of_matched(p, updates2, m) == matches_of_matched(
        p,
        updates,
        m,
    ) by {
        let f = |u: JoinRowView| one_if(p(u.row, m));
        lemma_sum_same(updates, f, updates2, f);
    }
    let a = |u: JoinRowView| pairs_with(layout, p, u.row, matched, o);
    let b = |u: JoinRowView| pairs_with(layout, p, u.row, matched2, o);
    lemma_sum_same(updates, a, updates2, b);
    lemma_alone_same_rows(layout, p, updates, updates2, matched, matched2, true, o);
    lemma_alone_same_rows(layout, p, updates, updates2, matched, matched2, false, o);
}

proof fn lemma_alone_same_rows(
    layout: Layout,
    p: Matches,
    updates: Rows,
    updates2: Rows,
    matched: Rows,
    matched2: Rows,
    hit: bool,
    o: RowView,
)
    requires
        updates.dom().finite(),
        matched.dom().finite(),
        same_rows(updates, updates2),
        same_rows(matched, matched2),
        forall|u: RowView| #[trigger]
            matches_of_update(p, u, matched2) == matches_of_update(p, u, matched),
        forall|m: RowView| #[trigger]
            matches_of_matched(p, updates2, m) == matches_of_matched(p, updates, m),
    ensures
        updates_alone(layout, p, updates2, matched2, hit, o) == updates_alone(
            layout,
            p,
            updates,
            matched,
            hit,
            o,
        ),
        matched_alone(layout, p, updates2, matched2, hit, o) == matched_alone(
            layout,
            p,
            updates,
            matched,
            hit,
            o,
        ),
{
    let a = |u: JoinRowView|
        one_if(
            (matches_of_update(p, u.row, matched) > 0) == hit && layout.only_update(u.row) == o,
        );
    let b = |u: JoinRowView|
        one_if(
            (matches_of_update(p, u.row, matched2) > 0) == hit && layout.only_update(u.row) == o,
        );
    lemma_sum_same(updates, a, updates2, b);
    let d = |m: JoinRowView|
        one_if(
            (matches_of_matched(p, updates, m.row) > 0) == hit && layout.only_matched(m.row) == o,
        );
    let e = |m: JoinRowView|
        one_if(
            (matches_of_matched(p, updates2, m.row) > 0) == hit && layout.only_matched(m.row) == o,
        );
    lemma_sum_same(matched, d, matched2, e);
}

/// Rows that came with the join key `key`, each under its primary key.
pub open spec fn came_with(rows: Rows, keys: Seq<usize>, pks: Seq<usize>, key: RowView) -> bool {
    &&& rows.dom().finite()
    &&& forall|pk: RowView| #[trigger]
        rows.contains_key(pk) ==> project(rows[pk].row, keys) == key && project(rows[pk].row, pks)
            == pk && rows[pk].degree == 0
}

/// What a side has in memory or in the state store under `key`, next to all rows that ever came.
///
/// Either that is all that came, and then, unless the key has a null, only on one side; or a row came
/// on each side, and neither was kept.
pub open spec fn kept_or_matched(
    state: JoinState,
    stores: Stores,
    came: Stores,
    key: RowView,
) -> bool {
    let u = rows_at(state.update, stores.update, key);
    let m = rows_at(state.matched, stores.matched, key);
    let cu = stored(came.update, key);
    let cm = stored(came.matched, key);
    ||| u == cu && m == cm && (row_has_null(key) || cu.dom() == Set::<RowView>::empty() || cm.dom()
        == Set::<RowView>::empty())
    ||| u.dom() == Set::<RowView>::empty() && m.dom() == Set::<RowView>::empty() && cu.dom() != Set::<
        RowView,
    >::empty() && cm.dom() != Set::<RowView>::empty()
}

/// A primary key that the join key covers is determined by the join key.
proof fn lemma_covered(a: RowView, b: RowView, pks: Seq<usize>, keys: Seq<usize>)
    requires
        covered(pks, keys),
        project(a, keys) == project(b, keys),
    ensures
        project(a, pks) == project(b, pks),
{
    assert forall|i: int| 0 <= i < pks.len() implies a[pks[i] as int] == b[pks[i] as int] by {
        assert(keys.contains(pks[i]));
        let j = choose|j: int| 0 <= j < keys.len() && keys[j] == pks[i];
        assert(project(a, keys)[j] == project(b, keys)[j]);
    }
    assert(project(a, pks) =~= project(b, pks));
}

/// One more row has come.
pub open spec fn also_came(came: Stores, key: RowView, pk: RowView, row: RowView) -> Stores {
    Stores {
        update: came.update.insert(
            key,
            stored(came.update, key).insert(pk, JoinRowView { row, degree: 0 }),
        ),
        matched: came.matched,
    }
}

/// How often the join of all rows that ever came with `key` holds the row `o`.
pub open spec fn count_of_all(layout: Layout, came: Stores, c: Condition, key: RowView, o: RowView) -> int {
    join_count(
        layout,
        belong(layout, key, c),
        stored(came.update, key),
        stored(came.matched, key),
        o,
    )
}

/// Streams that only grow, with a join key that covers the primary keys: though rows are dropped
/// once they have found their match, the changes that the join puts out for a new row are the
/// difference that the row makes to the join of all rows that ever came. There is at most one row
/// that it may match.
pub proof fn law_append_only(
    rules: Rules,
    matched_keys: Seq<usize>,
    state: JoinState,
    stores: Stores,
    came: Stores,
    c: Condition,
    change: Record,
    o: RowView,
)
    requires
        rules.append_only,
        rules.layout.side <= 1,
        state_fits(rules, state),
        change.op.adds(),
        change.row.len() == rules.layout.update_width,
        covered(rules.update_pks, rules.update_keys),
        covered(rules.matched_pks, matched_keys),
        ({
            let key = project(change.row, rules.update_keys);
            &&& row_has_null(key) || resident(state.matched, key)
            &&& judged_by(rules, state, change.row, c).error is None
            &&& came_with(stored(came.update, key), rules.update_keys, rules.update_pks, key)
            &&& came_with(stored(came.matched, key), matched_keys, rules.matched_pks, key)
            &&& kept_or_matched(state, stores, came, key)
            &&& !stored(came.update, key).contains_key(project(change.row, rules.update_pks))
        }),
    ensures
        ({
            let key = project(change.row, rules.update_keys);
            let pk = project(change.row, rules.update_pks);
            let now = step(rules, state, change, judged_by(rules, state, change.row, c));
            let came_now = also_came(came, key, pk, change.row);
            &&& now.failure is None
            &&& !row_has_null(key) ==> candidates(rules, state, change.row).len() <= 1
            &&& net(now.records, o) == count_of_all(rules.layout, came_now, c, key, o)
                - count_of_all(rules.layout, came, c, key, o)
            &&& came_with(stored(came_now.update, key), rules.update_keys, rules.update_pks, key)
            &&& kept_or_matched(now.state, stores, came_now, key)
            &&& untouched(state, now.state, stores, key)
        }),
{
    let layout = rules.layout;
    let row = change.row;
    let key = project(row, rules.update_keys);
    let pk = project(row, rules.update_pks);
    let p = belong(layout, key, c);
    let u = rows_at(state.update, stores.update, key);
    let m = rows_at(state.matched, stores.matched, key);
    let cu = stored(came.update, key);
    let cm = stored(came.matched, key);
    let judged = judged_by(rules, state, row, c);
    let now = step(rules, state, change, judged);
    let came_now = also_came(came, key, pk, row);
    // No row has come with this key yet: it would have the same primary key.
    assert(cu.dom() =~= Set::empty()) by {
        assert forall|k: RowView| !(#[trigger] cu.contains_key(k)) by {
            if cu.contains_key(k) {
                lemma_covered(cu[k].row, row, rules.update_pks, rules.update_keys);
            }
        }
    }
    assert(u == cu && m == cm);
    assert forall|k: RowView| #[trigger] m.contains_key(k) implies m[k].degree == matches_of_matched(
        p,
        u,
        m[k].row,
    ) by {}
    assert(degrees_right(p, u, m));
    let keeping = Rules { append_only: false, ..rules };
    assert(orderly(keeping, state, stores, c, change));
    law_insertion(keeping, state, stores, c, change, o);
    let kept = step(keeping, state, change, judged);
    assert(kept.records == now.records);
    let cu2 = stored(came_now.update, key);
    let u2 = with_row(p, u, pk, row, m);
    assert(cu2 == cu.insert(pk, JoinRowView { row, degree: 0 }));
    assert(u2.dom() =~= cu2.dom());
    assert(raised(p, row, m).dom() =~= m.dom());
    lemma_count_same_rows(layout, p, cu2, u2, cm, raised(p, row, m), o);
    assert(cu2.contains_key(pk));
    if row_has_null(key) {
        crate::join_model::lemma_sum_zero(m, |x: JoinRowView| one_if(p(row, x.row)));
        assert(u2 =~= cu2);
        assert(raised(p, row, m) =~= m);
    } else {
        let entry = at(state.matched, key);
        let own = entry_or_unknown(state.update, key);
        lemma_table_fits_at(state.matched, key, layout.matched_width);
        lemma_table_fits_at(state.update, key, layout.update_width);
        if entry.cached->0.len() > 0 {
            let rows = entry.cached->0;
            if rows.len() > 1 {
                crate::keyed::lemma_at_index(rows, 0);
                crate::keyed::lemma_at_index(rows, 1);
                assert(m.contains_key(rows[0].0) && m.contains_key(rows[1].0));
                lemma_covered(rows[0].1.row, rows[1].1.row, rules.matched_pks, matched_keys);
            }
            crate::join_laws::lemma_judge_clean(layout, row, rows, c, rows.len());
            assert forall|i: int|
                0 <= i < judged.verdicts.len() implies #[trigger] judged.verdicts[i] == p(
                row,
                rows[i].1.row,
            ) by {}
            let scan = scan_insert(layout, row, entry, judged.verdicts);
            lemma_scan_insert(layout, row, entry, judged.verdicts, layout.matched_width);
            crate::join_laws::lemma_scan_insert_content(
                layout,
                p,
                row,
                entry,
                judged.verdicts,
                layout.matched_width,
            );
            crate::keyed::lemma_at_index(rows, 0);
            let first = rows[0].0;
            assert(m.contains_key(first));
            let gone = project(rows[0].1.row, rules.matched_pks);
            assert(gone == first);
            lemma_content_write(scan.entry, stored(stores.matched, key), gone, m[first]);
            lemma_put_untouched(state.update, stores.update, key, own);
            lemma_put_untouched(state.matched, stores.matched, key, scan.entry.remove(gone));
            let left = rows_at(now.state.matched, stores.matched, key);
            assert(left == raised(p, row, m).remove(first));
            assert(left.dom() =~= Set::empty()) by {
                assert forall|k: RowView| !(#[trigger] left.contains_key(k)) by {
                    if left.contains_key(k) {
                        assert(m.contains_key(k));
                        lemma_covered(m[k].row, m[first].row, rules.matched_pks, matched_keys);
                    }
                }
            }
            assert(rows_at(now.state.update, stores.update, key) == u);
            assert(cm.dom().contains(first));
            assert(cu2.dom().contains(pk));
        } else {
            assert(now.state == kept.state);
            assert(m.dom() =~= Set::empty());
            assert(u2 =~= cu2) by {
                crate::join_model::lemma_sum_zero(m, |x: JoinRowView| one_if(p(row, x.row)));
            }
            assert(raised(p, row, m) =~= m);
        }
    }
}

/// All rows that ever came, once the rows of `changes` have come too.
pub open spec fn all_came(rules: Rules, came: Stores, changes: Seq<Record>) -> Stores
    decreases changes.len(),
{
    if changes.len() == 0 {
        came
    } else {
        let row = changes.last().row;
        also_came(
            all_came(rules, came, changes.drop_last()),
            project(row, rules.update_keys),
            project(row, rules.update_pks),
            row,
        )
    }
}

/// A new row, with a primary key that never came before.
pub open spec fn is_new(rules: Rules, came: Stores, change: Record) -> bool {
    &&& change.op.adds()
    &&& !stored(came.update, project(change.row, rules.update_keys)).contains_key(
        project(change.row, rules.update_pks),
    )
}

/// New rows only, each with a primary key that never came before.
pub open spec fn only_new(rules: Rules, came: Stores, changes: Seq<Record>) -> bool {
    forall|i: int|
        0 <= i < changes.len() ==> is_new(
            rules,
            all_came(rules, came, #[trigger] changes.take(i)),
            changes[i],
        )
}

/// The rows that came are in order, and so is what has been kept of them.
pub open spec fn kept_in_order(
    rules: Rules,
    matched_keys: Seq<usize>,
    state: JoinState,
    stores: Stores,
    came: Stores,
) -> bool {
    &&& forall|key: RowView|
        came_with(#[trigger] stored(came.update, key), rules.update_keys, rules.update_pks, key)
            && sized(stored(came.update, key), rules.layout.update_width)
    &&& forall|key: RowView|
        came_with(#[trigger] stored(came.matched, key), matched_keys, rules.matched_pks, key)
            && sized(stored(came.matched, key), rules.layout.matched_width)
    &&& forall|key: RowView| #[trigger] kept_or_matched(state, stores, came, key)
}

/// How often the join of all rows that ever came with one of `keys` holds the row `o`.
pub open spec fn total_of_all(
    layout: Layout,
    came: Stores,
    c: Condition,
    keys: Seq<RowView>,
    o: RowView,
) -> int
    decreases keys.len(),
{
    if keys.len() == 0 {
        0
    } else {
        total_of_all(layout, came, c, keys.drop_last(), o) + count_of_all(
            layout,
            came,
            c,
            keys.last(),
            o,
        )
    }
}

proof fn lemma_total_of_all_one(
    layout: Layout,
    came: Stores,
    key: RowView,
    pk: RowView,
    row: RowView,
    c: Condition,
    keys: Seq<RowView>,
    o: RowView,
)
    requires
        each_once(keys),
    ensures
        ({
            let now = also_came(came, key, pk, row);
            total_of_all(layout, now, c, keys, o) - total_of_all(layout, came, c, keys, o) == (
            if keys.contains(key) {
                count_of_all(layout, now, c, key, o) - count_of_all(layout, came, c, key, o)
            } else {
                0
            })
        }),
    decreases keys.len(),
{
    if keys.len() > 0 {
        let rest = keys.drop_last();
        assert forall|i: int, j: int|
            0 <= i < rest.len() && 0 <= j < rest.len() && #[trigger] rest[i]
                == #[trigger] rest[j] implies i == j by {
            assert(keys[i] == rest[i] && keys[j] == rest[j]);
        }
        lemma_total_of_all_one(layout, came, key, pk, row, c, rest, o);
        let last = keys.len() - 1;
        if keys.last() == key {
            assert(keys[last] == key);
            if rest.contains(key) {
                let j = choose|j: int| 0 <= j < rest.len() && rest[j] == key;
                assert(keys[j] == keys[last]);
            }
        } else {
            if keys.contains(key) {
                let j = choose|j: int| 0 <= j < keys.len() && keys[j] == key;
                assert(rest[j] == key);
            }
            if rest.contains(key) {
                let j = choose|j: int| 0 <= j < rest.len() && rest[j] == key;
                assert(keys[j] == key);
            }
        }
    }
}

/// A chunk of new rows: all that the join puts out for it is the difference that the rows make to the
/// join of all rows that ever came.
pub proof fn law_append_only_chunk(
    rules: Rules,
    matched_keys: Seq<usize>,
    state: JoinState,
    stores: Stores,
    came: Stores,
    c: Condition,
    changes: Seq<Record>,
    keys: Seq<RowView>,
    o: RowView,
)
    requires
        rules.append_only,
        rules.layout.side <= 1,
        state_fits(rules, state),
        covered(rules.update_pks, rules.update_keys),
        covered(rules.matched_pks, matched_keys),
        kept_in_order(rules, matched_keys, state, stores, came),
        at_hand(rules, state, changes),
        evaluated(rules, state, c, changes),
        only_new(rules, came, changes),
        each_once(keys),
        keys_listed(rules, changes, keys),
    ensures
        ({
            let done = run(rules, state, changes, c);
            let came_now = all_came(rules, came, changes);
            &&& done.failure is None
            &&& kept_in_order(rules, matched_keys, done.state, stores, came_now)
            &&& net(done.records, o) == total_of_all(rules.layout, came_now, c, keys, o)
                - total_of_all(rules.layout, came, c, keys, o)
            &&& state_fits(rules, done.state)
            &&& forall|key: RowView|
                resident(state.matched, key) ==> #[trigger] resident(done.state.matched, key)
        }),
    decreases changes.len(),
{
    if changes.len() > 0 {
        let before = changes.drop_last();
        let change = changes.last();
        let n = changes.len() - 1;
        assert(changes.take(n) =~= before);
        assert forall|i: int| 0 <= i < before.len() implies is_new(
            rules,
            all_came(rules, came, #[trigger] before.take(i)),
            before[i],
        ) by {
            assert(before.take(i) =~= changes.take(i));
            assert(before[i] == changes[i]);
        }
        assert forall|i: int| 0 <= i < before.len() implies (
        #[trigger] before[i]).row.len() == rules.layout.update_width && (row_has_null(
            project(before[i].row, rules.update_keys),
        ) || resident(state.matched, project(before[i].row, rules.update_keys))) by {
            assert(before[i] == changes[i]);
        }
        assert forall|i: int| 0 <= i < before.len() implies keys.contains(
            project((#[trigger] before[i]).row, rules.update_keys),
        ) by {
            assert(before[i] == changes[i]);
        }
        assert forall|i: int| 0 <= i < before.len() implies judged_by(
            rules,
            run(rules, state, #[trigger] before.take(i), c).state,
            before[i].row,
            c,
        ).error is None by {
            assert(before.take(i) =~= changes.take(i));
            assert(before[i] == changes[i]);
        }
        law_append_only_chunk(rules, matched_keys, state, stores, came, c, before, keys, o);
        let mid = run(rules, state, before, c).state;
        let came_mid = all_came(rules, came, before);
        let key = project(change.row, rules.update_keys);
        let pk = project(change.row, rules.update_pks);
        assert(change == changes[n]);
        assert(kept_or_matched(mid, stores, came_mid, key));
        law_append_only(rules, matched_keys, mid, stores, came_mid, c, change, o);
        let judged = judged_by(rules, mid, change.row, c);
        let now = step(rules, mid, change, judged);
        let came_now = all_came(rules, came, changes);
        if !row_has_null(key) {
            let rows = candidates(rules, mid, change.row);
            crate::join_laws::lemma_judge_clean(rules.layout, change.row, rows, c, rows.len());
        }
        lemma_step(rules, mid, change, judged);
        lemma_step_resident(rules, mid, change, judged);
        assert forall|k: RowView| #[trigger] kept_or_matched(now.state, stores, came_now, k) by {
            if k != key {
                assert(kept_or_matched(mid, stores, came_mid, k));
                assert(rows_at(now.state.update, stores.update, k) == rows_at(
                    mid.update,
                    stores.update,
                    k,
                ));
            }
        }
        assert forall|k: RowView|
            came_with(
                #[trigger] stored(came_now.update, k),
                rules.update_keys,
                rules.update_pks,
                k,
            ) && sized(stored(came_now.update, k), rules.layout.update_width) by {
            assert(sized(stored(came_mid.update, k), rules.layout.update_width));
            if k != key {
                assert(stored(came_now.update, k) == stored(came_mid.update, k));
            } else {
                assert(stored(came_now.update, k) == stored(came_mid.update, k).insert(
                    pk,
                    JoinRowView { row: change.row, degree: 0 },
                ));
            }
        }
        assert forall|k: RowView|
            came_with(#[trigger] stored(came_now.matched, k), matched_keys, rules.matched_pks, k)
                && sized(stored(came_now.matched, k), rules.layout.matched_width) by {
            assert(stored(came_now.matched, k) == stored(came_mid.matched, k));
        }
        lemma_total_of_all_one(rules.layout, came_mid, key, pk, change.row, c, keys, o);
        lemma_net_concat(run(rules, state, before, c).records, now.records, o);
    }
}

/// All rows that ever came on both sides, under their join keys.
pub struct Came {
    pub left: Store,
    pub right: Store,
}

impl Came {
    pub open spec fn seen_from(self, side: u8) -> Stores {
        if side == SideType::Left {
            Stores { update: self.left, matched: self.right }
        } else {
            Stores { update: self.right, matched: self.left }
        }
    }

    /// The rows that have come after an event.
    pub open spec fn after(self, setup: Setup, event: Event) -> Came {
        match event {
            Event::Changes { side, changes } => {
                let now = all_came(setup.rules(side), self.seen_from(side), changes);
                if side == SideType::Left {
                    Came { left: now.update, right: now.matched }
                } else {
                    Came { left: now.matched, right: now.update }
                }
            },
            _ => self,
        }
    }
}

/// The join key columns of the side across from `side`.
pub open spec fn other_keys(setup: Setup, side: u8) -> Seq<usize> {
    if side == SideType::Left {
        setup.right_keys
    } else {
        setup.left_keys
    }
}

/// The invariant of a join that drops matched rows: both sides are in order, and what has been kept
/// of the rows that came is what may still match.
pub open spec fn append_good(setup: Setup, world: World, came: Came) -> bool {
    &&& side_good(world.left, world.left_store, setup.left_width)
    &&& side_good(world.right, world.right_store, setup.right_width)
    &&& kept_in_order(
        setup.rules(SideType::Left),
        setup.right_keys,
        world.state(SideType::Left),
        world.stores(SideType::Left),
        came.seen_from(SideType::Left),
    )
}

/// Only new rows come, each with a primary key that never came before; the rows that they may match
/// are in memory, and the condition can be evaluated on those. Rows that are fetched are those of the
/// state store.
pub open spec fn append_event(
    setup: Setup,
    world: World,
    came: Came,
    c: Condition,
    event: Event,
) -> bool {
    match event {
        Event::Changes { side, changes } => {
            &&& side <= 1
            &&& at_hand(setup.rules(side), world.state(side), changes)
            &&& evaluated(setup.rules(side), world.state(side), c, changes)
            &&& only_new(setup.rules(side), came.seen_from(side), changes)
        },
        Event::Fetched { side, key, base } => {
            &&& side <= 1
            &&& distinct(base)
            &&& rows_fit(base, setup.layout(side).update_width)
            &&& to_map(base) == stored(world.stores(side).update, key)
        },
        Event::Flushed { left_cap, right_cap } => true,
    }
}

/// How often the join of all rows that ever came on both sides with one of `keys` holds the row `o`.
pub open spec fn output_of_all(setup: Setup, came: Came, c: Condition, keys: Seq<RowView>, o: RowView) -> int {
    total_of_all(setup.layout(SideType::Left), came.seen_from(SideType::Left), c, keys, o)
}

/// What has been kept is in order from either side.
proof fn lemma_flip_kept(setup: Setup, world: World, came: Came)
    ensures
        kept_in_order(
            setup.rules(SideType::Left),
            setup.right_keys,
            world.state(SideType::Left),
            world.stores(SideType::Left),
            came.seen_from(SideType::Left),
        ) == kept_in_order(
            setup.rules(SideType::Right),
            setup.left_keys,
            world.state(SideType::Right),
            world.stores(SideType::Right),
            came.seen_from(SideType::Right),
        ),
{
    let sl = world.state(SideType::Left);
    let sr = world.state(SideType::Right);
    let tl = world.stores(SideType::Left);
    let tr = world.stores(SideType::Right);
    let cl = came.seen_from(SideType::Left);
    let cr = came.seen_from(SideType::Right);
    assert forall|key: RowView| #[trigger] kept_or_matched(sl, tl, cl, key) == kept_or_matched(
        sr,
        tr,
        cr,
        key,
    ) by {}
    if kept_in_order(setup.rules(SideType::Right), setup.left_keys, sr, tr, cr) {
        assert forall|key: RowView| #[trigger] kept_or_matched(sl, tl, cl, key) by {
            assert(kept_or_matched(sr, tr, cr, key));
        }
        assert forall|key: RowView|
            came_with(#[trigger] stored(cl.update, key), setup.left_keys, setup.left_pks, key) && sized(
                stored(cl.update, key),
                setup.left_width,
            ) by {
            assert(stored(cr.matched, key) == stored(cl.update, key));
        }
        assert forall|key: RowView|
            came_with(#[trigger] stored(cl.matched, key), setup.right_keys, setup.right_pks, key)
                && sized(stored(cl.matched, key), setup.right_width) by {
            assert(stored(cr.update, key) == stored(cl.matched, key));
        }
    }
    if kept_in_order(setup.rules(SideType::Left), setup.right_keys, sl, tl, cl) {
        assert forall|key: RowView| #[trigger] kept_or_matched(sr, tr, cr, key) by {
            assert(kept_or_matched(sl, tl, cl, key));
        }
        assert forall|key: RowView|
            came_with(#[trigger] stored(cr.update, key), setup.right_keys, setup.right_pks, key)
                && sized(stored(cr.update, key), setup.right_width) by {
            assert(stored(cl.matched, key) == stored(cr.update, key));
        }
        assert forall|key: RowView|
            came_with(#[trigger] stored(cr.matched, key), setup.left_keys, setup.left_pks, key)
                && sized(stored(cr.matched, key), setup.left_width) by {
            assert(stored(cl.update, key) == stored(cr.matched, key));
        }
    }
}

/// The join of all rows that came is the same from either side.
proof fn lemma_flip_total(setup: Setup, came: Came, c: Condition, keys: Seq<RowView>, o: RowView)
    requires
        setup.symmetric(c),
        forall|key: RowView| sized(#[trigger] stored(came.left, key), setup.left_width),
        forall|key: RowView| sized(#[trigger] stored(came.right, key), setup.right_width),
    ensures
        output_of_all(setup, came, c, keys, o) == total_of_all(
            setup.layout(SideType::Right),
            came.seen_from(SideType::Right),
            c,
            keys,
            o,
        ),
    decreases keys.len(),
{
    if keys.len() > 0 {
        lemma_flip_total(setup, came, c, keys.drop_last(), o);
        let key = keys.last();
        assert(sized(stored(came.left, key), setup.left_width));
        assert(sized(stored(came.right, key), setup.right_width));
        lemma_flip(setup, c, key, stored(came.left, key), stored(came.right, key), o);
    }
}

proof fn lemma_came_sized(setup: Setup, world: World, came: Came)
    requires
        append_good(setup, world, came),
    ensures
        forall|key: RowView| sized(#[trigger] stored(came.left, key), setup.left_width),
        forall|key: RowView| sized(#[trigger] stored(came.right, key), setup.right_width),
{
    let cl = came.seen_from(SideType::Left);
    assert forall|key: RowView| sized(#[trigger] stored(came.left, key), setup.left_width) by {
        assert(stored(cl.update, key) == stored(came.left, key));
    }
    assert forall|key: RowView| sized(#[trigger] stored(came.right, key), setup.right_width) by {
        assert(stored(cl.matched, key) == stored(came.right, key));
    }
}

/// Whatever happens to a join of streams that only grow, its invariant holds on, and the changes that
/// it puts out are the difference between the join of all rows that have come afterwards and the join
/// of all that had come before.
pub proof fn law_append_only_event(
    setup: Setup,
    world: World,
    came: Came,
    c: Condition,
    event: Event,
    keys: Seq<RowView>,
    o: RowView,
)
    requires
        setup.append_only,
        covered(setup.left_pks, setup.left_keys),
        covered(setup.right_pks, setup.right_keys),
        append_good(setup, world, came),
        setup.symmetric(c),
        append_event(setup, world, came, c, event),
        each_once(keys),
        event_keys_listed(setup, event, keys),
    ensures
        ({
            let (after, records) = after_event(setup, world, c, event);
            let came_now = came.after(setup, event);
            &&& append_good(setup, after, came_now)
            &&& net(records, o) == output_of_all(setup, came_now, c, keys, o) - output_of_all(
                setup,
                came,
                c,
                keys,
                o,
            )
        }),
{
    let (after, records) = after_event(setup, world, c, event);
    let came_now = came.after(setup, event);
    match event {
        Event::Changes { side, changes } => {
            let rules = setup.rules(side);
            let state = world.state(side);
            let stores = world.stores(side);
            lemma_flip_kept(setup, world, came);
            lemma_came_sized(setup, world, came);
            lemma_flip_total(setup, came, c, keys, o);
            law_append_only_chunk(
                rules,
                other_keys(setup, side),
                state,
                stores,
                came.seen_from(side),
                c,
                changes,
                keys,
                o,
            );
            law_changes_tracked(rules, state, stores, c, changes);
            assert(after.state(side) == run(rules, state, changes, c).state);
            assert(after.stores(side) == stores);
            assert(came_now.seen_from(side) == all_came(rules, came.seen_from(side), changes));
            lemma_flip_kept(setup, after, came_now);
            lemma_came_sized(setup, after, came_now);
            lemma_flip_total(setup, came_now, c, keys, o);
        },
        Event::Fetched { side, key, base } => {
            if side == SideType::Left {
                law_fetch(world.left, world.left_store, setup.left_width, key, base);
            } else {
                law_fetch(world.right, world.right_store, setup.right_width, key, base);
            }
            lemma_same_kept(setup, world, after, came);
        },
        Event::Flushed { left_cap, right_cap } => {
            law_flush(world.left, world.left_store, setup.left_width, left_cap);
            law_flush(world.right, world.right_store, setup.right_width, right_cap);
            lemma_same_kept(setup, world, after, came);
        },
    }
}

proof fn lemma_same_kept(setup: Setup, before: World, after: World, came: Came)
    requires
        append_good(setup, before, came),
        forall|key: RowView| #[trigger]
            rows_at(after.left, after.left_store, key) == rows_at(before.left, before.left_store, key),
        forall|key: RowView| #[trigger]
            rows_at(after.right, after.right_store, key) == rows_at(
                before.right,
                before.right_store,
                key,
            ),
    ensures
        kept_in_order(
            setup.rules(SideType::Left),
            setup.right_keys,
            after.state(SideType::Left),
            after.stores(SideType::Left),
            came.seen_from(SideType::Left),
        ),
{
    let s = before.state(SideType::Left);
    let t = before.stores(SideType::Left);
    let cl = came.seen_from(SideType::Left);
    assert forall|key: RowView| #[trigger]
        kept_or_matched(after.state(SideType::Left), after.stores(SideType::Left), cl, key) by {
        assert(kept_or_matched(s, t, cl, key));
        assert(rows_at(after.left, after.left_store, key) == rows_at(
            before.left,
            before.left_store,
            key,
        ));
        assert(rows_at(after.right, after.right_store, key) == rows_at(
            before.right,
            before.right_store,
            key,
        ));
    }
}

/// All rows that have come after a run of events.
pub open spec fn came_after(setup: Setup, events: Seq<Event>) -> Came
    decreases events.len(),
{
    if events.len() == 0 {
        Came { left: Map::empty(), right: Map::empty() }
    } else {
        came_after(setup, events.drop_last()).after(setup, events.last())
    }
}

/// The history of a join of streams that only grow: from nothing on, whatever happens, the changes
/// that it has put out add up to the join of all rows that have come.
pub proof fn law_append_only_history(
    setup: Setup,
    c: Condition,
    events: Seq<Event>,
    keys: Seq<RowView>,
    o: RowView,
)
    requires
        setup.append_only,
        covered(setup.left_pks, setup.left_keys),
        covered(setup.right_pks, setup.right_keys),
        setup.symmetric(c),
        forall|i: int|
            0 <= i < events.len() ==> append_event(
                setup,
                after_events(setup, World::empty(), c, #[trigger] events.take(i)).0,
                came_after(setup, events.take(i)),
                c,
                events[i],
            ),
        each_once(keys),
        forall|i: int|
            0 <= i < events.len() ==> event_keys_listed(setup, #[trigger] events[i], keys),
    ensures
        ({
            let (after, records) = after_events(setup, World::empty(), c, events);
            &&& append_good(setup, after, came_after(setup, events))
            &&& net(records, o) == output_of_all(setup, came_after(setup, events), c, keys, o)
        }),
    decreases events.len(),
{
    if events.len() == 0 {
        lemma_nothing_came(setup, c, keys, o);
    } else {
        let n = events.len() - 1;
        let less = events.drop_last();
        assert(events.take(n) =~= less);
        assert forall|i: int| 0 <= i < less.len() implies append_event(
            setup,
            after_events(setup, World::empty(), c, #[trigger] less.take(i)).0,
            came_after(setup, less.take(i)),
            c,
            less[i],
        ) by {
            assert(less.take(i) =~= events.take(i));
            assert(less[i] == events[i]);
        }
        assert forall|i: int| 0 <= i < less.len() implies event_keys_listed(
            setup,
            #[trigger] less[i],
            keys,
        ) by {
            assert(less[i] == events[i]);
        }
        law_append_only_history(setup, c, less, keys, o);
        let (before, records) = after_events(setup, World::empty(), c, less);
        assert(events[n] == events.last());
        law_append_only_event(
            setup,
            before,
            came_after(setup, less),
            c,
            events.last(),
            keys,
            o,
        );
        let (after, more) = after_event(setup, before, c, events.last());
        lemma_net_concat(records, more, o);
    }
}

proof fn lemma_nothing_came(setup: Setup, c: Condition, keys: Seq<RowView>, o: RowView)
    ensures
        append_good(setup, World::empty(), came_after(setup, Seq::empty())),
        output_of_all(setup, came_after(setup, Seq::empty()), c, keys, o) == 0,
    decreases keys.len(),
{
    let w = World::empty();
    let none = Map::<RowView, JoinRowView>::empty();
    let came = came_after(setup, Seq::empty());
    assert(none.dom() =~= Set::empty());
    assert forall|key: RowView| #[trigger]
        kept_or_matched(
            w.state(SideType::Left),
            w.stores(SideType::Left),
            came.seen_from(SideType::Left),
            key,
        ) by {
        assert(rows_at(w.left, w.left_store, key) =~= none);
        assert(rows_at(w.right, w.right_store, key) =~= none);
    }
    assert forall|key: RowView| sized(#[trigger] stored(w.left_store, key), setup.left_width) by {}
    assert forall|key: RowView| sized(#[trigger] stored(w.right_store, key), setup.right_width) by {}
    if keys.len() > 0 {
        lemma_nothing_came(setup, c, keys.drop_last(), o);
        assert(count_of_all(
            setup.layout(SideType::Left),
            came.seen_from(SideType::Left),
            c,
            keys.last(),
            o,
        ) == 0);
    }
}

} // verus!
