//! What holds of a join through all that may happen to it: changes on both sides, rows that come
//! from the state store, and flushes.
use vstd::prelude::*;

use crate::SideType;
use crate::chunk::Record;
use crate::hash_join::HashJoinExecutor;
use crate::join_builder::Layout;
use crate::join_kind::{anti, keeps_left, keeps_right, semi};
use crate::join_laws::{
    Store, Stores, all_sensible, all_taken_over, at_hand, belong, consistent, consistent_at, count_at,
    each_once, evaluated, keys_listed, law_chunk, lemma_step_resident, plain, rows_at, stored,
    total_count,
};
use crate::join_model::{
    Rows, degrees_right, join_count, lemma_net_concat, lemma_sum_add, lemma_sum_remove,
    lemma_sum_same, lemma_sum_zero, matched_alone, matches_of_matched, matches_of_update, net,
    one_if, pairs, pairs_with, sum, updates_alone,
};
use crate::join_run::{Condition, joined_row, judge, judged_by, run};
use crate::join_state::{
    EntryView, JoinRowView, RowsView, TableView, WriteView, cleaned, entry_fits, entry_or_unknown,
    entry_writes, evicted, lemma_content_write, lemma_overlay, lemma_overlay_fits,
    lemma_table_fits_at, lemma_table_fits_put, merged, resident, rows_fit, table_fits,
    table_well_formed, table_writes,
};
use crate::join_step::{
    EvalError, JoinState, JudgedView, Rules, candidates, lemma_scan_delete, lemma_scan_insert,
    lemma_step, scan_delete, scan_insert, state_fits, step,
};
use crate::keyed::{at, distinct, has_key, lemma_put_last, pos, put_last, to_map};
use crate::row::{Row, RowView, project, row_has_null};
use crate::schema::DataType;

verus! {

/// What kind of join it is, and between what.
pub struct Setup {
    pub join_type: u8,
    pub left_width: nat,
    pub right_width: nat,
    pub left_keys: Seq<usize>,
    pub left_pks: Seq<usize>,
    pub right_keys: Seq<usize>,
    pub right_pks: Seq<usize>,
    /// Whether a row is dropped once it has found its match.
    pub append_only: bool,
}

impl Setup {
    pub open spec fn layout(self, side: u8) -> Layout {
        let shared = semi(self.join_type) || anti(self.join_type);
        let right_pos = if shared {
            0
        } else {
            self.left_width as int
        };
        Layout {
            join_type: self.join_type,
            side,
            width: if keeps_left(self.join_type) {
                self.left_width
            } else if keeps_right(self.join_type) {
                self.right_width
            } else {
                self.left_width + self.right_width
            },
            update_pos: if side == SideType::Left { 0 } else { right_pos },
            update_width: if side == SideType::Left { self.left_width } else { self.right_width },
            matched_pos: if side == SideType::Left { right_pos } else { 0 },
            matched_width: if side == SideType::Left { self.right_width } else { self.left_width },
        }
    }

    /// The rules for updates of a side.
    pub open spec fn rules(self, side: u8) -> Rules {
        if side == SideType::Left {
            Rules {
                layout: self.layout(side),
                update_keys: self.left_keys,
                update_pks: self.left_pks,
                matched_pks: self.right_pks,
                append_only: self.append_only,
            }
        } else {
            Rules {
                layout: self.layout(side),
                update_keys: self.right_keys,
                update_pks: self.right_pks,
                matched_pks: self.left_pks,
                append_only: self.append_only,
            }
        }
    }

    /// The condition gives the same verdict whichever of two rows comes first.
    ///
    /// This matters to semi and anti joins, where both rows stand at the first column of the row
    /// that the condition is evaluated on.
    pub open spec fn symmetric(self, c: Condition) -> bool {
        semi(self.join_type) || anti(self.join_type) ==> forall|l: RowView, r: RowView|
            l.len() == self.left_width && r.len() == self.right_width ==> #[trigger] c(
                joined_row(self.layout(SideType::Left), l, r),
            ) == c(joined_row(self.layout(SideType::Right), r, l))
    }
}

/// The setup of an executor.
pub open spec fn setup_of<
    F: Fn(&Row, &Vec<DataType>) -> Result<Vec<Option<bool>>, EvalError>,
    const T: u8,
>(executor: &HashJoinExecutor<F, T>) -> Setup {
    Setup {
        join_type: T,
        left_width: executor.side_l.width(),
        right_width: executor.side_r.width(),
        left_keys: executor.side_l.key_indices@,
        left_pks: executor.side_l.pk_indices@,
        right_keys: executor.side_r.key_indices@,
        right_pks: executor.side_r.pk_indices@,
        append_only: executor.append_only_optimize,
    }
}

/// An executor follows the rules of its setup.
pub proof fn law_executor_rules<
    F: Fn(&Row, &Vec<DataType>) -> Result<Vec<Option<bool>>, EvalError>,
    const T: u8,
    const SIDE: u8,
>(executor: &HashJoinExecutor<F, T>)
    requires
        executor.well_formed(),
        SIDE <= 1,
    ensures
        executor.rules::<SIDE>() == setup_of(executor).rules(SIDE),
{
}

/// What a join holds in memory and what the state store holds for it.
pub struct World {
    pub left: TableView,
    pub right: TableView,
    pub left_store: Store,
    pub right_store: Store,
}

impl World {
    pub open spec fn empty() -> World {
        World {
            left: Seq::empty(),
            right: Seq::empty(),
            left_store: Map::empty(),
            right_store: Map::empty(),
        }
    }

    pub open spec fn state(self, side: u8) -> JoinState {
        if side == SideType::Left {
            JoinState { update: self.left, matched: self.right }
        } else {
            JoinState { update: self.right, matched: self.left }
        }
    }

    pub open spec fn stores(self, side: u8) -> Stores {
        if side == SideType::Left {
            Stores { update: self.left_store, matched: self.right_store }
        } else {
            Stores { update: self.right_store, matched: self.left_store }
        }
    }

    pub open spec fn with_state(self, side: u8, state: JoinState) -> World {
        if side == SideType::Left {
            World { left: state.update, right: state.matched, ..self }
        } else {
            World { right: state.update, left: state.matched, ..self }
        }
    }
}

/// Rows have `width` columns, and there are finitely many.
pub open spec fn sized(rows: Rows, width: nat) -> bool {
    &&& rows.dom().finite()
    &&& forall|pk: RowView| #[trigger] rows.contains_key(pk) ==> rows[pk].row.len() == width
}

/// The rows of the state store have `width` columns, and under each key there are finitely many.
pub open spec fn store_fits(store: Store, width: nat) -> bool {
    forall|key: RowView| sized(#[trigger] stored(store, key), width)
}

/// What is in memory agrees with the state store.
pub open spec fn tracks(table: TableView, store: Store) -> bool {
    forall|key: RowView|
        has_key(table, key) ==> (#[trigger] at(table, key)).tracks(stored(store, key))
}

/// One side is in order.
pub open spec fn side_good(table: TableView, store: Store, width: nat) -> bool {
    &&& table_well_formed(table)
    &&& table_fits(table, width)
    &&& store_fits(store, width)
    &&& tracks(table, store)
}

/// The invariant of a join: both sides are in order, and the degrees are right.
pub open spec fn good(setup: Setup, world: World, c: Condition) -> bool {
    &&& side_good(world.left, world.left_store, setup.left_width)
    &&& side_good(world.right, world.right_store, setup.right_width)
    &&& consistent(
        setup.layout(SideType::Left),
        world.state(SideType::Left),
        world.stores(SideType::Left),
        c,
    )
}

/// The rows of a side under one key have the width of the side.
pub proof fn lemma_rows_sized(table: TableView, store: Store, width: nat, key: RowView)
    requires
        side_good(table, store, width),
    ensures
        sized(rows_at(table, store, key), width),
{
    lemma_table_fits_at(table, key, width);
    let entry = entry_or_unknown(table, key);
    let base = stored(store, key);
    assert(sized(base, width));
    let rows = rows_at(table, store, key);
    match entry.cached {
        Some(list) => {
            crate::keyed::lemma_to_map_finite(list);
            assert forall|pk: RowView| #[trigger] rows.contains_key(pk) implies rows[pk].row.len()
                == width by {
                assert(list[pos(list, pk)].1.row.len() == width);
            }
        },
        None => {
            crate::keyed::lemma_to_map_finite(entry.pending);
            assert(rows.dom().subset_of(base.dom().union(to_map(entry.pending).dom())));
            vstd::set_lib::lemma_set_subset_finite(
                base.dom().union(to_map(entry.pending).dom()),
                rows.dom(),
            );
            assert forall|pk: RowView| #[trigger] rows.contains_key(pk) implies rows[pk].row.len()
                == width by {
                if has_key(entry.pending, pk) {
                    assert(entry.pending[pos(entry.pending, pk)].1 is Some);
                } else {
                    assert(base.contains_key(pk));
                }
            }
        },
    }
}

/// A sum over pairs can be taken in either order.
proof fn lemma_sum_swap(a: Rows, b: Rows, f: spec_fn(JoinRowView, JoinRowView) -> int)
    requires
        a.dom().finite(),
        b.dom().finite(),
    ensures
        sum(a, |x: JoinRowView| sum(b, |y: JoinRowView| f(x, y))) == sum(
            b,
            |y: JoinRowView| sum(a, |x: JoinRowView| f(x, y)),
        ),
    decreases a.dom().len(),
{
    let rows = |x: JoinRowView| sum(b, |y: JoinRowView| f(x, y));
    let columns = |y: JoinRowView| sum(a, |x: JoinRowView| f(x, y));
    if a.dom().len() == 0 {
        assert(a.dom() =~= Set::empty()) by {
            vstd::set_lib::lemma_set_empty_equivalency_len(a.dom());
        }
        lemma_sum_zero(b, columns);
    } else {
        let k = a.dom().choose();
        assert(a.dom().contains(k));
        let rest = a.remove(k);
        assert(rest.dom() =~= a.dom().remove(k));
        lemma_sum_remove(a, rows, k);
        lemma_sum_swap(rest, b, f);
        let columns_rest = |y: JoinRowView| sum(rest, |x: JoinRowView| f(x, y));
        let first = |y: JoinRowView| f(a[k], y);
        assert forall|j: RowView| #[trigger] b.contains_key(j) implies columns(b[j]) == columns_rest(
            b[j],
        ) + first(b[j]) by {
            lemma_sum_remove(a, |x: JoinRowView| f(x, b[j]), k);
        }
        lemma_sum_add(b, columns_rest, b, columns, first);
        assert(rows(a[k]) == sum(b, first)) by {
            lemma_sum_same(b, first, b, |y: JoinRowView| f(a[k], y));
        }
    }
}

/// Two rows of the right widths are joined to the same row from either side.
proof fn lemma_same_pair(setup: Setup, l: RowView, r: RowView)
    requires
        !(semi(setup.join_type) || anti(setup.join_type)),
        l.len() == setup.left_width,
        r.len() == setup.right_width,
    ensures
        setup.layout(SideType::Left).both(l, r) == setup.layout(SideType::Right).both(r, l),
        joined_row(setup.layout(SideType::Left), l, r) == joined_row(
            setup.layout(SideType::Right),
            r,
            l,
        ),
{
    assert(setup.layout(SideType::Left).both(l, r) =~= setup.layout(SideType::Right).both(r, l));
    assert(joined_row(setup.layout(SideType::Left), l, r) =~= joined_row(
        setup.layout(SideType::Right),
        r,
        l,
    ));
}

/// Two rows belong together from either side.
proof fn lemma_same_verdict(setup: Setup, c: Condition, key: RowView, l: RowView, r: RowView)
    requires
        setup.symmetric(c),
        l.len() == setup.left_width,
        r.len() == setup.right_width,
    ensures
        belong(setup.layout(SideType::Left), key, c)(l, r) == belong(
            setup.layout(SideType::Right),
            key,
            c,
        )(r, l),
{
    if !(semi(setup.join_type) || anti(setup.join_type)) {
        lemma_same_pair(setup, l, r);
    } else {
        assert(c(joined_row(setup.layout(SideType::Left), l, r)) == c(
            joined_row(setup.layout(SideType::Right), r, l),
        ));
    }
}

/// The numbers of matches are the same from either side.
proof fn lemma_flip_matches(setup: Setup, c: Condition, key: RowView, left: Rows, right: Rows)
    requires
        setup.symmetric(c),
        sized(left, setup.left_width),
        sized(right, setup.right_width),
    ensures
        ({
            let p = belong(setup.layout(SideType::Left), key, c);
            let q = belong(setup.layout(SideType::Right), key, c);
            &&& forall|k: RowView| #[trigger]
                left.contains_key(k) ==> matches_of_update(p, left[k].row, right)
                    == matches_of_matched(q, right, left[k].row)
            &&& forall|k: RowView| #[trigger]
                right.contains_key(k) ==> matches_of_matched(p, left, right[k].row)
                    == matches_of_update(q, right[k].row, left)
        }),
{
    let p = belong(setup.layout(SideType::Left), key, c);
    let q = belong(setup.layout(SideType::Right), key, c);
    assert forall|k: RowView| #[trigger] left.contains_key(k) implies matches_of_update(
        p,
        left[k].row,
        right,
    ) == matches_of_matched(q, right, left[k].row) by {
        let f = |m: JoinRowView| one_if(p(left[k].row, m.row));
        let g = |u: JoinRowView| one_if(q(u.row, left[k].row));
        assert forall|j: RowView| #[trigger] right.contains_key(j) implies g(right[j]) == f(
            right[j],
        ) by {
            lemma_same_verdict(setup, c, key, left[k].row, right[j].row);
        }
        lemma_sum_same(right, f, right, g);
    }
    assert forall|k: RowView| #[trigger] right.contains_key(k) implies matches_of_matched(
        p,
        left,
        right[k].row,
    ) == matches_of_update(q, right[k].row, left) by {
        let f = |u: JoinRowView| one_if(p(u.row, right[k].row));
        let g = |m: JoinRowView| one_if(q(right[k].row, m.row));
        assert forall|j: RowView| #[trigger] left.contains_key(j) implies g(left[j]) == f(
            left[j],
        ) by {
            lemma_same_verdict(setup, c, key, left[j].row, right[k].row);
        }
        lemma_sum_same(left, f, left, g);
    }
}

/// The join is the same from either side, and so are the degrees.
pub proof fn lemma_flip(setup: Setup, c: Condition, key: RowView, left: Rows, right: Rows, o: RowView)
    requires
        setup.symmetric(c),
        sized(left, setup.left_width),
        sized(right, setup.right_width),
    ensures
        ({
            let a = setup.layout(SideType::Left);
            let b = setup.layout(SideType::Right);
            let p = belong(a, key, c);
            let q = belong(b, key, c);
            &&& degrees_right(p, left, right) == degrees_right(q, right, left)
            &&& join_count(a, p, left, right, o) == join_count(b, q, right, left, o)
        }),
{
    let a = setup.layout(SideType::Left);
    let b = setup.layout(SideType::Right);
    let p = belong(a, key, c);
    let q = belong(b, key, c);
    lemma_flip_matches(setup, c, key, left, right);
    assert(degrees_right(p, left, right) == degrees_right(q, right, left)) by {
        assert(degrees_right(p, left, right) ==> degrees_right(q, right, left));
        assert(degrees_right(q, right, left) ==> degrees_right(p, left, right));
    }
    lemma_flip_alone(setup, c, key, left, right, true, o);
    lemma_flip_alone(setup, c, key, left, right, false, o);
    if !(semi(setup.join_type) || anti(setup.join_type)) {
        lemma_flip_pairs(setup, c, key, left, right, o);
    }
}

proof fn lemma_flip_alone(
    setup: Setup,
    c: Condition,
    key: RowView,
    left: Rows,
    right: Rows,
    hit: bool,
    o: RowView,
)
    requires
        setup.symmetric(c),
        sized(left, setup.left_width),
        sized(right, setup.right_width),
    ensures
        ({
            let a = setup.layout(SideType::Left);
            let b = setup.layout(SideType::Right);
            let p = belong(a, key, c);
            let q = belong(b, key, c);
            &&& updates_alone(a, p, left, right, hit, o) == matched_alone(b, q, right, left, hit, o)
            &&& matched_alone(a, p, left, right, hit, o) == updates_alone(b, q, right, left, hit, o)
        }),
{
    let a = setup.layout(SideType::Left);
    let b = setup.layout(SideType::Right);
    let p = belong(a, key, c);
    let q = belong(b, key, c);
    lemma_flip_matches(setup, c, key, left, right);
    let f = |u: JoinRowView|
        one_if((matches_of_update(p, u.row, right) > 0) == hit && a.only_update(u.row) == o);
    let g = |m: JoinRowView|
        one_if((matches_of_matched(q, right, m.row) > 0) == hit && b.only_matched(m.row) == o);
    assert forall|k: RowView| #[trigger] left.contains_key(k) implies g(left[k]) == f(left[k]) by {}
    lemma_sum_same(left, f, left, g);
    let f2 = |m: JoinRowView|
        one_if((matches_of_matched(p, left, m.row) > 0) == hit && a.only_matched(m.row) == o);
    let g2 = |u: JoinRowView|
        one_if((matches_of_update(q, u.row, left) > 0) == hit && b.only_update(u.row) == o);
    assert forall|k: RowView| #[trigger] right.contains_key(k) implies g2(right[k]) == f2(
        right[k],
    ) by {}
    lemma_sum_same(right, f2, right, g2);
}

proof fn lemma_flip_pairs(setup: Setup, c: Condition, key: RowView, left: Rows, right: Rows, o: RowView)
    requires
        !(semi(setup.join_type) || anti(setup.join_type)),
        setup.symmetric(c),
        sized(left, setup.left_width),
        sized(right, setup.right_width),
    ensures
        ({
            let a = setup.layout(SideType::Left);
            let b = setup.layout(SideType::Right);
            pairs(a, belong(a, key, c), left, right, o) == pairs(
                b,
                belong(b, key, c),
                right,
                left,
                o,
            )
        }),
{
    let a = setup.layout(SideType::Left);
    let b = setup.layout(SideType::Right);
    let p = belong(a, key, c);
    let q = belong(b, key, c);
    let f = |x: JoinRowView, y: JoinRowView| one_if(p(x.row, y.row) && a.both(x.row, y.row) == o);
    lemma_sum_swap(left, right, f);
    // from the left
    let rows = |x: JoinRowView| sum(right, |y: JoinRowView| f(x, y));
    let left_pairs = |u: JoinRowView| pairs_with(a, p, u.row, right, o);
    assert forall|k: RowView| #[trigger] left.contains_key(k) implies rows(left[k]) == left_pairs(
        left[k],
    ) by {
        lemma_sum_same(
            right,
            |m: JoinRowView| one_if(p(left[k].row, m.row) && a.both(left[k].row, m.row) == o),
            right,
            |y: JoinRowView| f(left[k], y),
        );
    }
    lemma_sum_same(left, left_pairs, left, rows);
    // from the right
    let columns = |y: JoinRowView| sum(left, |x: JoinRowView| f(x, y));
    let right_pairs = |u: JoinRowView| pairs_with(b, q, u.row, left, o);
    assert forall|k: RowView| #[trigger] right.contains_key(k) implies columns(right[k])
        == right_pairs(right[k]) by {
        let g = |m: JoinRowView| one_if(q(right[k].row, m.row) && b.both(right[k].row, m.row) == o);
        let h = |x: JoinRowView| f(x, right[k]);
        assert forall|j: RowView| #[trigger] left.contains_key(j) implies h(left[j]) == g(
            left[j],
        ) by {
            lemma_same_pair(setup, left[j].row, right[k].row);
            lemma_same_verdict(setup, c, key, left[j].row, right[k].row);
        }
        lemma_sum_same(left, g, left, h);
    }
    lemma_sum_same(right, right_pairs, right, columns);
}

/// The state store after one write.
pub open spec fn written(store: Store, write: WriteView) -> Store {
    let rows = stored(store, write.key);
    store.insert(
        write.key,
        match write.row {
            Some(row) => rows.insert(write.pk, row),
            None => rows.remove(write.pk),
        },
    )
}

/// The state store after writes, one after the other.
pub open spec fn all_written(store: Store, writes: Seq<WriteView>) -> Store
    decreases writes.len(),
{
    if writes.len() == 0 {
        store
    } else {
        written(all_written(store, writes.drop_last()), writes.last())
    }
}

proof fn lemma_written_concat(store: Store, a: Seq<WriteView>, b: Seq<WriteView>)
    ensures
        all_written(store, a + b) == all_written(all_written(store, a), b),
    decreases b.len(),
{
    if b.len() == 0 {
        assert(a + b =~= a);
    } else {
        assert((a + b).drop_last() =~= a + b.drop_last());
        lemma_written_concat(store, a, b.drop_last());
    }
}

/// The writes of an entry bring the state store to what the entry says.
proof fn lemma_entry_written(store: Store, key: RowView, entry: EntryView)
    requires
        distinct(entry.pending),
    ensures
        forall|k: RowView| #[trigger]
            stored(all_written(store, entry_writes(key, entry)), k) == (if k == key {
                merged(stored(store, key), entry.pending)
            } else {
                stored(store, k)
            }),
    decreases entry.pending.len(),
{
    let writes = entry_writes(key, entry);
    if entry.pending.len() == 0 {
        assert(writes =~= Seq::empty());
        assert(merged(stored(store, key), entry.pending) =~= stored(store, key));
    } else {
        let less = EntryView { pending: entry.pending.drop_last(), ..entry };
        let last = entry.pending.last();
        crate::keyed::lemma_distinct_prefix(entry.pending);
        lemma_entry_written(store, key, less);
        assert(writes.drop_last() =~= entry_writes(key, less));
        assert(writes.last() == (WriteView { key, pk: last.0, row: last.1 }));
        let base = stored(store, key);
        crate::join_state::lemma_merged_write(base, less.pending, last.0, last.1);
        assert(less.pending.push((last.0, last.1)) =~= entry.pending);
        let before = all_written(store, entry_writes(key, less));
        assert(stored(before, key) == merged(base, less.pending));
        assert forall|k: RowView| #[trigger] stored(all_written(store, writes), k) == (if k == key {
            merged(base, entry.pending)
        } else {
            stored(store, k)
        }) by {
            assert(stored(before, k) == (if k == key {
                merged(base, less.pending)
            } else {
                stored(store, k)
            }));
        }
    }
}

/// The writes of a table bring the state store to what the table says.
pub proof fn lemma_table_written(store: Store, table: TableView)
    requires
        table_well_formed(table),
    ensures
        forall|k: RowView| #[trigger]
            stored(all_written(store, table_writes(table)), k) == (if has_key(table, k) {
                merged(stored(store, k), at(table, k).pending)
            } else {
                stored(store, k)
            }),
    decreases table.len(),
{
    if table.len() == 0 {
        assert(all_written(store, table_writes(table)) == store);
    } else {
        let less = table.drop_last();
        let key = table.last().0;
        let entry = table.last().1;
        crate::keyed::lemma_distinct_prefix(table);
        assert forall|i: int| 0 <= i < less.len() implies (#[trigger] less[i]).1.well_formed() by {
            assert(table[i].1.well_formed());
        }
        assert(table[table.len() - 1].1.well_formed());
        lemma_table_written(store, less);
        let before = all_written(store, table_writes(less));
        lemma_written_concat(store, table_writes(less), entry_writes(key, entry));
        lemma_entry_written(before, key, entry);
        assert forall|k: RowView| #[trigger] stored(all_written(store, table_writes(table)), k) == (
        if has_key(table, k) {
            merged(stored(store, k), at(table, k).pending)
        } else {
            stored(store, k)
        }) by {
            assert(to_map(table) == to_map(less).insert(key, entry));
            assert(to_map(table).contains_key(k) == (k == key || to_map(less).contains_key(k)));
            assert(stored(before, k) == (if has_key(less, k) {
                merged(stored(store, k), at(less, k).pending)
            } else {
                stored(store, k)
            }));
            if k == key {
                assert(to_map(table)[k] == entry);
            } else if has_key(less, k) {
                assert(to_map(table)[k] == to_map(less)[k]);
            }
        }
    }
}

proof fn lemma_cleaned_at(table: TableView, key: RowView)
    requires
        table_well_formed(table),
    ensures
        has_key(cleaned(table), key) == has_key(table, key),
        has_key(table, key) ==> at(cleaned(table), key) == (EntryView {
            cached: at(table, key).cached,
            pending: Seq::empty(),
        }),
{
    let t = cleaned(table);
    crate::join_state::lemma_cleaned(table);
    if has_key(table, key) {
        let i = pos(table, key);
        assert(t[i].0 == key);
        crate::keyed::lemma_at_index(t, i);
    }
    if has_key(t, key) {
        let i = pos(t, key);
        assert(table[i].0 == key);
    }
}

proof fn lemma_evicted_at(table: TableView, cap: nat, key: RowView)
    requires
        table_well_formed(table),
    ensures
        has_key(evicted(table, cap), key) ==> has_key(table, key) && at(evicted(table, cap), key)
            == at(table, key),
{
    let t = evicted(table, cap);
    crate::join_state::lemma_evicted(table, cap);
    if has_key(t, key) && table.len() > cap {
        let i = pos(t, key);
        let d = table.len() - cap;
        assert(t[i] == table[i + d]);
        crate::keyed::lemma_at_index(table, i + d);
        crate::keyed::lemma_at_index(t, i);
    }
}

/// A flush, and what is evicted with it, leave the rows of a side as they are. Afterwards the state
/// store has them all.
pub proof fn law_flush(table: TableView, store: Store, width: nat, cap: nat)
    requires
        side_good(table, store, width),
    ensures
        ({
            let after = evicted(cleaned(table), cap);
            let store_after = all_written(store, table_writes(table));
            &&& side_good(after, store_after, width)
            &&& forall|key: RowView| #[trigger]
                rows_at(after, store_after, key) == rows_at(table, store, key)
            &&& forall|key: RowView| #[trigger]
                stored(store_after, key) == rows_at(table, store, key)
        }),
{
    let clean = cleaned(table);
    let after = evicted(clean, cap);
    let store_after = all_written(store, table_writes(table));
    lemma_table_written(store, table);
    crate::join_state::lemma_cleaned(table);
    crate::join_state::lemma_cleaned_fits(table, width);
    crate::join_state::lemma_evicted(clean, cap);
    crate::join_state::lemma_evicted_fits(clean, cap, width);
    assert forall|key: RowView| #[trigger] stored(store_after, key) == rows_at(
        table,
        store,
        key,
    ) by {
        if has_key(table, key) {
            assert(at(table, key).tracks(stored(store, key)));
        } else {
            assert(merged(stored(store, key), EntryView::unknown().pending) =~= stored(store, key));
        }
    }
    assert forall|key: RowView| #[trigger] rows_at(after, store_after, key) == rows_at(
        table,
        store,
        key,
    ) by {
        lemma_cleaned_at(table, key);
        lemma_evicted_at(clean, cap, key);
        let base = stored(store_after, key);
        assert(merged(base, Seq::empty()) =~= base);
    }
    assert forall|key: RowView| has_key(after, key) implies (#[trigger] at(after, key)).tracks(
        stored(store_after, key),
    ) by {
        lemma_cleaned_at(table, key);
        lemma_evicted_at(clean, cap, key);
        let base = stored(store_after, key);
        assert(merged(base, Seq::empty()) =~= base);
        assert(at(table, key).tracks(stored(store, key)));
    }
    assert forall|key: RowView| sized(#[trigger] stored(store_after, key), width) by {
        lemma_rows_sized(table, store, width, key);
    }
}

/// Rows that come from the state store leave the rows of a side as they are.
pub proof fn law_fetch(table: TableView, store: Store, width: nat, key: RowView, base: RowsView)
    requires
        side_good(table, store, width),
        distinct(base),
        rows_fit(base, width),
        to_map(base) == stored(store, key),
    ensures
        ({
            let after = put_last(table, key, entry_or_unknown(table, key).with_cache(base));
            &&& side_good(after, store, width)
            &&& forall|k: RowView| #[trigger] rows_at(after, store, k) == rows_at(table, store, k)
            &&& crate::join_state::resident(after, key)
        }),
{
    let entry = entry_or_unknown(table, key);
    let new = entry.with_cache(base);
    let after = put_last(table, key, new);
    lemma_table_fits_at(table, key, width);
    lemma_overlay(base, entry.pending);
    lemma_overlay_fits(base, entry.pending, width);
    lemma_table_fits_put(table, key, new, width);
    lemma_put_last(table, key, new);
    assert forall|k: RowView| #[trigger] rows_at(after, store, k) == rows_at(table, store, k) by {
        if k == key && has_key(table, key) {
            assert(at(table, key).tracks(stored(store, key)));
        }
    }
    assert forall|k: RowView| has_key(after, k) implies (#[trigger] at(after, k)).tracks(
        stored(store, k),
    ) by {
        if k != key {
            assert(at(table, k).tracks(stored(store, k)));
        }
    }
}

proof fn lemma_set_degree_tracks(entry: EntryView, base: Rows, i: int, degree: nat)
    requires
        entry.well_formed(),
        entry.cached is Some,
        0 <= i < entry.cached->0.len(),
        entry.tracks(base),
    ensures
        entry.set_degree(i, degree).tracks(base),
{
    let rows = entry.cached->0;
    let pk = rows[i].0;
    let row = JoinRowView { degree, ..rows[i].1 };
    crate::keyed::lemma_at_index(rows, i);
    crate::keyed::lemma_set_at(rows, pk, row);
    crate::join_state::lemma_merged_write(base, entry.pending, pk, Some(row));
}

proof fn lemma_scan_tracks(
    layout: Layout,
    row: RowView,
    entry: EntryView,
    verdicts: Seq<bool>,
    width: nat,
    base: Rows,
)
    requires
        entry.well_formed(),
        entry_fits(entry, width),
        entry.cached is Some,
        verdicts.len() <= entry.cached->0.len(),
        entry.tracks(base),
    ensures
        scan_insert(layout, row, entry, verdicts).entry.tracks(base),
        scan_delete(layout, row, entry, verdicts).entry.tracks(base),
    decreases verdicts.len(),
{
    if verdicts.len() > 0 {
        let i = verdicts.len() - 1;
        lemma_scan_tracks(layout, row, entry, verdicts.drop_last(), width, base);
        lemma_scan_insert(layout, row, entry, verdicts.drop_last(), width);
        lemma_scan_delete(layout, row, entry, verdicts.drop_last(), width);
        let a = scan_insert(layout, row, entry, verdicts.drop_last());
        let b = scan_delete(layout, row, entry, verdicts.drop_last());
        let degree = entry.cached->0[i].1.degree;
        lemma_set_degree_tracks(a.entry, base, i, degree + 1);
        lemma_set_degree_tracks(b.entry, base, i, (degree - 1) as nat);
    }
}

proof fn lemma_put_tracks(table: TableView, store: Store, key: RowView, entry: EntryView)
    requires
        table_well_formed(table),
        tracks(table, store),
        entry.tracks(stored(store, key)),
    ensures
        tracks(put_last(table, key, entry), store),
{
    lemma_put_last(table, key, entry);
    let after = put_last(table, key, entry);
    assert forall|k: RowView| has_key(after, k) implies (#[trigger] at(after, k)).tracks(
        stored(store, k),
    ) by {
        if k != key {
            assert(at(table, k).tracks(stored(store, k)));
        }
    }
}

/// A change keeps what is in memory in agreement with the state store.
proof fn lemma_step_tracks(
    rules: Rules,
    state: JoinState,
    stores: Stores,
    change: Record,
    judged: JudgedView,
)
    requires
        state_fits(rules, state),
        ({
            let key = project(change.row, rules.update_keys);
            row_has_null(key) || resident(state.matched, key) && judged.covers(
                at(state.matched, key).cached->0.len(),
            )
        }),
        tracks(state.update, stores.update),
        tracks(state.matched, stores.matched),
    ensures
        tracks(step(rules, state, change, judged).state.update, stores.update),
        tracks(step(rules, state, change, judged).state.matched, stores.matched),
{
    let key = project(change.row, rules.update_keys);
    let pk = project(change.row, rules.update_pks);
    let own = entry_or_unknown(state.update, key);
    let base = stored(stores.update, key);
    lemma_table_fits_at(state.update, key, rules.layout.update_width);
    assert(own.tracks(base)) by {
        if has_key(state.update, key) {
            assert(at(state.update, key).tracks(base));
        }
    }
    lemma_put_tracks(state.update, stores.update, key, own);
    let none = JoinRowView { row: change.row, degree: 0 };
    lemma_content_write(own, base, pk, none);
    lemma_put_tracks(state.update, stores.update, key, own.remove(pk));
    lemma_put_tracks(state.update, stores.update, key, own.insert(pk, none));
    if !row_has_null(key) {
        let entry = at(state.matched, key);
        let mw = rules.layout.matched_width;
        let mbase = stored(stores.matched, key);
        lemma_table_fits_at(state.matched, key, mw);
        assert(entry.tracks(mbase));
        lemma_scan_tracks(rules.layout, change.row, entry, judged.verdicts, mw, mbase);
        lemma_scan_insert(rules.layout, change.row, entry, judged.verdicts, mw);
        let scan_i = scan_insert(rules.layout, change.row, entry, judged.verdicts);
        let scan_d = scan_delete(rules.layout, change.row, entry, judged.verdicts);
        let new = JoinRowView { row: change.row, degree: scan_i.matched };
        lemma_content_write(own, base, pk, new);
        lemma_put_tracks(state.update, stores.update, key, own.insert(pk, new));
        lemma_put_tracks(state.matched, stores.matched, key, scan_i.entry);
        lemma_put_tracks(state.matched, stores.matched, key, scan_d.entry);
        let gone = project(entry.cached->0[0].1.row, rules.matched_pks);
        lemma_content_write(scan_i.entry, mbase, gone, new);
        lemma_put_tracks(state.matched, stores.matched, key, scan_i.entry.remove(gone));
    }
}

/// Changes keep what is in memory in agreement with the state store, and the tables in order,
/// whatever the verdicts are.
pub proof fn law_changes_tracked(
    rules: Rules,
    state: JoinState,
    stores: Stores,
    c: Condition,
    changes: Seq<Record>,
)
    requires
        state_fits(rules, state),
        at_hand(rules, state, changes),
        tracks(state.update, stores.update),
        tracks(state.matched, stores.matched),
    ensures
        state_fits(rules, run(rules, state, changes, c).state),
        tracks(run(rules, state, changes, c).state.update, stores.update),
        tracks(run(rules, state, changes, c).state.matched, stores.matched),
        forall|key: RowView|
            resident(state.matched, key) ==> #[trigger] resident(
                run(rules, state, changes, c).state.matched,
                key,
            ),
    decreases changes.len(),
{
    if changes.len() > 0 {
        let before = changes.drop_last();
        let change = changes.last();
        assert forall|i: int| 0 <= i < before.len() implies (
        #[trigger] before[i]).row.len() == rules.layout.update_width && (row_has_null(
            project(before[i].row, rules.update_keys),
        ) || resident(state.matched, project(before[i].row, rules.update_keys))) by {
            assert(before[i] == changes[i]);
        }
        law_changes_tracked(rules, state, stores, c, before);
        assert(change == changes[changes.len() - 1]);
        let mid = run(rules, state, before, c);
        if mid.failure is None {
            let key = project(change.row, rules.update_keys);
            let judged = judged_by(rules, mid.state, change.row, c);
            if !row_has_null(key) {
                let rows = candidates(rules, mid.state, change.row);
                lemma_judge_covers(rules.layout, change.row, rows, c, rows.len());
            }
            lemma_step(rules, mid.state, change, judged);
            lemma_step_resident(rules, mid.state, change, judged);
            lemma_step_tracks(rules, mid.state, stores, change, judged);
        }
    }
}

proof fn lemma_judge_covers(layout: Layout, row: RowView, rows: RowsView, c: Condition, n: nat)
    requires
        n <= rows.len(),
    ensures
        judge(layout, row, rows, c, n).covers(n),
    decreases n,
{
    if n > 0 {
        lemma_judge_covers(layout, row, rows, c, (n - 1) as nat);
    }
}

/// Something that happens to a join.
pub enum Event {
    /// Changes come on a side.
    Changes { side: u8, changes: Seq<Record> },
    /// Rows under a join key of a side come from the state store.
    Fetched { side: u8, key: RowView, base: RowsView },
    /// What has not been written is written, and at most so many entries stay in memory.
    Flushed { left_cap: nat, right_cap: nat },
}

/// What an event leaves, and the changes that the join puts out.
pub open spec fn after_event(setup: Setup, world: World, c: Condition, event: Event) -> (
    World,
    Seq<Record>,
) {
    match event {
        Event::Changes { side, changes } => {
            let done = run(setup.rules(side), world.state(side), changes, c);
            (world.with_state(side, done.state), done.records)
        },
        Event::Fetched { side, key, base } => {
            let state = world.state(side);
            let entry = entry_or_unknown(state.update, key).with_cache(base);
            (
                world.with_state(
                    side,
                    JoinState { update: put_last(state.update, key, entry), ..state },
                ),
                Seq::empty(),
            )
        },
        Event::Flushed { left_cap, right_cap } => {
            (
                World {
                    left: evicted(cleaned(world.left), left_cap),
                    right: evicted(cleaned(world.right), right_cap),
                    left_store: all_written(world.left_store, table_writes(world.left)),
                    right_store: all_written(world.right_store, table_writes(world.right)),
                },
                Seq::empty(),
            )
        },
    }
}

/// The changes make sense and find the rows that they may match in memory, and the condition can be
/// evaluated on those; rows that are fetched are those of the state store.
pub open spec fn lawful_event(setup: Setup, world: World, c: Condition, event: Event) -> bool {
    match event {
        Event::Changes { side, changes } => {
            &&& side <= 1
            &&& at_hand(setup.rules(side), world.state(side), changes)
            &&& evaluated(setup.rules(side), world.state(side), c, changes)
            &&& all_sensible(
                setup.rules(side),
                world.state(side),
                world.stores(side),
                c,
                changes,
            )
        },
        Event::Fetched { side, key, base } => {
            &&& side <= 1
            &&& distinct(base)
            &&& rows_fit(base, setup.layout(side).update_width)
            &&& to_map(base) == stored(world.stores(side).update, key)
        },
        Event::Flushed { left_cap, right_cap } => true,
    }
}

/// All join keys of the changes of an event are among `keys`.
pub open spec fn event_keys_listed(setup: Setup, event: Event, keys: Seq<RowView>) -> bool {
    match event {
        Event::Changes { side, changes } => keys_listed(setup.rules(side), changes, keys),
        _ => true,
    }
}

/// How often the join of all that the sides hold under `keys` holds the row `o`.
pub open spec fn output_count(setup: Setup, world: World, c: Condition, keys: Seq<RowView>, o: RowView) -> int {
    total_count(
        setup.layout(SideType::Left),
        world.state(SideType::Left),
        world.stores(SideType::Left),
        c,
        keys,
        o,
    )
}

/// Counts and degrees are the same from either side.
proof fn lemma_flip_world(setup: Setup, world: World, c: Condition, keys: Seq<RowView>, o: RowView)
    requires
        setup.symmetric(c),
        side_good(world.left, world.left_store, setup.left_width),
        side_good(world.right, world.right_store, setup.right_width),
    ensures
        consistent(
            setup.layout(SideType::Left),
            world.state(SideType::Left),
            world.stores(SideType::Left),
            c,
        ) == consistent(
            setup.layout(SideType::Right),
            world.state(SideType::Right),
            world.stores(SideType::Right),
            c,
        ),
        output_count(setup, world, c, keys, o) == total_count(
            setup.layout(SideType::Right),
            world.state(SideType::Right),
            world.stores(SideType::Right),
            c,
            keys,
            o,
        ),
    decreases keys.len(),
{
    let a = setup.layout(SideType::Left);
    let b = setup.layout(SideType::Right);
    let sa = world.state(SideType::Left);
    let sb = world.state(SideType::Right);
    let ta = world.stores(SideType::Left);
    let tb = world.stores(SideType::Right);
    assert forall|key: RowView| #[trigger] consistent_at(a, sa, ta, c, key) == consistent_at(
        b,
        sb,
        tb,
        c,
        key,
    ) && count_at(a, sa, ta, c, key, o) == count_at(b, sb, tb, c, key, o) by {
        lemma_rows_sized(world.left, world.left_store, setup.left_width, key);
        lemma_rows_sized(world.right, world.right_store, setup.right_width, key);
        lemma_flip(
            setup,
            c,
            key,
            rows_at(world.left, world.left_store, key),
            rows_at(world.right, world.right_store, key),
            o,
        );
    }
    if consistent(b, sb, tb, c) {
        assert forall|key: RowView| #[trigger] consistent_at(a, sa, ta, c, key) by {
            assert(consistent_at(b, sb, tb, c, key));
        }
    }
    if consistent(a, sa, ta, c) {
        assert forall|key: RowView| #[trigger] consistent_at(b, sb, tb, c, key) by {
            assert(consistent_at(a, sa, ta, c, key));
        }
    }
    if keys.len() > 0 {
        lemma_flip_world(setup, world, c, keys.drop_last(), o);
        assert(consistent_at(a, sa, ta, c, keys.last()) == consistent_at(
            b,
            sb,
            tb,
            c,
            keys.last(),
        ));
    }
}

/// Where the rows of both sides are the same, so are the counts and whether the degrees are right.
proof fn lemma_same_rows(
    setup: Setup,
    before: World,
    after: World,
    c: Condition,
    keys: Seq<RowView>,
    o: RowView,
)
    requires
        forall|key: RowView| #[trigger]
            rows_at(after.left, after.left_store, key) == rows_at(before.left, before.left_store, key),
        forall|key: RowView| #[trigger]
            rows_at(after.right, after.right_store, key) == rows_at(
                before.right,
                before.right_store,
                key,
            ),
    ensures
        output_count(setup, after, c, keys, o) == output_count(setup, before, c, keys, o),
        consistent(
            setup.layout(SideType::Left),
            before.state(SideType::Left),
            before.stores(SideType::Left),
            c,
        ) ==> consistent(
            setup.layout(SideType::Left),
            after.state(SideType::Left),
            after.stores(SideType::Left),
            c,
        ),
    decreases keys.len(),
{
    let a = setup.layout(SideType::Left);
    let sb = before.state(SideType::Left);
    let tb = before.stores(SideType::Left);
    let sa = after.state(SideType::Left);
    let ta = after.stores(SideType::Left);
    if consistent(a, sb, tb, c) {
        assert forall|key: RowView| #[trigger] consistent_at(a, sa, ta, c, key) by {
            assert(consistent_at(a, sb, tb, c, key));
            assert(rows_at(after.left, after.left_store, key) == rows_at(
                before.left,
                before.left_store,
                key,
            ));
            assert(rows_at(after.right, after.right_store, key) == rows_at(
                before.right,
                before.right_store,
                key,
            ));
        }
    }
    if keys.len() > 0 {
        lemma_same_rows(setup, before, after, c, keys.drop_last(), o);
        assert(rows_at(after.left, after.left_store, keys.last()) == rows_at(
            before.left,
            before.left_store,
            keys.last(),
        ));
        assert(rows_at(after.right, after.right_store, keys.last()) == rows_at(
            before.right,
            before.right_store,
            keys.last(),
        ));
    }
}

/// The rows that a side holds under one join key, in memory or not.
pub open spec fn held(world: World, side: u8, key: RowView) -> Map<RowView, RowView> {
    plain(rows_at(world.state(side).update, world.stores(side).update, key))
}

/// The changes of an event on the side `side`.
pub open spec fn event_changes(event: Event, side: u8) -> Seq<Record> {
    match event {
        Event::Changes { side: s, changes } => if s == side {
            changes
        } else {
            Seq::empty()
        },
        _ => Seq::empty(),
    }
}

/// All changes of events on the side `side`, in their order.
pub open spec fn changes_on(events: Seq<Event>, side: u8) -> Seq<Record>
    decreases events.len(),
{
    if events.len() == 0 {
        Seq::empty()
    } else {
        changes_on(events.drop_last(), side) + event_changes(events.last(), side)
    }
}

pub proof fn lemma_taken_over_concat(
    rows: Map<RowView, RowView>,
    rules: Rules,
    key: RowView,
    a: Seq<Record>,
    b: Seq<Record>,
)
    ensures
        all_taken_over(rows, rules, key, a + b) == all_taken_over(
            all_taken_over(rows, rules, key, a),
            rules,
            key,
            b,
        ),
    decreases b.len(),
{
    if b.len() == 0 {
        assert(a + b =~= a);
    } else {
        assert((a + b).drop_last() =~= a + b.drop_last());
        lemma_taken_over_concat(rows, rules, key, a, b.drop_last());
    }
}

/// Whatever happens to a join, its invariant holds on, and the changes that it puts out are the
/// difference between the join of what its sides hold afterwards and the join of what they held
/// before. Each side takes over its changes and nothing else.
pub proof fn law_event(
    setup: Setup,
    world: World,
    c: Condition,
    event: Event,
    keys: Seq<RowView>,
    o: RowView,
)
    requires
        !setup.append_only,
        good(setup, world, c),
        setup.symmetric(c),
        lawful_event(setup, world, c, event),
        each_once(keys),
        event_keys_listed(setup, event, keys),
    ensures
        ({
            let (after, records) = after_event(setup, world, c, event);
            &&& good(setup, after, c)
            &&& net(records, o) == output_count(setup, after, c, keys, o) - output_count(
                setup,
                world,
                c,
                keys,
                o,
            )
            &&& forall|side: u8, key: RowView|
                side <= 1 ==> #[trigger] held(after, side, key) == all_taken_over(
                    held(world, side, key),
                    setup.rules(side),
                    key,
                    event_changes(event, side),
                )
        }),
{
    let (after, records) = after_event(setup, world, c, event);
    match event {
        Event::Changes { side, changes } => {
            let rules = setup.rules(side);
            let state = world.state(side);
            let stores = world.stores(side);
            lemma_flip_world(setup, world, c, keys, o);
            assert(consistent(rules.layout, state, stores, c));
            law_chunk(rules, state, stores, c, changes, keys, o);
            law_changes_tracked(rules, state, stores, c, changes);
            lemma_flip_world(setup, after, c, keys, o);
            let done = run(rules, state, changes, c);
            assert(after.state(side) == done.state);
            assert(after.stores(side) == stores);
            assert forall|s: u8, key: RowView| s <= 1 implies #[trigger] held(after, s, key)
                == all_taken_over(
                held(world, s, key),
                setup.rules(s),
                key,
                event_changes(event, s),
            ) by {
                if s != side {
                    assert(held(after, s, key) == plain(
                        rows_at(done.state.matched, stores.matched, key),
                    ));
                }
            }
        },
        Event::Fetched { side, key, base } => {
            if side == SideType::Left {
                law_fetch(world.left, world.left_store, setup.left_width, key, base);
            } else {
                law_fetch(world.right, world.right_store, setup.right_width, key, base);
            }
            lemma_same_rows(setup, world, after, c, keys, o);
            assert forall|s: u8, k: RowView| s <= 1 implies #[trigger] held(after, s, k) == held(
                world,
                s,
                k,
            ) by {
                assert(rows_at(after.left, after.left_store, k) == rows_at(
                    world.left,
                    world.left_store,
                    k,
                ));
                assert(rows_at(after.right, after.right_store, k) == rows_at(
                    world.right,
                    world.right_store,
                    k,
                ));
            }
        },
        Event::Flushed { left_cap, right_cap } => {
            law_flush(world.left, world.left_store, setup.left_width, left_cap);
            law_flush(world.right, world.right_store, setup.right_width, right_cap);
            lemma_same_rows(setup, world, after, c, keys, o);
        },
    }
}

/// What a run of events leaves, and all changes that the join puts out.
pub open spec fn after_events(setup: Setup, world: World, c: Condition, events: Seq<Event>) -> (
    World,
    Seq<Record>,
)
    decreases events.len(),
{
    if events.len() == 0 {
        (world, Seq::empty())
    } else {
        let (before, records) = after_events(setup, world, c, events.drop_last());
        let (after, more) = after_event(setup, before, c, events.last());
        (after, records + more)
    }
}

/// The history of a join: from nothing on, whatever happens, the changes that it has put out add up
/// to the join of what its sides hold; and what a side holds are the rows that came on it and were not
/// removed.
pub proof fn law_history(
    setup: Setup,
    c: Condition,
    events: Seq<Event>,
    keys: Seq<RowView>,
    o: RowView,
)
    requires
        !setup.append_only,
        setup.symmetric(c),
        forall|i: int|
            0 <= i < events.len() ==> lawful_event(
                setup,
                after_events(setup, World::empty(), c, #[trigger] events.take(i)).0,
                c,
                events[i],
            ),
        each_once(keys),
        forall|i: int|
            0 <= i < events.len() ==> event_keys_listed(setup, #[trigger] events[i], keys),
    ensures
        ({
            let (after, records) = after_events(setup, World::empty(), c, events);
            &&& good(setup, after, c)
            &&& net(records, o) == output_count(setup, after, c, keys, o)
            &&& forall|side: u8, key: RowView|
                side <= 1 ==> #[trigger] held(after, side, key) == all_taken_over(
                    Map::empty(),
                    setup.rules(side),
                    key,
                    changes_on(events, side),
                )
        }),
    decreases events.len(),
{
    if events.len() == 0 {
        lemma_empty_world(setup, c, keys, o);
        assert forall|side: u8, key: RowView| side <= 1 implies #[trigger] held(
            World::empty(),
            side,
            key,
        ) == all_taken_over(Map::empty(), setup.rules(side), key, changes_on(events, side)) by {
            assert(held(World::empty(), side, key) =~= Map::empty());
        }
    } else {
        let n = events.len() - 1;
        let less = events.drop_last();
        assert(events.take(n) =~= less);
        assert forall|i: int| 0 <= i < less.len() implies lawful_event(
            setup,
            after_events(setup, World::empty(), c, #[trigger] less.take(i)).0,
            c,
            less[i],
        ) by {
            assert(less.take(i) =~= events.take(i));
            assert(less[i] == events[i]);
        }
        assert forall|i: int| 0 <= i < less.len() implies event_keys_listed(
            setup,
            #[trigger] less[i],
            keys,
        ) by {
            assert(less[i] == events[i]);
        }
        law_history(setup, c, less, keys, o);
        let (before, records) = after_events(setup, World::empty(), c, less);
        assert(events[n] == events.last());
        law_event(setup, before, c, events.last(), keys, o);
        let (after, more) = after_event(setup, before, c, events.last());
        lemma_net_concat(records, more, o);
        assert forall|side: u8, key: RowView| side <= 1 implies #[trigger] held(after, side, key)
            == all_taken_over(Map::empty(), setup.rules(side), key, changes_on(events, side)) by {
            assert(held(before, side, key) == all_taken_over(
                Map::empty(),
                setup.rules(side),
                key,
                changes_on(less, side),
            ));
            lemma_taken_over_concat(
                Map::empty(),
                setup.rules(side),
                key,
                changes_on(less, side),
                event_changes(events.last(), side),
            );
        }
    }
}

proof fn lemma_empty_world(setup: Setup, c: Condition, keys: Seq<RowView>, o: RowView)
    ensures
        good(setup, World::empty(), c),
        output_count(setup, World::empty(), c, keys, o) == 0,
    decreases keys.len(),
{
    let w = World::empty();
    assert forall|key: RowView| #[trigger] rows_at(w.left, w.left_store, key) == Map::<
        RowView,
        JoinRowView,
    >::empty() by {
        assert(rows_at(w.left, w.left_store, key) =~= Map::empty());
    }
    let none = Map::<RowView, JoinRowView>::empty();
    assert(none.dom() =~= Set::empty());
    assert forall|key: RowView| #[trigger]
        consistent_at(
            setup.layout(SideType::Left),
            w.state(SideType::Left),
            w.stores(SideType::Left),
            c,
            key,
        ) by {
        assert(rows_at(w.left, w.left_store, key) == none);
    }
    assert forall|key: RowView| sized(#[trigger] stored(w.left_store, key), setup.left_width) by {}
    assert forall|key: RowView| sized(#[trigger] stored(w.right_store, key), setup.right_width) by {}
    if keys.len() > 0 {
        lemma_empty_world(setup, c, keys.drop_last(), o);
        assert(rows_at(w.left, w.left_store, keys.last()) == none);
        assert(count_at(
            setup.layout(SideType::Left),
            w.state(SideType::Left),
            w.stores(SideType::Left),
            c,
            keys.last(),
            o,
        ) == 0);
    }
}

} // verus!
