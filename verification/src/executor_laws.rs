//! What the parts of an executor do, as events in the history of a join.
use vstd::prelude::*;

use crate::SideType::{Left, Right};
use crate::chunk::{Record, StreamChunk};
use crate::hash_join::{FlushedData, HashJoinExecutor};
use crate::join_builder::chunk_records;
use crate::join_history::{
    Event, World, after_event, all_written, law_executor_rules, setup_of,
};
use crate::join_laws::{Store, at_hand};
use crate::join_run::{Condition, JoinOutput, PROCESSING_WINDOW_SIZE, models, run};
use crate::join_state::{
    JoinRow, JoinRowView, StateWrite, WriteView, cleaned, entry_or_unknown, evicted,
    law_entries_used_last_stay, law_handed_over, law_writes_handed_over, table_writes, writes_view,
};
use crate::join_step::{EvalError, JoinSide, prepared};
use crate::join_stream::{JoinStream, KeyType, passed};
use crate::keyed::{at, collected, has_key, lemma_put_last, pair_views};
use crate::row::{Row, RowView, project};
use crate::schema::DataType;
use crate::stream_laws::law_chunks_complete;

verus! {

/// What an executor has in memory, next to what the state store holds for it.
pub open spec fn world_of<
    F: Fn(&Row, &Vec<DataType>) -> Result<Vec<Option<bool>>, EvalError>,
    const T: u8,
>(executor: &HashJoinExecutor<F, T>, left_store: Store, right_store: Store) -> World {
    World {
        left: executor.side_l.ht@,
        right: executor.side_r.ht@,
        left_store,
        right_store,
    }
}

/// A chunk that an executor is ready for finds the rows that it may match in memory.
pub proof fn law_ready_is_at_hand<
    F: Fn(&Row, &Vec<DataType>) -> Result<Vec<Option<bool>>, EvalError>,
    const T: u8,
    const SIDE: u8,
>(executor: &HashJoinExecutor<F, T>, chunk: &StreamChunk)
    requires
        executor.ready_for::<SIDE>(chunk),
    ensures
        at_hand(executor.rules::<SIDE>(), executor.state::<SIDE>(), chunk.records()),
{
    let rules = executor.rules::<SIDE>();
    let state = executor.state::<SIDE>();
    let changes = chunk.records();
    assert forall|i: int| 0 <= i < changes.len() implies (
    #[trigger] changes[i]).row.len() == rules.layout.update_width && (crate::row::row_has_null(
        project(changes[i].row, rules.update_keys),
    ) || crate::join_state::resident(
        state.matched,
        project(changes[i].row, rules.update_keys),
    )) by {
        assert(prepared(rules, state, changes[i].row, changes.len()));
        assert(chunk.rows@[i]@.len() == chunk.width);
    }
}

/// A chunk that an executor has joined without an error is an event, and the chunks that came out
/// hold the changes that the event puts out.
pub proof fn law_joined_is_event<
    F: Fn(&Row, &Vec<DataType>) -> Result<Vec<Option<bool>>, EvalError>,
    const T: u8,
    const SIDE: u8,
>(
    before: &HashJoinExecutor<F, T>,
    after: &HashJoinExecutor<F, T>,
    chunk: &StreamChunk,
    out: JoinOutput,
    c: Condition,
    left_store: Store,
    right_store: Store,
)
    requires
        before.well_formed(),
        SIDE <= 1,
        before.joined::<SIDE>(after, chunk, out),
        models(before.cond, before.output_data_types, c),
        out.error is None,
    ensures
        ({
            let event = Event::Changes { side: SIDE, changes: chunk.records() };
            let (world, records) = after_event(
                setup_of(before),
                world_of(before, left_store, right_store),
                c,
                event,
            );
            &&& world == world_of(after, left_store, right_store)
            &&& records == chunk_records(out.chunks@).flatten()
            &&& setup_of(after) == setup_of(before)
        }),
{
    law_executor_rules::<F, T, SIDE>(before);
    let done = run(before.rules::<SIDE>(), before.state::<SIDE>(), chunk.records(), c);
    law_chunks_complete((PROCESSING_WINDOW_SIZE - 1) as nat, done);
    let world = world_of(before, left_store, right_store);
    assert(world.state(SIDE) == before.state::<SIDE>());
    assert(after.state::<SIDE>() == done.state);
}

/// A barrier that has passed is an event: what was flushed has been written.
pub proof fn law_barrier_is_event<
    F: Fn(&Row, &Vec<DataType>) -> Result<Vec<Option<bool>>, EvalError>,
    const T: u8,
>(
    before: &HashJoinExecutor<F, T>,
    after: &HashJoinExecutor<F, T>,
    epoch: u64,
    flushed: FlushedData,
    c: Condition,
    left_store: Store,
    right_store: Store,
)
    requires
        passed(before, after, epoch, flushed),
    ensures
        ({
            let event = Event::Flushed {
                left_cap: before.side_l.ht.target_cap as nat,
                right_cap: before.side_r.ht.target_cap as nat,
            };
            let (world, records) = after_event(
                setup_of(before),
                world_of(before, left_store, right_store),
                c,
                event,
            );
            &&& world == world_of(
                after,
                all_written(left_store, writes_view(flushed.left@)),
                all_written(right_store, writes_view(flushed.right@)),
            )
            &&& records == Seq::<Record>::empty()
            &&& setup_of(after) == setup_of(before)
        }),
{
}

/// Rows that have come from the state store are an event.
pub proof fn law_attached_is_event<
    F: Fn(&Row, &Vec<DataType>) -> Result<Vec<Option<bool>>, EvalError>,
    B,
    const T: u8,
>(
    before: &JoinStream<F, B, T>,
    after: &JoinStream<F, B, T>,
    key: KeyType,
    rows: Seq<(Row, JoinRow)>,
    c: Condition,
    left_store: Store,
    right_store: Store,
)
    requires
        before.attached(key, rows, after),
    ensures
        ({
            let event = Event::Fetched {
                side: key@.0,
                key: key@.1,
                base: collected(pair_views(rows)),
            };
            let (world, records) = after_event(
                setup_of(&before.executor),
                world_of(&before.executor, left_store, right_store),
                c,
                event,
            );
            &&& world == world_of(&after.executor, left_store, right_store)
            &&& records == Seq::<Record>::empty()
            &&& setup_of(&after.executor) == setup_of(&before.executor)
        }),
{
}

/// Nothing of what a side was set up with has changed.
pub open spec fn side_unchanged(before: JoinSide, after: JoinSide) -> bool {
    &&& after.key_indices == before.key_indices
    &&& after.pk_indices == before.pk_indices
    &&& after.col_types == before.col_types
    &&& after.start_pos == before.start_pos
    &&& after.ht.target_cap == before.ht.target_cap
}

/// Nothing of what an executor was set up with has changed.
pub open spec fn executor_unchanged<F, const T: u8>(
    before: HashJoinExecutor<F, T>,
    after: HashJoinExecutor<F, T>,
) -> bool {
    &&& after.output_data_types == before.output_data_types
    &&& after.schema == before.schema
    &&& after.pk_indices == before.pk_indices
    &&& after.cond == before.cond
    &&& after.identity == before.identity
    &&& after.op_info == before.op_info
    &&& after.key_indices == before.key_indices
    &&& after.append_only_optimize == before.append_only_optimize
    &&& after.prefetch_queue_depth == before.prefetch_queue_depth
    &&& after.aimd_adjust_rate_msgs == before.aimd_adjust_rate_msgs
    &&& side_unchanged(before.side_l, after.side_l)
    &&& side_unchanged(before.side_r, after.side_r)
}

/// Joining a chunk changes nothing but the entries of the two sides: not what the join was set up with,
/// nor its epochs.
pub proof fn law_joining_keeps_setup<
    F: Fn(&Row, &Vec<DataType>) -> Result<Vec<Option<bool>>, EvalError>,
    const T: u8,
    const SIDE: u8,
>(
    before: &HashJoinExecutor<F, T>,
    after: &HashJoinExecutor<F, T>,
    chunk: &StreamChunk,
    out: JoinOutput,
)
    requires
        before.joined::<SIDE>(after, chunk, out),
    ensures
        executor_unchanged(*before, *after),
        after.epoch == before.epoch,
        after.side_l.ht.epoch == before.side_l.ht.epoch,
        after.side_r.ht.epoch == before.side_r.ht.epoch,
        forall|i: int|
            0 <= i < out.chunks@.len() ==> (#[trigger] out.chunks@[i]).well_formed()
                && out.chunks@[i].visibility is None && out.chunks@[i].width
                == before.output_data_types@.len(),
{
}

/// Rows that come from the state store change the entries of their own side and nothing else; under
/// their key they are then all in memory.
pub proof fn law_attaching_keeps_the_rest<
    F: Fn(&Row, &Vec<DataType>) -> Result<Vec<Option<bool>>, EvalError>,
    B,
    const T: u8,
>(
    before: &JoinStream<F, B, T>,
    after: &JoinStream<F, B, T>,
    key: KeyType,
    rows: Seq<(Row, JoinRow)>,
)
    requires
        before.attached(key, rows, after),
        before.well_formed(),
    ensures
        executor_unchanged(before.executor, after.executor),
        after.executor.epoch == before.executor.epoch,
        key matches KeyType::Left(k) ==> {
            &&& after.executor.side_r.ht@ == before.executor.side_r.ht@
            &&& has_key(after.executor.side_l.ht@, k@)
            &&& at(after.executor.side_l.ht@, k@).cached is Some
            &&& forall|x: RowView|
                x != k@ && #[trigger] has_key(before.executor.side_l.ht@, x) ==> has_key(
                    after.executor.side_l.ht@,
                    x,
                ) && at(after.executor.side_l.ht@, x) == at(before.executor.side_l.ht@, x)
        },
        key matches KeyType::Right(k) ==> {
            &&& after.executor.side_l.ht@ == before.executor.side_l.ht@
            &&& has_key(after.executor.side_r.ht@, k@)
            &&& at(after.executor.side_r.ht@, k@).cached is Some
            &&& forall|x: RowView|
                x != k@ && #[trigger] has_key(before.executor.side_r.ht@, x) ==> has_key(
                    after.executor.side_r.ht@,
                    x,
                ) && at(after.executor.side_r.ht@, x) == at(before.executor.side_r.ht@, x)
        },
{
    let base = collected(pair_views(rows));
    match key {
        KeyType::Left(k) => {
            let table = before.executor.side_l.ht@;
            lemma_put_last(table, k@, entry_or_unknown(table, k@).with_cache(base));
        },
        KeyType::Right(k) => {
            let table = before.executor.side_r.ht@;
            lemma_put_last(table, k@, entry_or_unknown(table, k@).with_cache(base));
        },
    }
}

/// At a barrier what is pending is handed over under the epoch that ends, and the new epoch begins on
/// both sides. Afterwards nothing is pending, and no more entries are in memory than a side is to keep:
/// those used last, with the rows they had. Nothing else changes.
pub proof fn law_barrier_hands_over<
    F: Fn(&Row, &Vec<DataType>) -> Result<Vec<Option<bool>>, EvalError>,
    const T: u8,
>(
    before: &HashJoinExecutor<F, T>,
    after: &HashJoinExecutor<F, T>,
    epoch: u64,
    flushed: FlushedData,
)
    requires
        passed(before, after, epoch, flushed),
    ensures
        after.epoch == epoch,
        after.side_l.ht.epoch == epoch,
        after.side_r.ht.epoch == epoch,
        flushed.epoch == before.epoch,
        executor_unchanged(*before, *after),
        handed_over(before.side_l, after.side_l, flushed.left@),
        handed_over(before.side_r, after.side_r, flushed.right@),
{
    lemma_handed_over(before.side_l, after.side_l, flushed.left@);
    lemma_handed_over(before.side_r, after.side_r, flushed.right@);
}

/// `writes` are what `before` had pending, and `after` is `before` without them and without the entries
/// for which there is no room.
pub open spec fn handed_over(before: JoinSide, after: JoinSide, writes: Seq<StateWrite>) -> bool {
    let old_table = before.ht@;
    let new_table = after.ht@;
    let gone = old_table.len() - new_table.len();
    &&& new_table.len() <= before.ht.target_cap
    &&& gone >= 0
    &&& gone > 0 ==> new_table.len() == before.ht.target_cap
    &&& forall|i: int|
        0 <= i < new_table.len() ==> (#[trigger] new_table[i]).0 == old_table[gone + i].0
            && new_table[i].1.cached == old_table[gone + i].1.cached && new_table[i].1.pending.len()
            == 0
    &&& forall|i: int, j: int|
        #![trigger old_table[i].1.pending[j]]
        0 <= i < old_table.len() && 0 <= j < old_table[i].1.pending.len() ==> is_written(
            writes,
            old_table[i].0,
            old_table[i].1.pending[j],
        )
    &&& forall|k: int|
        0 <= k < writes.len() ==> exists|i: int|
            0 <= i < old_table.len() && (#[trigger] old_table[i]).0 == (
            #[trigger] writes[k]).key@ && old_table[i].1.pending.contains(
                (writes[k].pk@, writes[k]@.row),
            )
}

/// One of `writes` is this one, under this join key.
pub open spec fn is_written(
    writes: Seq<StateWrite>,
    key: RowView,
    write: (RowView, Option<JoinRowView>),
) -> bool {
    exists|k: int|
        0 <= k < writes.len() && (#[trigger] writes[k]).key@ == key && writes[k].pk@ == write.0
            && writes[k]@.row == write.1
}

proof fn lemma_handed_over(before: JoinSide, after: JoinSide, writes: Seq<StateWrite>)
    requires
        after.ht@ == evicted(cleaned(before.ht@), before.ht.target_cap as nat),
        writes_view(writes) == table_writes(before.ht@),
    ensures
        handed_over(before, after, writes),
{
    let old_table = before.ht@;
    let clean = cleaned(old_table);
    law_handed_over(old_table);
    law_entries_used_last_stay(clean, before.ht.target_cap as nat);
    let views = writes_view(writes);
    let new_table = after.ht@;
    let gone = old_table.len() - new_table.len();
    assert forall|i: int| 0 <= i < new_table.len() implies (#[trigger] new_table[i]).0
        == old_table[gone + i].0 && new_table[i].1.cached == old_table[gone + i].1.cached
        && new_table[i].1.pending.len() == 0 by {
        assert(new_table[i] == clean[gone + i]);
    }
    assert forall|i: int, j: int|
        #![trigger old_table[i].1.pending[j]]
        0 <= i < old_table.len() && 0 <= j < old_table[i].1.pending.len() implies is_written(
        writes,
        old_table[i].0,
        old_table[i].1.pending[j],
    ) by {
        let p = old_table[i].1.pending[j];
        let write = WriteView { key: old_table[i].0, pk: p.0, row: p.1 };
        law_writes_handed_over(old_table, write);
        assert(old_table[i].1.pending.contains((write.pk, write.row)));
        assert(views.contains(write));
        let k = choose|k: int| 0 <= k < views.len() && views[k] == write;
        assert(writes[k]@ == write);
    }
    assert forall|k: int| 0 <= k < writes.len() implies exists|i: int|
        0 <= i < old_table.len() && (#[trigger] old_table[i]).0 == (#[trigger] writes[k]).key@
            && old_table[i].1.pending.contains((writes[k].pk@, writes[k]@.row)) by {
        assert(views[k] == writes[k]@);
        assert(views.contains(views[k]));
        law_writes_handed_over(old_table, writes[k]@);
    }
}

/// A change is joined by the join key and the primary key of its own side with the rows of the other
/// side, and kept on its own.
pub proof fn law_sides_of_rules<
    F: Fn(&Row, &Vec<DataType>) -> Result<Vec<Option<bool>>, EvalError>,
    const T: u8,
>(executor: &HashJoinExecutor<F, T>)
    ensures
        ({
            let l = executor.rules::<Left>();
            let r = executor.rules::<Right>();
            &&& l.update_keys == executor.side_l.key_indices@
            &&& l.update_pks == executor.side_l.pk_indices@
            &&& l.matched_pks == executor.side_r.pk_indices@
            &&& r.update_keys == executor.side_r.key_indices@
            &&& r.update_pks == executor.side_r.pk_indices@
            &&& r.matched_pks == executor.side_l.pk_indices@
            &&& l.append_only == executor.append_only_optimize
            &&& r.append_only == executor.append_only_optimize
            &&& l.layout.join_type == T
            &&& r.layout.join_type == T
            &&& l.layout.side == 0
            &&& r.layout.side == 1
            &&& l.layout.update_width == executor.side_l.col_types@.len()
            &&& l.layout.matched_width == executor.side_r.col_types@.len()
            &&& r.layout.update_width == executor.side_r.col_types@.len()
            &&& r.layout.matched_width == executor.side_l.col_types@.len()
            &&& executor.state::<Left>().update == executor.side_l.ht@
            &&& executor.state::<Left>().matched == executor.side_r.ht@
            &&& executor.state::<Right>().update == executor.side_r.ht@
            &&& executor.state::<Right>().matched == executor.side_l.ht@
        }),
{
}

} // verus!
