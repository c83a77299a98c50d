//! What holds of the order of things: of chunks, of the queue, and of the keys that are fetched.
use vstd::prelude::*;

use crate::SideType;
use crate::SideType::{Left, Right};
use crate::chunk::{Emission, Op, Record, StreamChunk, emit, emit_all, no_emission};
use crate::hash_join::{HashJoinExecutor, law_missing_keys, lists_missing};
use crate::join_run::run_chunks;
use crate::join_state::{JoinRow, TableView, resident};
use crate::join_step::{EvalError, JoinState, Rules, Step};
use crate::join_stream::{
    Action, AlignedMessage, Flow, JoinStream, KeyType, Prefetched, adjusted, adjusted_depth, counted,
    key_views, keys_of, keys_on, wanted,
};
use crate::key_set::{KeySet, key_contents};
use crate::row::{Row, RowView, project};
use crate::schema::DataType;

verus! {

/// Chunks hold the changes that were put in, in their order: those issued and those that wait.
pub proof fn law_emission_complete(e: Emission, limit: nat, rs: Seq<Record>)
    ensures
        ({
            let after = emit_all(e, limit, rs);
            after.issued.flatten() + after.waiting == e.issued.flatten() + e.waiting + rs
        }),
    decreases rs.len(),
{
    if rs.len() == 0 {
        assert(e.issued.flatten() + e.waiting + rs =~= e.issued.flatten() + e.waiting);
    } else {
        law_emission_complete(e, limit, rs.drop_last());
        let before = emit_all(e, limit, rs.drop_last());
        let start = e.issued.flatten() + e.waiting;
        assert(start + rs =~= (start + rs.drop_last()).push(rs.last()));
        let w = before.waiting.push(rs.last());
        assert((before.issued.flatten() + before.waiting).push(rs.last())
            =~= before.issued.flatten() + w);
        if w.len() >= limit && rs.last().op != Op::UpdateDelete {
            lemma_flatten_push(before.issued, w);
            assert(before.issued.flatten() + w + Seq::<Record>::empty() =~= before.issued.flatten()
                + w);
        }
    }
}

proof fn lemma_flatten_push(chunks: Seq<Seq<Record>>, last: Seq<Record>)
    ensures
        chunks.push(last).flatten() == chunks.flatten() + last,
{
    chunks.lemma_flatten_push(last);
}

/// The chunks of a run, put one behind the other, are the changes of the run; where the run failed,
/// the first of them.
pub proof fn law_chunks_complete(limit: nat, done: Step)
    ensures
        done.failure is None ==> run_chunks(limit, done).flatten() == done.records,
        done.failure is Some ==> run_chunks(limit, done).flatten().is_prefix_of(done.records),
{
    let e = emit_all(no_emission(), limit, done.records);
    law_emission_complete(no_emission(), limit, done.records);
    let none = Seq::<Seq<Record>>::empty();
    assert(none.flatten() =~= Seq::<Record>::empty());
    assert(none.flatten() + Seq::<Record>::empty() + done.records =~= done.records);
    if done.failure is None {
        lemma_flatten_push(e.issued, e.waiting);
    } else {
        assert(e.issued.flatten() =~= done.records.take(e.issued.flatten().len() as int));
    }
}

/// An `UpdateDelete` is never the last change of a chunk that fills up, so that the change behind it
/// is in the same chunk. A chunk that fills up holds at least `limit` changes; it holds no more than
/// one above that where no two `UpdateDelete`s stand side by side.
pub proof fn law_chunk_bounds(limit: nat, rs: Seq<Record>)
    requires
        limit >= 1,
    ensures
        ({
            let e = emit_all(no_emission(), limit, rs);
            &&& forall|i: int|
                0 <= i < e.issued.len() ==> (#[trigger] e.issued[i]).len() >= limit
                    && e.issued[i].last().op != Op::UpdateDelete
            &&& e.waiting.len() >= limit ==> e.waiting.last().op == Op::UpdateDelete
            &&& apart(rs) ==> e.waiting.len() <= limit && forall|i: int|
                0 <= i < e.issued.len() ==> (#[trigger] e.issued[i]).len() <= limit + 1
            &&& e.waiting.len() > 0 ==> e.waiting.last() == rs.last()
        }),
    decreases rs.len(),
{
    if rs.len() > 0 {
        let less = rs.drop_last();
        law_chunk_bounds(limit, less);
        let before = emit_all(no_emission(), limit, less);
        let w = before.waiting.push(rs.last());
        if apart(rs) {
            assert(apart(less)) by {
                assert forall|i: int, j: int|
                    0 <= i < less.len() && j == i + 1 && j < less.len() && (
                    #[trigger] less[i]).op == Op::UpdateDelete implies (#[trigger] less[j]).op
                    != Op::UpdateDelete by {
                    assert(rs[i] == less[i] && rs[j] == less[j]);
                }
            }
            if before.waiting.len() == limit {
                assert(less.last() == rs[rs.len() - 2]);
                assert(rs[rs.len() - 2].op == Op::UpdateDelete);
                assert(rs[rs.len() - 1] == rs.last());
            }
        }
        let e = emit_all(no_emission(), limit, rs);
        assert forall|i: int| 0 <= i < e.issued.len() implies (#[trigger] e.issued[i]).len() >= limit
            && e.issued[i].last().op != Op::UpdateDelete && (apart(rs) ==> e.issued[i].len() <= limit
            + 1) by {
            if i < before.issued.len() {
                assert(e.issued[i] == before.issued[i]);
            }
        }
    }
}

/// No two `UpdateDelete`s stand side by side.
pub open spec fn apart(rs: Seq<Record>) -> bool {
    forall|i: int, j: int|
        0 <= i < rs.len() && j == i + 1 && j < rs.len() && (#[trigger] rs[i]).op == Op::UpdateDelete
            ==> (#[trigger] rs[j]).op != Op::UpdateDelete
}

/// What a message wants is what is not in memory. Each key is fetched once: those that are being
/// fetched already are not fetched again.
pub proof fn law_wanted(table: TableView, side: u8, keys: Seq<RowView>, inflight: Set<(u8, RowView)>)
    ensures
        ({
            let w = wanted(table, side, keys, inflight);
            &&& forall|key: (u8, RowView)| #[trigger]
                w.io.contains(key) <==> key.0 == side && keys.contains(key.1) && !resident(
                    table,
                    key.1,
                )
            &&& w.inflight == inflight.union(w.io)
            &&& w.fetches.no_duplicates()
            &&& forall|key: (u8, RowView)| #[trigger]
                w.fetches.contains(key) <==> w.io.contains(key) && !inflight.contains(key)
        }),
    decreases keys.len(),
{
    let w = wanted(table, side, keys, inflight);
    if keys.len() == 0 {
        assert(w.inflight =~= inflight.union(w.io));
    } else {
        let less = keys.drop_last();
        let last = keys.last();
        law_wanted(table, side, less, inflight);
        let before = wanted(table, side, less, inflight);
        assert(keys =~= less.push(last));
        assert forall|k: RowView| #[trigger] keys.contains(k) <==> less.contains(k) || k == last by {
            if less.contains(k) {
                let i = choose|i: int| 0 <= i < less.len() && less[i] == k;
                assert(keys[i] == k);
            }
            if k == last {
                assert(keys[keys.len() - 1] == k);
            }
        }
        assert(w.inflight =~= inflight.union(w.io));
        if !resident(table, last) && !before.inflight.contains((side, last)) {
            let key = (side, last);
            assert(!before.fetches.contains(key));
            assert forall|k: (u8, RowView)| #[trigger] w.fetches.contains(k) <==> before.fetches.contains(
                k,
            ) || k == key by {
                if before.fetches.contains(k) {
                    let i = choose|i: int| 0 <= i < before.fetches.len() && before.fetches[i] == k;
                    assert(w.fetches[i] == k);
                }
                if k == key {
                    assert(w.fetches[w.fetches.len() - 1] == k);
                }
            }
            assert(w.fetches.no_duplicates()) by {
                assert forall|i: int, j: int|
                    0 <= i < w.fetches.len() && 0 <= j < w.fetches.len() && i
                        != j implies w.fetches[i] != w.fetches[j] by {
                    if i < before.fetches.len() {
                        assert(before.fetches.contains(before.fetches[i]));
                    }
                    if j < before.fetches.len() {
                        assert(before.fetches.contains(before.fetches[j]));
                    }
                }
            }
        }
    }
}

/// The messages that wait, in the order in which they will be processed.
pub open spec fn in_order<F, B, const T: u8>(stream: &JoinStream<F, B, T>) -> Seq<
    (AlignedMessage<B>, KeySet),
> {
    stream.msg_queue@.reverse()
}

/// A message that comes waits behind all others.
pub proof fn law_queued_last<
    F: Fn(&Row, &Vec<DataType>) -> Result<Vec<Option<bool>>, EvalError>,
    B,
    const T: u8,
>(
    before: &JoinStream<F, B, T>,
    msg: AlignedMessage<B>,
    p: Prefetched<B>,
    after: &JoinStream<F, B, T>,
)
    requires
        before.queued(msg, p, after),
    ensures
        in_order(after) == in_order(before).push((p.msg, p.io_set)),
{
    assert(in_order(after) =~= in_order(before).push((p.msg, p.io_set)));
}

/// Messages are processed in the order in which they came, and not while a key that they wait for is
/// being fetched.
pub proof fn law_first_processed<
    F: Fn(&Row, &Vec<DataType>) -> Result<Vec<Option<bool>>, EvalError>,
    B,
    const T: u8,
>(before: &JoinStream<F, B, T>, after: &JoinStream<F, B, T>, action: Action<B>)
    requires
        before.msg_queue@.len() > 0,
        before.turned(after, action),
    ensures
        action is Output || action is Flush ==> in_order(after) == in_order(before).drop_first()
            && key_contents(before.inflight_io_set).disjoint(key_contents(in_order(before)[0].1)),
        action is Flush ==> in_order(before)[0].0 is Barrier,
        action is Output ==> !(in_order(before)[0].0 is Barrier),
        !(action is Output || action is Flush) ==> in_order(after) == in_order(before),
        !key_contents(before.inflight_io_set).disjoint(key_contents(in_order(before)[0].1))
            ==> action is Sleep,
{
    assert(in_order(before)[0] == before.msg_queue@.last());
    assert(before.msg_queue@.drop_last().reverse() =~= before.msg_queue@.reverse().drop_first());
}

/// However the depth of the queue is adjusted, the queue always takes a message.
pub proof fn law_depth_positive(flow: Flow, rate: nat, queued: nat, initial: nat)
    requires
        flow.depth >= 1,
    ensures
        adjusted(flow, rate, queued).depth >= 1,
        counted(flow, initial).depth == flow.depth,
{
}

/// Where the depth is to be looked at only after more messages than there are, it stays.
pub proof fn law_depth_left_alone(flow: Flow, rate: nat, queued: nat)
    requires
        flow.processed ==> 0 < flow.count,
        flow.count < rate,
    ensures
        adjusted(flow, rate, queued) == flow,
{
    if flow.processed {
        assert(flow.count % rate == flow.count) by (nonlinear_arith)
            requires
                0 <= flow.count < rate,
        ;
    }
}

/// An `UpdateDelete` never issues a chunk.
pub proof fn law_update_delete_waits(e: Emission, limit: nat, r: Record)
    requires
        r.op == Op::UpdateDelete,
    ensures
        emit(e, limit, r) == (Emission { issued: e.issued, waiting: e.waiting.push(r) }),
{
}

/// Under back pressure the queue becomes shorter by a quarter, rounded up to what is left; where it is
/// full it becomes longer by two; else its depth stays.
pub proof fn law_depth_by_pressure(depth: nat, pressed: bool, queued: nat)
    ensures
        ({
            let d = adjusted_depth(depth, pressed, queued);
            &&& pressed ==> 3 * depth <= 4 * d < 3 * depth + 4
            &&& !pressed && queued == depth ==> d == depth + 2
            &&& !pressed && queued != depth ==> d == depth
        }),
{
}

/// The depth is looked at once after a message has been processed, and only where the number of
/// processed messages is a multiple of the rate. That takes back the sign of pressure and leaves the
/// counts alone; looking again changes nothing.
pub proof fn law_depth_looked_at(flow: Flow, rate: nat, queued: nat)
    requires
        rate > 0,
    ensures
        ({
            let after = adjusted(flow, rate, queued);
            &&& after.no_wait == flow.no_wait
            &&& after.count == flow.count
            &&& flow.processed && flow.count % rate == 0 ==> !after.processed && !after.pressed
                && after.depth == adjusted_depth(flow.depth, flow.pressed, queued)
            &&& !(flow.processed && flow.count % rate == 0) ==> after == flow
            &&& adjusted(after, rate, queued) == after
        }),
{
}

/// A processed message counts once. There is pressure once more messages were processed without a wait
/// than the queue took at first, and it stays until the depth is looked at.
pub proof fn law_message_counted(flow: Flow, initial: nat)
    ensures
        ({
            let after = counted(flow, initial);
            &&& after.count == flow.count + 1
            &&& after.no_wait == flow.no_wait + 1
            &&& after.processed
            &&& after.depth == flow.depth
            &&& after.pressed <==> flow.pressed || after.no_wait > initial
        }),
{
}

/// A message is asked for exactly where the queue is shorter than its depth and the input has not
/// ended. Else the rows for the messages that wait are looked for, if any wait; else the join ends with
/// its input, or sleeps. Nothing but the flow changes.
pub proof fn law_what_is_next<
    F: Fn(&Row, &Vec<DataType>) -> Result<Vec<Option<bool>>, EvalError>,
    B,
    const T: u8,
>(before: &JoinStream<F, B, T>, after: &JoinStream<F, B, T>, action: Action<B>)
    requires
        after.advanced(before, action),
    ensures
        ({
            let n = before.msg_queue@.len();
            let more = n < before.max_queue_depth && !before.stream_ended;
            &&& action is PollInput <==> more
            &&& action is PollFetches <==> !more && n > 0
            &&& action is Finish <==> n == 0 && before.stream_ended
            &&& action is Sleep <==> !more && n == 0 && !before.stream_ended
            &&& after.executor == before.executor
            &&& after.msg_queue@ == before.msg_queue@
            &&& after.inflight_io_set == before.inflight_io_set
            &&& after.stream_ended == before.stream_ended
        }),
{
}

/// A message whose rows are still being fetched is waited for: nothing happens, and the count of
/// messages without a wait begins anew. One that is processed counts, and the fetches go on.
pub proof fn law_wait_or_count<
    F: Fn(&Row, &Vec<DataType>) -> Result<Vec<Option<bool>>, EvalError>,
    B,
    const T: u8,
>(before: &JoinStream<F, B, T>, after: &JoinStream<F, B, T>, action: Action<B>)
    requires
        before.msg_queue@.len() > 0,
        before.turned(after, action),
    ensures
        action is Sleep ==> {
            &&& after.executor == before.executor
            &&& after.msg_queue@ == before.msg_queue@
            &&& after.consecutive_no_wait == 0
            &&& after.msg_uuid == before.msg_uuid
            &&& after.max_queue_depth == before.max_queue_depth
        },
        action is Output || action is Flush ==> {
            &&& after.msg_uuid == before.msg_uuid + 1
            &&& after.consecutive_no_wait == before.consecutive_no_wait + 1
            &&& after.processed_msg
            &&& after.max_queue_depth == before.max_queue_depth
            &&& after.inflight_io_set == before.inflight_io_set
            &&& after.backpressure <==> before.backpressure || before.consecutive_no_wait + 1
                > before.executor.prefetch_queue_depth
        },
{
}

/// The keys that a chunk waits for are those of the other side that its visible changes have and whose
/// rows are not in memory. A barrier waits for none, and stays as it is.
pub proof fn law_prefetched_keys<
    F: Fn(&Row, &Vec<DataType>) -> Result<Vec<Option<bool>>, EvalError>,
    B,
    const T: u8,
>(
    executor: &HashJoinExecutor<F, T>,
    msg: AlignedMessage<B>,
    inflight: Set<(u8, RowView)>,
    p: Prefetched<B>,
    after: Set<(u8, RowView)>,
    key: (u8, RowView),
)
    requires
        executor.prefetched(msg, inflight, p, after),
    ensures
        match msg {
            AlignedMessage::Barrier(_) => !key_contents(p.io_set).contains(key) && p.msg == msg,
            AlignedMessage::Left(chunk) => key_contents(p.io_set).contains(key) <==> {
                &&& key.0 == SideType::Right
                &&& has_key_of(chunk.visible(), executor.side_l.key_indices@, key.1)
                &&& !resident(executor.side_r.ht@, key.1)
            },
            AlignedMessage::Right(chunk) => key_contents(p.io_set).contains(key) <==> {
                &&& key.0 == SideType::Left
                &&& has_key_of(chunk.visible(), executor.side_r.key_indices@, key.1)
                &&& !resident(executor.side_l.ht@, key.1)
            },
        },
        after == inflight.union(key_contents(p.io_set)),
        key_views(p.fetches@).no_duplicates(),
        key_views(p.fetches@).contains(key) <==> key_contents(p.io_set).contains(key)
            && !inflight.contains(key),
{
    match msg {
        AlignedMessage::Barrier(_) => {
            assert(inflight.union(key_contents(p.io_set)) =~= inflight);
        },
        AlignedMessage::Left(chunk) => {
            let keys = keys_of(chunk.visible(), executor.side_l.key_indices@);
            law_wanted(executor.side_r.ht@, SideType::Right, keys, inflight);
            lemma_has_key_of(chunk.visible(), executor.side_l.key_indices@, key.1);
        },
        AlignedMessage::Right(chunk) => {
            let keys = keys_of(chunk.visible(), executor.side_r.key_indices@);
            law_wanted(executor.side_l.ht@, SideType::Left, keys, inflight);
            lemma_has_key_of(chunk.visible(), executor.side_r.key_indices@, key.1);
        },
    }
}

/// Some change has `key` in the columns `indices`.
pub open spec fn has_key_of(changes: Seq<Record>, indices: Seq<usize>, key: RowView) -> bool {
    exists|i: int|
        {
            &&& 0 <= i < changes.len()
            &&& #[trigger] holds_key(changes[i].row, indices, key)
        }
}

/// The values of `row` in the columns `indices` are those of `key`.
pub open spec fn holds_key(row: RowView, indices: Seq<usize>, key: RowView) -> bool {
    &&& key.len() == indices.len()
    &&& forall|j: int| 0 <= j < indices.len() ==> #[trigger] key[j] == row[indices[j] as int]
}

proof fn lemma_has_key_of(changes: Seq<Record>, indices: Seq<usize>, key: RowView)
    ensures
        has_key_of(changes, indices, key) <==> keys_of(changes, indices).contains(key),
{
    let keys = keys_of(changes, indices);
    if has_key_of(changes, indices, key) {
        let i = choose|i: int|
            0 <= i < changes.len() && #[trigger] holds_key(changes[i].row, indices, key);
        assert(keys[i] =~= key);
    }
    if keys.contains(key) {
        let i = choose|i: int| 0 <= i < keys.len() && keys[i] == key;
        assert(holds_key(changes[i].row, indices, key));
    }
}

/// The keys that a message whose turn has come still lacks are those of the other side that its changes
/// have, without a null, and whose rows are not in memory.
pub proof fn law_loaded_keys<
    F: Fn(&Row, &Vec<DataType>) -> Result<Vec<Option<bool>>, EvalError>,
    B,
    const T: u8,
>(
    before: &JoinStream<F, B, T>,
    after: &JoinStream<F, B, T>,
    keys: Vec<KeyType>,
    key: (u8, RowView),
)
    requires
        before.msg_queue@.len() > 0,
        before.turned(after, Action::Load(keys)),
    ensures
        keys@.len() > 0,
        match before.msg_queue@.last().0 {
            AlignedMessage::Barrier(_) => false,
            AlignedMessage::Left(chunk) => key_views(keys@).contains(key) <==> {
                &&& key.0 == SideType::Right
                &&& forall|i: int| 0 <= i < key.1.len() ==> #[trigger] key.1[i] is Some
                &&& has_key_of(chunk.records(), before.executor.side_l.key_indices@, key.1)
                &&& !resident(before.executor.side_r.ht@, key.1)
            },
            AlignedMessage::Right(chunk) => key_views(keys@).contains(key) <==> {
                &&& key.0 == SideType::Left
                &&& forall|i: int| 0 <= i < key.1.len() ==> #[trigger] key.1[i] is Some
                &&& has_key_of(chunk.records(), before.executor.side_r.key_indices@, key.1)
                &&& !resident(before.executor.side_l.ht@, key.1)
            },
        },
{
    let e = &before.executor;
    match before.msg_queue@.last().0 {
        AlignedMessage::Barrier(_) => {},
        AlignedMessage::Left(chunk) => {
            let rules = e.rules::<Left>();
            let state = e.state::<Left>();
            let rows = choose|rows: Seq<Row>| #[trigger]
                lists_missing(rules, state, chunk.records(), rows) && key_views(keys@) == keys_on(
                    SideType::Right,
                    rows,
                );
            lemma_loaded(rules, state, chunk.records(), rows, SideType::Right, key);
        },
        AlignedMessage::Right(chunk) => {
            let rules = e.rules::<Right>();
            let state = e.state::<Right>();
            let rows = choose|rows: Seq<Row>| #[trigger]
                lists_missing(rules, state, chunk.records(), rows) && key_views(keys@) == keys_on(
                    SideType::Left,
                    rows,
                );
            lemma_loaded(rules, state, chunk.records(), rows, SideType::Left, key);
        },
    }
}

proof fn lemma_loaded(
    rules: Rules,
    state: JoinState,
    changes: Seq<Record>,
    rows: Seq<Row>,
    side: u8,
    key: (u8, RowView),
)
    requires
        lists_missing(rules, state, changes, rows),
    ensures
        keys_on(side, rows).contains(key) <==> {
            &&& key.0 == side
            &&& forall|i: int| 0 <= i < key.1.len() ==> #[trigger] key.1[i] is Some
            &&& has_key_of(changes, rules.update_keys, key.1)
            &&& !resident(state.matched, key.1)
        },
{
    let keys = keys_on(side, rows);
    law_missing_keys(rules, state, changes, rows, key.1);
    lemma_has_key_of(changes, rules.update_keys, key.1);
    let own = keys_of(changes, rules.update_keys);
    if own.contains(key.1) {
        let j = choose|j: int| 0 <= j < own.len() && own[j] == key.1;
        assert(project(changes[j].row, rules.update_keys) == key.1);
    }
    if exists|j: int|
        0 <= j < changes.len() && project((#[trigger] changes[j]).row, rules.update_keys) == key.1 {
        let j = choose|j: int|
            0 <= j < changes.len() && project((#[trigger] changes[j]).row, rules.update_keys)
                == key.1;
        assert(own[j] == key.1);
    }
    if keys.contains(key) {
        let i = choose|i: int| 0 <= i < keys.len() && keys[i] == key;
        assert(rows[i]@ == key.1);
    }
    if key.0 == side && exists|i: int| 0 <= i < rows.len() && (#[trigger] rows[i])@ == key.1 {
        let i = choose|i: int| 0 <= i < rows.len() && (#[trigger] rows[i])@ == key.1;
        assert(keys[i] == key);
    }
}

/// There is room for one more message where the counters do not reach the end of their types.
pub proof fn law_room<
    F: Fn(&Row, &Vec<DataType>) -> Result<Vec<Option<bool>>, EvalError>,
    B,
    const T: u8,
>(stream: &JoinStream<F, B, T>)
    ensures
        stream.has_room() <==> stream.max_queue_depth as int + 2 <= usize::MAX
            && stream.consecutive_no_wait as int + 1 <= usize::MAX && stream.msg_uuid as int + 1
            <= u64::MAX,
{
}

/// An executor takes a message exactly where it is a barrier, or a chunk in order whose rows have the
/// columns of its side.
pub proof fn law_taken_messages<
    F: Fn(&Row, &Vec<DataType>) -> Result<Vec<Option<bool>>, EvalError>,
    B,
    const T: u8,
>(executor: &HashJoinExecutor<F, T>, msg: AlignedMessage<B>)
    ensures
        executor.takes(msg) <==> match msg {
            AlignedMessage::Barrier(_) => true,
            AlignedMessage::Left(chunk) => {
                &&& chunk.ops@.len() == chunk.rows@.len()
                &&& chunk.visibility is Some ==> chunk.visibility->0@.len() == chunk.rows@.len()
                &&& chunk.width == executor.side_l.col_types@.len()
                &&& forall|i: int|
                    0 <= i < chunk.rows@.len() ==> (#[trigger] chunk.rows@[i]).0@.len() == chunk.width
            },
            AlignedMessage::Right(chunk) => {
                &&& chunk.ops@.len() == chunk.rows@.len()
                &&& chunk.visibility is Some ==> chunk.visibility->0@.len() == chunk.rows@.len()
                &&& chunk.width == executor.side_r.col_types@.len()
                &&& forall|i: int|
                    0 <= i < chunk.rows@.len() ==> (#[trigger] chunk.rows@[i]).0@.len() == chunk.width
            },
        },
{
    match msg {
        AlignedMessage::Barrier(_) => {},
        AlignedMessage::Left(chunk) => lemma_chunk_widths(chunk),
        AlignedMessage::Right(chunk) => lemma_chunk_widths(chunk),
    }
}

proof fn lemma_chunk_widths(chunk: StreamChunk)
    ensures
        (forall|i: int|
            0 <= i < chunk.rows@.len() ==> (#[trigger] chunk.rows@[i])@.len() == chunk.width) <==> (
        forall|i: int|
            0 <= i < chunk.rows@.len() ==> (#[trigger] chunk.rows@[i]).0@.len() == chunk.width),
{
    assert forall|i: int| 0 <= i < chunk.rows@.len() implies (#[trigger] chunk.rows@[i])@.len()
        == chunk.rows@[i].0@.len() by {}
}

/// Rows that come leave the messages that wait, and all that steers the queue, as they are. A key that
/// was being fetched is so no longer; rows for a key that was not are left alone.
pub proof fn law_rows_leave_queue_alone<
    F: Fn(&Row, &Vec<DataType>) -> Result<Vec<Option<bool>>, EvalError>,
    B,
    const T: u8,
>(
    before: &JoinStream<F, B, T>,
    after: &JoinStream<F, B, T>,
    key: KeyType,
    rows: Seq<(Row, JoinRow)>,
)
    requires
        after.loaded(before, key, rows) || after.fetched(before, key, rows),
    ensures
        after.msg_queue@ == before.msg_queue@,
        after.max_queue_depth == before.max_queue_depth,
        after.stream_ended == before.stream_ended,
        after.processed_msg == before.processed_msg,
        after.backpressure == before.backpressure,
        after.consecutive_no_wait == before.consecutive_no_wait,
        after.msg_uuid == before.msg_uuid,
        after.fetched(before, key, rows) ==> {
            &&& forall|k: (u8, RowView)| #[trigger]
                key_contents(after.inflight_io_set).contains(k) <==> key_contents(
                    before.inflight_io_set,
                ).contains(k) && k != key@
            &&& !key_contents(before.inflight_io_set).contains(key@) ==> after.executor
                == before.executor
            &&& key_contents(before.inflight_io_set).contains(key@) ==> before.attached(
                key,
                rows,
                after,
            )
        },
        after.loaded(before, key, rows) ==> before.attached(key, rows, after),
{
    assert(after.flow() == before.flow());
    assert(after.flow().depth == before.flow().depth && after.flow().no_wait == before.flow().no_wait
        && after.flow().count == before.flow().count);
}

/// Where no message is taken for now, the depth of the queue may be adjusted; nothing else of what
/// steers it changes but that the look at it is done.
pub proof fn law_settled_flow<
    F: Fn(&Row, &Vec<DataType>) -> Result<Vec<Option<bool>>, EvalError>,
    B,
    const T: u8,
>(before: &JoinStream<F, B, T>, after: &JoinStream<F, B, T>, action: Action<B>)
    requires
        after.settled(before, action),
        before.executor.aimd_adjust_rate_msgs > 0,
    ensures
        after.consecutive_no_wait == before.consecutive_no_wait,
        after.msg_uuid == before.msg_uuid,
        ({
            let looked = before.processed_msg && before.msg_uuid as int
                % before.executor.aimd_adjust_rate_msgs as int == 0;
            &&& !looked ==> {
                &&& after.max_queue_depth == before.max_queue_depth
                &&& after.processed_msg == before.processed_msg
                &&& after.backpressure == before.backpressure
            }
            &&& looked ==> {
                &&& !after.processed_msg
                &&& !after.backpressure
                &&& before.backpressure ==> 3 * before.max_queue_depth <= 4 * after.max_queue_depth
                    < 3 * before.max_queue_depth + 4
                &&& !before.backpressure && before.msg_queue@.len() == before.max_queue_depth
                    ==> after.max_queue_depth == before.max_queue_depth + 2
                &&& !before.backpressure && before.msg_queue@.len() != before.max_queue_depth
                    ==> after.max_queue_depth == before.max_queue_depth
            }
        }),
{
    let rate = before.executor.aimd_adjust_rate_msgs as nat;
    law_depth_looked_at(before.flow(), rate, before.msg_queue@.len());
    law_depth_by_pressure(
        before.flow().depth,
        before.flow().pressed,
        before.msg_queue@.len(),
    );
    assert(after.flow().depth == after.max_queue_depth);
    assert(after.flow().no_wait == after.consecutive_no_wait && after.flow().count == after.msg_uuid);
    assert(after.flow().processed == after.processed_msg && after.flow().pressed
        == after.backpressure);
}

/// A key belongs to the side that it names.
pub proof fn law_side_of_key(key: KeyType)
    ensures
        key matches KeyType::Left(k) ==> key@ == (0u8, k@),
        key matches KeyType::Right(k) ==> key@ == (1u8, k@),
{
}

/// A message that is taken waits behind the others; nothing else of what steers the queue changes but
/// what a look at its depth changes.
pub proof fn law_message_taken<
    F: Fn(&Row, &Vec<DataType>) -> Result<Vec<Option<bool>>, EvalError>,
    B,
    const T: u8,
>(
    before: &JoinStream<F, B, T>,
    msg: AlignedMessage<B>,
    fetches: Vec<KeyType>,
    action: Action<B>,
    after: &JoinStream<F, B, T>,
)
    requires
        after.took(before, msg, fetches, action),
    ensures
        after.executor == before.executor,
        after.stream_ended == before.stream_ended,
        after.consecutive_no_wait == before.consecutive_no_wait,
        after.msg_uuid == before.msg_uuid,
        in_order(after).len() == in_order(before).len() + 1,
        in_order(after).drop_last() == in_order(before),
        action is PollInput || action is PollFetches,
        match msg {
            AlignedMessage::Barrier(_) => in_order(after).last().0 == msg,
            AlignedMessage::Left(chunk) => {
                &&& in_order(after).last().0 is Left
                &&& in_order(after).last().0->Left_0.visibility is None
                &&& in_order(after).last().0->Left_0.records() == chunk.visible()
                &&& in_order(after).last().0->Left_0.width == chunk.width
            },
            AlignedMessage::Right(chunk) => {
                &&& in_order(after).last().0 is Right
                &&& in_order(after).last().0->Right_0.visibility is None
                &&& in_order(after).last().0->Right_0.records() == chunk.visible()
                &&& in_order(after).last().0->Right_0.width == chunk.width
            },
        },
{
    let (p, queued) = choose|p: Prefetched<B>, queued: JoinStream<F, B, T>| #[trigger]
        before.queued(msg, p, &queued) && fetches == p.fetches && after.advanced(&queued, action);
    law_queued_last(before, msg, p, &queued);
    assert(queued.flow() == before.flow());
    assert(after.flow().no_wait == before.flow().no_wait && after.flow().count
        == before.flow().count);
    assert(in_order(after) == in_order(&queued));
    assert(in_order(after).drop_last() =~= in_order(before));
    assert(queued.msg_queue@.len() > 0);
}

} // verus!
