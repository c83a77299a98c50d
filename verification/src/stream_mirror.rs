//! Runs of a semi or anti join and of its mirror image.
use vstd::prelude::*;

use crate::SideType;
use crate::SideType::{Left, Right};
use crate::chunk::{Record, StreamChunk};
use crate::hash_join::{HashJoinExecutor, is_missing, lists_missing, lists_row};
use crate::join_mirror::{
    law_mirrored_join, law_mirrored_rules, mirror_images, mirrored_side, models_both, same_output,
};
use crate::join_run::{Condition, all_prepared};
use crate::join_state::{JoinRow, TableView, writes_view};
use crate::join_step::{EvalError, JoinState, Rules, prepared};
use crate::join_stream::{
    Action, AlignedMessage, JoinStream, KeyType, Prefetched, first_flow, key_views, keys_of, keys_on,
    processed, wanted,
};
use crate::key_set::{KeySet, key_contents};
use crate::keyed::pair_views;
use crate::row::{Row, RowView, project};
use crate::schema::DataType;
use crate::stream_run::{Call, answered, is_fresh, is_run, lemma_run_prefix, stepped};

verus! {

/// A key of the other side.
pub open spec fn mirrored_key(key: (u8, RowView)) -> (u8, RowView) {
    (mirrored_side(key.0), key.1)
}

/// Both sets hold the same keys with the sides exchanged.
pub open spec fn mirror_keys(a: Set<(u8, RowView)>, b: Set<(u8, RowView)>) -> bool {
    forall|key: (u8, RowView)|
        #![trigger a.contains(key)]
        #![trigger b.contains(mirrored_key(key))]
        a.contains(key) == b.contains(mirrored_key(key))
}

/// The same keys with the sides exchanged, in the same order.
pub open spec fn mirrored_list(keys: Seq<(u8, RowView)>) -> Seq<(u8, RowView)> {
    Seq::new(keys.len(), |i: int| mirrored_key(keys[i]))
}

/// Both messages bring the same, on sides that are exchanged.
pub open spec fn mirror_messages<B>(a: AlignedMessage<B>, b: AlignedMessage<B>) -> bool {
    match (a, b) {
        (AlignedMessage::Barrier(x), AlignedMessage::Barrier(y)) => x == y,
        (AlignedMessage::Left(x), AlignedMessage::Right(y)) => x.visible() == y.visible() && x.width
            == y.width,
        (AlignedMessage::Right(x), AlignedMessage::Left(y)) => x.visible() == y.visible() && x.width
            == y.width,
        _ => false,
    }
}

/// Both chunks are compacted, and they carry the same changes.
pub open spec fn same_compacted(a: StreamChunk, b: StreamChunk) -> bool {
    &&& a.well_formed() && b.well_formed()
    &&& a.visibility is None && b.visibility is None
    &&& a.records() == b.records()
    &&& a.width == b.width
}

/// Both messages wait for the same, on sides that are exchanged.
pub open spec fn mirror_waiting<B>(
    a: (AlignedMessage<B>, KeySet),
    b: (AlignedMessage<B>, KeySet),
) -> bool {
    &&& mirror_keys(key_contents(a.1), key_contents(b.1))
    &&& match (a.0, b.0) {
        (AlignedMessage::Barrier(x), AlignedMessage::Barrier(y)) => x == y,
        (AlignedMessage::Left(x), AlignedMessage::Right(y)) => same_compacted(x, y),
        (AlignedMessage::Right(x), AlignedMessage::Left(y)) => same_compacted(x, y),
        _ => false,
    }
}

/// `a` and `b` are semi or anti joins at work, each the mirror image of the other.
pub open spec fn mirror_streams<
    F: Fn(&Row, &Vec<DataType>) -> Result<Vec<Option<bool>>, EvalError>,
    B,
    const S: u8,
    const T: u8,
>(a: &JoinStream<F, B, S>, b: &JoinStream<F, B, T>) -> bool {
    &&& mirror_images(&a.executor, &b.executor)
    &&& a.msg_queue@.len() == b.msg_queue@.len()
    &&& forall|i: int|
        0 <= i < a.msg_queue@.len() ==> mirror_waiting(#[trigger] a.msg_queue@[i], b.msg_queue@[i])
    &&& mirror_keys(key_contents(a.inflight_io_set), key_contents(b.inflight_io_set))
    &&& a.stream_ended == b.stream_ended
    &&& a.flow() == b.flow()
}

/// Both joins are given the same, on sides that are exchanged.
pub open spec fn mirror_inputs<B>(a: Call<B>, b: Call<B>) -> bool {
    match (a, b) {
        (Call::Advance { .. }, Call::Advance { .. }) => true,
        (Call::Message { msg: x, .. }, Call::Message { msg: y, .. }) => mirror_messages(x, y),
        (Call::InputPending { .. }, Call::InputPending { .. }) => true,
        (Call::InputEnded { .. }, Call::InputEnded { .. }) => true,
        (Call::Loaded { key: k, rows: r }, Call::Loaded { key: l, rows: s }) => l@ == mirrored_key(
            k@,
        ) && pair_views(r) == pair_views(s),
        (Call::Fetched { key: k, rows: r }, Call::Fetched { key: l, rows: s }) => l@
            == mirrored_key(k@) && pair_views(r) == pair_views(s),
        (Call::FetchesPending { .. }, Call::FetchesPending { .. }) => true,
        _ => false,
    }
}

/// Both joins say to do the same: to put out the same chunks or the same barrier, to write or load the
/// same on sides that are exchanged, or to go on in the same way.
pub open spec fn mirror_actions<B>(a: Action<B>, b: Action<B>) -> bool {
    match (a, b) {
        (Action::Output(x), Action::Output(y)) => same_output(x, y),
        (Action::Flush(x, p), Action::Flush(y, q)) => {
            &&& p == q
            &&& x.epoch == y.epoch
            &&& writes_view(x.left@) == writes_view(y.right@)
            &&& writes_view(x.right@) == writes_view(y.left@)
        },
        (Action::Load(x), Action::Load(y)) => mirror_keys(
            key_views(x@).to_set(),
            key_views(y@).to_set(),
        ),
        _ => a == b && !(a is Output) && !(a is Flush) && !(a is Load),
    }
}

/// What both joins say is the same; for a message they fetch the same keys, on sides that are
/// exchanged.
pub open spec fn mirror_replies<B>(a: Call<B>, b: Call<B>) -> bool {
    &&& match (a.action(), b.action()) {
        (Some(x), Some(y)) => mirror_actions(x, y),
        (None, None) => true,
        _ => false,
    }
    &&& match (a, b) {
        (Call::Message { fetches: x, .. }, Call::Message { fetches: y, .. }) => key_views(y@)
            == mirrored_list(key_views(x@)),
        _ => true,
    }
}

/// Mirror images that have taken no message yet are mirror images at work.
pub proof fn law_mirrored_start<
    F: Fn(&Row, &Vec<DataType>) -> Result<Vec<Option<bool>>, EvalError>,
    B,
    const S: u8,
    const T: u8,
>(a: &JoinStream<F, B, S>, b: &JoinStream<F, B, T>)
    requires
        mirror_images(&a.executor, &b.executor),
        is_fresh(a),
        is_fresh(b),
        a.flow() == first_flow(a.executor.prefetch_queue_depth as nat),
        b.flow() == first_flow(b.executor.prefetch_queue_depth as nat),
    ensures
        mirror_streams(a, b),
{
}

proof fn lemma_mirrored_key(key: (u8, RowView))
    ensures
        mirrored_key(mirrored_key(key)) == key,
{
}

proof fn lemma_mirror_disjoint(
    a: Set<(u8, RowView)>,
    b: Set<(u8, RowView)>,
    x: Set<(u8, RowView)>,
    y: Set<(u8, RowView)>,
)
    requires
        mirror_keys(a, b),
        mirror_keys(x, y),
    ensures
        a.disjoint(x) == b.disjoint(y),
{
    if a.disjoint(x) {
        assert forall|key: (u8, RowView)| b.contains(key) implies !y.contains(key) by {
            lemma_mirrored_key(key);
            assert(a.contains(mirrored_key(key)) == b.contains(mirrored_key(mirrored_key(key))));
            assert(x.contains(mirrored_key(key)) == y.contains(mirrored_key(mirrored_key(key))));
        }
    }
    if b.disjoint(y) {
        assert forall|key: (u8, RowView)| a.contains(key) implies !x.contains(key) by {
            assert(b.contains(mirrored_key(key)));
        }
    }
}

proof fn lemma_mirror_insert(a: Set<(u8, RowView)>, b: Set<(u8, RowView)>, key: (u8, RowView))
    requires
        mirror_keys(a, b),
    ensures
        mirror_keys(a.insert(key), b.insert(mirrored_key(key))),
        mirror_keys(a.remove(key), b.remove(mirrored_key(key))),
{
    assert forall|k: (u8, RowView)|
        #![trigger a.insert(key).contains(k)]
        a.insert(key).contains(k) == b.insert(mirrored_key(key)).contains(mirrored_key(k))
            && a.remove(key).contains(k) == b.remove(mirrored_key(key)).contains(mirrored_key(k)) by {
        lemma_mirrored_key(k);
        lemma_mirrored_key(key);
        assert(a.contains(k) == b.contains(mirrored_key(k)));
    }
}

/// Messages want the same keys, on sides that are exchanged.
proof fn lemma_mirror_wanted(
    table: TableView,
    side: u8,
    keys: Seq<RowView>,
    a: Set<(u8, RowView)>,
    b: Set<(u8, RowView)>,
)
    requires
        mirror_keys(a, b),
    ensures
        ({
            let x = wanted(table, side, keys, a);
            let y = wanted(table, mirrored_side(side), keys, b);
            &&& mirror_keys(x.io, y.io)
            &&& mirror_keys(x.inflight, y.inflight)
            &&& y.fetches == mirrored_list(x.fetches)
        }),
    decreases keys.len(),
{
    let x = wanted(table, side, keys, a);
    let y = wanted(table, mirrored_side(side), keys, b);
    if keys.len() == 0 {
        assert(y.fetches =~= mirrored_list(x.fetches));
    } else {
        lemma_mirror_wanted(table, side, keys.drop_last(), a, b);
        let x0 = wanted(table, side, keys.drop_last(), a);
        let y0 = wanted(table, mirrored_side(side), keys.drop_last(), b);
        let key = (side, keys.last());
        lemma_mirror_insert(x0.io, y0.io, key);
        lemma_mirror_insert(x0.inflight, y0.inflight, key);
        assert(x0.inflight.contains(key) == y0.inflight.contains(mirrored_key(key)));
        assert(y.fetches =~= mirrored_list(x.fetches));
    }
}

/// Where the queue takes no more messages, mirror images go on in the same way.
proof fn lemma_mirror_settled<
    F: Fn(&Row, &Vec<DataType>) -> Result<Vec<Option<bool>>, EvalError>,
    B,
    const S: u8,
    const T: u8,
>(
    a: &JoinStream<F, B, S>,
    a2: &JoinStream<F, B, S>,
    x: Action<B>,
    b: &JoinStream<F, B, T>,
    b2: &JoinStream<F, B, T>,
    y: Action<B>,
)
    requires
        mirror_streams(a, b),
        a2.settled(a, x) && b2.settled(b, y) || a2.advanced(a, x) && b2.advanced(b, y),
    ensures
        mirror_streams(a2, b2),
        mirror_actions(x, y),
        a2.executor == a.executor,
        b2.executor == b.executor,
{
    assert(a.flow().depth == b.flow().depth);
}

/// A message that comes is queued by mirror images in the same way.
proof fn lemma_mirror_queued<
    F: Fn(&Row, &Vec<DataType>) -> Result<Vec<Option<bool>>, EvalError>,
    B,
    const S: u8,
    const T: u8,
>(
    a: &JoinStream<F, B, S>,
    x: AlignedMessage<B>,
    p: Prefetched<B>,
    a2: &JoinStream<F, B, S>,
    b: &JoinStream<F, B, T>,
    y: AlignedMessage<B>,
    q: Prefetched<B>,
    b2: &JoinStream<F, B, T>,
)
    requires
        mirror_streams(a, b),
        mirror_messages(x, y),
        a.queued(x, p, a2),
        b.queued(y, q, b2),
    ensures
        mirror_streams(a2, b2),
        key_views(q.fetches@) == mirrored_list(key_views(p.fetches@)),
{
    let i = key_contents(a.inflight_io_set);
    let j = key_contents(b.inflight_io_set);
    match x {
        AlignedMessage::Barrier(_) => {
            assert(mirrored_list(key_views(p.fetches@)) =~= Seq::empty());
        },
        AlignedMessage::Left(chunk) => {
            lemma_mirror_wanted(
                a.executor.side_r.ht@,
                SideType::Right,
                keys_of(chunk.visible(), a.executor.side_l.key_indices@),
                i,
                j,
            );
        },
        AlignedMessage::Right(chunk) => {
            lemma_mirror_wanted(
                a.executor.side_l.ht@,
                SideType::Left,
                keys_of(chunk.visible(), a.executor.side_r.key_indices@),
                i,
                j,
            );
        },
    }
    assert(mirror_waiting((p.msg, p.io_set), (q.msg, q.io_set)));
    assert forall|k: int| 0 <= k < a2.msg_queue@.len() implies mirror_waiting(
        #[trigger] a2.msg_queue@[k],
        b2.msg_queue@[k],
    ) by {
        if k > 0 {
            assert(a2.msg_queue@[k] == a.msg_queue@[k - 1]);
            assert(b2.msg_queue@[k] == b.msg_queue@[k - 1]);
        }
    }
}

/// The join key `key` occurs among changes.
pub open spec fn occurs(changes: Seq<Record>, indices: Seq<usize>, key: RowView) -> bool {
    exists|j: int| 0 <= j < changes.len() && project((#[trigger] changes[j]).row, indices) == key
}

/// Which keys lack is determined.
proof fn lemma_listed(
    rules: Rules,
    state: JoinState,
    changes: Seq<Record>,
    rows: Seq<Row>,
    key: RowView,
)
    requires
        lists_missing(rules, state, changes, rows),
    ensures
        lists_row(rows, key) == (is_missing(state, key) && occurs(
            changes,
            rules.update_keys,
            key,
        )),
{
    if lists_row(rows, key) {
        let i = choose|i: int| 0 <= i < rows.len() && (#[trigger] rows[i])@ == key;
        assert(is_missing(state, rows[i]@));
    }
    if is_missing(state, key) && occurs(changes, rules.update_keys, key) {
        let j = choose|j: int|
            0 <= j < changes.len() && project((#[trigger] changes[j]).row, rules.update_keys) == key;
        assert(lists_row(rows, project(changes[j].row, rules.update_keys)));
    }
}

proof fn lemma_keys_on(side: u8, rows: Seq<Row>, key: (u8, RowView))
    ensures
        keys_on(side, rows).to_set().contains(key) == (key.0 == side && lists_row(rows, key.1)),
{
    let keys = keys_on(side, rows);
    if keys.contains(key) {
        let i = choose|i: int| 0 <= i < keys.len() && keys[i] == key;
        assert(rows[i]@ == key.1);
    }
    if key.0 == side && lists_row(rows, key.1) {
        let i = choose|i: int| 0 <= i < rows.len() && (#[trigger] rows[i])@ == key.1;
        assert(keys[i] == key);
    }
}

/// The keys that lack are the same, on sides that are exchanged.
proof fn lemma_mirror_loads(
    rules_a: Rules,
    rules_b: Rules,
    state: JoinState,
    changes: Seq<Record>,
    rows_a: Seq<Row>,
    rows_b: Seq<Row>,
    side: u8,
)
    requires
        rules_a.update_keys == rules_b.update_keys,
        lists_missing(rules_a, state, changes, rows_a),
        lists_missing(rules_b, state, changes, rows_b),
    ensures
        mirror_keys(
            keys_on(side, rows_a).to_set(),
            keys_on(mirrored_side(side), rows_b).to_set(),
        ),
        rows_a.len() == 0 <==> rows_b.len() == 0,
{
    assert forall|key: (u8, RowView)|
        #![trigger keys_on(side, rows_a).to_set().contains(key)]
        keys_on(side, rows_a).to_set().contains(key) == keys_on(
            mirrored_side(side),
            rows_b,
        ).to_set().contains(mirrored_key(key)) by {
        lemma_keys_on(side, rows_a, key);
        lemma_keys_on(mirrored_side(side), rows_b, mirrored_key(key));
        lemma_listed(rules_a, state, changes, rows_a, key.1);
        lemma_listed(rules_b, state, changes, rows_b, key.1);
        lemma_mirrored_key(key);
    }
    if rows_a.len() > 0 {
        let key = rows_a[0]@;
        assert(lists_row(rows_a, key));
        lemma_listed(rules_a, state, changes, rows_a, key);
        lemma_listed(rules_b, state, changes, rows_b, key);
    }
    if rows_b.len() > 0 {
        let key = rows_b[0]@;
        assert(lists_row(rows_b, key));
        lemma_listed(rules_a, state, changes, rows_a, key);
        lemma_listed(rules_b, state, changes, rows_b, key);
    }
}

/// Where the rows that changes may match are in memory, no key lacks.
proof fn lemma_prepared_none_missing(
    rules: Rules,
    state: JoinState,
    changes: Seq<Record>,
    rows: Seq<Row>,
)
    requires
        all_prepared(rules, state, changes),
        lists_missing(rules, state, changes, rows),
    ensures
        rows.len() == 0,
{
    if rows.len() > 0 {
        assert(is_missing(state, rows[0]@));
        let j = choose|j: int|
            0 <= j < changes.len() && project((#[trigger] changes[j]).row, rules.update_keys)
                == rows[0]@;
        assert(prepared(rules, state, changes[j].row, changes.len()));
    }
}

/// A chunk on the left of a join, and the same changes on the right of its mirror image.
proof fn lemma_mirror_left<
    F: Fn(&Row, &Vec<DataType>) -> Result<Vec<Option<bool>>, EvalError>,
    B,
    const S: u8,
    const T: u8,
>(
    a: &HashJoinExecutor<F, S>,
    a2: &HashJoinExecutor<F, S>,
    chunk_a: StreamChunk,
    x: Action<B>,
    b: &HashJoinExecutor<F, T>,
    b2: &HashJoinExecutor<F, T>,
    chunk_b: StreamChunk,
    y: Action<B>,
    c: Condition,
)
    requires
        mirror_images(a, b),
        models_both(a, b, c),
        same_compacted(chunk_a, chunk_b),
        processed::<F, B, Left, S>(a, a2, &chunk_a, SideType::Right, x),
        processed::<F, B, Right, T>(b, b2, &chunk_b, SideType::Left, y),
    ensures
        mirror_images(a2, b2),
        models_both(a2, b2, c),
        mirror_actions(x, y),
{
    law_mirrored_rules(a, b);
    let ra = a.rules::<Left>();
    let rb = b.rules::<Right>();
    let state = a.state::<Left>();
    let changes = chunk_a.records();
    assert(all_prepared(ra, state, changes) == all_prepared(rb, state, changes)) by {
        lemma_same_prepared(ra, rb, state, changes);
    }
    let rows_a = missing_rows::<B>(ra, state, changes, x, SideType::Right);
    let rows_b = missing_rows::<B>(rb, state, changes, y, SideType::Left);
    if x is Load {
        assert(key_views(x->Load_0@).len() == rows_a.len());
    }
    if y is Load {
        assert(key_views(y->Load_0@).len() == rows_b.len());
    }
    match (x, y) {
        (Action::Output(out_a), Action::Output(out_b)) => {
            law_mirrored_join(a, a2, &chunk_a, out_a, b, b2, &chunk_b, out_b, c);
        },
        (Action::Output(_), _) => {
            lemma_prepared_none_missing(rb, state, changes, rows_b);
        },
        (_, Action::Output(_)) => {
            lemma_prepared_none_missing(ra, state, changes, rows_a);
        },
        _ => {
            lemma_mirror_loads(ra, rb, state, changes, rows_a, rows_b, SideType::Right);
        },
    }
}

/// A chunk on the right of a join, and the same changes on the left of its mirror image.
proof fn lemma_mirror_right<
    F: Fn(&Row, &Vec<DataType>) -> Result<Vec<Option<bool>>, EvalError>,
    B,
    const S: u8,
    const T: u8,
>(
    a: &HashJoinExecutor<F, S>,
    a2: &HashJoinExecutor<F, S>,
    chunk_a: StreamChunk,
    x: Action<B>,
    b: &HashJoinExecutor<F, T>,
    b2: &HashJoinExecutor<F, T>,
    chunk_b: StreamChunk,
    y: Action<B>,
    c: Condition,
)
    requires
        mirror_images(a, b),
        models_both(a, b, c),
        same_compacted(chunk_a, chunk_b),
        processed::<F, B, Right, S>(a, a2, &chunk_a, SideType::Left, x),
        processed::<F, B, Left, T>(b, b2, &chunk_b, SideType::Right, y),
    ensures
        mirror_images(a2, b2),
        models_both(a2, b2, c),
        mirror_actions(x, y),
{
    law_mirrored_rules(a, b);
    let ra = a.rules::<Right>();
    let rb = b.rules::<Left>();
    let state = a.state::<Right>();
    let changes = chunk_a.records();
    assert(all_prepared(ra, state, changes) == all_prepared(rb, state, changes)) by {
        lemma_same_prepared(ra, rb, state, changes);
    }
    let rows_a = missing_rows::<B>(ra, state, changes, x, SideType::Left);
    let rows_b = missing_rows::<B>(rb, state, changes, y, SideType::Right);
    if x is Load {
        assert(key_views(x->Load_0@).len() == rows_a.len());
    }
    if y is Load {
        assert(key_views(y->Load_0@).len() == rows_b.len());
    }
    match (x, y) {
        (Action::Output(out_a), Action::Output(out_b)) => {
            law_mirrored_join(a, a2, &chunk_a, out_a, b, b2, &chunk_b, out_b, c);
        },
        (Action::Output(_), _) => {
            lemma_prepared_none_missing(rb, state, changes, rows_b);
        },
        (_, Action::Output(_)) => {
            lemma_prepared_none_missing(ra, state, changes, rows_a);
        },
        _ => {
            lemma_mirror_loads(ra, rb, state, changes, rows_a, rows_b, SideType::Left);
        },
    }
}

/// The keys that lack, by what a join says: those that it wants to load, or none.
spec fn missing_rows<B>(
    rules: Rules,
    state: JoinState,
    changes: Seq<Record>,
    action: Action<B>,
    other: u8,
) -> Seq<Row> {
    match action {
        Action::Load(keys) => choose|rows: Seq<Row>| #[trigger]
            lists_missing(rules, state, changes, rows) && key_views(keys@) == keys_on(other, rows),
        _ => Seq::empty(),
    }
}

proof fn lemma_same_prepared(ra: Rules, rb: Rules, state: JoinState, changes: Seq<Record>)
    requires
        ra.update_keys == rb.update_keys,
    ensures
        all_prepared(ra, state, changes) == all_prepared(rb, state, changes),
{
    if all_prepared(ra, state, changes) {
        assert forall|i: int| 0 <= i < changes.len() implies prepared(
            rb,
            state,
            (#[trigger] changes[i]).row,
            changes.len(),
        ) by {
            assert(prepared(ra, state, changes[i].row, changes.len()));
        }
    }
    if all_prepared(rb, state, changes) {
        assert forall|i: int| 0 <= i < changes.len() implies prepared(
            ra,
            state,
            (#[trigger] changes[i]).row,
            changes.len(),
        ) by {
            assert(prepared(rb, state, changes[i].row, changes.len()));
        }
    }
}

/// A semi or anti join and its mirror image, given the same on sides that are exchanged, say the same
/// and stay mirror images.
pub proof fn law_mirrored_call<
    F: Fn(&Row, &Vec<DataType>) -> Result<Vec<Option<bool>>, EvalError>,
    B,
    const S: u8,
    const T: u8,
>(
    a: &JoinStream<F, B, S>,
    call_a: Call<B>,
    a2: &JoinStream<F, B, S>,
    b: &JoinStream<F, B, T>,
    call_b: Call<B>,
    b2: &JoinStream<F, B, T>,
    c: Condition,
)
    requires
        mirror_streams(a, b),
        models_both(&a.executor, &b.executor, c),
        stepped(a, call_a, a2),
        stepped(b, call_b, b2),
        mirror_inputs(call_a, call_b),
    ensures
        mirror_streams(a2, b2),
        models_both(&a2.executor, &b2.executor, c),
        mirror_replies(call_a, call_b),
{
    match (call_a, call_b) {
        (Call::Advance { action: x }, Call::Advance { action: y }) => {
            lemma_mirror_settled(a, a2, x, b, b2, y);
        },
        (Call::InputPending { action: x }, Call::InputPending { action: y }) => {
            lemma_mirror_settled(a, a2, x, b, b2, y);
        },
        (Call::InputEnded { action: x }, Call::InputEnded { action: y }) => {
            let a1 = JoinStream { stream_ended: true, ..*a };
            let b1 = JoinStream { stream_ended: true, ..*b };
            assert(mirror_streams(&a1, &b1));
            lemma_mirror_settled(&a1, a2, x, &b1, b2, y);
        },
        (
            Call::Message { msg: m, fetches: f, action: x },
            Call::Message { msg: n, fetches: g, action: y },
        ) => {
            let (p, a1) = choose|p: Prefetched<B>, a1: JoinStream<F, B, S>| #[trigger]
                a.queued(m, p, &a1) && f == p.fetches && a2.advanced(&a1, x);
            let (q, b1) = choose|q: Prefetched<B>, b1: JoinStream<F, B, T>| #[trigger]
                b.queued(n, q, &b1) && g == q.fetches && b2.advanced(&b1, y);
            lemma_mirror_queued(a, m, p, &a1, b, n, q, &b1);
            lemma_mirror_settled(&a1, a2, x, &b1, b2, y);
        },
        (Call::Loaded { key: k, rows: r }, Call::Loaded { key: l, rows: s }) => {
            lemma_mirror_attached(a, k, r, a2, b, l, s, b2, c);
        },
        (Call::Fetched { key: k, rows: r }, Call::Fetched { key: l, rows: s }) => {
            let i = key_contents(a.inflight_io_set);
            let j = key_contents(b.inflight_io_set);
            assert(i.contains(k@) == j.contains(mirrored_key(k@)));
            lemma_mirror_insert(i, j, k@);
            if i.contains(k@) {
                lemma_mirror_attached(a, k, r, a2, b, l, s, b2, c);
            }
        },
        (Call::FetchesPending { action: x }, Call::FetchesPending { action: y }) => {
            lemma_mirror_turned(a, a2, x, b, b2, y, c);
        },
        _ => {},
    }
}

/// Rows that come from the state store are taken by mirror images in the same way.
proof fn lemma_mirror_attached<
    F: Fn(&Row, &Vec<DataType>) -> Result<Vec<Option<bool>>, EvalError>,
    B,
    const S: u8,
    const T: u8,
>(
    a: &JoinStream<F, B, S>,
    k: KeyType,
    r: Seq<(Row, JoinRow)>,
    a2: &JoinStream<F, B, S>,
    b: &JoinStream<F, B, T>,
    l: KeyType,
    s: Seq<(Row, JoinRow)>,
    b2: &JoinStream<F, B, T>,
    c: Condition,
)
    requires
        mirror_images(&a.executor, &b.executor),
        models_both(&a.executor, &b.executor, c),
        l@ == mirrored_key(k@),
        pair_views(r) == pair_views(s),
        a.attached(k, r, a2),
        b.attached(l, s, b2),
    ensures
        mirror_images(&a2.executor, &b2.executor),
        models_both(&a2.executor, &b2.executor, c),
{
}

/// Mirror images look at their next message in the same way.
proof fn lemma_mirror_turned<
    F: Fn(&Row, &Vec<DataType>) -> Result<Vec<Option<bool>>, EvalError>,
    B,
    const S: u8,
    const T: u8,
>(
    a: &JoinStream<F, B, S>,
    a2: &JoinStream<F, B, S>,
    x: Action<B>,
    b: &JoinStream<F, B, T>,
    b2: &JoinStream<F, B, T>,
    y: Action<B>,
    c: Condition,
)
    requires
        mirror_streams(a, b),
        models_both(&a.executor, &b.executor, c),
        a.msg_queue@.len() > 0,
        a.turned(a2, x),
        b.turned(b2, y),
    ensures
        mirror_streams(a2, b2),
        models_both(&a2.executor, &b2.executor, c),
        mirror_actions(x, y),
{
    let n = a.msg_queue@.len() - 1;
    let (m, io_a) = a.msg_queue@.last();
    let (k, io_b) = b.msg_queue@.last();
    assert(mirror_waiting(a.msg_queue@[n], b.msg_queue@[n]));
    lemma_mirror_disjoint(
        key_contents(a.inflight_io_set),
        key_contents(b.inflight_io_set),
        key_contents(io_a),
        key_contents(io_b),
    );
    if key_contents(a.inflight_io_set).disjoint(key_contents(io_a)) {
        match (m, k) {
            (AlignedMessage::Left(chunk_a), AlignedMessage::Right(chunk_b)) => {
                lemma_mirror_left(
                    &a.executor,
                    &a2.executor,
                    chunk_a,
                    x,
                    &b.executor,
                    &b2.executor,
                    chunk_b,
                    y,
                    c,
                );
            },
            (AlignedMessage::Right(chunk_a), AlignedMessage::Left(chunk_b)) => {
                lemma_mirror_right(
                    &a.executor,
                    &a2.executor,
                    chunk_a,
                    x,
                    &b.executor,
                    &b2.executor,
                    chunk_b,
                    y,
                    c,
                );
            },
            _ => {},
        }
        if x is Output || x is Flush {
            assert forall|i: int| 0 <= i < a2.msg_queue@.len() implies mirror_waiting(
                #[trigger] a2.msg_queue@[i],
                b2.msg_queue@[i],
            ) by {
                assert(a2.msg_queue@[i] == a.msg_queue@[i]);
            }
        }
    }
}

/// A right semi or anti join is the left one with its inputs exchanged: two such joins that are given
/// the same all along, on sides that are exchanged, put out the same messages in the same order.
pub proof fn law_mirrored_runs<
    F: Fn(&Row, &Vec<DataType>) -> Result<Vec<Option<bool>>, EvalError>,
    B,
    const S: u8,
    const T: u8,
>(
    states_a: Seq<JoinStream<F, B, S>>,
    calls_a: Seq<Call<B>>,
    states_b: Seq<JoinStream<F, B, T>>,
    calls_b: Seq<Call<B>>,
    c: Condition,
)
    requires
        is_run(states_a, calls_a),
        is_run(states_b, calls_b),
        mirror_streams(&states_a[0], &states_b[0]),
        models_both(&states_a[0].executor, &states_b[0].executor, c),
        calls_a.len() == calls_b.len(),
        forall|i: int|
            0 <= i < calls_a.len() ==> mirror_inputs(#[trigger] calls_a[i], calls_b[i]),
    ensures
        answered(calls_a) == answered(calls_b),
        forall|i: int|
            0 <= i < calls_a.len() ==> mirror_replies(#[trigger] calls_a[i], calls_b[i]),
        mirror_streams(&states_a.last(), &states_b.last()),
        models_both(&states_a.last().executor, &states_b.last().executor, c),
    decreases calls_a.len(),
{
    if calls_a.len() > 0 {
        let n = calls_a.len() - 1;
        let less_a = calls_a.drop_last();
        let less_b = calls_b.drop_last();
        lemma_run_prefix(states_a, calls_a);
        lemma_run_prefix(states_b, calls_b);
        assert forall|i: int| 0 <= i < less_a.len() implies mirror_inputs(
            #[trigger] less_a[i],
            less_b[i],
        ) by {
            assert(mirror_inputs(calls_a[i], calls_b[i]));
        }
        law_mirrored_runs(states_a.drop_last(), less_a, states_b.drop_last(), less_b, c);
        assert(mirror_inputs(calls_a[n], calls_b[n]));
        law_mirrored_call(
            &states_a[n],
            calls_a[n],
            &states_a.last(),
            &states_b[n],
            calls_b[n],
            &states_b.last(),
            c,
        );
        assert forall|i: int| 0 <= i < calls_a.len() implies mirror_replies(
            #[trigger] calls_a[i],
            calls_b[i],
        ) by {
            if i < n {
                assert(mirror_replies(less_a[i], less_b[i]));
            }
        }
    }
}

} // verus!
