//! The order in which a join takes its input, fetches rows and puts out chunks.
use std::collections::VecDeque;

use vstd::prelude::*;

use crate::SideType;
use crate::SideType::{Left, Right};
use crate::chunk::{Record, StreamChunk};
use crate::hash_join::{
    FlushedData, HashJoinExecutor, Readiness, lists_missing, same_but_epoch,
};
use crate::join_run::JoinOutput;
use crate::join_state::{
    JoinHashMap, JoinRow, RowsView, TableView, cleaned, entry_or_unknown, evicted, resident, rows_fit,
    table_writes, writes_view,
};
use crate::join_step::EvalError;
use crate::key_set::{KeySet, are_disjoint, empty_key_set, insert_key, key_contents, remove_key};
use crate::keyed::{KeyedList, collected, pair_views, put_last};
use crate::row::{Row, RowView, indices_below, project};
use crate::schema::DataType;

verus! {

/// A join key of one of the sides.
#[derive(Debug, PartialEq, Eq)]
pub enum KeyType {
    Left(Row),
    Right(Row),
}

impl View for KeyType {
    type V = (u8, RowView);

    open spec fn view(&self) -> (u8, RowView) {
        match self {
            KeyType::Left(key) => (SideType::Left, key@),
            KeyType::Right(key) => (SideType::Right, key@),
        }
    }
}

fn key_on(side: u8, key: Row) -> (r: KeyType)
    requires
        side == SideType::Left || side == SideType::Right,
    ensures
        r@ == (side, key@),
{
    if side == SideType::Left {
        KeyType::Left(key)
    } else {
        KeyType::Right(key)
    }
}

/// The epochs that a barrier stands between.
#[derive(Clone, Copy, Debug, PartialEq, Eq, Structural)]
pub struct Epoch {
    pub curr: u64,
    pub prev: u64,
}

/// A barrier, which both inputs carry, with what travels along with it.
pub struct Barrier<B> {
    pub epoch: Epoch,
    pub payload: B,
}

/// A message of the two inputs, aligned at their barriers.
pub enum AlignedMessage<B> {
    Barrier(Barrier<B>),
    Left(StreamChunk),
    Right(StreamChunk),
}

/// The join keys of changes.
pub open spec fn keys_of(changes: Seq<Record>, indices: Seq<usize>) -> Seq<RowView> {
    Seq::new(changes.len(), |i: int| project(changes[i].row, indices))
}

pub open spec fn key_views(keys: Seq<KeyType>) -> Seq<(u8, RowView)> {
    Seq::new(keys.len(), |i: int| keys[i]@)
}

/// The keys that a message waits for.
pub struct Wanted {
    /// All keys whose rows are not in memory.
    pub io: Set<(u8, RowView)>,
    /// All keys that are being fetched.
    pub inflight: Set<(u8, RowView)>,
    /// The keys that have to be fetched now, in this order.
    pub fetches: Seq<(u8, RowView)>,
}

/// What changes with the join keys `keys` want of the side `side`, whose entries are `table`.
pub open spec fn wanted(
    table: TableView,
    side: u8,
    keys: Seq<RowView>,
    inflight: Set<(u8, RowView)>,
) -> Wanted
    decreases keys.len(),
{
    if keys.len() == 0 {
        Wanted { io: Set::empty(), inflight, fetches: Seq::empty() }
    } else {
        let before = wanted(table, side, keys.drop_last(), inflight);
        let key = (side, keys.last());
        if resident(table, keys.last()) {
            before
        } else {
            Wanted {
                io: before.io.insert(key),
                inflight: before.inflight.insert(key),
                fetches: if before.inflight.contains(key) {
                    before.fetches
                } else {
                    before.fetches.push(key)
                },
            }
        }
    }
}

/// Finds out which keys of `chunk` have to be fetched on the side `side`.
fn prefetch_keys(
    chunk: &StreamChunk,
    key_indices: &Vec<usize>,
    side: u8,
    ht: &JoinHashMap,
    inflight: &mut KeySet,
) -> (r: (KeySet, Vec<KeyType>))
    requires
        chunk.well_formed(),
        indices_below(key_indices@, chunk.width as int),
        ht.well_formed(),
        side == SideType::Left || side == SideType::Right,
    ensures
        ({
            let w = wanted(
                ht@,
                side,
                keys_of(chunk.records(), key_indices@),
                key_contents(*old(inflight)),
            );
            &&& key_contents(r.0) == w.io
            &&& key_contents(*final(inflight)) == w.inflight
            &&& key_views(r.1@) == w.fetches
        }),
{
    let ghost keys = keys_of(chunk.records(), key_indices@);
    let ghost before = key_contents(*inflight);
    let mut io_set = empty_key_set();
    let mut fetches: Vec<KeyType> = Vec::new();
    let n: usize = chunk.rows.len();
    let mut i: usize = 0;
    assert(key_views(fetches@) =~= Seq::empty());
    while i < n
        invariant
            i <= n,
            n == chunk.rows@.len(),
            chunk.well_formed(),
            indices_below(key_indices@, chunk.width as int),
            ht.well_formed(),
            side == SideType::Left || side == SideType::Right,
            keys == keys_of(chunk.records(), key_indices@),
            key_contents(io_set) == wanted(ht@, side, keys.take(i as int), before).io,
            key_contents(*inflight) == wanted(ht@, side, keys.take(i as int), before).inflight,
            key_views(fetches@) == wanted(ht@, side, keys.take(i as int), before).fetches,
        decreases n - i,
    {
        proof {
            let next = keys.take(i + 1);
            assert(next.drop_last() =~= keys.take(i as int));
            assert(next.last() == keys[i as int]);
            assert(chunk.rows@[i as int]@.len() == chunk.width);
            assert(chunk.records()[i as int].row == chunk.rows@[i as int]@);
        }
        let key = chunk.rows[i].row_by_indices(key_indices);
        if ht.get_cached(&key).is_none() {
            let _new = insert_key(&mut io_set, side, key.clone());
            if insert_key(inflight, side, key.clone()) {
                let ghost earlier = fetches@;
                fetches.push(key_on(side, key));
                assert(key_views(fetches@) =~= key_views(earlier).push((side, key@)));
            }
        }
        i = i + 1;
    }
    assert(keys.take(n as int) =~= keys);
    (io_set, fetches)
}

/// A message that is ready to be queued.
pub struct Prefetched<B> {
    pub is_barrier: bool,
    pub msg: AlignedMessage<B>,
    /// The keys that the message waits for.
    pub io_set: KeySet,
    /// The keys that have to be fetched now.
    pub fetches: Vec<KeyType>,
}

/// `after` carries the changes of `before` with nothing hidden.
pub open spec fn compacted(before: StreamChunk, after: StreamChunk) -> bool {
    &&& after.well_formed()
    &&& after.visibility is None
    &&& after.width == before.width
    &&& after.records() == before.visible()
}

impl<F: Fn(&Row, &Vec<DataType>) -> Result<Vec<Option<bool>>, EvalError>, const T: u8>
    HashJoinExecutor<F, T> {
    /// The chunk of a message has the columns of its side.
    pub open spec fn takes<B>(&self, msg: AlignedMessage<B>) -> bool {
        match msg {
            AlignedMessage::Barrier(_) => true,
            AlignedMessage::Left(chunk) => chunk.well_formed() && chunk.width == self.side_l.width(),
            AlignedMessage::Right(chunk) => chunk.well_formed() && chunk.width
                == self.side_r.width(),
        }
    }

    /// Executable [`HashJoinExecutor::takes`].
    pub fn can_take<B>(&self, msg: &AlignedMessage<B>) -> (r: bool)
        ensures
            r == self.takes(*msg),
    {
        match msg {
            AlignedMessage::Barrier(_) => true,
            AlignedMessage::Left(chunk) => chunk.width == self.side_l.col_types.len()
                && chunk.is_well_formed(),
            AlignedMessage::Right(chunk) => chunk.width == self.side_r.col_types.len()
                && chunk.is_well_formed(),
        }
    }

    /// `r` is `msg`, compacted, with the keys that it wants of the other side.
    pub open spec fn prefetched<B>(
        &self,
        msg: AlignedMessage<B>,
        inflight: Set<(u8, RowView)>,
        r: Prefetched<B>,
        inflight_after: Set<(u8, RowView)>,
    ) -> bool {
        match msg {
            AlignedMessage::Barrier(_) => {
                &&& r.is_barrier
                &&& r.msg == msg
                &&& key_contents(r.io_set) == Set::<(u8, RowView)>::empty()
                &&& key_views(r.fetches@) == Seq::<(u8, RowView)>::empty()
                &&& inflight_after == inflight
            },
            AlignedMessage::Left(chunk) => {
                let w = wanted(
                    self.side_r.ht@,
                    SideType::Right,
                    keys_of(chunk.visible(), self.side_l.key_indices@),
                    inflight,
                );
                &&& !r.is_barrier
                &&& r.msg matches AlignedMessage::Left(after) && compacted(chunk, after)
                &&& key_contents(r.io_set) == w.io
                &&& key_views(r.fetches@) == w.fetches
                &&& inflight_after == w.inflight
            },
            AlignedMessage::Right(chunk) => {
                let w = wanted(
                    self.side_l.ht@,
                    SideType::Left,
                    keys_of(chunk.visible(), self.side_r.key_indices@),
                    inflight,
                );
                &&& !r.is_barrier
                &&& r.msg matches AlignedMessage::Right(after) && compacted(chunk, after)
                &&& key_contents(r.io_set) == w.io
                &&& key_views(r.fetches@) == w.fetches
                &&& inflight_after == w.inflight
            },
        }
    }

    /// Compacts a message, and finds out which keys of the other side have to be fetched for it.
    pub fn prefetch_message<B>(
        &self,
        msg: AlignedMessage<B>,
        inflight_io_set: &mut KeySet,
    ) -> (r: Prefetched<B>)
        requires
            self.well_formed(),
            self.takes(msg),
        ensures
            self.prefetched(
                msg,
                key_contents(*old(inflight_io_set)),
                r,
                key_contents(*final(inflight_io_set)),
            ),
    {
        match msg {
            AlignedMessage::Left(chunk) => {
                let chunk = chunk.compact();
                // We fetch the keys on the right side.
                let (io_set, fetches) = prefetch_keys(
                    &chunk,
                    &self.side_l.key_indices,
                    SideType::Right,
                    &self.side_r.ht,
                    inflight_io_set,
                );
                Prefetched { is_barrier: false, msg: AlignedMessage::Left(chunk), io_set, fetches }
            },
            AlignedMessage::Right(chunk) => {
                let chunk = chunk.compact();
                // We fetch the keys on the left side.
                let (io_set, fetches) = prefetch_keys(
                    &chunk,
                    &self.side_r.key_indices,
                    SideType::Left,
                    &self.side_l.ht,
                    inflight_io_set,
                );
                Prefetched { is_barrier: false, msg: AlignedMessage::Right(chunk), io_set, fetches }
            },
            AlignedMessage::Barrier(barrier) => {
                let fetches: Vec<KeyType> = Vec::new();
                assert(key_views(fetches@) =~= Seq::empty());
                Prefetched {
                    is_barrier: true,
                    msg: AlignedMessage::Barrier(barrier),
                    io_set: empty_key_set(),
                    fetches,
                }
            },
        }
    }
}

/// What steers the length of the queue.
pub struct Flow {
    /// How many messages the queue takes.
    pub depth: nat,
    /// A message was processed since the depth was last looked at.
    pub processed: bool,
    /// Messages were processed without a wait for so long that the output seems to be the bottleneck.
    pub pressed: bool,
    /// How many messages were processed since the last wait.
    pub no_wait: nat,
    /// How many messages were processed in all.
    pub count: nat,
}

/// Nothing has been processed yet.
pub open spec fn first_flow(depth: nat) -> Flow {
    Flow { depth, processed: false, pressed: false, no_wait: 0, count: 0 }
}

/// The depth of the queue after a look at it: less by a quarter, rounded up, under back pressure;
/// two more where the queue is full; else unchanged.
pub open spec fn adjusted_depth(depth: nat, pressed: bool, queued: nat) -> nat {
    if pressed {
        (depth - depth / 4) as nat
    } else if queued == depth {
        depth + 2
    } else {
        depth
    }
}

/// The depth is looked at whenever the number of processed messages is a multiple of `rate`.
pub open spec fn adjusted(flow: Flow, rate: nat, queued: nat) -> Flow {
    if flow.processed && flow.count % rate == 0 {
        Flow {
            depth: adjusted_depth(flow.depth, flow.pressed, queued),
            processed: false,
            pressed: false,
            ..flow
        }
    } else {
        flow
    }
}

/// One more message is processed without a wait. `initial` is the depth that the queue began with.
pub open spec fn counted(flow: Flow, initial: nat) -> Flow {
    Flow {
        processed: true,
        pressed: flow.pressed || flow.no_wait + 1 > initial,
        no_wait: flow.no_wait + 1,
        count: flow.count + 1,
        ..flow
    }
}

/// What to do next.
pub enum Action<B> {
    /// Look whether a message has come: then `on_message`, else `on_input_pending`, or
    /// `on_input_ended` where there will be no more.
    PollInput,
    /// Look whether the rows of a key have come: then `on_fetched`, else `on_fetches_pending`.
    PollFetches,
    /// Wait a little, then `advance`.
    Sleep,
    /// Load the rows under these keys at once and hand them to `on_loaded`, then
    /// `on_fetches_pending`.
    Load(Vec<KeyType>),
    /// Put out chunks, then `advance`; or, where there is an error, stop with it.
    Output(JoinOutput),
    /// Write to the state store and put out the barrier, then `advance`.
    Flush(FlushedData, Barrier<B>),
    /// Stop: a degree would leave the range of its type.
    DegreeOverflow,
    /// Stop: all messages have been processed, and there will be no more.
    Finish,
}

/// A join at work: the messages that wait, and the keys that are being fetched for them.
pub struct JoinStream<F, B, const T: u8> {
    pub executor: HashJoinExecutor<F, T>,
    /// Messages with the keys that they wait for, the next one at the back.
    pub msg_queue: VecDeque<(AlignedMessage<B>, KeySet)>,
    /// The keys that are being fetched.
    pub inflight_io_set: KeySet,
    pub max_queue_depth: usize,
    pub stream_ended: bool,
    pub processed_msg: bool,
    pub backpressure: bool,
    pub consecutive_no_wait: usize,
    pub msg_uuid: u64,
}

impl<F: Fn(&Row, &Vec<DataType>) -> Result<Vec<Option<bool>>, EvalError>, const T: u8>
    HashJoinExecutor<F, T> {
    /// The join, with no message taken yet.
    pub fn into_stream<B>(self) -> (r: JoinStream<F, B, T>)
        requires
            self.well_formed(),
            self.aimd_adjust_rate_msgs > 0,
        ensures
            r.well_formed(),
            r.executor == self,
            r.msg_queue@ == Seq::<(AlignedMessage<B>, KeySet)>::empty(),
            key_contents(r.inflight_io_set) == Set::<(u8, RowView)>::empty(),
            !r.stream_ended,
            r.flow() == first_flow(self.prefetch_queue_depth as nat),
    {
        let max_queue_depth: usize = self.prefetch_queue_depth;
        JoinStream {
            executor: self,
            msg_queue: VecDeque::new(),
            inflight_io_set: empty_key_set(),
            max_queue_depth,
            stream_ended: false,
            processed_msg: false,
            backpressure: false,
            consecutive_no_wait: 0,
            msg_uuid: 0,
        }
    }
}

impl<
    F: Fn(&Row, &Vec<DataType>) -> Result<Vec<Option<bool>>, EvalError>,
    B,
    const T: u8,
> JoinStream<F, B, T> {
    /// The queued messages are compacted and have the columns of their sides.
    pub open spec fn well_formed(&self) -> bool {
        &&& self.executor.well_formed()
        &&& self.executor.aimd_adjust_rate_msgs > 0
        &&& forall|i: int|
            0 <= i < self.msg_queue@.len() ==> queueable(
                &self.executor,
                (#[trigger] self.msg_queue@[i]).0,
            )
    }

    pub open spec fn flow(&self) -> Flow {
        Flow {
            depth: self.max_queue_depth as nat,
            processed: self.processed_msg,
            pressed: self.backpressure,
            no_wait: self.consecutive_no_wait as nat,
            count: self.msg_uuid as nat,
        }
    }

    /// The counters can count one more message.
    pub open spec fn has_room(&self) -> bool {
        &&& self.max_queue_depth <= usize::MAX - 2
        &&& self.consecutive_no_wait < usize::MAX
        &&& self.msg_uuid < u64::MAX
    }

    /// Executable [`JoinStream::has_room`].
    pub fn can_count(&self) -> (r: bool)
        ensures
            r == self.has_room(),
    {
        self.max_queue_depth <= usize::MAX - 2 && self.consecutive_no_wait < usize::MAX
            && self.msg_uuid < u64::MAX
    }

    /// The queue takes one more message, if there is one.
    pub open spec fn wants_input(&self) -> bool {
        self.msg_queue@.len() < self.max_queue_depth && !self.stream_ended
    }

    /// `self` differs from `before` at most by its flow.
    pub open spec fn same_work(&self, before: &Self) -> bool {
        &&& self.executor == before.executor
        &&& self.msg_queue@ == before.msg_queue@
        &&& self.inflight_io_set == before.inflight_io_set
        &&& self.stream_ended == before.stream_ended
    }

    /// The queue takes no more messages for now: its depth may be adjusted, and the next message is
    /// looked at, if there is one.
    pub open spec fn settled(&self, before: &Self, action: Action<B>) -> bool {
        &&& self.same_work(before)
        &&& self.flow() == adjusted(
            before.flow(),
            before.executor.aimd_adjust_rate_msgs as nat,
            before.msg_queue@.len(),
        )
        &&& action == (if before.msg_queue@.len() > 0 {
            Action::<B>::PollFetches
        } else if before.stream_ended {
            Action::<B>::Finish
        } else {
            Action::<B>::Sleep
        })
    }

    fn settle(&mut self) -> (action: Action<B>)
        requires
            old(self).well_formed(),
            old(self).max_queue_depth <= usize::MAX - 2,
        ensures
            final(self).well_formed(),
            final(self).settled(old(self), action),
    {
        broadcast use vstd::std_specs::vecdeque::group_vec_dequeue_axioms;

        if self.processed_msg && self.msg_uuid % self.executor.aimd_adjust_rate_msgs == 0 {
            self.processed_msg = false;
            if self.backpressure {
                // There is downstream backpressure, so we decrease the queue depth.
                self.backpressure = false;
                self.max_queue_depth = self.max_queue_depth - self.max_queue_depth / 4;
            } else if self.msg_queue.len() == self.max_queue_depth {
                // There is source side pressure, so we increase the queue depth.
                self.max_queue_depth = self.max_queue_depth + 2;
            }
        }
        if self.msg_queue.len() > 0 {
            Action::PollFetches
        } else if self.stream_ended {
            Action::Finish
        } else {
            Action::Sleep
        }
    }

    /// Where the queue takes a message, one is looked for; else the next message is looked at.
    pub open spec fn advanced(&self, before: &Self, action: Action<B>) -> bool {
        if before.wants_input() {
            action == Action::<B>::PollInput && *self == *before
        } else {
            self.settled(before, action)
        }
    }

    /// The first thing to do, and the next one after an output, a flush or a sleep.
    pub fn advance(&mut self) -> (action: Action<B>)
        requires
            old(self).well_formed(),
            old(self).max_queue_depth <= usize::MAX - 2,
        ensures
            final(self).well_formed(),
            final(self).advanced(old(self), action),
    {
        broadcast use vstd::std_specs::vecdeque::group_vec_dequeue_axioms;

        if self.msg_queue.len() < self.max_queue_depth && !self.stream_ended {
            Action::PollInput
        } else {
            self.settle()
        }
    }

    /// `msg` has been prefetched and queued: `fetches` are to be fetched, and `action` is next.
    pub open spec fn took(
        &self,
        before: &Self,
        msg: AlignedMessage<B>,
        fetches: Vec<KeyType>,
        action: Action<B>,
    ) -> bool {
        exists|p: Prefetched<B>, queued: Self| #[trigger]
            before.queued(msg, p, &queued) && fetches == p.fetches && self.advanced(&queued, action)
    }

    /// A message has come: its keys are fetched, and it is queued. Returns the keys to fetch.
    pub fn on_message(&mut self, msg: AlignedMessage<B>) -> (r: (Vec<KeyType>, Action<B>))
        requires
            old(self).well_formed(),
            old(self).executor.takes(msg),
            old(self).max_queue_depth <= usize::MAX - 2,
        ensures
            final(self).well_formed(),
            final(self).took(old(self), msg, r.0, r.1),
    {
        let p = self.executor.prefetch_message(msg, &mut self.inflight_io_set);
        let ghost whole = p;
        let fetches = p.fetches;
        self.msg_queue.push_front((p.msg, p.io_set));
        let ghost queued = *self;
        proof {
            assert(self.msg_queue@ =~= seq![(whole.msg, whole.io_set)] + old(self).msg_queue@);
            assert forall|i: int| 0 <= i < self.msg_queue@.len() implies queueable(
                &self.executor,
                (#[trigger] self.msg_queue@[i]).0,
            ) by {
                if i > 0 {
                    assert(self.msg_queue@[i] == old(self).msg_queue@[i - 1]);
                }
            }
            assert(old(self).queued(msg, whole, &queued));
        }
        let action = self.advance();
        (fetches, action)
    }

    /// `after` is `self` with `msg` in the queue, prefetched as `p` says.
    pub open spec fn queued(&self, msg: AlignedMessage<B>, p: Prefetched<B>, after: &Self) -> bool {
        &&& self.executor.prefetched(
            msg,
            key_contents(self.inflight_io_set),
            p,
            key_contents(after.inflight_io_set),
        )
        &&& after.executor == self.executor
        &&& after.msg_queue@ == seq![(p.msg, p.io_set)] + self.msg_queue@
        &&& after.stream_ended == self.stream_ended
        &&& after.flow() == self.flow()
    }

    /// No message has come for now.
    pub fn on_input_pending(&mut self) -> (action: Action<B>)
        requires
            old(self).well_formed(),
            old(self).max_queue_depth <= usize::MAX - 2,
        ensures
            final(self).well_formed(),
            final(self).settled(old(self), action),
    {
        self.settle()
    }

    /// There will be no more messages.
    pub fn on_input_ended(&mut self) -> (action: Action<B>)
        requires
            old(self).well_formed(),
            old(self).max_queue_depth <= usize::MAX - 2,
        ensures
            final(self).well_formed(),
            final(self).settled(&(JoinStream { stream_ended: true, ..*old(self) }), action),
    {
        self.stream_ended = true;
        self.settle()
    }

    /// `after` is `self` with the rows `rows`, which came from the state store, under `key`.
    pub open spec fn attached(&self, key: KeyType, rows: Seq<(Row, JoinRow)>, after: &Self) -> bool {
        let base = collected(pair_views(rows));
        &&& after.executor.same_setup(&self.executor)
        &&& match key {
            KeyType::Left(k) => {
                &&& after.executor.side_r.ht@ == self.executor.side_r.ht@
                &&& after.executor.side_l.ht@ == put_last(
                    self.executor.side_l.ht@,
                    k@,
                    entry_or_unknown(self.executor.side_l.ht@, k@).with_cache(base),
                )
            },
            KeyType::Right(k) => {
                &&& after.executor.side_l.ht@ == self.executor.side_l.ht@
                &&& after.executor.side_r.ht@ == put_last(
                    self.executor.side_r.ht@,
                    k@,
                    entry_or_unknown(self.executor.side_r.ht@, k@).with_cache(base),
                )
            },
        }
    }

    /// `self` differs from `before` at most by its executor and the keys that are being fetched.
    pub open spec fn same_queue(&self, before: &Self) -> bool {
        &&& self.msg_queue@ == before.msg_queue@
        &&& self.stream_ended == before.stream_ended
        &&& self.flow() == before.flow()
    }

    /// The number of columns of the side that `key` belongs to.
    pub open spec fn width_of(&self, key: KeyType) -> nat {
        match key {
            KeyType::Left(_) => self.executor.side_l.width(),
            KeyType::Right(_) => self.executor.side_r.width(),
        }
    }

    /// `self` is `before` with `rows` under `key`.
    pub open spec fn loaded(&self, before: &Self, key: KeyType, rows: Seq<(Row, JoinRow)>) -> bool {
        &&& self.same_queue(before)
        &&& self.inflight_io_set == before.inflight_io_set
        &&& before.attached(key, rows, self)
    }

    /// The rows under `key` have been loaded.
    pub fn on_loaded(&mut self, key: KeyType, rows: Vec<(Row, JoinRow)>)
        requires
            old(self).well_formed(),
            rows_fit(pair_views(rows@), old(self).width_of(key)),
        ensures
            final(self).well_formed(),
            final(self).loaded(old(self), key, rows@),
    {
        proof {
            lemma_collected_fits(pair_views(rows@), self.width_of(key));
        }
        let base = KeyedList::from_pairs(rows);
        match key {
            KeyType::Left(k) => {
                self.executor.insert_cached::<Left>(k, base);
            },
            KeyType::Right(k) => {
                self.executor.insert_cached::<Right>(k, base);
            },
        }
        proof {
            lemma_still_queueable(&old(self).executor, &self.executor, self.msg_queue@);
        }
    }

    /// `self` is `before` with `rows` under `key`, which is no longer being fetched; where it was not
    /// being fetched, the rows are left alone.
    pub open spec fn fetched(&self, before: &Self, key: KeyType, rows: Seq<(Row, JoinRow)>) -> bool {
        let inflight = key_contents(before.inflight_io_set);
        &&& self.same_queue(before)
        &&& key_contents(self.inflight_io_set) == inflight.remove(key@)
        &&& if inflight.contains(key@) {
            before.attached(key, rows, self)
        } else {
            self.executor == before.executor
        }
    }

    /// The rows under `key` have been fetched. Returns whether the key was being fetched; if it was
    /// not, nothing changes.
    pub fn on_fetched(&mut self, key: KeyType, rows: Vec<(Row, JoinRow)>) -> (r: bool)
        requires
            old(self).well_formed(),
            rows_fit(pair_views(rows@), old(self).width_of(key)),
        ensures
            final(self).well_formed(),
            r == key_contents(old(self).inflight_io_set).contains(key@),
            final(self).fetched(old(self), key, rows@),
    {
        let was_there = match &key {
            KeyType::Left(k) => remove_key(&mut self.inflight_io_set, SideType::Left, k),
            KeyType::Right(k) => remove_key(&mut self.inflight_io_set, SideType::Right, k),
        };
        if was_there {
            self.on_loaded(key, rows);
        }
        was_there
    }

    /// `after` is `self` without its next message, which has been counted as processed.
    pub open spec fn dequeued(&self, after: &Self) -> bool {
        &&& after.msg_queue@ == self.msg_queue@.drop_last()
        &&& after.inflight_io_set == self.inflight_io_set
        &&& after.stream_ended == self.stream_ended
        &&& after.flow() == counted(self.flow(), self.executor.prefetch_queue_depth as nat)
    }

    /// No more rows have come for now, and the next message has been looked at.
    pub open spec fn turned(&self, after: &Self, action: Action<B>) -> bool {
        let (msg, io) = self.msg_queue@.last();
        if !key_contents(self.inflight_io_set).disjoint(key_contents(io)) {
            &&& action == Action::<B>::Sleep
            &&& after.same_work(self)
            &&& after.flow() == (Flow { no_wait: 0, ..self.flow() })
        } else {
            match msg {
                AlignedMessage::Barrier(barrier) => {
                    &&& self.dequeued(after)
                    &&& action matches Action::Flush(flushed, b) && b == barrier && passed(
                        &self.executor,
                        &after.executor,
                        barrier.epoch.curr,
                        flushed,
                    )
                },
                AlignedMessage::Left(chunk) => {
                    &&& processed::<F, B, Left, T>(
                        &self.executor,
                        &after.executor,
                        &chunk,
                        SideType::Right,
                        action,
                    )
                    &&& if action is Output {
                        self.dequeued(after)
                    } else {
                        after.same_work(self) && after.flow() == self.flow()
                    }
                },
                AlignedMessage::Right(chunk) => {
                    &&& processed::<F, B, Right, T>(
                        &self.executor,
                        &after.executor,
                        &chunk,
                        SideType::Left,
                        action,
                    )
                    &&& if action is Output {
                        self.dequeued(after)
                    } else {
                        after.same_work(self) && after.flow() == self.flow()
                    }
                },
            }
        }
    }

    fn count(&mut self)
        requires
            old(self).has_room(),
        ensures
            final(self).executor == old(self).executor,
            final(self).msg_queue == old(self).msg_queue,
            final(self).inflight_io_set == old(self).inflight_io_set,
            final(self).stream_ended == old(self).stream_ended,
            final(self).flow() == counted(
                old(self).flow(),
                old(self).executor.prefetch_queue_depth as nat,
            ),
    {
        self.msg_uuid = self.msg_uuid + 1;
        self.processed_msg = true;
        self.consecutive_no_wait = self.consecutive_no_wait + 1;
        if self.consecutive_no_wait > self.executor.prefetch_queue_depth {
            self.backpressure = true;
        }
    }

    /// No more rows have come for now: the next message is processed, unless keys that it waits for
    /// are still being fetched.
    pub fn on_fetches_pending(&mut self) -> (action: Action<B>)
        requires
            old(self).well_formed(),
            old(self).has_room(),
            old(self).msg_queue@.len() > 0,
        ensures
            final(self).well_formed(),
            old(self).turned(final(self), action),
    {
        let ghost queue = self.msg_queue@;
        match self.msg_queue.pop_back() {
            None => Action::Sleep,
            Some((msg, io_set)) => {
                proof {
                    assert((msg, io_set) == queue.last());
                    assert(queueable(&self.executor, queue[queue.len() - 1].0));
                    assert forall|i: int| 0 <= i < self.msg_queue@.len() implies queueable(
                        &self.executor,
                        (#[trigger] self.msg_queue@[i]).0,
                    ) by {
                        assert(self.msg_queue@[i] == queue[i]);
                    }
                    assert(self.msg_queue@.push((msg, io_set)) =~= queue);
                }
                if !are_disjoint(&self.inflight_io_set, &io_set) {
                    self.consecutive_no_wait = 0;
                    self.msg_queue.push_back((msg, io_set));
                    return Action::Sleep;
                }
                let ghost rest = self.msg_queue@;
                match msg {
                    AlignedMessage::Left(chunk) => {
                        let action = process_chunk::<F, B, Left, T>(
                            &mut self.executor,
                            &chunk,
                            SideType::Right,
                        );
                        proof {
                            lemma_still_queueable(&old(self).executor, &self.executor, rest);
                        }
                        match action {
                            Action::Output(out) => {
                                self.count();
                                Action::Output(out)
                            },
                            other => {
                                self.msg_queue.push_back((AlignedMessage::Left(chunk), io_set));
                                other
                            },
                        }
                    },
                    AlignedMessage::Right(chunk) => {
                        let action = process_chunk::<F, B, Right, T>(
                            &mut self.executor,
                            &chunk,
                            SideType::Left,
                        );
                        proof {
                            lemma_still_queueable(&old(self).executor, &self.executor, rest);
                        }
                        match action {
                            Action::Output(out) => {
                                self.count();
                                Action::Output(out)
                            },
                            other => {
                                self.msg_queue.push_back((AlignedMessage::Right(chunk), io_set));
                                other
                            },
                        }
                    },
                    AlignedMessage::Barrier(barrier) => {
                        self.count();
                        let flushed = self.executor.on_barrier(barrier.epoch.curr);
                        proof {
                            lemma_still_queueable(&old(self).executor, &self.executor, rest);
                        }
                        Action::Flush(flushed, barrier)
                    },
                }
            },
        }
    }
}

/// A barrier has passed: everything that was to be written is in `flushed`, and `epoch` begins.
pub open spec fn passed<
    F: Fn(&Row, &Vec<DataType>) -> Result<Vec<Option<bool>>, EvalError>,
    const T: u8,
>(
    before: &HashJoinExecutor<F, T>,
    after: &HashJoinExecutor<F, T>,
    epoch: u64,
    flushed: FlushedData,
) -> bool {
    &&& same_but_epoch(after, before)
    &&& after.epoch == epoch
    &&& after.side_l.ht.epoch == epoch
    &&& after.side_r.ht.epoch == epoch
    &&& after.side_l.ht@ == evicted(cleaned(before.side_l.ht@), before.side_l.ht.target_cap as nat)
    &&& after.side_r.ht@ == evicted(cleaned(before.side_r.ht@), before.side_r.ht.target_cap as nat)
    &&& flushed.epoch == before.epoch
    &&& writes_view(flushed.left@) == table_writes(before.side_l.ht@)
    &&& writes_view(flushed.right@) == table_writes(before.side_r.ht@)
}

/// `keys` are `rows` as join keys of the side `side`.
pub open spec fn keys_on(side: u8, rows: Seq<Row>) -> Seq<(u8, RowView)> {
    Seq::new(rows.len(), |i: int| (side, rows[i]@))
}

/// The chunk of a message on the side `SIDE` has been looked at: its changes are joined where the
/// rows are there; else the keys that lack are to be loaded from the side `other`.
pub open spec fn processed<
    F: Fn(&Row, &Vec<DataType>) -> Result<Vec<Option<bool>>, EvalError>,
    B,
    const SIDE: u8,
    const T: u8,
>(
    before: &HashJoinExecutor<F, T>,
    after: &HashJoinExecutor<F, T>,
    chunk: &StreamChunk,
    other: u8,
    action: Action<B>,
) -> bool {
    match action {
        Action::Output(out) => before.ready_for::<SIDE>(chunk) && before.joined::<SIDE>(
            after,
            chunk,
            out,
        ),
        Action::Load(keys) => {
            &&& *after == *before
            &&& keys@.len() > 0
            &&& exists|rows: Seq<Row>| #[trigger]
                lists_missing(
                    before.rules::<SIDE>(),
                    before.state::<SIDE>(),
                    chunk.records(),
                    rows,
                ) && key_views(keys@) == keys_on(other, rows)
        },
        Action::DegreeOverflow => {
            &&& *after == *before
            &&& lists_missing(
                before.rules::<SIDE>(),
                before.state::<SIDE>(),
                chunk.records(),
                Seq::empty(),
            )
            &&& !before.ready_for::<SIDE>(chunk)
        },
        _ => false,
    }
}

fn process_chunk<
    F: Fn(&Row, &Vec<DataType>) -> Result<Vec<Option<bool>>, EvalError>,
    B,
    const SIDE: u8,
    const T: u8,
>(executor: &mut HashJoinExecutor<F, T>, chunk: &StreamChunk, other: u8) -> (action: Action<B>)
    requires
        old(executor).well_formed(),
        chunk.well_formed(),
        chunk.visibility is None,
        chunk.width == old(executor).rules::<SIDE>().layout.update_width,
        other == SideType::Left || other == SideType::Right,
    ensures
        final(executor).well_formed(),
        processed::<F, B, SIDE, T>(old(executor), final(executor), chunk, other, action),
{
    match executor.readiness::<SIDE>(chunk) {
        Readiness::Ready => Action::Output(executor.eq_join_oneside::<SIDE>(chunk)),
        Readiness::Missing(rows) => {
            let ghost missing = rows@;
            let keys = to_keys(other, rows);
            assert(key_views(keys@).len() == keys_on(other, missing).len());
            assert(lists_missing(
                executor.rules::<SIDE>(),
                executor.state::<SIDE>(),
                chunk.records(),
                missing,
            ));
            Action::Load(keys)
        },
        _ => Action::DegreeOverflow,
    }
}

fn to_keys(side: u8, rows: Vec<Row>) -> (keys: Vec<KeyType>)
    requires
        side == SideType::Left || side == SideType::Right,
    ensures
        key_views(keys@) == keys_on(side, rows@),
{
    let mut keys: Vec<KeyType> = Vec::new();
    let n: usize = rows.len();
    let mut i: usize = 0;
    while i < n
        invariant
            i <= n,
            n == rows@.len(),
            side == SideType::Left || side == SideType::Right,
            keys@.len() == i,
            forall|j: int| 0 <= j < i ==> (#[trigger] keys@[j])@ == (side, rows@[j]@),
        decreases n - i,
    {
        keys.push(key_on(side, rows[i].clone()));
        i = i + 1;
    }
    assert(key_views(keys@) =~= keys_on(side, rows@));
    keys
}

/// A message that suits one executor suits another one with the same columns.
proof fn lemma_still_queueable<
    F: Fn(&Row, &Vec<DataType>) -> Result<Vec<Option<bool>>, EvalError>,
    B,
    const T: u8,
>(
    before: &HashJoinExecutor<F, T>,
    after: &HashJoinExecutor<F, T>,
    queue: Seq<(AlignedMessage<B>, KeySet)>,
)
    requires
        before.side_l.col_types == after.side_l.col_types,
        before.side_r.col_types == after.side_r.col_types,
        forall|i: int| 0 <= i < queue.len() ==> queueable(before, (#[trigger] queue[i]).0),
    ensures
        forall|i: int| 0 <= i < queue.len() ==> queueable(after, (#[trigger] queue[i]).0),
{
    assert forall|i: int| 0 <= i < queue.len() implies queueable(after, (#[trigger] queue[i]).0) by {
        assert(queueable(before, queue[i].0));
    }
}

proof fn lemma_collected_fits(pairs: RowsView, width: nat)
    requires
        rows_fit(pairs, width),
    ensures
        rows_fit(collected(pairs), width),
    decreases pairs.len(),
{
    if pairs.len() > 0 {
        assert forall|i: int| 0 <= i < pairs.drop_last().len() implies (
        #[trigger] pairs.drop_last()[i]).1.row.len() == width by {
            assert(pairs.drop_last()[i] == pairs[i]);
        }
        lemma_collected_fits(pairs.drop_last(), width);
        let before = collected(pairs.drop_last());
        let t = collected(pairs);
        assert(pairs.last() == pairs[pairs.len() - 1]);
        assert forall|i: int| 0 <= i < t.len() implies (#[trigger] t[i]).1.row.len() == width by {
            if i < before.len() {
                assert(before[i].1.row.len() == width);
            }
        }
    }
}

/// Whether all rows have `width` columns.
pub fn rows_have_width(rows: &Vec<(Row, JoinRow)>, width: usize) -> (r: bool)
    ensures
        r == rows_fit(pair_views(rows@), width as nat),
{
    let n: usize = rows.len();
    let ghost views = pair_views(rows@);
    let mut i: usize = 0;
    while i < n
        invariant
            i <= n,
            n == rows@.len(),
            views == pair_views(rows@),
            forall|j: int| 0 <= j < i ==> (#[trigger] views[j]).1.row.len() == width,
        decreases n - i,
    {
        assert(views[i as int].1.row == rows@[i as int].1.row@);
        if rows[i].1.row.size() != width {
            return false;
        }
        i = i + 1;
    }
    true
}

/// A message that can be queued: its chunk is compacted and has the columns of its side.
pub open spec fn queueable<
    F: Fn(&Row, &Vec<DataType>) -> Result<Vec<Option<bool>>, EvalError>,
    B,
    const T: u8,
>(executor: &HashJoinExecutor<F, T>, msg: AlignedMessage<B>) -> bool {
    &&& executor.takes(msg)
    &&& match msg {
        AlignedMessage::Barrier(_) => true,
        AlignedMessage::Left(chunk) => chunk.visibility is None,
        AlignedMessage::Right(chunk) => chunk.visibility is None,
    }
}

} // verus!
