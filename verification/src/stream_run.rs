//! What holds of a join over a whole run: in which order it answers its messages, when it ends, and
//! what all that it puts out comes to.
use vstd::prelude::*;

use crate::SideType::{Left, Right};
use crate::chunk::StreamChunk;
use crate::hash_join::HashJoinExecutor;
use crate::join_state::JoinRow;
use crate::join_step::EvalError;
use crate::join_stream::{Action, AlignedMessage, JoinStream, KeyType, compacted, passed};
use crate::key_set::{KeySet, key_contents};
use crate::row::{Row, RowView};
use crate::schema::DataType;
use crate::stream_laws::{in_order, law_first_processed, law_queued_last};

verus! {

/// A call of a join at work: what the join is given, and what it says to do next.
pub enum Call<B> {
    Advance { action: Action<B> },
    Message { msg: AlignedMessage<B>, fetches: Vec<KeyType>, action: Action<B> },
    InputPending { action: Action<B> },
    InputEnded { action: Action<B> },
    Loaded { key: KeyType, rows: Seq<(Row, JoinRow)> },
    Fetched { key: KeyType, rows: Seq<(Row, JoinRow)> },
    FetchesPending { action: Action<B> },
}

impl<B> Call<B> {
    /// What is to be done next, where the call says so.
    pub open spec fn action(self) -> Option<Action<B>> {
        match self {
            Call::Advance { action } => Some(action),
            Call::Message { action, .. } => Some(action),
            Call::InputPending { action } => Some(action),
            Call::InputEnded { action } => Some(action),
            Call::FetchesPending { action } => Some(action),
            Call::Loaded { .. } => None,
            Call::Fetched { .. } => None,
        }
    }

    /// The call puts something out: chunks, or a barrier.
    pub open spec fn puts_out(self) -> bool {
        self.action() matches Some(action) && (action is Output || action is Flush)
    }
}

/// The call `call` turns `before` into `after`.
pub open spec fn stepped<
    F: Fn(&Row, &Vec<DataType>) -> Result<Vec<Option<bool>>, EvalError>,
    B,
    const T: u8,
>(before: &JoinStream<F, B, T>, call: Call<B>, after: &JoinStream<F, B, T>) -> bool {
    match call {
        Call::Advance { action } => after.advanced(before, action),
        Call::Message { msg, fetches, action } => after.took(before, msg, fetches, action),
        Call::InputPending { action } => after.settled(before, action),
        Call::InputEnded { action } => after.settled(
            &(JoinStream { stream_ended: true, ..*before }),
            action,
        ),
        Call::Loaded { key, rows } => after.loaded(before, key, rows),
        Call::Fetched { key, rows } => after.fetched(before, key, rows),
        Call::FetchesPending { action } => before.msg_queue@.len() > 0 && before.turned(
            after,
            action,
        ),
    }
}

/// The calls lead from each of the states to the next one.
pub open spec fn is_run<
    F: Fn(&Row, &Vec<DataType>) -> Result<Vec<Option<bool>>, EvalError>,
    B,
    const T: u8,
>(states: Seq<JoinStream<F, B, T>>, calls: Seq<Call<B>>) -> bool {
    &&& states.len() == calls.len() + 1
    &&& forall|i: int|
        0 <= i < calls.len() ==> stepped(&states[i], #[trigger] calls[i], &states[i + 1])
}

/// A join that has taken no message yet.
pub open spec fn is_fresh<F, B, const T: u8>(stream: &JoinStream<F, B, T>) -> bool {
    &&& stream.msg_queue@ == Seq::<(AlignedMessage<B>, KeySet)>::empty()
    &&& key_contents(stream.inflight_io_set) == Set::<(u8, RowView)>::empty()
    &&& !stream.stream_ended
}

/// The messages that were taken, in their order.
pub open spec fn taken<B>(calls: Seq<Call<B>>) -> Seq<AlignedMessage<B>>
    decreases calls.len(),
{
    if calls.len() == 0 {
        Seq::empty()
    } else {
        let before = taken(calls.drop_last());
        match calls.last() {
            Call::Message { msg, .. } => before.push(msg),
            _ => before,
        }
    }
}

/// Which of the calls put something out.
pub open spec fn answered<B>(calls: Seq<Call<B>>) -> Seq<int>
    decreases calls.len(),
{
    if calls.len() == 0 {
        Seq::empty()
    } else {
        let before = answered(calls.drop_last());
        if calls.last().puts_out() {
            before.push(calls.len() - 1)
        } else {
            before
        }
    }
}

/// The input was said to have ended.
pub open spec fn ended<B>(calls: Seq<Call<B>>) -> bool {
    exists|i: int| 0 <= i < calls.len() && #[trigger] calls[i] is InputEnded
}

/// `queued` is `msg` with nothing hidden.
pub open spec fn same_message<B>(msg: AlignedMessage<B>, queued: AlignedMessage<B>) -> bool {
    match msg {
        AlignedMessage::Barrier(_) => queued == msg,
        AlignedMessage::Left(chunk) => queued matches AlignedMessage::Left(c) && compacted(chunk, c),
        AlignedMessage::Right(chunk) => queued matches AlignedMessage::Right(c) && compacted(
            chunk,
            c,
        ),
    }
}

/// `action` is what is owed for `msg`: for a barrier the barrier itself, and what it flushes; for a
/// chunk all chunks that come out of the join of its visible changes.
pub open spec fn answers<
    F: Fn(&Row, &Vec<DataType>) -> Result<Vec<Option<bool>>, EvalError>,
    B,
    const T: u8,
>(
    before: &HashJoinExecutor<F, T>,
    msg: AlignedMessage<B>,
    action: Option<Action<B>>,
    after: &HashJoinExecutor<F, T>,
) -> bool {
    match msg {
        AlignedMessage::Barrier(barrier) => action matches Some(Action::Flush(flushed, b)) && b
            == barrier && passed(before, after, barrier.epoch.curr, flushed),
        AlignedMessage::Left(chunk) => action matches Some(Action::Output(out)) && exists|
            c: StreamChunk,
        | #[trigger]
            compacted(chunk, c) && before.ready_for::<Left>(&c) && before.joined::<Left>(after, &c, out),
        AlignedMessage::Right(chunk) => action matches Some(Action::Output(out)) && exists|
            c: StreamChunk,
        | #[trigger]
            compacted(chunk, c) && before.ready_for::<Right>(&c) && before.joined::<Right>(
                after,
                &c,
                out,
            ),
    }
}

/// Without its last call a run is a run.
pub proof fn lemma_run_prefix<
    F: Fn(&Row, &Vec<DataType>) -> Result<Vec<Option<bool>>, EvalError>,
    B,
    const T: u8,
>(states: Seq<JoinStream<F, B, T>>, calls: Seq<Call<B>>)
    requires
        is_run(states, calls),
        calls.len() > 0,
    ensures
        is_run(states.drop_last(), calls.drop_last()),
        stepped(&states[calls.len() - 1], calls.last(), &states.last()),
        states.drop_last().last() == states[calls.len() - 1],
        states.drop_last()[0] == states[0],
{
    let less = calls.drop_last();
    assert forall|i: int| 0 <= i < less.len() implies stepped(
        &states.drop_last()[i],
        #[trigger] less[i],
        &states.drop_last()[i + 1],
    ) by {
        assert(less[i] == calls[i]);
    }
    assert(calls[calls.len() - 1] == calls.last());
}

/// What one call does to the messages that wait: a message that comes is the last of them, the first
/// of them is answered where something is put out, and nothing else changes them.
pub proof fn law_call_in_order<
    F: Fn(&Row, &Vec<DataType>) -> Result<Vec<Option<bool>>, EvalError>,
    B,
    const T: u8,
>(before: &JoinStream<F, B, T>, call: Call<B>, after: &JoinStream<F, B, T>)
    requires
        stepped(before, call, after),
    ensures
        match call {
            Call::Message { msg, .. } => {
                &&& in_order(after).len() == in_order(before).len() + 1
                &&& in_order(after).drop_last() == in_order(before)
                &&& same_message(msg, in_order(after).last().0)
                &&& !call.puts_out()
            },
            _ => if call.puts_out() {
                &&& in_order(before).len() > 0
                &&& in_order(after) == in_order(before).drop_first()
                &&& forall|msg: AlignedMessage<B>| #[trigger]
                    same_message(msg, in_order(before)[0].0) ==> answers(
                        &before.executor,
                        msg,
                        call.action(),
                        &after.executor,
                    )
            } else {
                in_order(after) == in_order(before)
            },
        },
        after.stream_ended == (before.stream_ended || call is InputEnded),
{
    match call {
        Call::Message { msg, fetches, action } => {
            let (p, queued) = choose|
                p: crate::join_stream::Prefetched<B>,
                queued: JoinStream<F, B, T>,
            | #[trigger]
                before.queued(msg, p, &queued) && fetches == p.fetches && after.advanced(
                    &queued,
                    action,
                );
            law_queued_last(before, msg, p, &queued);
            assert(in_order(after) == in_order(&queued));
            assert(in_order(after).drop_last() =~= in_order(before));
        },
        Call::FetchesPending { action } => {
            law_first_processed(before, after, action);
            assert(in_order(before)[0] == before.msg_queue@.last());
            if call.puts_out() {
                assert forall|msg: AlignedMessage<B>| #[trigger]
                    same_message(msg, in_order(before)[0].0) implies answers(
                    &before.executor,
                    msg,
                    call.action(),
                    &after.executor,
                ) by {
                    match before.msg_queue@.last().0 {
                        AlignedMessage::Barrier(_) => {},
                        AlignedMessage::Left(c) => {
                            assert(compacted(msg->Left_0, c));
                        },
                        AlignedMessage::Right(c) => {
                            assert(compacted(msg->Right_0, c));
                        },
                    }
                }
            }
        },
        _ => {},
    }
}

/// Over a whole run, messages are answered in the order in which they came, however long their rows
/// take to be fetched: the first thing that is put out is owed for the first message that was taken,
/// and so on, each after its message was taken. A barrier is put out once, unchanged, in its place. The
/// messages that are not answered yet wait, in their order.
pub proof fn law_run_in_order<
    F: Fn(&Row, &Vec<DataType>) -> Result<Vec<Option<bool>>, EvalError>,
    B,
    const T: u8,
>(states: Seq<JoinStream<F, B, T>>, calls: Seq<Call<B>>)
    requires
        is_run(states, calls),
        is_fresh(&states[0]),
    ensures
        ({
            let msgs = taken(calls);
            let at = answered(calls);
            let waiting = in_order(&states.last());
            &&& msgs.len() == at.len() + waiting.len()
            &&& forall|k: int|
                0 <= k < at.len() ==> {
                    &&& 0 <= #[trigger] at[k] < calls.len()
                    &&& calls[at[k]].puts_out()
                    &&& k < taken(calls.take(at[k])).len()
                    &&& answers(
                        &states[at[k]].executor,
                        msgs[k],
                        calls[at[k]].action(),
                        &states[at[k] + 1].executor,
                    )
                }
            &&& forall|j: int, k: int|
                0 <= j < k < at.len() ==> #[trigger] at[j] < #[trigger] at[k]
            &&& forall|k: int|
                0 <= k < waiting.len() ==> same_message(
                    msgs[at.len() + k],
                    (#[trigger] waiting[k]).0,
                )
            &&& states.last().stream_ended == ended(calls)
        }),
    decreases calls.len(),
{
    if calls.len() == 0 {
        assert(in_order(&states.last()) =~= Seq::empty());
    } else {
        let n = calls.len() - 1;
        let less = calls.drop_last();
        let call = calls.last();
        lemma_run_prefix(states, calls);
        law_run_in_order(states.drop_last(), less);
        law_call_in_order(&states[n], call, &states.last());
        assert(ended(calls) == (ended(less) || call is InputEnded)) by {
            if ended(less) {
                let i = choose|i: int| 0 <= i < less.len() && #[trigger] less[i] is InputEnded;
                assert(calls[i] is InputEnded);
            }
            if call is InputEnded {
                assert(calls[n] is InputEnded);
            }
            if ended(calls) && !(call is InputEnded) {
                let i = choose|i: int| 0 <= i < calls.len() && #[trigger] calls[i] is InputEnded;
                assert(less[i] is InputEnded);
            }
        }
        let msgs0 = taken(less);
        let at0 = answered(less);
        let waiting0 = in_order(&states[n]);
        let msgs = taken(calls);
        let at = answered(calls);
        let waiting = in_order(&states.last());
        assert forall|k: int| 0 <= k < msgs0.len() implies msgs[k] == msgs0[k] by {}
        assert forall|k: int| 0 <= k < at.len() implies {
            &&& 0 <= #[trigger] at[k] < calls.len()
            &&& calls[at[k]].puts_out()
            &&& k < taken(calls.take(at[k])).len()
            &&& answers(
                &states[at[k]].executor,
                msgs[k],
                calls[at[k]].action(),
                &states[at[k] + 1].executor,
            )
        } by {
            if k < at0.len() {
                assert(at[k] == at0[k]);
                assert(less.take(at[k]) =~= calls.take(at[k]));
                assert(less[at[k]] == calls[at[k]]);
            } else {
                assert(calls.take(n) =~= less);
                assert(same_message(msgs0[at0.len() as int], waiting0[0].0));
            }
        }
        assert forall|k: int| 0 <= k < waiting.len() implies same_message(
            msgs[at.len() + k],
            (#[trigger] waiting[k]).0,
        ) by {
            if call is Message {
                if k < waiting0.len() {
                    assert(waiting.drop_last()[k] == waiting0[k]);
                }
            } else if call.puts_out() {
                assert(waiting[k] == waiting0[k + 1]);
            } else {
                assert(waiting[k] == waiting0[k]);
            }
        }
    }
}

/// A join ends where, and only where, its input has ended and every message that was taken has been
/// answered.
pub proof fn law_run_ends<
    F: Fn(&Row, &Vec<DataType>) -> Result<Vec<Option<bool>>, EvalError>,
    B,
    const T: u8,
>(states: Seq<JoinStream<F, B, T>>, calls: Seq<Call<B>>)
    requires
        is_run(states, calls),
        is_fresh(&states[0]),
        calls.len() > 0,
    ensures
        calls.last().action() == Some(Action::<B>::Finish) ==> ended(calls) && answered(calls).len()
            == taken(calls).len(),
        ended(calls) && answered(calls).len() == taken(calls).len() && (calls.last() is Advance
            || calls.last() is InputPending || calls.last() is InputEnded)
            ==> calls.last().action() == Some(Action::<B>::Finish),
{
    let n = calls.len() - 1;
    let call = calls.last();
    law_run_in_order(states, calls);
    lemma_run_prefix(states, calls);
    law_call_in_order(&states[n], call, &states.last());
    assert(in_order(&states.last()).len() == states.last().msg_queue@.len());
    assert(in_order(&states[n]).len() == states[n].msg_queue@.len());
    if call.action() == Some(Action::<B>::Finish) {
        match call {
            Call::FetchesPending { action } => {
                assert(states[n].turned(&states.last(), action));
            },
            _ => {},
        }
    }
}

} // verus!
