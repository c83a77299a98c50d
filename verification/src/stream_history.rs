//! A whole run of a join as a history: all changes that it puts out add up to the join of the rows
//! that its messages brought.
use vstd::prelude::*;

use crate::SideType;
use crate::SideType::{Left, Right};
use crate::chunk::Record;
use crate::executor_laws::{
    law_attached_is_event, law_barrier_is_event, law_joined_is_event, world_of,
};
use crate::join_builder::chunk_records;
use crate::join_history::{
    Event, Setup, World, after_event, after_events, all_written, changes_on, event_changes,
    event_keys_listed, held, law_history, lawful_event, output_count, setup_of,
};
use crate::join_laws::{Store, all_taken_over, each_once};
use crate::join_meaning::{law_output_is_join, meant, occurs, rows_left_by};
use crate::join_model::net;
use crate::join_run::{Condition, models};
use crate::join_state::{EntryView, writes_view};
use crate::join_step::EvalError;
use crate::join_stream::{Action, AlignedMessage, JoinStream};
use crate::key_set::key_contents;
use crate::keyed::{collected, pair_views};
use crate::row::{Row, RowView};
use crate::schema::DataType;
use crate::stream_laws::{in_order, law_first_processed};
use crate::stream_run::{
    Call, answered, is_fresh, is_run, law_call_in_order, law_run_in_order, lemma_run_prefix,
    same_message, taken,
};

verus! {

/// What a call is to the join: changes on a side, rows that come from the state store, a flush, or
/// nothing.
pub open spec fn call_event<
    F: Fn(&Row, &Vec<DataType>) -> Result<Vec<Option<bool>>, EvalError>,
    B,
    const T: u8,
>(before: &JoinStream<F, B, T>, call: Call<B>) -> Option<Event> {
    match call {
        Call::Loaded { key, rows } => Some(
            Event::Fetched { side: key@.0, key: key@.1, base: collected(pair_views(rows)) },
        ),
        Call::Fetched { key, rows } => if key_contents(before.inflight_io_set).contains(key@) {
            Some(Event::Fetched { side: key@.0, key: key@.1, base: collected(pair_views(rows)) })
        } else {
            None
        },
        Call::FetchesPending { action } => match action {
            Action::Flush(_, _) => Some(
                Event::Flushed {
                    left_cap: before.executor.side_l.ht.target_cap as nat,
                    right_cap: before.executor.side_r.ht.target_cap as nat,
                },
            ),
            Action::Output(_) => match in_order(before)[0].0 {
                AlignedMessage::Left(chunk) => Some(
                    Event::Changes { side: SideType::Left, changes: chunk.records() },
                ),
                AlignedMessage::Right(chunk) => Some(
                    Event::Changes { side: SideType::Right, changes: chunk.records() },
                ),
                AlignedMessage::Barrier(_) => None,
            },
            _ => None,
        },
        _ => None,
    }
}

/// What the calls of a run are to the join, in their order.
pub open spec fn events_of<
    F: Fn(&Row, &Vec<DataType>) -> Result<Vec<Option<bool>>, EvalError>,
    B,
    const T: u8,
>(states: Seq<JoinStream<F, B, T>>, calls: Seq<Call<B>>) -> Seq<Event>
    decreases calls.len(),
{
    if calls.len() == 0 {
        Seq::empty()
    } else {
        let before = events_of(states.drop_last(), calls.drop_last());
        match call_event(&states[calls.len() - 1], calls.last()) {
            Some(event) => before.push(event),
            None => before,
        }
    }
}

/// What the state store holds for a side after a run whose flushes were all written to it.
pub open spec fn store_after<B>(calls: Seq<Call<B>>, side: u8, store: Store) -> Store
    decreases calls.len(),
{
    if calls.len() == 0 {
        store
    } else {
        let before = store_after(calls.drop_last(), side, store);
        match calls.last().action() {
            Some(Action::Flush(flushed, _)) => all_written(
                before,
                writes_view(
                    if side == SideType::Left {
                        flushed.left@
                    } else {
                        flushed.right@
                    },
                ),
            ),
            _ => before,
        }
    }
}

/// All changes that a run puts out, in their order.
pub open spec fn changes_put_out<B>(calls: Seq<Call<B>>) -> Seq<Record>
    decreases calls.len(),
{
    if calls.len() == 0 {
        Seq::empty()
    } else {
        let before = changes_put_out(calls.drop_last());
        match calls.last().action() {
            Some(Action::Output(out)) => before + chunk_records(out.chunks@).flatten(),
            _ => before,
        }
    }
}

/// No call reports an error.
pub open spec fn without_error<B>(calls: Seq<Call<B>>) -> bool {
    forall|i: int|
        0 <= i < calls.len() ==> ((#[trigger] calls[i]).action() matches Some(Action::Output(out))
            ==> out.error is None)
}

/// The visible changes that messages bring on the side `side`.
pub open spec fn changes_in<B>(msgs: Seq<AlignedMessage<B>>, side: u8) -> Seq<Record>
    decreases msgs.len(),
{
    if msgs.len() == 0 {
        Seq::empty()
    } else {
        let before = changes_in(msgs.drop_last(), side);
        match msgs.last() {
            AlignedMessage::Left(chunk) => if side == SideType::Left {
                before + chunk.visible()
            } else {
                before
            },
            AlignedMessage::Right(chunk) => if side == SideType::Right {
                before + chunk.visible()
            } else {
                before
            },
            AlignedMessage::Barrier(_) => before,
        }
    }
}

/// Each state of a run is well-formed.
pub open spec fn all_well_formed<
    F: Fn(&Row, &Vec<DataType>) -> Result<Vec<Option<bool>>, EvalError>,
    B,
    const T: u8,
>(states: Seq<JoinStream<F, B, T>>) -> bool {
    forall|i: int| 0 <= i < states.len() ==> (#[trigger] states[i]).well_formed()
}

/// A call is the event that it is said to be, or leaves the join as it is.
proof fn lemma_call_is_event<
    F: Fn(&Row, &Vec<DataType>) -> Result<Vec<Option<bool>>, EvalError>,
    B,
    const T: u8,
>(
    before: &JoinStream<F, B, T>,
    call: Call<B>,
    after: &JoinStream<F, B, T>,
    c: Condition,
    left_store: Store,
    right_store: Store,
)
    requires
        crate::stream_run::stepped(before, call, after),
        before.well_formed(),
        models(before.executor.cond, before.executor.output_data_types, c),
        call.action() matches Some(Action::Output(out)) ==> out.error is None,
    ensures
        ({
            let setup = setup_of(&before.executor);
            let world = world_of(&before.executor, left_store, right_store);
            let (left2, right2) = match call.action() {
                Some(Action::Flush(flushed, _)) => (
                    all_written(left_store, writes_view(flushed.left@)),
                    all_written(right_store, writes_view(flushed.right@)),
                ),
                _ => (left_store, right_store),
            };
            let records = match call.action() {
                Some(Action::Output(out)) => chunk_records(out.chunks@).flatten(),
                _ => Seq::<Record>::empty(),
            };
            let now = world_of(&after.executor, left2, right2);
            &&& match call_event(before, call) {
                Some(event) => after_event(setup, world, c, event) == (now, records),
                None => now == world && records == Seq::<Record>::empty(),
            }
            &&& setup_of(&after.executor) == setup
            &&& after.executor.cond == before.executor.cond
            &&& after.executor.output_data_types == before.executor.output_data_types
        }),
{
    let e = &before.executor;
    let f = &after.executor;
    match call {
        Call::Loaded { key, rows } => {
            law_attached_is_event(before, after, key, rows, c, left_store, right_store);
        },
        Call::Fetched { key, rows } => {
            if key_contents(before.inflight_io_set).contains(key@) {
                law_attached_is_event(before, after, key, rows, c, left_store, right_store);
            }
        },
        Call::FetchesPending { action } => {
            law_first_processed(before, after, action);
            assert(in_order(before)[0] == before.msg_queue@.last());
            match action {
                Action::Flush(flushed, barrier) => {
                    law_barrier_is_event(
                        e,
                        f,
                        barrier.epoch.curr,
                        flushed,
                        c,
                        left_store,
                        right_store,
                    );
                },
                Action::Output(out) => {
                    match before.msg_queue@.last().0 {
                        AlignedMessage::Left(chunk) => {
                            law_joined_is_event::<F, T, Left>(
                                e,
                                f,
                                &chunk,
                                out,
                                c,
                                left_store,
                                right_store,
                            );
                        },
                        AlignedMessage::Right(chunk) => {
                            law_joined_is_event::<F, T, Right>(
                                e,
                                f,
                                &chunk,
                                out,
                                c,
                                left_store,
                                right_store,
                            );
                        },
                        AlignedMessage::Barrier(_) => {},
                    }
                },
                _ => {},
            }
        },
        _ => {},
    }
}

/// A run in which nothing fails is a history of the join: its events lead from what the join held at
/// the beginning to what it holds at the end, and the changes that they put out are those of the
/// chunks that the run puts out.
pub proof fn law_run_is_history<
    F: Fn(&Row, &Vec<DataType>) -> Result<Vec<Option<bool>>, EvalError>,
    B,
    const T: u8,
>(
    states: Seq<JoinStream<F, B, T>>,
    calls: Seq<Call<B>>,
    c: Condition,
    left_store: Store,
    right_store: Store,
)
    requires
        is_run(states, calls),
        all_well_formed(states),
        models(states[0].executor.cond, states[0].executor.output_data_types, c),
        without_error(calls),
    ensures
        ({
            let first = &states[0].executor;
            let last = &states.last().executor;
            &&& after_events(
                setup_of(first),
                world_of(first, left_store, right_store),
                c,
                events_of(states, calls),
            ) == (
                world_of(
                    last,
                    store_after(calls, SideType::Left, left_store),
                    store_after(calls, SideType::Right, right_store),
                ),
                changes_put_out(calls),
            )
            &&& setup_of(last) == setup_of(first)
            &&& last.cond == first.cond
            &&& last.output_data_types == first.output_data_types
        }),
    decreases calls.len(),
{
    if calls.len() > 0 {
        let n = calls.len() - 1;
        let less = calls.drop_last();
        let call = calls.last();
        lemma_run_prefix(states, calls);
        assert(all_well_formed(states.drop_last())) by {
            assert forall|i: int| 0 <= i < states.drop_last().len() implies (
            #[trigger] states.drop_last()[i]).well_formed() by {
                assert(states[i].well_formed());
            }
        }
        assert(without_error(less)) by {
            assert forall|i: int| 0 <= i < less.len() implies ((
            #[trigger] less[i]).action() matches Some(Action::Output(out)) ==> out.error is None) by {
                assert(calls[i] == less[i]);
            }
        }
        law_run_is_history(states.drop_last(), less, c, left_store, right_store);
        assert(calls[n] == call);
        assert(states[n].well_formed());
        lemma_call_is_event(
            &states[n],
            call,
            &states.last(),
            c,
            store_after(less, SideType::Left, left_store),
            store_after(less, SideType::Right, right_store),
        );
        let events = events_of(states, calls);
        match call_event(&states[n], call) {
            Some(event) => {
                assert(events.drop_last() =~= events_of(states.drop_last(), less));
            },
            None => {},
        }
        assert(changes_put_out(less) + Seq::<Record>::empty() =~= changes_put_out(less));
    }
}

/// The changes that a run has joined are the visible changes of the messages that it has answered.
pub proof fn law_run_joins_messages<
    F: Fn(&Row, &Vec<DataType>) -> Result<Vec<Option<bool>>, EvalError>,
    B,
    const T: u8,
>(states: Seq<JoinStream<F, B, T>>, calls: Seq<Call<B>>, side: u8)
    requires
        is_run(states, calls),
        is_fresh(&states[0]),
        side <= 1,
    ensures
        changes_on(events_of(states, calls), side) == changes_in(
            taken(calls).take(answered(calls).len() as int),
            side,
        ),
    decreases calls.len(),
{
    if calls.len() > 0 {
        let n = calls.len() - 1;
        let less = calls.drop_last();
        let call = calls.last();
        lemma_run_prefix(states, calls);
        law_run_joins_messages(states.drop_last(), less, side);
        law_run_in_order(states.drop_last(), less);
        law_call_in_order(&states[n], call, &states.last());
        let events = events_of(states, calls);
        let events0 = events_of(states.drop_last(), less);
        let joined = changes_on(events0, side);
        let done = answered(less).len() as int;
        match call_event(&states[n], call) {
            Some(event) => {
                assert(events.drop_last() =~= events0);
                assert(changes_on(events, side) == joined + event_changes(event, side));
            },
            None => {},
        }
        assert(joined + Seq::<Record>::empty() =~= joined);
        if call.puts_out() {
            let msg = taken(less)[done];
            assert(same_message(msg, in_order(&states[n])[0].0));
            let msgs = taken(calls).take(done + 1);
            assert(msgs.drop_last() =~= taken(less).take(done));
            assert(msgs.last() == msg);
            match call {
                Call::FetchesPending { action } => {
                    law_first_processed(&states[n], &states.last(), action);
                },
                _ => {},
            }
        } else {
            assert(taken(calls).take(done) =~= taken(less).take(done));
        }
    } else {
        assert(taken(calls).take(0) =~= Seq::empty());
    }
}

/// From nothing on, whatever the order in which messages and rows come: the changes that a join has
/// put out add up to the join of the rows that the messages which it has answered brought and did not
/// remove.
pub proof fn law_run_is_join<
    F: Fn(&Row, &Vec<DataType>) -> Result<Vec<Option<bool>>, EvalError>,
    B,
    const T: u8,
>(
    states: Seq<JoinStream<F, B, T>>,
    calls: Seq<Call<B>>,
    c: Condition,
    keys: Seq<RowView>,
    o: RowView,
)
    requires
        is_run(states, calls),
        all_well_formed(states),
        is_fresh(&states[0]),
        states[0].executor.side_l.ht@ == Seq::<(RowView, EntryView)>::empty(),
        states[0].executor.side_r.ht@ == Seq::<(RowView, EntryView)>::empty(),
        models(states[0].executor.cond, states[0].executor.output_data_types, c),
        without_error(calls),
        !states[0].executor.append_only_optimize,
        setup_of(&states[0].executor).symmetric(c),
        ({
            let setup = setup_of(&states[0].executor);
            let events = events_of(states, calls);
            &&& forall|i: int|
                0 <= i < events.len() ==> lawful_event(
                    setup,
                    after_events(setup, World::empty(), c, #[trigger] events.take(i)).0,
                    c,
                    events[i],
                )
            &&& forall|i: int|
                0 <= i < events.len() ==> event_keys_listed(setup, #[trigger] events[i], keys)
        }),
        each_once(keys),
    ensures
        ({
            let setup = setup_of(&states[0].executor);
            let world = world_of(
                &states.last().executor,
                store_after(calls, SideType::Left, Map::empty()),
                store_after(calls, SideType::Right, Map::empty()),
            );
            &&& net(changes_put_out(calls), o) == output_count(setup, world, c, keys, o)
            &&& forall|side: u8, key: RowView|
                side <= 1 ==> #[trigger] held(world, side, key) == all_taken_over(
                    Map::empty(),
                    setup.rules(side),
                    key,
                    changes_in(taken(calls).take(answered(calls).len() as int), side),
                )
        }),
{
    let setup = setup_of(&states[0].executor);
    assert(world_of(&states[0].executor, Map::empty(), Map::empty()) == World::empty());
    law_run_is_history(states, calls, c, Map::empty(), Map::empty());
    law_history(setup, c, events_of(states, calls), keys, o);
    law_run_joins_messages(states, calls, SideType::Left);
    law_run_joins_messages(states, calls, SideType::Right);
}

/// From nothing on, whatever the order in which messages and rows come: what a join has put out holds
/// each row as often as the join of the left rows and the right rows that its answered messages brought
/// and did not remove.
pub proof fn law_run_output_is_join<
    F: Fn(&Row, &Vec<DataType>) -> Result<Vec<Option<bool>>, EvalError>,
    B,
    const T: u8,
>(
    states: Seq<JoinStream<F, B, T>>,
    calls: Seq<Call<B>>,
    c: Condition,
    keys: Seq<RowView>,
    o: RowView,
)
    requires
        is_run(states, calls),
        all_well_formed(states),
        is_fresh(&states[0]),
        states[0].executor.side_l.ht@ == Seq::<(RowView, EntryView)>::empty(),
        states[0].executor.side_r.ht@ == Seq::<(RowView, EntryView)>::empty(),
        models(states[0].executor.cond, states[0].executor.output_data_types, c),
        without_error(calls),
        !states[0].executor.append_only_optimize,
        setup_of(&states[0].executor).symmetric(c),
        ({
            let setup = setup_of(&states[0].executor);
            let events = events_of(states, calls);
            &&& forall|i: int|
                0 <= i < events.len() ==> lawful_event(
                    setup,
                    after_events(setup, World::empty(), c, #[trigger] events.take(i)).0,
                    c,
                    events[i],
                )
            &&& forall|i: int|
                0 <= i < events.len() ==> event_keys_listed(setup, #[trigger] events[i], keys)
        }),
        each_once(keys),
    ensures
        ({
            let executor = states[0].executor;
            let answered_msgs = taken(calls).take(answered(calls).len() as int);
            occurs(changes_put_out(calls), o) == meant(
                Setup {
                    join_type: T,
                    left_width: executor.side_l.col_types@.len(),
                    right_width: executor.side_r.col_types@.len(),
                    left_keys: executor.side_l.key_indices@,
                    left_pks: executor.side_l.pk_indices@,
                    right_keys: executor.side_r.key_indices@,
                    right_pks: executor.side_r.pk_indices@,
                    append_only: false,
                },
                c,
                rows_left_by(
                    changes_in(answered_msgs, SideType::Left),
                    executor.side_l.key_indices@,
                    executor.side_l.pk_indices@,
                ),
                rows_left_by(
                    changes_in(answered_msgs, SideType::Right),
                    executor.side_r.key_indices@,
                    executor.side_r.pk_indices@,
                ),
                o,
            )
        }),
{
    let setup = setup_of(&states[0].executor);
    assert(world_of(&states[0].executor, Map::empty(), Map::empty()) == World::empty());
    law_run_is_history(states, calls, c, Map::empty(), Map::empty());
    law_output_is_join(setup, c, events_of(states, calls), keys, o);
    law_run_joins_messages(states, calls, SideType::Left);
    law_run_joins_messages(states, calls, SideType::Right);
}

} // verus!
