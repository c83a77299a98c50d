//! A join and its mirror image, with left and right exchanged: a right semi or anti join is the left
//! one with its inputs exchanged.
use vstd::prelude::*;

use crate::JoinType;
use crate::SideType;
use crate::SideType::{Left, Right};
use crate::chunk::{Record, StreamChunk};
use crate::hash_join::HashJoinExecutor;
use crate::join_builder::{Layout, chunk_records};
use crate::join_history::{Event, Setup, World, after_event, after_events};
use crate::join_kind::{anti, semi};
use crate::join_run::{Condition, JoinOutput, judge, judged_by, models, run};
use crate::join_state::{EntryView, RowsView};
use crate::join_step::{
    EvalError, JoinSide, JoinState, JudgedView, Rules, candidates, scan_delete, scan_insert, step,
};
use crate::row::{Row, RowView};
use crate::schema::DataType;

verus! {

/// The kind of join that does on the left what `join_type` does on the right.
pub open spec fn mirrored_type(join_type: u8) -> u8 {
    if join_type == JoinType::LeftOuter {
        JoinType::RightOuter
    } else if join_type == JoinType::RightOuter {
        JoinType::LeftOuter
    } else if join_type == JoinType::LeftSemi {
        JoinType::RightSemi
    } else if join_type == JoinType::RightSemi {
        JoinType::LeftSemi
    } else if join_type == JoinType::LeftAnti {
        JoinType::RightAnti
    } else if join_type == JoinType::RightAnti {
        JoinType::LeftAnti
    } else {
        join_type
    }
}

/// The other side.
pub open spec fn mirrored_side(side: u8) -> u8 {
    if side == SideType::Left {
        SideType::Right
    } else if side == SideType::Right {
        SideType::Left
    } else {
        side
    }
}

pub open spec fn mirrored_layout(layout: Layout) -> Layout {
    Layout {
        join_type: mirrored_type(layout.join_type),
        side: mirrored_side(layout.side),
        ..layout
    }
}

/// The same rules for the other side of the mirrored kind of join.
pub open spec fn mirrored_rules(rules: Rules) -> Rules {
    Rules { layout: mirrored_layout(rules.layout), ..rules }
}

/// Rows put out the same changes through rows that they match.
proof fn lemma_mirrored_scan(layout: Layout, row: RowView, entry: EntryView, verdicts: Seq<bool>)
    requires
        layout.side <= 1,
    ensures
        scan_insert(mirrored_layout(layout), row, entry, verdicts) == scan_insert(
            layout,
            row,
            entry,
            verdicts,
        ),
        scan_delete(mirrored_layout(layout), row, entry, verdicts) == scan_delete(
            layout,
            row,
            entry,
            verdicts,
        ),
    decreases verdicts.len(),
{
    if verdicts.len() > 0 {
        lemma_mirrored_scan(layout, row, entry, verdicts.drop_last());
    }
}

/// A change has the same effect, on the entries and on the output.
pub proof fn law_mirrored_step(rules: Rules, state: JoinState, change: Record, judged: JudgedView)
    requires
        rules.layout.side <= 1,
    ensures
        step(mirrored_rules(rules), state, change, judged) == step(rules, state, change, judged),
{
    let entry = crate::keyed::at(
        state.matched,
        crate::row::project(change.row, rules.update_keys),
    );
    lemma_mirrored_scan(rules.layout, change.row, entry, judged.verdicts);
}

proof fn lemma_mirrored_judge(layout: Layout, row: RowView, rows: RowsView, c: Condition, n: nat)
    ensures
        judge(mirrored_layout(layout), row, rows, c, n) == judge(layout, row, rows, c, n),
    decreases n,
{
    if n > 0 {
        lemma_mirrored_judge(layout, row, rows, c, (n - 1) as nat);
    }
}

/// Changes on a side have the same effect as the same changes on the other side of the mirrored kind
/// of join.
pub proof fn law_mirrored_run(rules: Rules, state: JoinState, changes: Seq<Record>, c: Condition)
    requires
        rules.layout.side <= 1,
    ensures
        run(mirrored_rules(rules), state, changes, c) == run(rules, state, changes, c),
    decreases changes.len(),
{
    if changes.len() > 0 {
        law_mirrored_run(rules, state, changes.drop_last(), c);
        let mid = run(rules, state, changes.drop_last(), c).state;
        let row = changes.last().row;
        let rows = candidates(rules, mid, row);
        lemma_mirrored_judge(rules.layout, row, rows, c, rows.len());
        law_mirrored_step(rules, mid, changes.last(), judged_by(rules, mid, row, c));
    }
}

pub open spec fn mirrored_setup(setup: Setup) -> Setup {
    Setup {
        join_type: mirrored_type(setup.join_type),
        left_width: setup.right_width,
        right_width: setup.left_width,
        left_keys: setup.right_keys,
        left_pks: setup.right_pks,
        right_keys: setup.left_keys,
        right_pks: setup.left_pks,
        append_only: setup.append_only,
    }
}

pub open spec fn mirrored_world(world: World) -> World {
    World {
        left: world.right,
        right: world.left,
        left_store: world.right_store,
        right_store: world.left_store,
    }
}

pub open spec fn mirrored_event(event: Event) -> Event {
    match event {
        Event::Changes { side, changes } => Event::Changes { side: mirrored_side(side), changes },
        Event::Fetched { side, key, base } => Event::Fetched { side: mirrored_side(side), key, base },
        Event::Flushed { left_cap, right_cap } => Event::Flushed {
            left_cap: right_cap,
            right_cap: left_cap,
        },
    }
}

pub open spec fn mirrored_events(events: Seq<Event>) -> Seq<Event> {
    Seq::new(events.len(), |i: int| mirrored_event(events[i]))
}

/// An event on one of the two sides.
pub open spec fn on_a_side(event: Event) -> bool {
    match event {
        Event::Changes { side, .. } => side <= 1,
        Event::Fetched { side, .. } => side <= 1,
        Event::Flushed { .. } => true,
    }
}

/// Whatever happens to a semi or anti join, its mirror image, to which the same happens on the other
/// side, puts out the same changes, in the same order.
pub proof fn law_mirrored_history(setup: Setup, world: World, c: Condition, events: Seq<Event>)
    requires
        semi(setup.join_type) || anti(setup.join_type),
        forall|i: int| 0 <= i < events.len() ==> on_a_side(#[trigger] events[i]),
    ensures
        ({
            let (after, records) = after_events(setup, world, c, events);
            after_events(
                mirrored_setup(setup),
                mirrored_world(world),
                c,
                mirrored_events(events),
            ) == (mirrored_world(after), records)
        }),
    decreases events.len(),
{
    if events.len() > 0 {
        let less = events.drop_last();
        let event = events.last();
        assert forall|i: int| 0 <= i < less.len() implies on_a_side(#[trigger] less[i]) by {
            assert(less[i] == events[i]);
        }
        law_mirrored_history(setup, world, c, less);
        assert(mirrored_events(events).drop_last() =~= mirrored_events(less));
        assert(mirrored_events(events).last() == mirrored_event(event));
        assert(events[events.len() - 1] == event);
        let before = after_events(setup, world, c, less).0;
        match event {
            Event::Changes { side, changes } => {
                law_mirrored_run(setup.rules(side), before.state(side), changes, c);
                assert(mirrored_setup(setup).rules(mirrored_side(side)) == mirrored_rules(
                    setup.rules(side),
                ));
            },
            _ => {},
        }
        assert(after_event(
            mirrored_setup(setup),
            mirrored_world(before),
            c,
            mirrored_event(event),
        ) == (
            mirrored_world(after_event(setup, before, c, event).0),
            after_event(setup, before, c, event).1,
        ));
    }
}

/// Both sides have the same columns, keys, entries and capacity.
pub open spec fn same_side(a: &JoinSide, b: &JoinSide) -> bool {
    &&& a.ht@ == b.ht@
    &&& a.ht.target_cap == b.ht.target_cap
    &&& a.key_indices@ == b.key_indices@
    &&& a.pk_indices@ == b.pk_indices@
    &&& a.width() == b.width()
}

/// `a` and `b` are semi or anti joins, each the mirror image of the other.
pub open spec fn mirror_images<
    F: Fn(&Row, &Vec<DataType>) -> Result<Vec<Option<bool>>, EvalError>,
    const S: u8,
    const T: u8,
>(a: &HashJoinExecutor<F, S>, b: &HashJoinExecutor<F, T>) -> bool {
    &&& semi(S) || anti(S)
    &&& T == mirrored_type(S)
    &&& same_side(&a.side_l, &b.side_r)
    &&& same_side(&a.side_r, &b.side_l)
    &&& a.output_data_types@.len() == b.output_data_types@.len()
    &&& a.epoch == b.epoch
    &&& a.append_only_optimize == b.append_only_optimize
    &&& a.prefetch_queue_depth == b.prefetch_queue_depth
    &&& a.aimd_adjust_rate_msgs == b.aimd_adjust_rate_msgs
}

/// `c` gives the results of the conditions of both joins.
pub open spec fn models_both<
    F: Fn(&Row, &Vec<DataType>) -> Result<Vec<Option<bool>>, EvalError>,
    const S: u8,
    const T: u8,
>(a: &HashJoinExecutor<F, S>, b: &HashJoinExecutor<F, T>, c: Condition) -> bool {
    &&& models(a.cond, a.output_data_types, c)
    &&& models(b.cond, b.output_data_types, c)
}

/// Two joins have put out the same: chunks with the same changes, and the same error, if any.
pub open spec fn same_output(a: JoinOutput, b: JoinOutput) -> bool {
    &&& chunk_records(a.chunks@) == chunk_records(b.chunks@)
    &&& forall|i: int|
        0 <= i < a.chunks@.len() ==> (#[trigger] a.chunks@[i]).width == b.chunks@[i].width
            && a.chunks@[i].visibility == b.chunks@[i].visibility
    &&& match (a.error, b.error) {
        (None, None) => true,
        (Some(e), Some(f)) => e@ == f@,
        _ => false,
    }
}

/// Mirror images follow the same rules, mirrored.
pub proof fn law_mirrored_rules<
    F: Fn(&Row, &Vec<DataType>) -> Result<Vec<Option<bool>>, EvalError>,
    const S: u8,
    const T: u8,
>(a: &HashJoinExecutor<F, S>, b: &HashJoinExecutor<F, T>)
    requires
        mirror_images(a, b),
    ensures
        b.rules::<Right>() == mirrored_rules(a.rules::<Left>()),
        b.rules::<Left>() == mirrored_rules(a.rules::<Right>()),
        b.state::<Right>() == a.state::<Left>(),
        b.state::<Left>() == a.state::<Right>(),
{
}

/// The mirror image of a semi or anti join puts out the same chunks, for the same changes on the other
/// side, and stays its mirror image.
pub proof fn law_mirrored_join<
    F: Fn(&Row, &Vec<DataType>) -> Result<Vec<Option<bool>>, EvalError>,
    const S: u8,
    const T: u8,
>(
    a: &HashJoinExecutor<F, S>,
    a2: &HashJoinExecutor<F, S>,
    chunk_a: &StreamChunk,
    out_a: JoinOutput,
    b: &HashJoinExecutor<F, T>,
    b2: &HashJoinExecutor<F, T>,
    chunk_b: &StreamChunk,
    out_b: JoinOutput,
    c: Condition,
)
    requires
        mirror_images(a, b),
        models_both(a, b, c),
        chunk_a.records() == chunk_b.records(),
        a.joined::<Left>(a2, chunk_a, out_a) && b.joined::<Right>(b2, chunk_b, out_b) || a.joined::<
            Right,
        >(a2, chunk_a, out_a) && b.joined::<Left>(b2, chunk_b, out_b),
    ensures
        same_output(out_a, out_b),
        mirror_images(a2, b2),
        models_both(a2, b2, c),
{
    law_mirrored_rules(a, b);
    law_mirrored_run(a.rules::<Left>(), a.state::<Left>(), chunk_a.records(), c);
    law_mirrored_run(a.rules::<Right>(), a.state::<Right>(), chunk_a.records(), c);
    if a.joined::<Left>(a2, chunk_a, out_a) && b.joined::<Right>(b2, chunk_b, out_b) {
        assert(a2.state::<Left>() == b2.state::<Right>());
    } else {
        assert(a2.state::<Right>() == b2.state::<Left>());
    }
    assert(chunk_records(out_a.chunks@).len() == chunk_records(out_b.chunks@).len());
    assert forall|i: int| 0 <= i < out_a.chunks@.len() implies (#[trigger] out_a.chunks@[i]).width
        == out_b.chunks@[i].width && out_a.chunks@[i].visibility == out_b.chunks@[i].visibility by {
        assert(out_b.chunks@[i].well_formed());
    }
}

} // verus!
