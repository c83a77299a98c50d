//! What a join does with a chunk of changes of one of its sides.
use vstd::prelude::*;

use crate::chunk::{Record, StreamChunk, StreamChunkBuilder, emit_all, no_emission};
use crate::join_builder::{HashJoinChunkBuilder, Layout, chunk_records, chunks_fit};
use crate::join_kind::{anti, is_semi_or_anti, semi};
use crate::join_state::{JoinEntryState, JoinHashMap, RowsView, resident};
use crate::join_step::{
    EvalError, HashJoinError, JoinSide, JoinState, Judged, JudgedView, Rules, Step, candidates,
    emission, join_row, lemma_step, prepared, rules_of, state_of, step,
};
use crate::keyed::at;
use crate::row::{Row, RowView, place, place_row, project, row_has_null};
use crate::schema::DataType;

verus! {

/// How many changes a chunk holds at most.
pub const PROCESSING_WINDOW_SIZE: usize = 1024;

/// A join condition as a function of the row it is evaluated on.
pub type Condition = spec_fn(RowView) -> Result<bool, Seq<char>>;

/// The row that a join condition is evaluated on.
pub open spec fn joined_row(layout: Layout, update: RowView, matched: RowView) -> RowView {
    place(
        layout.update_width + layout.matched_width,
        layout.update_pos,
        update,
        layout.matched_pos,
        matched,
    )
}

/// The verdicts of `c` on the first `n` of `rows`, each joined with `row`.
pub open spec fn judge(layout: Layout, row: RowView, rows: RowsView, c: Condition, n: nat) -> JudgedView
    decreases n,
{
    if n == 0 {
        JudgedView { verdicts: Seq::empty(), error: None }
    } else {
        let before = judge(layout, row, rows, c, (n - 1) as nat);
        if before.error is Some {
            before
        } else {
            match c(joined_row(layout, row, rows[n - 1].1.row)) {
                Ok(verdict) => JudgedView { verdicts: before.verdicts.push(verdict), error: None },
                Err(message) => JudgedView { verdicts: before.verdicts, error: Some(message) },
            }
        }
    }
}

/// The verdicts of `c` on the rows that `row` may match.
pub open spec fn judged_by(rules: Rules, state: JoinState, row: RowView, c: Condition) -> JudgedView {
    if row_has_null(project(row, rules.update_keys)) {
        JudgedView { verdicts: Seq::empty(), error: None }
    } else {
        let rows = candidates(rules, state, row);
        judge(rules.layout, row, rows, c, rows.len())
    }
}

/// The changes of one side, one after the other, up to the first that fails.
pub open spec fn run(rules: Rules, state: JoinState, changes: Seq<Record>, c: Condition) -> Step
    decreases changes.len(),
{
    if changes.len() == 0 {
        Step { state, records: Seq::empty(), failure: None }
    } else {
        let before = run(rules, state, changes.drop_last(), c);
        if before.failure is Some {
            before
        } else {
            let change = changes.last();
            let now = step(
                rules,
                before.state,
                change,
                judged_by(rules, before.state, change.row, c),
            );
            Step {
                state: now.state,
                records: before.records + now.records,
                failure: now.failure,
            }
        }
    }
}

/// The chunks of a run: those that filled up and, where nothing failed, one with the rest, which
/// may be empty.
pub open spec fn run_chunks(limit: nat, done: Step) -> Seq<Seq<Record>> {
    let e = emit_all(no_emission(), limit, done.records);
    if done.failure is Some {
        e.issued
    } else {
        e.issued.push(e.waiting)
    }
}

/// What the stream of a join carries for a chunk of one of its inputs.
#[derive(Debug, PartialEq, Eq)]
pub struct JoinOutput {
    pub chunks: Vec<StreamChunk>,
    /// Why the stream ends behind the chunks, where it does.
    pub error: Option<HashJoinError>,
}

/// `c` gives the results of `cond`; `true` throughout where there is no condition.
pub open spec fn models<F: Fn(&Row, &Vec<DataType>) -> Result<Vec<Option<bool>>, EvalError>>(
    cond: Option<F>,
    types: Vec<DataType>,
    c: Condition,
) -> bool {
    match cond {
        None => forall|row: RowView| #[trigger] c(row) == Ok::<bool, Seq<char>>(true),
        Some(f) => forall|row: &Row, out: Result<Vec<Option<bool>>, EvalError>|
            #[trigger] call_ensures(f, (row, &types), out) ==> c(row@) == (match out {
                Ok(array) => Ok::<bool, Seq<char>>(array@[0]->0),
                Err(e) => Err(e.message@),
            }),
    }
}

/// The condition can be evaluated on rows of `width` columns, and what comes back starts with a
/// truth value.
pub open spec fn evaluable<F: Fn(&Row, &Vec<DataType>) -> Result<Vec<Option<bool>>, EvalError>>(
    cond: Option<F>,
    types: Vec<DataType>,
    width: nat,
) -> bool {
    match cond {
        None => true,
        Some(f) => {
            &&& forall|row: &Row| row@.len() == width ==> #[trigger] call_requires(f, (row, &types))
            &&& forall|row: &Row, out: Result<Vec<Option<bool>>, EvalError>|
                #[trigger] call_ensures(f, (row, &types), out) && out is Ok ==> out->Ok_0@.len() > 0
                    && out->Ok_0@[0] is Some
        },
    }
}

/// The columns of the updated row and those of the matched row as one row, each at its place.
pub fn row_concat(
    row_update: &Row,
    update_start_pos: usize,
    row_matched: &Row,
    matched_start_pos: usize,
) -> (r: Row)
    requires
        update_start_pos <= row_matched@.len(),
        matched_start_pos <= row_update@.len(),
        row_update@.len() + row_matched@.len() <= usize::MAX,
    ensures
        r@ == place(
            (row_update@.len() + row_matched@.len()) as nat,
            update_start_pos as int,
            row_update@,
            matched_start_pos as int,
            row_matched@,
        ),
{
    place_row(
        row_update.size() + row_matched.size(),
        update_start_pos,
        row_update,
        matched_start_pos,
        row_matched,
    )
}

/// The truth value that the result of an expression starts with.
pub fn bool_from_array_ref(array: &Vec<Option<bool>>) -> (r: bool)
    requires
        array@.len() > 0,
        array@[0] is Some,
    ensures
        Some(r) == array@[0],
{
    match array[0] {
        Some(b) => b,
        None => false,
    }
}

/// Evaluates the condition on each of the rows of `entry`, joined with `row`.
fn check_join_condition<F: Fn(&Row, &Vec<DataType>) -> Result<Vec<Option<bool>>, EvalError>>(
    cond: &Option<F>,
    types: &Vec<DataType>,
    row: &Row,
    entry: &JoinEntryState,
    update_start_pos: usize,
    matched_start_pos: usize,
    Ghost(layout): Ghost<Layout>,
) -> (r: Judged)
    requires
        entry@.cached is Some,
        crate::join_state::rows_fit(entry@.cached->0, layout.matched_width),
        row@.len() == layout.update_width,
        layout.update_pos == update_start_pos,
        layout.matched_pos == matched_start_pos,
        update_start_pos <= layout.matched_width,
        matched_start_pos <= layout.update_width,
        layout.update_width + layout.matched_width <= usize::MAX,
        evaluable(*cond, *types, layout.update_width + layout.matched_width),
    ensures
        r@.covers(entry@.cached->0.len()),
        forall|c: Condition| #[trigger]
            models(*cond, *types, c) ==> r@ == judge(
                layout,
                row@,
                entry@.cached->0,
                c,
                entry@.cached->0.len(),
            ),
{
    let ghost rows = entry@.cached->0;
    let n: usize = entry.cached_len();
    let mut verdicts: Vec<bool> = Vec::new();
    let mut i: usize = 0;
    while i < n
        invariant
            i <= n,
            n == rows.len(),
            rows == entry@.cached->0,
            entry@.cached is Some,
            crate::join_state::rows_fit(rows, layout.matched_width),
            row@.len() == layout.update_width,
            layout.update_pos == update_start_pos,
            layout.matched_pos == matched_start_pos,
            update_start_pos <= layout.matched_width,
            matched_start_pos <= layout.update_width,
            layout.update_width + layout.matched_width <= usize::MAX,
            evaluable(*cond, *types, layout.update_width + layout.matched_width),
            verdicts@.len() == i,
            forall|c: Condition| #[trigger]
                models(*cond, *types, c) ==> judge(layout, row@, rows, c, i as nat) == (JudgedView {
                    verdicts: verdicts@,
                    error: None,
                }),
        decreases n - i,
    {
        match cond {
            None => {
                verdicts.push(true);
            },
            Some(f) => {
                let matched = entry.cached_row(i);
                assert(rows[i as int].1.row.len() == layout.matched_width);
                let new_row = row_concat(row, update_start_pos, &matched.row, matched_start_pos);
                assert(new_row@ == joined_row(layout, row@, rows[i as int].1.row));
                match f(&new_row, types) {
                    Ok(array) => {
                        verdicts.push(bool_from_array_ref(&array));
                    },
                    Err(e) => {
                        let r = Judged { verdicts, error: Some(e) };
                        proof {
                            assert forall|c: Condition| #[trigger] models(*cond, *types, c) implies r@
                                == judge(layout, row@, rows, c, rows.len()) by {
                                lemma_judge_error(layout, row@, rows, c, (i + 1) as nat, rows.len());
                            }
                        }
                        return r;
                    },
                }
            },
        }
        i = i + 1;
    }
    Judged { verdicts, error: None }
}

/// The rows that are in memory under `key`, with which a row with that join key may match. A key
/// with a null matches nothing.
pub fn hash_eq_match<'a>(key: &Row, ht: &'a JoinHashMap) -> (r: Option<&'a JoinEntryState>)
    requires
        ht.well_formed(),
    ensures
        r is Some == (!row_has_null(key@) && resident(ht@, key@)),
        r is Some ==> r->0@ == at(ht@, key@),
{
    if key.has_null() {
        None
    } else {
        ht.get_cached(key)
    }
}

/// Behind an error there are no further verdicts.
proof fn lemma_judge_error(layout: Layout, row: RowView, rows: RowsView, c: Condition, n: nat, m: nat)
    requires
        n <= m,
        judge(layout, row, rows, c, n).error is Some,
    ensures
        judge(layout, row, rows, c, m) == judge(layout, row, rows, c, n),
    decreases m,
{
    if n < m {
        lemma_judge_error(layout, row, rows, c, n, (m - 1) as nat);
    }
}

/// Behind a failure nothing changes any more.
proof fn lemma_run_failed(rules: Rules, state: JoinState, changes: Seq<Record>, c: Condition, n: int)
    requires
        0 <= n <= changes.len(),
        run(rules, state, changes.take(n), c).failure is Some,
    ensures
        run(rules, state, changes, c) == run(rules, state, changes.take(n), c),
    decreases changes.len(),
{
    if n == changes.len() {
        assert(changes.take(n) =~= changes);
    } else {
        assert(changes.drop_last().take(n) =~= changes.take(n));
        lemma_run_failed(rules, state, changes.drop_last(), c, n);
    }
}

/// The rules that a join of type `T` follows for the updates of the side `SIDE`.
pub open spec fn rules_for<const T: u8, const SIDE: u8>(
    update: &JoinSide,
    matched: &JoinSide,
    width: nat,
    append_only: bool,
) -> Rules {
    let shared = semi(T) || anti(T);
    Rules {
        layout: Layout {
            join_type: T,
            side: SIDE,
            width,
            update_pos: if shared { 0 } else { update.start_pos as int },
            update_width: update.width(),
            matched_pos: if shared { 0 } else { matched.start_pos as int },
            matched_width: matched.width(),
        },
        update_keys: update.key_indices@,
        update_pks: update.pk_indices@,
        matched_pks: matched.pk_indices@,
        append_only,
    }
}

/// The rows that the changes may match are in memory, and their degrees have room.
pub open spec fn all_prepared(rules: Rules, state: JoinState, changes: Seq<Record>) -> bool {
    forall|i: int|
        0 <= i < changes.len() ==> prepared(
            rules,
            state,
            (#[trigger] changes[i]).row,
            changes.len(),
        )
}

/// Joins the changes of `chunk` on one side with the rows of the other side.
pub fn join_chunk<
    F: Fn(&Row, &Vec<DataType>) -> Result<Vec<Option<bool>>, EvalError>,
    const T: u8,
    const SIDE: u8,
>(
    side_update: &mut JoinSide,
    side_match: &mut JoinSide,
    cond: &Option<F>,
    output_data_types: &Vec<DataType>,
    append_only_optimize: bool,
    chunk: &StreamChunk,
) -> (r: JoinOutput)
    requires
        old(side_update).well_formed(),
        old(side_match).well_formed(),
        chunk.well_formed(),
        chunk.width == old(side_update).width(),
        old(side_update).width() + old(side_match).width() <= usize::MAX,
        evaluable(
            *cond,
            *output_data_types,
            old(side_update).width() + old(side_match).width(),
        ),
        ({
            let rules = rules_for::<T, SIDE>(
                old(side_update),
                old(side_match),
                output_data_types@.len(),
                append_only_optimize,
            );
            &&& rules.layout.well_formed()
            &&& rules.layout.update_pos <= rules.layout.matched_width
            &&& rules.layout.matched_pos <= rules.layout.update_width
            &&& all_prepared(
                rules,
                state_of(old(side_update), old(side_match)),
                chunk.records(),
            )
        }),
    ensures
        final(side_update).well_formed(),
        final(side_update).same_setup(old(side_update)),
        final(side_match).well_formed(),
        final(side_match).same_setup(old(side_match)),
        chunks_fit(r.chunks@, output_data_types@.len()),
        forall|c: Condition| #[trigger]
            models(*cond, *output_data_types, c) ==> {
                let done = run(
                    rules_for::<T, SIDE>(
                        old(side_update),
                        old(side_match),
                        output_data_types@.len(),
                        append_only_optimize,
                    ),
                    state_of(old(side_update), old(side_match)),
                    chunk.records(),
                    c,
                );
                &&& state_of(final(side_update), final(side_match)) == done.state
                &&& chunk_records(r.chunks@) == run_chunks(
                    (PROCESSING_WINDOW_SIZE - 1) as nat,
                    done,
                )
                &&& match r.error {
                    None => done.failure is None,
                    Some(e) => done.failure == Some(e@),
                }
            },
{
    let ghost rules = rules_for::<T, SIDE>(
        side_update,
        side_match,
        output_data_types@.len(),
        append_only_optimize,
    );
    let ghost state = state_of(side_update, side_match);
    let ghost changes = chunk.records();
    let (update_start_pos, matched_start_pos): (usize, usize) = if is_semi_or_anti(T) {
        (0, 0)
    } else {
        (side_update.start_pos, side_match.start_pos)
    };
    let mut builder: HashJoinChunkBuilder<T, SIDE> = HashJoinChunkBuilder {
        stream_chunk_builder: StreamChunkBuilder::new(
            PROCESSING_WINDOW_SIZE,
            output_data_types.len(),
            update_start_pos,
            matched_start_pos,
        ),
    };
    let ghost empty = builder;
    let mut out: Vec<StreamChunk> = Vec::new();
    let ghost limit = (PROCESSING_WINDOW_SIZE - 1) as nat;
    proof {
        assert(emission(out@, &builder) == no_emission()) by {
            assert(chunk_records(out@) =~= Seq::empty());
        }
        assert(rules_of(side_update, side_match, &builder, append_only_optimize) == rules);
    }
    let n: usize = chunk.rows.len();
    let mut i: usize = 0;
    while i < n
        invariant
            i <= n,
            n == chunk.rows@.len(),
            n == chunk.ops@.len(),
            chunk.well_formed(),
            changes == chunk.records(),
            chunk.width == side_update.width(),
            state == state_of(old(side_update), old(side_match)),
            rules == rules_for::<T, SIDE>(
                old(side_update),
                old(side_match),
                output_data_types@.len(),
                append_only_optimize,
            ),
            side_update.well_formed(),
            side_update.same_setup(old(side_update)),
            side_match.well_formed(),
            side_match.same_setup(old(side_match)),
            rules_of(side_update, side_match, &builder, append_only_optimize) == rules,
            rules.layout.well_formed(),
            rules.layout.update_pos == update_start_pos,
            rules.layout.matched_pos == matched_start_pos,
            rules.layout.update_pos <= rules.layout.matched_width,
            rules.layout.matched_pos <= rules.layout.update_width,
            rules.layout.update_width + rules.layout.matched_width <= usize::MAX,
            evaluable(
                *cond,
                *output_data_types,
                rules.layout.update_width + rules.layout.matched_width,
            ),
            builder.stream_chunk_builder.well_formed(),
            builder.limit() == limit,
            limit == PROCESSING_WINDOW_SIZE - 1,
            builder.stream_chunk_builder.width == output_data_types@.len(),
            chunks_fit(out@, builder.stream_chunk_builder.width as nat),
            forall|j: int|
                i <= j < n ==> prepared(
                    rules,
                    state_of(side_update, side_match),
                    (#[trigger] changes[j]).row,
                    (n - i) as nat,
                ),
            forall|c: Condition| #[trigger]
                models(*cond, *output_data_types, c) ==> {
                    let done = run(rules, state, changes.take(i as int), c);
                    &&& state_of(side_update, side_match) == done.state
                    &&& done.failure is None
                    &&& emit_all(no_emission(), limit, done.records) == emission(out@, &builder)
                },
        decreases n - i,
    {
        let row = &chunk.rows[i];
        let op = chunk.ops[i];
        let ghost change = changes[i as int];
        let ghost state_i = state_of(side_update, side_match);
        let ghost builder_i = builder;
        let ghost out_i = out@;
        let key = row.row_by_indices(&side_update.key_indices);
        assert(prepared(rules, state_i, changes[i as int].row, (n - i) as nat));
        let judged = match hash_eq_match(&key, &side_match.ht) {
            Some(entry) => {
                proof {
                    crate::join_state::lemma_table_fits_at(
                        side_match.ht@,
                        key@,
                        side_match.width(),
                    );
                }
                check_join_condition(
                    cond,
                    output_data_types,
                    row,
                    entry,
                    update_start_pos,
                    matched_start_pos,
                    Ghost(rules.layout),
                )
            },
            None => Judged { verdicts: Vec::new(), error: None },
        };
        let ghost view = judged@;
        proof {
            lemma_prepared_less(rules, state_i, row@, (n - i) as nat, 1);
            lemma_step(rules, state_i, change, view);
            assert forall|j: int| i + 1 <= j < n implies prepared(
                rules,
                step(rules, state_i, change, view).state,
                (#[trigger] changes[j]).row,
                (n - i - 1) as nat,
            ) by {
                assert(prepared(rules, state_i, changes[j].row, (n - i - 1) as nat + 1));
            }
            assert forall|c: Condition| #[trigger] models(*cond, *output_data_types, c) implies ({
                &&& row_has_null(key@) ==> judged_by(rules, state_i, row@, c) == (JudgedView {
                    verdicts: Seq::empty(),
                    error: None,
                })
                &&& view == judged_by(rules, state_i, row@, c)
            }) by {
                if row_has_null(key@) {
                    assert(view.verdicts =~= Seq::<bool>::empty());
                }
            }
        }
        let done = join_row(
            side_update,
            side_match,
            append_only_optimize,
            &mut builder,
            op,
            row,
            judged,
            &mut out,
        );
        proof {
            let next = changes.take(i + 1);
            assert(next.drop_last() =~= changes.take(i as int));
            assert(next.last() == change);
            let s = step(rules, state_i, change, view);
            assert forall|c: Condition| #[trigger] models(*cond, *output_data_types, c) implies ({
                let all = run(rules, state, next, c);
                &&& all.state == s.state
                &&& all.failure == s.failure
                &&& emit_all(no_emission(), limit, all.records) == emission(out@, &builder)
            }) by {
                let before = run(rules, state, changes.take(i as int), c);
                crate::chunk::lemma_emit_all_concat(
                    no_emission(),
                    limit,
                    before.records,
                    s.records,
                );
            }
        }
        if let Err(e) = done {
            proof {
                assert forall|c: Condition| #[trigger]
                    models(*cond, *output_data_types, c) implies run(rules, state, changes, c) == run(
                    rules,
                    state,
                    changes.take(i + 1),
                    c,
                ) by {
                    lemma_run_failed(rules, state, changes, c, i + 1);
                }
            }
            return JoinOutput { chunks: out, error: Some(e) };
        }
        i = i + 1;
    }
    assert(changes.take(n as int) =~= changes);
    let ghost issued = out@;
    let rest = builder.take();
    out.push(rest);
    assert(chunk_records(out@) =~= chunk_records(issued).push(rest.records()));
    JoinOutput { chunks: out, error: None }
}

proof fn lemma_prepared_less(rules: Rules, state: JoinState, row: RowView, room: nat, less: nat)
    requires
        prepared(rules, state, row, room),
        less <= room,
    ensures
        prepared(rules, state, row, less),
{
    let key = project(row, rules.update_keys);
    if !row_has_null(key) {
        let rows = at(state.matched, key).cached->0;
        assert forall|i: int| 0 <= i < rows.len() implies (#[trigger] rows[i]).1.degree + less
            <= u64::MAX by {
            assert(rows[i].1.degree + room <= u64::MAX);
        }
    }
}

/// The verdict of a condition is the first truth value that comes back, its error the message that comes
/// back. Without a condition every row is fine.
pub proof fn law_verdict_of_condition<
    F: Fn(&Row, &Vec<DataType>) -> Result<Vec<Option<bool>>, EvalError>,
>(cond: Option<F>, types: Vec<DataType>, c: Condition, row: &Row, out: Result<
    Vec<Option<bool>>,
    EvalError,
>)
    requires
        models(cond, types, c),
    ensures
        cond is None ==> c(row@) == Ok::<bool, Seq<char>>(true),
        cond is Some && call_ensures(cond->0, (row, &types), out) && out is Ok && out->Ok_0@[0] is Some
            ==> c(row@) == Ok::<bool, Seq<char>>(out->Ok_0@[0]->0),
        cond is Some && call_ensures(cond->0, (row, &types), out) && out is Err ==> c(row@) == Err::<
            bool,
            Seq<char>,
        >(out->Err_0.message@),
{
}

} // verus!
