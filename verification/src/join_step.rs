//! What a join does with one change of one of its sides.
use vstd::prelude::*;

use crate::chunk::{Emission, Op, Record, StreamChunk, emit_all, lemma_emit_all_concat};
use crate::join_builder::{
    HashJoinChunkBuilder, Layout, as_list, chunk_records, chunks_fit, lemma_emit_issued,
};
use crate::join_kind::{forward_exactly_once, kept_side};
use crate::join_state::{
    EntryView, JoinEntryState, JoinHashMap, JoinRow, JoinRowView, RowsView, TableView, entry_fits,
    entry_or_unknown, lemma_entry_fits, lemma_set_degree, lemma_table_fits_at, lemma_table_fits_put,
    resident, table_fits, table_well_formed,
};
use crate::keyed::{at, has_key, lemma_put_last, lemma_without, put_last, without};
use crate::row::{Row, RowView, indices_below, project, row_has_null};
use crate::schema::DataType;

verus! {

/// Why the evaluation of an expression failed.
#[derive(Debug, PartialEq, Eq)]
pub struct EvalError {
    pub message: String,
}

/// Why a join stopped.
#[derive(Debug, PartialEq, Eq)]
pub enum HashJoinError {
    /// A row was removed that matches a row which, by its degree, nothing matched.
    ZeroDegree,
    /// The join condition could not be evaluated.
    Condition(EvalError),
}

/// The model of a [`HashJoinError`].
pub enum Failure {
    ZeroDegree,
    Condition(Seq<char>),
}

impl View for HashJoinError {
    type V = Failure;

    open spec fn view(&self) -> Failure {
        match self {
            HashJoinError::ZeroDegree => Failure::ZeroDegree,
            HashJoinError::Condition(e) => Failure::Condition(e.message@),
        }
    }
}

/// Whether each of a run of rows meets the join condition, up to the first row for which the
/// condition could not be evaluated.
#[derive(Debug, PartialEq, Eq)]
pub struct Judged {
    pub verdicts: Vec<bool>,
    pub error: Option<EvalError>,
}

/// The model of a [`Judged`].
pub struct JudgedView {
    pub verdicts: Seq<bool>,
    pub error: Option<Seq<char>>,
}

impl View for Judged {
    type V = JudgedView;

    open spec fn view(&self) -> JudgedView {
        JudgedView {
            verdicts: self.verdicts@,
            error: match self.error {
                Some(e) => Some(e.message@),
                None => None,
            },
        }
    }
}

impl JudgedView {
    /// The verdicts are on all of `count` rows, or on those before the one that has none.
    pub open spec fn covers(self, count: nat) -> bool {
        if self.error is Some {
            self.verdicts.len() < count
        } else {
            self.verdicts.len() == count
        }
    }
}

/// What a join does by, seen from the side that an update comes from.
pub struct Rules {
    pub layout: Layout,
    pub update_keys: Seq<usize>,
    pub update_pks: Seq<usize>,
    pub matched_pks: Seq<usize>,
    pub append_only: bool,
}

/// The entries of both sides, seen from the side that an update comes from.
pub struct JoinState {
    pub update: TableView,
    pub matched: TableView,
}

/// What has become of the rows of an entry that were held against a row of the other side.
pub struct Scan {
    pub entry: EntryView,
    pub records: Seq<Record>,
    /// How many of the rows matched.
    pub matched: nat,
    /// A degree would have become negative.
    pub failed: bool,
}

/// The rows of `entry` that have a verdict are held against the new row `row`.
pub open spec fn scan_insert(
    layout: Layout,
    row: RowView,
    entry: EntryView,
    verdicts: Seq<bool>,
) -> Scan
    decreases verdicts.len(),
{
    if verdicts.len() == 0 {
        Scan { entry, records: Seq::empty(), matched: 0, failed: false }
    } else {
        let scan = scan_insert(layout, row, entry, verdicts.drop_last());
        if verdicts.last() {
            let i = verdicts.len() - 1;
            let matched = entry.cached->0[i].1;
            Scan {
                entry: scan.entry.set_degree(i, matched.degree + 1),
                records: if kept_side(layout.join_type, layout.side) {
                    scan.records
                } else {
                    scan.records + layout.match_on_insert(row, matched)
                },
                matched: scan.matched + 1,
                failed: false,
            }
        } else {
            scan
        }
    }
}

/// The rows of `entry` that have a verdict are held against the removed row `row`.
pub open spec fn scan_delete(
    layout: Layout,
    row: RowView,
    entry: EntryView,
    verdicts: Seq<bool>,
) -> Scan
    decreases verdicts.len(),
{
    if verdicts.len() == 0 {
        Scan { entry, records: Seq::empty(), matched: 0, failed: false }
    } else {
        let scan = scan_delete(layout, row, entry, verdicts.drop_last());
        if verdicts.last() && !scan.failed {
            let i = verdicts.len() - 1;
            let matched = entry.cached->0[i].1;
            if matched.degree == 0 {
                Scan { failed: true, ..scan }
            } else {
                let degree = (matched.degree - 1) as nat;
                Scan {
                    entry: scan.entry.set_degree(i, degree),
                    records: if kept_side(layout.join_type, layout.side) {
                        scan.records
                    } else {
                        scan.records + layout.match_on_delete(row, JoinRowView { degree, ..matched })
                    },
                    matched: scan.matched + 1,
                    failed: false,
                }
            }
        } else {
            scan
        }
    }
}

/// What has become of a change.
pub struct Step {
    pub state: JoinState,
    pub records: Seq<Record>,
    pub failure: Option<Failure>,
}

/// What the change itself brings about, once `matched` rows have matched.
pub open spec fn forwarded(layout: Layout, change: Record, matched: nat) -> Seq<Record> {
    if matched == 0 {
        layout.if_not_matched(change.op, change.row)
    } else {
        layout.if_matched(change.op, change.row)
    }
}

/// A new row.
pub open spec fn insert_step(rules: Rules, state: JoinState, change: Record, judged: JudgedView) -> Step {
    let key = project(change.row, rules.update_keys);
    let pk = project(change.row, rules.update_pks);
    let own = entry_or_unknown(state.update, key);
    if row_has_null(key) {
        Step {
            state: JoinState {
                update: put_last(
                    state.update,
                    key,
                    own.insert(pk, JoinRowView { row: change.row, degree: 0 }),
                ),
                matched: state.matched,
            },
            records: rules.layout.if_not_matched(change.op, change.row),
            failure: None,
        }
    } else {
        let entry = at(state.matched, key);
        let scan = scan_insert(rules.layout, change.row, entry, judged.verdicts);
        if judged.error is Some {
            Step {
                state: JoinState {
                    update: put_last(state.update, key, own),
                    matched: put_last(state.matched, key, scan.entry),
                },
                records: scan.records,
                failure: Some(Failure::Condition(judged.error->0)),
            }
        } else {
            Step {
                state: if rules.append_only && entry.cached->0.len() > 0 {
                    JoinState {
                        update: put_last(state.update, key, own),
                        matched: put_last(
                            state.matched,
                            key,
                            scan.entry.remove(
                                project(entry.cached->0[0].1.row, rules.matched_pks),
                            ),
                        ),
                    }
                } else {
                    JoinState {
                        update: put_last(
                            state.update,
                            key,
                            own.insert(pk, JoinRowView { row: change.row, degree: scan.matched }),
                        ),
                        matched: put_last(state.matched, key, scan.entry),
                    }
                },
                records: scan.records + forwarded(rules.layout, change, scan.matched),
                failure: None,
            }
        }
    }
}

/// The removal of a row.
pub open spec fn delete_step(rules: Rules, state: JoinState, change: Record, judged: JudgedView) -> Step {
    let key = project(change.row, rules.update_keys);
    let pk = project(change.row, rules.update_pks);
    let update = put_last(state.update, key, entry_or_unknown(state.update, key).remove(pk));
    if row_has_null(key) {
        Step {
            state: JoinState { update, matched: state.matched },
            records: rules.layout.if_not_matched(change.op, change.row),
            failure: None,
        }
    } else {
        let scan = scan_delete(
            rules.layout,
            change.row,
            at(state.matched, key),
            judged.verdicts,
        );
        let after = JoinState { update, matched: put_last(state.matched, key, scan.entry) };
        if scan.failed {
            Step { state: after, records: scan.records, failure: Some(Failure::ZeroDegree) }
        } else if judged.error is Some {
            Step {
                state: after,
                records: scan.records,
                failure: Some(Failure::Condition(judged.error->0)),
            }
        } else {
            Step {
                state: after,
                records: scan.records + forwarded(rules.layout, change, scan.matched),
                failure: None,
            }
        }
    }
}

/// A change of one side, where `judged` says which rows of the other side meet the join condition
/// with it.
pub open spec fn step(rules: Rules, state: JoinState, change: Record, judged: JudgedView) -> Step {
    if change.op.adds() {
        insert_step(rules, state, change, judged)
    } else {
        delete_step(rules, state, change, judged)
    }
}

/// The rows under the key of `row` on the other side.
pub open spec fn candidates(rules: Rules, state: JoinState, row: RowView) -> RowsView {
    at(state.matched, project(row, rules.update_keys)).cached->0
}

/// The rows that `row` may match are in memory, and their degrees may grow by `room`.
pub open spec fn prepared(rules: Rules, state: JoinState, row: RowView, room: nat) -> bool {
    let key = project(row, rules.update_keys);
    row_has_null(key) || {
        &&& resident(state.matched, key)
        &&& forall|i: int|
            0 <= i < at(state.matched, key).cached->0.len() ==> (#[trigger] at(
                state.matched,
                key,
            ).cached->0[i]).1.degree + room <= u64::MAX
    }
}

/// A side of a join.
pub struct JoinSide {
    /// The rows of this side.
    pub ht: JoinHashMap,
    /// Indices of the join key columns.
    pub key_indices: Vec<usize>,
    /// The primary key indices of this side, used for the state store.
    pub pk_indices: Vec<usize>,
    /// The data types of the columns.
    pub col_types: Vec<DataType>,
    /// The first column of this side in the output.
    pub start_pos: usize,
}

impl JoinSide {
    pub open spec fn width(&self) -> nat {
        self.col_types@.len()
    }

    pub open spec fn well_formed(&self) -> bool {
        &&& indices_below(self.key_indices@, self.width() as int)
        &&& indices_below(self.pk_indices@, self.width() as int)
        &&& self.ht.well_formed()
        &&& table_fits(self.ht@, self.width())
    }

    /// `self` differs from `other` at most by its entries.
    pub open spec fn same_setup(&self, other: &Self) -> bool {
        &&& self.key_indices == other.key_indices
        &&& self.pk_indices == other.pk_indices
        &&& self.col_types == other.col_types
        &&& self.start_pos == other.start_pos
        &&& self.ht.same_limits(&other.ht)
    }

    /// Whether there are rows that the state store has not got.
    pub fn is_dirty(&self) -> (r: bool)
        ensures
            r == crate::join_state::table_dirty(self.ht@),
    {
        self.ht.is_dirty()
    }

    /// Leaves the cache as it is; to be called only where nothing is left to be written.
    pub fn clear_cache(&mut self)
        requires
            !crate::join_state::table_dirty(old(self).ht@),
        ensures
            *final(self) == *old(self),
    {
    }
}

/// Scanning keeps an entry well-formed, with the same rows but for their degrees.
pub proof fn lemma_scan_insert(layout: Layout, row: RowView, entry: EntryView, verdicts: Seq<bool>, width: nat)
    requires
        entry.well_formed(),
        entry_fits(entry, width),
        entry.cached is Some,
        verdicts.len() <= entry.cached->0.len(),
    ensures
        ({
            let scan = scan_insert(layout, row, entry, verdicts);
            &&& scan.entry.well_formed()
            &&& entry_fits(scan.entry, width)
            &&& scan.entry.cached is Some
            &&& scan.entry.cached->0.len() == entry.cached->0.len()
            &&& forall|i: int|
                0 <= i < entry.cached->0.len() ==> (#[trigger] scan.entry.cached->0[i]) == (
                entry.cached->0[i].0,
                JoinRowView {
                    degree: if i < verdicts.len() && verdicts[i] {
                        entry.cached->0[i].1.degree + 1
                    } else {
                        entry.cached->0[i].1.degree
                    },
                    ..entry.cached->0[i].1
                })
            &&& scan.matched <= verdicts.len()
            &&& !scan.failed
        }),
    decreases verdicts.len(),
{
    if verdicts.len() > 0 {
        lemma_scan_insert(layout, row, entry, verdicts.drop_last(), width);
        let scan = scan_insert(layout, row, entry, verdicts.drop_last());
        let i = verdicts.len() - 1;
        lemma_set_degree(scan.entry, i, entry.cached->0[i].1.degree + 1, width);
        assert forall|j: int| 0 <= j < i implies verdicts.drop_last()[j] == #[trigger] verdicts[j] by {}
    }
}

/// Scanning keeps an entry well-formed, with the same rows but for their degrees.
pub proof fn lemma_scan_delete(layout: Layout, row: RowView, entry: EntryView, verdicts: Seq<bool>, width: nat)
    requires
        entry.well_formed(),
        entry_fits(entry, width),
        entry.cached is Some,
        verdicts.len() <= entry.cached->0.len(),
    ensures
        ({
            let scan = scan_delete(layout, row, entry, verdicts);
            &&& scan.entry.well_formed()
            &&& entry_fits(scan.entry, width)
            &&& scan.entry.cached is Some
            &&& scan.entry.cached->0.len() == entry.cached->0.len()
            &&& forall|i: int|
                0 <= i < entry.cached->0.len() ==> (#[trigger] scan.entry.cached->0[i]).0
                    == entry.cached->0[i].0 && scan.entry.cached->0[i].1.row
                    == entry.cached->0[i].1.row && scan.entry.cached->0[i].1.degree
                    <= entry.cached->0[i].1.degree
            &&& forall|i: int|
                verdicts.len() <= i < entry.cached->0.len() ==> (#[trigger] scan.entry.cached->0[i])
                    == entry.cached->0[i]
            &&& !scan.failed ==> forall|i: int|
                0 <= i < verdicts.len() ==> (#[trigger] scan.entry.cached->0[i]) == (
                entry.cached->0[i].0,
                JoinRowView {
                    degree: if verdicts[i] {
                        (entry.cached->0[i].1.degree - 1) as nat
                    } else {
                        entry.cached->0[i].1.degree
                    },
                    ..entry.cached->0[i].1
                })
            &&& scan.matched <= verdicts.len()
            &&& scan.failed == exists|i: int|
                0 <= i < verdicts.len() && #[trigger] verdicts[i] && entry.cached->0[i].1.degree == 0
        }),
    decreases verdicts.len(),
{
    if verdicts.len() > 0 {
        lemma_scan_delete(layout, row, entry, verdicts.drop_last(), width);
        let scan = scan_delete(layout, row, entry, verdicts.drop_last());
        let i = verdicts.len() - 1;
        lemma_set_degree(scan.entry, i, (entry.cached->0[i].1.degree - 1) as nat, width);
        assert forall|j: int| 0 <= j < i implies verdicts.drop_last()[j] == #[trigger] verdicts[j] by {}
        let now = scan_delete(layout, row, entry, verdicts);
        if scan.failed {
            let w = choose|j: int|
                0 <= j < verdicts.drop_last().len() && #[trigger] verdicts.drop_last()[j]
                    && entry.cached->0[j].1.degree == 0;
            assert(verdicts[w] && entry.cached->0[w].1.degree == 0);
        } else if now.failed {
            assert(verdicts[i] && entry.cached->0[i].1.degree == 0);
        } else {
            assert forall|j: int|
                0 <= j < verdicts.len() && #[trigger] verdicts[j] implies entry.cached->0[j].1.degree
                != 0 by {
                if j < i {
                    assert(verdicts.drop_last()[j]);
                }
            }
        }
    }
}

/// Chunks issued so far, with what a builder holds back, after one more run of changes.
proof fn lemma_emission<const T: u8, const SIDE: u8>(
    start: Emission,
    done: Seq<Record>,
    out: Seq<StreamChunk>,
    before: &HashJoinChunkBuilder<T, SIDE>,
    after: &HashJoinChunkBuilder<T, SIDE>,
    records: Seq<Record>,
    issued: Option<StreamChunk>,
)
    requires
        emit_all(start, before.limit(), done) == (Emission {
            issued: chunk_records(out),
            waiting: before.waiting(),
        }),
        after.follows(before, records, issued),
    ensures
        emit_all(start, before.limit(), done + records) == (Emission {
            issued: chunk_records(out + as_list(issued)),
            waiting: after.waiting(),
        }),
        chunks_fit(out, before.stream_chunk_builder.width as nat) ==> chunks_fit(
            out + as_list(issued),
            before.stream_chunk_builder.width as nat,
        ),
{
    lemma_emit_all_concat(start, before.limit(), done, records);
    lemma_emit_issued(chunk_records(out), before.waiting(), before.limit(), records);
    assert(chunk_records(out + as_list(issued)) =~= chunk_records(out) + chunk_records(
        as_list(issued),
    ));
}

/// Puts a chunk, if there is one, behind those that were issued before.
fn collect(out: &mut Vec<StreamChunk>, issued: Option<StreamChunk>)
    ensures
        final(out)@ == old(out)@ + as_list(issued),
{
    match issued {
        Some(chunk) => {
            out.push(chunk);
            assert(out@ =~= old(out)@ + as_list(issued));
        },
        None => {
            assert(out@ =~= old(out)@ + as_list(issued));
        },
    }
}

/// The chunks issued so far and what a builder holds back.
pub open spec fn emission<const T: u8, const SIDE: u8>(
    out: Seq<StreamChunk>,
    builder: &HashJoinChunkBuilder<T, SIDE>,
) -> Emission {
    Emission { issued: chunk_records(out), waiting: builder.waiting() }
}

/// `out` and `builder` are what is left of `out_before` and `before` after the changes `records`.
pub open spec fn emitted<const T: u8, const SIDE: u8>(
    out_before: Seq<StreamChunk>,
    before: &HashJoinChunkBuilder<T, SIDE>,
    records: Seq<Record>,
    out: Seq<StreamChunk>,
    builder: &HashJoinChunkBuilder<T, SIDE>,
) -> bool {
    &&& builder.stream_chunk_builder.well_formed()
    &&& builder.stream_chunk_builder.same_layout(&before.stream_chunk_builder)
    &&& chunks_fit(out, builder.stream_chunk_builder.width as nat)
    &&& emit_all(emission(out_before, before), before.limit(), records) == emission(out, builder)
}

/// Holds the rows of `entry` against the new row `row`; returns how many match.
fn match_inserted<const T: u8, const SIDE: u8>(
    entry: &mut JoinEntryState,
    matched_width: usize,
    row: &Row,
    verdicts: &Vec<bool>,
    builder: &mut HashJoinChunkBuilder<T, SIDE>,
    out: &mut Vec<StreamChunk>,
) -> (degree: u64)
    requires
        old(entry)@.well_formed(),
        entry_fits(old(entry)@, matched_width as nat),
        old(entry)@.cached is Some,
        verdicts@.len() <= old(entry)@.cached->0.len(),
        forall|i: int|
            0 <= i < old(entry)@.cached->0.len() ==> (#[trigger] old(entry)@.cached->0[i]).1.degree
                < u64::MAX,
        old(builder).stream_chunk_builder.well_formed(),
        old(builder).layout(row@.len(), matched_width as nat).well_formed(),
        chunks_fit(old(out)@, old(builder).stream_chunk_builder.width as nat),
    ensures
        ({
            let scan = scan_insert(
                old(builder).layout(row@.len(), matched_width as nat),
                row@,
                old(entry)@,
                verdicts@,
            );
            &&& final(entry)@ == scan.entry
            &&& degree == scan.matched
            &&& emitted(old(out)@, old(builder), scan.records, final(out)@, final(builder))
        }),
{
    let ghost layout = builder.layout(row@.len(), matched_width as nat);
    let ghost entry0 = entry@;
    let ghost start = emission(out@, builder);
    let n: usize = verdicts.len();
    let mut degree: u64 = 0;
    let mut i: usize = 0;
    while i < n
        invariant
            i <= n,
            n == verdicts@.len(),
            n <= entry0.cached->0.len(),
            degree <= i,
            entry0.well_formed(),
            entry_fits(entry0, matched_width as nat),
            entry0.cached is Some,
            forall|j: int|
                0 <= j < entry0.cached->0.len() ==> (#[trigger] entry0.cached->0[j]).1.degree
                    < u64::MAX,
            layout.well_formed(),
            layout == builder.layout(row@.len(), matched_width as nat),
            start == emission(old(out)@, old(builder)),
            old(builder).limit() == builder.limit(),
            entry@ == scan_insert(layout, row@, entry0, verdicts@.take(i as int)).entry,
            degree == scan_insert(layout, row@, entry0, verdicts@.take(i as int)).matched,
            emitted(
                old(out)@,
                old(builder),
                scan_insert(layout, row@, entry0, verdicts@.take(i as int)).records,
                out@,
                builder,
            ),
        decreases n - i,
    {
        let ghost done = scan_insert(layout, row@, entry0, verdicts@.take(i as int));
        proof {
            let next = verdicts@.take(i + 1);
            assert(next.drop_last() =~= verdicts@.take(i as int));
            assert(next.last() == verdicts@[i as int]);
            lemma_scan_insert(layout, row@, entry0, verdicts@.take(i as int), matched_width as nat);
        }
        if verdicts[i] {
            let mut matched_row = entry.cached_row(i);
            assert(done.entry.cached->0[i as int] == entry0.cached->0[i as int]);
            degree = degree + 1;
            if !forward_exactly_once(T, SIDE) {
                let ghost before = *builder;
                let ghost out_before = out@;
                let issued = builder.with_match_on_insert(row, &matched_row);
                proof {
                    lemma_emission(
                        start,
                        done.records,
                        out_before,
                        &before,
                        builder,
                        layout.match_on_insert(row@, matched_row@),
                        issued,
                    );
                }
                collect(out, issued);
            }
            matched_row.inc_degree();
            entry.update_row(i, matched_row);
        }
        i = i + 1;
    }
    assert(verdicts@.take(n as int) =~= verdicts@);
    degree
}

/// Holds the rows of `entry` against the removed row `row`; returns whether any matches.
fn match_deleted<const T: u8, const SIDE: u8>(
    entry: &mut JoinEntryState,
    matched_width: usize,
    row: &Row,
    verdicts: &Vec<bool>,
    builder: &mut HashJoinChunkBuilder<T, SIDE>,
    out: &mut Vec<StreamChunk>,
) -> (r: Result<bool, HashJoinError>)
    requires
        old(entry)@.well_formed(),
        entry_fits(old(entry)@, matched_width as nat),
        old(entry)@.cached is Some,
        verdicts@.len() <= old(entry)@.cached->0.len(),
        old(builder).stream_chunk_builder.well_formed(),
        old(builder).layout(row@.len(), matched_width as nat).well_formed(),
        chunks_fit(old(out)@, old(builder).stream_chunk_builder.width as nat),
    ensures
        ({
            let scan = scan_delete(
                old(builder).layout(row@.len(), matched_width as nat),
                row@,
                old(entry)@,
                verdicts@,
            );
            &&& final(entry)@ == scan.entry
            &&& r == (if scan.failed {
                Err(HashJoinError::ZeroDegree)
            } else {
                Ok(scan.matched > 0)
            })
            &&& emitted(old(out)@, old(builder), scan.records, final(out)@, final(builder))
        }),
{
    let ghost layout = builder.layout(row@.len(), matched_width as nat);
    let ghost entry0 = entry@;
    let ghost start = emission(out@, builder);
    let n: usize = verdicts.len();
    let mut matched = false;
    let mut i: usize = 0;
    while i < n
        invariant
            i <= n,
            n == verdicts@.len(),
            n <= entry0.cached->0.len(),
            entry0 == old(entry)@,
            entry0.well_formed(),
            entry_fits(entry0, matched_width as nat),
            entry0.cached is Some,
            layout.well_formed(),
            layout == builder.layout(row@.len(), matched_width as nat),
            layout == old(builder).layout(row@.len(), matched_width as nat),
            start == emission(old(out)@, old(builder)),
            old(builder).limit() == builder.limit(),
            !scan_delete(layout, row@, entry0, verdicts@.take(i as int)).failed,
            entry@ == scan_delete(layout, row@, entry0, verdicts@.take(i as int)).entry,
            matched == (scan_delete(layout, row@, entry0, verdicts@.take(i as int)).matched > 0),
            emitted(
                old(out)@,
                old(builder),
                scan_delete(layout, row@, entry0, verdicts@.take(i as int)).records,
                out@,
                builder,
            ),
        decreases n - i,
    {
        let ghost done = scan_delete(layout, row@, entry0, verdicts@.take(i as int));
        proof {
            let next = verdicts@.take(i + 1);
            assert(next.drop_last() =~= verdicts@.take(i as int));
            assert(next.last() == verdicts@[i as int]);
            lemma_scan_delete(layout, row@, entry0, verdicts@.take(i as int), matched_width as nat);
        }
        if verdicts[i] {
            matched = true;
            let mut matched_row = entry.cached_row(i);
            assert(done.entry.cached->0[i as int] == entry0.cached->0[i as int]);
            if matched_row.dec_degree().is_err() {
                proof {
                    lemma_scan_delete_failed(
                        layout,
                        row@,
                        entry0,
                        verdicts@,
                        i + 1,
                    );
                }
                return Err(HashJoinError::ZeroDegree);
            }
            if !forward_exactly_once(T, SIDE) {
                let ghost before = *builder;
                let ghost out_before = out@;
                let issued = builder.with_match_on_delete(row, &matched_row);
                proof {
                    lemma_emission(
                        start,
                        done.records,
                        out_before,
                        &before,
                        builder,
                        layout.match_on_delete(row@, matched_row@),
                        issued,
                    );
                }
                collect(out, issued);
            }
            entry.update_row(i, matched_row);
        }
        i = i + 1;
    }
    assert(verdicts@.take(n as int) =~= verdicts@);
    Ok(matched)
}

/// Behind a failure nothing changes any more.
proof fn lemma_scan_delete_failed(
    layout: Layout,
    row: RowView,
    entry: EntryView,
    verdicts: Seq<bool>,
    n: int,
)
    requires
        0 <= n <= verdicts.len(),
        scan_delete(layout, row, entry, verdicts.take(n)).failed,
    ensures
        scan_delete(layout, row, entry, verdicts) == scan_delete(
            layout,
            row,
            entry,
            verdicts.take(n),
        ),
    decreases verdicts.len(),
{
    if n == verdicts.len() {
        assert(verdicts.take(n) =~= verdicts);
    } else {
        assert(verdicts.drop_last().take(n) =~= verdicts.take(n));
        lemma_scan_delete_failed(layout, row, entry, verdicts.drop_last(), n);
    }
}

/// The rules of a join between two sides.
pub open spec fn rules_of<const T: u8, const SIDE: u8>(
    update: &JoinSide,
    matched: &JoinSide,
    builder: &HashJoinChunkBuilder<T, SIDE>,
    append_only: bool,
) -> Rules {
    Rules {
        layout: builder.layout(update.width(), matched.width()),
        update_keys: update.key_indices@,
        update_pks: update.pk_indices@,
        matched_pks: matched.pk_indices@,
        append_only,
    }
}

/// The entries of two sides.
pub open spec fn state_of(update: &JoinSide, matched: &JoinSide) -> JoinState {
    JoinState { update: update.ht@, matched: matched.ht@ }
}

/// A state whose tables are well-formed and hold rows of the right widths.
pub open spec fn state_fits(rules: Rules, state: JoinState) -> bool {
    &&& table_well_formed(state.update)
    &&& table_fits(state.update, rules.layout.update_width)
    &&& table_well_formed(state.matched)
    &&& table_fits(state.matched, rules.layout.matched_width)
}

/// A change leaves the tables well-formed. The key of a change stays in memory where it was, and
/// the degrees of its rows grow by at most one.
pub proof fn lemma_step(rules: Rules, state: JoinState, change: Record, judged: JudgedView)
    requires
        state_fits(rules, state),
        change.row.len() == rules.layout.update_width,
        ({
            let key = project(change.row, rules.update_keys);
            row_has_null(key) || resident(state.matched, key) && judged.covers(
                at(state.matched, key).cached->0.len(),
            )
        }),
    ensures
        state_fits(rules, step(rules, state, change, judged).state),
        forall|row: RowView, room: nat|
            prepared(rules, state, row, room + 1) ==> #[trigger] prepared(
                rules,
                step(rules, state, change, judged).state,
                row,
                room,
            ),
{
    let key = project(change.row, rules.update_keys);
    let pk = project(change.row, rules.update_pks);
    let own = entry_or_unknown(state.update, key);
    let uw = rules.layout.update_width;
    let mw = rules.layout.matched_width;
    lemma_table_fits_at(state.update, key, uw);
    lemma_table_fits_at(state.matched, key, mw);
    lemma_own(own, pk, JoinRowView { row: change.row, degree: 0 }, uw);
    lemma_table_fits_put(state.update, key, own, uw);
    lemma_table_fits_put(state.update, key, own.remove(pk), uw);
    lemma_table_fits_put(
        state.update,
        key,
        own.insert(pk, JoinRowView { row: change.row, degree: 0 }),
        uw,
    );
    let after = step(rules, state, change, judged).state;
    if !row_has_null(key) {
        let entry = at(state.matched, key);
        let scan_i = scan_insert(rules.layout, change.row, entry, judged.verdicts);
        let scan_d = scan_delete(rules.layout, change.row, entry, judged.verdicts);
        lemma_scan_insert(rules.layout, change.row, entry, judged.verdicts, mw);
        lemma_scan_delete(rules.layout, change.row, entry, judged.verdicts, mw);
        let row = JoinRowView { row: change.row, degree: scan_i.matched };
        lemma_own(own, pk, row, uw);
        lemma_table_fits_put(state.update, key, own.insert(pk, row), uw);
        lemma_table_fits_put(state.matched, key, scan_i.entry, mw);
        lemma_table_fits_put(state.matched, key, scan_d.entry, mw);
        let gone = project(entry.cached->0[0].1.row, rules.matched_pks);
        lemma_own(scan_i.entry, gone, row, mw);
        lemma_table_fits_put(state.matched, key, scan_i.entry.remove(gone), mw);
        lemma_put_last(state.matched, key, scan_i.entry);
        lemma_put_last(state.matched, key, scan_d.entry);
        lemma_put_last(state.matched, key, scan_i.entry.remove(gone));
        assert forall|x: RowView, room: nat|
            prepared(rules, state, x, room + 1) implies #[trigger] prepared(rules, after, x, room) by {
            let k = project(x, rules.update_keys);
            if k == key && !row_has_null(k) {
                let rows = at(after.matched, key).cached->0;
                assert forall|i: int| 0 <= i < rows.len() implies (#[trigger] rows[i]).1.degree + room
                    <= u64::MAX by {
                    if change.op.adds() {
                        if judged.error is None && rules.append_only && entry.cached->0.len() > 0 {
                            let all = scan_i.entry.cached->0;
                            if has_key(all, gone) {
                                let p = crate::keyed::pos(all, gone);
                                let j = if i < p { i } else { i + 1 };
                                assert(rows[i] == all[j]);
                                assert(entry.cached->0[j].1.degree + room + 1 <= u64::MAX);
                            } else {
                                assert(entry.cached->0[i].1.degree + room + 1 <= u64::MAX);
                            }
                        } else {
                            assert(entry.cached->0[i].1.degree + room + 1 <= u64::MAX);
                        }
                    } else {
                        assert(entry.cached->0[i].1.degree + room + 1 <= u64::MAX);
                    }
                }
            } else if !row_has_null(k) {
                let rows = at(after.matched, k).cached->0;
                assert(rows == at(state.matched, k).cached->0);
                assert forall|i: int| 0 <= i < rows.len() implies (#[trigger] rows[i]).1.degree + room
                    <= u64::MAX by {
                    assert(at(state.matched, k).cached->0[i].1.degree + room + 1 <= u64::MAX);
                }
            }
        }
    } else {
        assert forall|x: RowView, room: nat|
            prepared(rules, state, x, room + 1) implies #[trigger] prepared(rules, after, x, room) by {
            let k = project(x, rules.update_keys);
            if !row_has_null(k) {
                assert forall|i: int|
                    0 <= i < at(after.matched, k).cached->0.len() implies (#[trigger] at(
                    after.matched,
                    k,
                ).cached->0[i]).1.degree + room <= u64::MAX by {
                    assert(at(state.matched, k).cached->0[i].1.degree + room + 1 <= u64::MAX);
                }
            }
        }
    }
}

proof fn lemma_own(own: EntryView, pk: RowView, row: JoinRowView, width: nat)
    requires
        own.well_formed(),
        entry_fits(own, width),
    ensures
        own.insert(pk, row).well_formed(),
        own.remove(pk).well_formed(),
        row.row.len() == width ==> entry_fits(own.insert(pk, row), width),
        entry_fits(own.remove(pk), width),
{
    lemma_entry_fits(own, pk, row, width);
    crate::keyed::lemma_set_at(own.pending, pk, Some(row));
    crate::keyed::lemma_set_at(own.pending, pk, None);
    if own.cached is Some {
        crate::keyed::lemma_set_at(own.cached->0, pk, row);
        lemma_without(own.cached->0, pk);
    }
}

/// A change of one side, where `judged` says which rows of the other side meet the join condition
/// with it.
pub fn join_row<const T: u8, const SIDE: u8>(
    side_update: &mut JoinSide,
    side_match: &mut JoinSide,
    append_only_optimize: bool,
    builder: &mut HashJoinChunkBuilder<T, SIDE>,
    op: Op,
    row: &Row,
    judged: Judged,
    out: &mut Vec<StreamChunk>,
) -> (r: Result<(), HashJoinError>)
    requires
        old(side_update).well_formed(),
        old(side_match).well_formed(),
        row@.len() == old(side_update).width(),
        old(builder).stream_chunk_builder.well_formed(),
        old(builder).layout(old(side_update).width(), old(side_match).width()).well_formed(),
        chunks_fit(old(out)@, old(builder).stream_chunk_builder.width as nat),
        ({
            let rules = rules_of(
                old(side_update),
                old(side_match),
                old(builder),
                append_only_optimize,
            );
            let state = state_of(old(side_update), old(side_match));
            &&& prepared(rules, state, row@, 1)
            &&& row_has_null(project(row@, rules.update_keys)) || judged@.covers(
                candidates(rules, state, row@).len(),
            )
        }),
    ensures
        ({
            let done = step(
                rules_of(old(side_update), old(side_match), old(builder), append_only_optimize),
                state_of(old(side_update), old(side_match)),
                Record { op, row: row@ },
                judged@,
            );
            &&& state_of(final(side_update), final(side_match)) == done.state
            &&& emitted(old(out)@, old(builder), done.records, final(out)@, final(builder))
            &&& match r {
                Ok(()) => done.failure is None,
                Err(e) => done.failure == Some(e@),
            }
        }),
        final(side_update).well_formed(),
        final(side_update).same_setup(old(side_update)),
        final(side_match).well_formed(),
        final(side_match).same_setup(old(side_match)),
{
    proof {
        lemma_step(
            rules_of(side_update, side_match, builder, append_only_optimize),
            state_of(side_update, side_match),
            Record { op, row: row@ },
            judged@,
        );
    }
    match op {
        Op::Insert | Op::UpdateInsert => insert_row(
            side_update,
            side_match,
            append_only_optimize,
            builder,
            op,
            row,
            judged,
            out,
        ),
        Op::Delete | Op::UpdateDelete => delete_row(
            side_update,
            side_match,
            builder,
            op,
            row,
            judged,
            out,
        ),
    }
}

fn insert_row<const T: u8, const SIDE: u8>(
    side_update: &mut JoinSide,
    side_match: &mut JoinSide,
    append_only_optimize: bool,
    builder: &mut HashJoinChunkBuilder<T, SIDE>,
    op: Op,
    row: &Row,
    judged: Judged,
    out: &mut Vec<StreamChunk>,
) -> (r: Result<(), HashJoinError>)
    requires
        old(side_update).well_formed(),
        old(side_match).well_formed(),
        row@.len() == old(side_update).width(),
        old(builder).stream_chunk_builder.well_formed(),
        old(builder).layout(old(side_update).width(), old(side_match).width()).well_formed(),
        chunks_fit(old(out)@, old(builder).stream_chunk_builder.width as nat),
        ({
            let rules = rules_of(
                old(side_update),
                old(side_match),
                old(builder),
                append_only_optimize,
            );
            let state = state_of(old(side_update), old(side_match));
            &&& prepared(rules, state, row@, 1)
            &&& row_has_null(project(row@, rules.update_keys)) || judged@.covers(
                candidates(rules, state, row@).len(),
            )
        }),
    ensures
        ({
            let done = insert_step(
                rules_of(old(side_update), old(side_match), old(builder), append_only_optimize),
                state_of(old(side_update), old(side_match)),
                Record { op, row: row@ },
                judged@,
            );
            &&& state_of(final(side_update), final(side_match)) == done.state
            &&& emitted(old(out)@, old(builder), done.records, final(out)@, final(builder))
            &&& match r {
                Ok(()) => done.failure is None,
                Err(e) => done.failure == Some(e@),
            }
        }),
        final(side_update).ht.well_formed(),
        final(side_update).same_setup(old(side_update)),
        final(side_match).ht.well_formed(),
        final(side_match).same_setup(old(side_match)),
{
    let ghost layout = builder.layout(side_update.width(), side_match.width());
    let ghost before = *builder;
    let ghost out_before = out@;
    let ghost start = emission(out@, builder);
    let ghost update0 = side_update.ht@;
    let ghost matched0 = side_match.ht@;
    let key = row.row_by_indices(&side_update.key_indices);
    let pk = row.row_by_indices(&side_update.pk_indices);
    let matched_width: usize = side_match.col_types.len();
    let mut own = side_update.ht.take_or_init_without_cache(&key);
    proof {
        lemma_without(update0, key@);
        lemma_put_without(update0, key@);
        assert(emit_all(start, builder.limit(), Seq::<Record>::empty()) == start);
    }
    if key.has_null() {
        own.insert(pk, JoinRow::new(row.clone(), 0));
        let issued = builder.forward_if_not_matched(op, row);
        proof {
            let records = layout.if_not_matched(op, row@);
            lemma_emission(start, Seq::empty(), out_before, &before, builder, records, issued);
            assert(Seq::<Record>::empty() + records =~= records);
        }
        collect(out, issued);
        side_update.ht.put(key, own);
        return Ok(());
    }
    let mut entry = side_match.ht.take_or_init_without_cache(&key);
    let ghost entry0 = entry@;
    proof {
        lemma_table_fits_at(matched0, key@, matched_width as nat);
        lemma_without(matched0, key@);
        lemma_put_without(matched0, key@);
        assert forall|i: int| 0 <= i < entry0.cached->0.len() implies (
        #[trigger] entry0.cached->0[i]).1.degree < u64::MAX by {
            assert(at(matched0, key@).cached->0[i].1.degree + 1 <= u64::MAX);
        }
        lemma_scan_insert(layout, row@, entry0, judged.verdicts@, matched_width as nat);
    }
    let first_pk = if append_only_optimize && entry.cached_len() > 0 {
        Some(entry.cached_row(0).row_by_indices(&side_match.pk_indices))
    } else {
        None
    };
    let degree: u64 = match_inserted(
        &mut entry,
        matched_width,
        row,
        &judged.verdicts,
        builder,
        out,
    );
    let ghost scan = scan_insert(layout, row@, entry0, judged.verdicts@);
    if let Some(e) = judged.error {
        side_update.ht.put(key.clone(), own);
        side_match.ht.put(key, entry);
        return Err(HashJoinError::Condition(e));
    }
    let ghost middle = *builder;
    let ghost out_middle = out@;
    assert(builder.layout(row@.len(), matched_width as nat) == layout);
    let issued = if degree == 0 {
        builder.forward_if_not_matched(op, row)
    } else {
        builder.forward_exactly_once_if_matched(op, row)
    };
    proof {
        lemma_emission(
            start,
            scan.records,
            out_middle,
            &middle,
            builder,
            forwarded(layout, Record { op, row: row@ }, scan.matched),
            issued,
        );
    }
    collect(out, issued);
    match first_pk {
        // The join key covers the primary keys, so that the row has found its only match: neither
        // of the two will be needed again.
        Some(first) => {
            entry.remove(first);
        },
        None => {
            own.insert(pk, JoinRow::new(row.clone(), degree));
        },
    }
    side_update.ht.put(key.clone(), own);
    side_match.ht.put(key, entry);
    Ok(())
}

proof fn lemma_put_without(table: TableView, key: RowView)
    requires
        table_well_formed(table),
    ensures
        forall|entry: EntryView|
            #[trigger] put_last(without(table, key), key, entry) == put_last(table, key, entry),
{
    lemma_without(table, key);
}

fn delete_row<const T: u8, const SIDE: u8>(
    side_update: &mut JoinSide,
    side_match: &mut JoinSide,
    builder: &mut HashJoinChunkBuilder<T, SIDE>,
    op: Op,
    row: &Row,
    judged: Judged,
    out: &mut Vec<StreamChunk>,
) -> (r: Result<(), HashJoinError>)
    requires
        old(side_update).well_formed(),
        old(side_match).well_formed(),
        row@.len() == old(side_update).width(),
        old(builder).stream_chunk_builder.well_formed(),
        old(builder).layout(old(side_update).width(), old(side_match).width()).well_formed(),
        chunks_fit(old(out)@, old(builder).stream_chunk_builder.width as nat),
        ({
            let rules = rules_of(old(side_update), old(side_match), old(builder), false);
            let state = state_of(old(side_update), old(side_match));
            &&& prepared(rules, state, row@, 1)
            &&& row_has_null(project(row@, rules.update_keys)) || judged@.covers(
                candidates(rules, state, row@).len(),
            )
        }),
    ensures
        ({
            let done = delete_step(
                rules_of(old(side_update), old(side_match), old(builder), false),
                state_of(old(side_update), old(side_match)),
                Record { op, row: row@ },
                judged@,
            );
            &&& state_of(final(side_update), final(side_match)) == done.state
            &&& emitted(old(out)@, old(builder), done.records, final(out)@, final(builder))
            &&& match r {
                Ok(()) => done.failure is None,
                Err(e) => done.failure == Some(e@),
            }
        }),
        final(side_update).ht.well_formed(),
        final(side_update).same_setup(old(side_update)),
        final(side_match).ht.well_formed(),
        final(side_match).same_setup(old(side_match)),
{
    let ghost layout = builder.layout(side_update.width(), side_match.width());
    let ghost before = *builder;
    let ghost out_before = out@;
    let ghost start = emission(out@, builder);
    let ghost update0 = side_update.ht@;
    let ghost matched0 = side_match.ht@;
    let key = row.row_by_indices(&side_update.key_indices);
    let pk = row.row_by_indices(&side_update.pk_indices);
    let matched_width: usize = side_match.col_types.len();
    let mut own = side_update.ht.take_or_init_without_cache(&key);
    own.remove(pk);
    side_update.ht.put(key.clone(), own);
    proof {
        lemma_without(update0, key@);
        lemma_put_without(update0, key@);
        assert(emit_all(start, builder.limit(), Seq::<Record>::empty()) == start);
    }
    if key.has_null() {
        let issued = builder.forward_if_not_matched(op, row);
        proof {
            let records = layout.if_not_matched(op, row@);
            lemma_emission(start, Seq::empty(), out_before, &before, builder, records, issued);
            assert(Seq::<Record>::empty() + records =~= records);
        }
        collect(out, issued);
        return Ok(());
    }
    let mut entry = side_match.ht.take_or_init_without_cache(&key);
    let ghost entry0 = entry@;
    proof {
        lemma_table_fits_at(matched0, key@, matched_width as nat);
        lemma_without(matched0, key@);
        lemma_put_without(matched0, key@);
        lemma_scan_delete(layout, row@, entry0, judged.verdicts@, matched_width as nat);
    }
    let scanned = match_deleted(
        &mut entry,
        matched_width,
        row,
        &judged.verdicts,
        builder,
        out,
    );
    let ghost scan = scan_delete(layout, row@, entry0, judged.verdicts@);
    side_match.ht.put(key, entry);
    let matched = match scanned {
        Ok(matched) => matched,
        Err(e) => {
            return Err(e);
        },
    };
    if let Some(e) = judged.error {
        return Err(HashJoinError::Condition(e));
    }
    let ghost middle = *builder;
    let ghost out_middle = out@;
    assert(builder.layout(row@.len(), matched_width as nat) == layout);
    let issued = if !matched {
        builder.forward_if_not_matched(op, row)
    } else {
        builder.forward_exactly_once_if_matched(op, row)
    };
    proof {
        lemma_emission(
            start,
            scan.records,
            out_middle,
            &middle,
            builder,
            forwarded(layout, Record { op, row: row@ }, scan.matched),
            issued,
        );
    }
    collect(out, issued);
    Ok(())
}

/// An error tells what went wrong: a degree that would have become negative, or what the evaluation of
/// the condition said.
pub proof fn law_error_as_seen(error: HashJoinError)
    ensures
        error is ZeroDegree <==> error@ == Failure::ZeroDegree,
        error matches HashJoinError::Condition(e) ==> error@ == Failure::Condition(e.message@),
{
}

} // verus!
