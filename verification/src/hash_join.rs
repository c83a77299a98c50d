//! The hash join of two streams of changes.
use madsim::collections::HashSet;
use vstd::prelude::*;

use crate::JoinType;
use crate::SideType;
use crate::chunk::StreamChunk;
use crate::join_builder::{chunk_records, chunks_fit};
use crate::join_kind::{keeps_left, keeps_right};
use crate::join_run::{
    Condition, JoinOutput, PROCESSING_WINDOW_SIZE, all_prepared, evaluable, hash_eq_match,
    join_chunk, models, rules_for, run, run_chunks,
};
use crate::join_state::{
    JoinHashMap, JoinRow, StateWrite, TableView, cleaned, entry_or_unknown, evicted,
    lemma_cleaned_fits, lemma_evicted_fits, lemma_table_fits_at, lemma_table_fits_put,
    lemma_overlay_fits, resident, rows_fit, table_dirty, table_writes, writes_view,
};
use crate::join_step::{EvalError, JoinSide, JoinState, Rules, prepared, state_of};
use crate::keyed::{KeyedList, at, distinct, put_last};
use crate::row::{Row, RowView, indices_below, project, row_has_null};
use crate::schema::{DataType, FieldView, Schema, types_of};
use crate::text::{append_hexadecimal, hexadecimal};

verus! {

/// How many entries each side keeps in memory.
pub const JOIN_CACHE_SIZE: usize = 65536;

/// Columns that a join is made on.
pub struct JoinParams {
    /// Indices of the join columns.
    pub key_indices: Vec<usize>,
}

impl JoinParams {
    pub fn new(key_indices: Vec<usize>) -> (r: Self)
        ensures
            r.key_indices == key_indices,
    {
        JoinParams { key_indices }
    }
}

/// `HashJoinExecutor` takes two input streams and runs equal hash join on them.
///
/// The output columns are the concatenation of left and right columns; those of one side alone for
/// a semi or anti join.
pub struct HashJoinExecutor<F, const T: u8> {
    /// The data types of the output columns.
    pub output_data_types: Vec<DataType>,
    /// The schema of the output.
    pub schema: Schema,
    /// The primary key indices of the output.
    pub pk_indices: Vec<usize>,
    pub side_l: JoinSide,
    pub side_r: JoinSide,
    /// Optional non-equi join condition.
    pub cond: Option<F>,
    pub identity: String,
    /// The epoch that the next writes to the state store belong to.
    pub epoch: u64,
    /// Logical operator info.
    pub op_info: String,
    /// Indices of the columns on which key distribution depends.
    pub key_indices: Vec<usize>,
    /// Whether a row is dropped once it has found its match.
    pub append_only_optimize: bool,
    /// Depth of the prefetch queue.
    pub prefetch_queue_depth: usize,
    /// Number of messages seen before the queue depth is adjusted. Set to `u64::MAX` to leave it
    /// alone.
    pub aimd_adjust_rate_msgs: u64,
}

/// The columns of the output of a join.
pub open spec fn output_fields(join_type: u8, left: Seq<FieldView>, right: Seq<FieldView>) -> Seq<
    FieldView,
> {
    if keeps_left(join_type) {
        left
    } else if keeps_right(join_type) {
        right
    } else {
        left + right
    }
}

/// All of `inner` occur in `outer`.
pub open spec fn covered(inner: Seq<usize>, outer: Seq<usize>) -> bool {
    forall|i: int| 0 <= i < inner.len() ==> outer.contains(#[trigger] inner[i])
}

/// Whether the indices `pks` are all among `keys`.
fn contains_all(keys: &Vec<usize>, pks: &Vec<usize>) -> (r: bool)
    ensures
        r == covered(pks@, keys@),
{
    broadcast use vstd::std_specs::hash::group_hash_axioms;

    let mut set: HashSet<usize> = HashSet::new();
    let n: usize = keys.len();
    let mut i: usize = 0;
    while i < n
        invariant
            i <= n,
            n == keys@.len(),
            forall|x: usize| #[trigger] set@.contains(x) <==> keys@.take(i as int).contains(x),
        decreases n - i,
    {
        let ghost before = keys@.take(i as int);
        let _new = set.insert(keys[i]);
        assert(keys@.take(i + 1) =~= before.push(keys@[i as int]));
        assert forall|x: usize| before.push(keys@[i as int]).contains(x) <==> before.contains(x) || x
            == keys@[i as int] by {
            if before.contains(x) {
                let j = choose|j: int| 0 <= j < before.len() && before[j] == x;
                assert(before.push(keys@[i as int])[j] == x);
            }
            if x == keys@[i as int] {
                assert(before.push(keys@[i as int])[before.len() as int] == x);
            }
        }
        i = i + 1;
    }
    assert(keys@.take(n as int) =~= keys@);
    let m: usize = pks.len();
    let mut j: usize = 0;
    while j < m
        invariant
            j <= m,
            m == pks@.len(),
            forall|x: usize| #[trigger] set@.contains(x) <==> keys@.contains(x),
            forall|k: int| 0 <= k < j ==> keys@.contains(#[trigger] pks@[k]),
        decreases m - j,
    {
        if !set.contains(&pks[j]) {
            assert(!keys@.contains(pks@[j as int]));
            return false;
        }
        j = j + 1;
    }
    true
}

impl<F: Fn(&Row, &Vec<DataType>) -> Result<Vec<Option<bool>>, EvalError>, const T: u8>
    HashJoinExecutor<F, T> {
    pub open spec fn well_formed(&self) -> bool {
        &&& self.side_l.well_formed()
        &&& self.side_r.well_formed()
        &&& self.side_l.start_pos == 0
        &&& self.side_r.start_pos == self.side_l.width()
        &&& self.side_l.width() + self.side_r.width() <= usize::MAX
        &&& self.output_data_types@.len() == (if keeps_left(T) {
            self.side_l.width()
        } else if keeps_right(T) {
            self.side_r.width()
        } else {
            self.side_l.width() + self.side_r.width()
        })
        &&& evaluable(
            self.cond,
            self.output_data_types,
            self.side_l.width() + self.side_r.width(),
        )
    }

    /// The rules that the join follows for the updates of the side `side`.
    pub open spec fn rules<const SIDE: u8>(&self) -> Rules {
        if SIDE == SideType::Left {
            rules_for::<T, SIDE>(
                &self.side_l,
                &self.side_r,
                self.output_data_types@.len(),
                self.append_only_optimize,
            )
        } else {
            rules_for::<T, SIDE>(
                &self.side_r,
                &self.side_l,
                self.output_data_types@.len(),
                self.append_only_optimize,
            )
        }
    }

    /// The entries of both sides, seen from the side `SIDE`.
    pub open spec fn state<const SIDE: u8>(&self) -> JoinState {
        if SIDE == SideType::Left {
            state_of(&self.side_l, &self.side_r)
        } else {
            state_of(&self.side_r, &self.side_l)
        }
    }

    /// `self` differs from `other` at most by the entries of its sides.
    pub open spec fn same_setup(&self, other: &Self) -> bool {
        &&& self.output_data_types == other.output_data_types
        &&& self.schema == other.schema
        &&& self.pk_indices == other.pk_indices
        &&& self.side_l.same_setup(&other.side_l)
        &&& self.side_r.same_setup(&other.side_r)
        &&& self.cond == other.cond
        &&& self.identity == other.identity
        &&& self.epoch == other.epoch
        &&& self.op_info == other.op_info
        &&& self.key_indices == other.key_indices
        &&& self.append_only_optimize == other.append_only_optimize
        &&& self.prefetch_queue_depth == other.prefetch_queue_depth
        &&& self.aimd_adjust_rate_msgs == other.aimd_adjust_rate_msgs
    }

    /// The changes of `chunk` on the side `SIDE`, joined by `self`, leave `after` and put out `out`.
    pub open spec fn joined<const SIDE: u8>(
        &self,
        after: &Self,
        chunk: &StreamChunk,
        out: JoinOutput,
    ) -> bool {
        &&& after.same_setup(self)
        &&& chunks_fit(out.chunks@, self.output_data_types@.len())
        &&& forall|c: Condition| #[trigger]
            models(self.cond, self.output_data_types, c) ==> {
                let done = run(self.rules::<SIDE>(), self.state::<SIDE>(), chunk.records(), c);
                &&& after.state::<SIDE>() == done.state
                &&& chunk_records(out.chunks@) == run_chunks(
                    (PROCESSING_WINDOW_SIZE - 1) as nat,
                    done,
                )
                &&& match out.error {
                    None => done.failure is None,
                    Some(e) => done.failure == Some(e@),
                }
            }
    }

    /// The chunk has been compacted, its rows have the columns of the side `SIDE`, and the rows that
    /// its changes may match are in memory, with room in their degrees.
    pub open spec fn ready_for<const SIDE: u8>(&self, chunk: &StreamChunk) -> bool {
        &&& chunk.well_formed()
        &&& chunk.visibility is None
        &&& chunk.width == self.rules::<SIDE>().layout.update_width
        &&& all_prepared(self.rules::<SIDE>(), self.state::<SIDE>(), chunk.records())
    }

    /// A join of two inputs, of which each is given by its columns and its primary key.
    #[allow(clippy::too_many_arguments)]
    pub fn new(
        schema_l: &Schema,
        pk_indices_l: Vec<usize>,
        schema_r: &Schema,
        pk_indices_r: Vec<usize>,
        params_l: JoinParams,
        params_r: JoinParams,
        pk_indices: Vec<usize>,
        executor_id: u64,
        cond: Option<F>,
        op_info: String,
        key_indices: Vec<usize>,
        append_only: bool,
        prefetch_queue_depth: usize,
        aimd_adjust_rate_msgs: u64,
    ) -> (r: Self)
        ensures
            r.schema@ == output_fields(T, schema_l@, schema_r@),
            r.output_data_types@.len() == r.schema@.len(),
            forall|i: int|
                0 <= i < r.schema@.len() ==> #[trigger] r.output_data_types@[i]
                    == r.schema@[i].data_type,
            r.output_data_types@ == types_of(output_fields(T, schema_l@, schema_r@)),
            r.pk_indices == pk_indices,
            r.side_l.ht@ == TableView::empty(),
            r.side_l.ht.target_cap == JOIN_CACHE_SIZE,
            r.side_l.ht.target_cap == 0x1_0000,
            r.side_r.ht.target_cap == 0x1_0000,
            r.side_l.ht.epoch == 0,
            r.side_l.key_indices == params_l.key_indices,
            r.side_l.pk_indices == pk_indices_l,
            r.side_l.col_types@ == types_of(schema_l@),
            r.side_l.start_pos == 0,
            r.side_r.ht@ == TableView::empty(),
            r.side_r.ht.target_cap == JOIN_CACHE_SIZE,
            r.side_r.ht.epoch == 0,
            r.side_r.key_indices == params_r.key_indices,
            r.side_r.pk_indices == pk_indices_r,
            r.side_r.col_types@ == types_of(schema_r@),
            r.side_r.start_pos == schema_l@.len(),
            r.cond == cond,
            r.identity@ == "HashJoinExecutor "@ + hexadecimal(executor_id as nat),
            r.epoch == 0,
            r.op_info == op_info,
            r.key_indices == key_indices,
            r.append_only_optimize == (append_only && covered(
                pk_indices_l@,
                params_l.key_indices@,
            ) && covered(pk_indices_r@, params_r.key_indices@)),
            r.append_only_optimize == drops_matched(
                append_only,
                pk_indices_l@,
                params_l.key_indices@,
                pk_indices_r@,
                params_r.key_indices@,
            ),
            r.prefetch_queue_depth == prefetch_queue_depth,
            r.aimd_adjust_rate_msgs == aimd_adjust_rate_msgs,
            ({
                &&& indices_below(params_l.key_indices@, schema_l@.len() as int)
                &&& indices_below(pk_indices_l@, schema_l@.len() as int)
                &&& indices_below(params_r.key_indices@, schema_r@.len() as int)
                &&& indices_below(pk_indices_r@, schema_r@.len() as int)
                &&& schema_l@.len() + schema_r@.len() <= usize::MAX
                &&& evaluable(cond, r.output_data_types, schema_l@.len() + schema_r@.len())
            }) ==> r.well_formed(),
    {
        let side_l_column_n: usize = schema_l.len();
        let schema = if T == JoinType::LeftSemi || T == JoinType::LeftAnti {
            schema_l.copy()
        } else if T == JoinType::RightSemi || T == JoinType::RightAnti {
            schema_r.copy()
        } else {
            schema_l.concat(schema_r)
        };
        let output_data_types = schema.data_types();
        let col_l_datatypes = schema_l.data_types();
        let col_r_datatypes = schema_r.data_types();
        // A row that matches is not needed any more where the join key covers the primary keys.
        let append_only_optimize = append_only && contains_all(
            &params_l.key_indices,
            &pk_indices_l,
        ) && contains_all(&params_r.key_indices, &pk_indices_r);
        let mut identity = "HashJoinExecutor ".to_owned();
        append_hexadecimal(&mut identity, executor_id);
        HashJoinExecutor {
            output_data_types,
            schema,
            pk_indices,
            side_l: JoinSide {
                ht: JoinHashMap::new(JOIN_CACHE_SIZE),
                key_indices: params_l.key_indices,
                pk_indices: pk_indices_l,
                col_types: col_l_datatypes,
                start_pos: 0,
            },
            side_r: JoinSide {
                ht: JoinHashMap::new(JOIN_CACHE_SIZE),
                key_indices: params_r.key_indices,
                pk_indices: pk_indices_r,
                col_types: col_r_datatypes,
                start_pos: side_l_column_n,
            },
            cond,
            identity,
            epoch: 0,
            op_info,
            key_indices,
            append_only_optimize,
            prefetch_queue_depth,
            aimd_adjust_rate_msgs,
        }
    }

    /// The columns of the output.
    pub fn schema(&self) -> (r: &Schema)
        ensures
            *r == self.schema,
    {
        &self.schema
    }

    /// The primary key of the output.
    pub fn pk_indices(&self) -> (r: &Vec<usize>)
        ensures
            *r == self.pk_indices,
    {
        &self.pk_indices
    }

    pub fn identity(&self) -> (r: &str)
        ensures
            r@ == self.identity@,
    {
        self.identity.as_str()
    }

    /// Joins the changes of `chunk`, which come from the side `SIDE`, with the rows of the other
    /// side, and takes them over into the rows of their own side.
    pub fn eq_join_oneside<const SIDE: u8>(&mut self, chunk: &StreamChunk) -> (r: JoinOutput)
        requires
            old(self).well_formed(),
            old(self).ready_for::<SIDE>(chunk),
        ensures
            final(self).well_formed(),
            old(self).joined::<SIDE>(final(self), chunk, r),
    {
        if SIDE == SideType::Left {
            join_chunk::<F, T, SIDE>(
                &mut self.side_l,
                &mut self.side_r,
                &self.cond,
                &self.output_data_types,
                self.append_only_optimize,
                chunk,
            )
        } else {
            join_chunk::<F, T, SIDE>(
                &mut self.side_r,
                &mut self.side_l,
                &self.cond,
                &self.output_data_types,
                self.append_only_optimize,
                chunk,
            )
        }
    }

    /// What is lacking before the changes of `chunk` can be joined.
    pub fn readiness<const SIDE: u8>(&self, chunk: &StreamChunk) -> (r: Readiness)
        requires
            self.well_formed(),
            chunk.well_formed(),
        ensures
            match r {
                Readiness::Ready => chunk.width == self.rules::<SIDE>().layout.update_width
                    && all_prepared(self.rules::<SIDE>(), self.state::<SIDE>(), chunk.records()),
                Readiness::WrongWidth => chunk.width != self.rules::<SIDE>().layout.update_width,
                Readiness::Missing(keys) => {
                    &&& chunk.width == self.rules::<SIDE>().layout.update_width
                    &&& keys@.len() > 0
                    &&& lists_missing(
                        self.rules::<SIDE>(),
                        self.state::<SIDE>(),
                        chunk.records(),
                        keys@,
                    )
                },
                Readiness::DegreeOverflow => {
                    &&& chunk.width == self.rules::<SIDE>().layout.update_width
                    &&& lists_missing(
                        self.rules::<SIDE>(),
                        self.state::<SIDE>(),
                        chunk.records(),
                        Seq::empty(),
                    )
                    &&& !all_prepared(
                        self.rules::<SIDE>(),
                        self.state::<SIDE>(),
                        chunk.records(),
                    )
                },
            },
    {
        if SIDE == SideType::Left {
            side_readiness(
                &self.side_l,
                &self.side_r,
                chunk,
                Ghost(self.rules::<SIDE>()),
            )
        } else {
            side_readiness(
                &self.side_r,
                &self.side_l,
                chunk,
                Ghost(self.rules::<SIDE>()),
            )
        }
    }

    /// Hands over what the state store has not got, and evicts what is then over the capacity.
    pub fn flush_data(&mut self) -> (r: FlushedData)
        requires
            old(self).well_formed(),
        ensures
            final(self).well_formed(),
            final(self).same_setup(old(self)),
            final(self).side_l.ht@ == evicted(
                cleaned(old(self).side_l.ht@),
                old(self).side_l.ht.target_cap as nat,
            ),
            final(self).side_r.ht@ == evicted(
                cleaned(old(self).side_r.ht@),
                old(self).side_r.ht.target_cap as nat,
            ),
            !table_dirty(final(self).side_l.ht@),
            !table_dirty(final(self).side_r.ht@),
            r.epoch == old(self).epoch,
            writes_view(r.left@) == table_writes(old(self).side_l.ht@),
            writes_view(r.right@) == table_writes(old(self).side_r.ht@),
    {
        let ghost left0 = self.side_l.ht@;
        let ghost right0 = self.side_r.ht@;
        let epoch: u64 = self.epoch;
        let mut left: Vec<StateWrite> = Vec::new();
        let mut right: Vec<StateWrite> = Vec::new();
        proof {
            assert(writes_view(left@) =~= Seq::empty());
            assert(writes_view(right@) =~= Seq::empty());
            lemma_cleaned_fits(left0, self.side_l.width());
            lemma_cleaned_fits(right0, self.side_r.width());
            lemma_evicted_fits(
                cleaned(left0),
                self.side_l.ht.target_cap as nat,
                self.side_l.width(),
            );
            lemma_evicted_fits(
                cleaned(right0),
                self.side_r.ht.target_cap as nat,
                self.side_r.width(),
            );
        }
        self.side_l.ht.flush(&mut left);
        self.side_r.ht.flush(&mut right);
        assert(writes_view(left@) =~= table_writes(left0));
        assert(writes_view(right@) =~= table_writes(right0));
        self.side_l.ht.evict_to_target_cap();
        self.side_r.ht.evict_to_target_cap();
        FlushedData { epoch, left, right }
    }

    /// A barrier: everything is flushed under the epoch that ends, and `epoch` begins.
    pub fn on_barrier(&mut self, epoch: u64) -> (r: FlushedData)
        requires
            old(self).well_formed(),
        ensures
            final(self).well_formed(),
            final(self).epoch == epoch,
            final(self).side_l.ht.epoch == epoch,
            final(self).side_r.ht.epoch == epoch,
            final(self).side_l.ht@ == evicted(
                cleaned(old(self).side_l.ht@),
                old(self).side_l.ht.target_cap as nat,
            ),
            final(self).side_r.ht@ == evicted(
                cleaned(old(self).side_r.ht@),
                old(self).side_r.ht.target_cap as nat,
            ),
            !table_dirty(final(self).side_l.ht@),
            !table_dirty(final(self).side_r.ht@),
            r.epoch == old(self).epoch,
            writes_view(r.left@) == table_writes(old(self).side_l.ht@),
            writes_view(r.right@) == table_writes(old(self).side_r.ht@),
            same_but_epoch(final(self), old(self)),
    {
        let flushed = self.flush_data();
        self.side_l.ht.update_epoch(epoch);
        self.side_r.ht.update_epoch(epoch);
        self.epoch = epoch;
        flushed
    }

    /// The rows under `key` on the side `SIDE` have come from the state store.
    pub fn insert_cached<const SIDE: u8>(&mut self, key: Row, base: KeyedList<JoinRow>)
        requires
            old(self).well_formed(),
            distinct(base@),
            rows_fit(base@, old(self).rules::<SIDE>().layout.update_width),
        ensures
            final(self).well_formed(),
            final(self).same_setup(old(self)),
            final(self).state::<SIDE>().matched == old(self).state::<SIDE>().matched,
            final(self).state::<SIDE>().update == put_last(
                old(self).state::<SIDE>().update,
                key@,
                entry_or_unknown(old(self).state::<SIDE>().update, key@).with_cache(base@),
            ),
    {
        if SIDE == SideType::Left {
            attach_rows(&mut self.side_l, key, base);
        } else {
            attach_rows(&mut self.side_r, key, base);
        }
    }
}

/// `a` differs from `b` at most by its epochs and the entries of its sides.
pub open spec fn same_but_epoch<
    F: Fn(&Row, &Vec<DataType>) -> Result<Vec<Option<bool>>, EvalError>,
    const T: u8,
>(a: &HashJoinExecutor<F, T>, b: &HashJoinExecutor<F, T>) -> bool {
    &&& a.output_data_types == b.output_data_types
    &&& a.schema == b.schema
    &&& a.pk_indices == b.pk_indices
    &&& a.side_l.key_indices == b.side_l.key_indices
    &&& a.side_l.pk_indices == b.side_l.pk_indices
    &&& a.side_l.col_types == b.side_l.col_types
    &&& a.side_l.start_pos == b.side_l.start_pos
    &&& a.side_l.ht.target_cap == b.side_l.ht.target_cap
    &&& a.side_r.key_indices == b.side_r.key_indices
    &&& a.side_r.pk_indices == b.side_r.pk_indices
    &&& a.side_r.col_types == b.side_r.col_types
    &&& a.side_r.start_pos == b.side_r.start_pos
    &&& a.side_r.ht.target_cap == b.side_r.ht.target_cap
    &&& a.cond == b.cond
    &&& a.identity == b.identity
    &&& a.op_info == b.op_info
    &&& a.key_indices == b.key_indices
    &&& a.append_only_optimize == b.append_only_optimize
    &&& a.prefetch_queue_depth == b.prefetch_queue_depth
    &&& a.aimd_adjust_rate_msgs == b.aimd_adjust_rate_msgs
}

/// What is lacking before a chunk can be joined.
pub enum Readiness {
    Ready,
    /// The chunk has another number of columns than its side.
    WrongWidth,
    /// The rows under these join keys are not in memory.
    Missing(Vec<Row>),
    /// The degrees of some rows could grow beyond their type.
    DegreeOverflow,
}

/// What goes to the state store at a barrier.
pub struct FlushedData {
    pub epoch: u64,
    pub left: Vec<StateWrite>,
    pub right: Vec<StateWrite>,
}

/// Some of `rows` is `row`.
pub open spec fn lists_row(rows: Seq<Row>, row: RowView) -> bool {
    exists|i: int| 0 <= i < rows.len() && (#[trigger] rows[i])@ == row
}

/// `key` has no null, and the rows under it on the other side are not in memory.
pub open spec fn is_missing(state: JoinState, key: RowView) -> bool {
    !row_has_null(key) && !resident(state.matched, key)
}

/// `keys` are the join keys of `changes` whose rows are not in memory, each once.
pub open spec fn lists_missing(
    rules: Rules,
    state: JoinState,
    changes: Seq<crate::chunk::Record>,
    keys: Seq<Row>,
) -> bool {
    &&& forall|i: int|
        0 <= i < keys.len() ==> is_missing(state, (#[trigger] keys[i])@) && exists|j: int|
            0 <= j < changes.len() && project((#[trigger] changes[j]).row, rules.update_keys)
                == keys[i]@
    &&& forall|j: int|
        0 <= j < changes.len() && is_missing(
            state,
            project((#[trigger] changes[j]).row, rules.update_keys),
        ) ==> lists_row(keys, project(changes[j].row, rules.update_keys))
    &&& forall|i: int, j: int|
        0 <= i < keys.len() && 0 <= j < keys.len() && (#[trigger] keys[i])@ == (
        #[trigger] keys[j])@ ==> i == j
}

fn attach_rows(side: &mut JoinSide, key: Row, base: KeyedList<JoinRow>)
    requires
        old(side).well_formed(),
        distinct(base@),
        rows_fit(base@, old(side).width()),
    ensures
        final(side).well_formed(),
        final(side).same_setup(old(side)),
        final(side).ht@ == put_last(
            old(side).ht@,
            key@,
            entry_or_unknown(old(side).ht@, key@).with_cache(base@),
        ),
{
    proof {
        let entry = entry_or_unknown(side.ht@, key@);
        lemma_table_fits_at(side.ht@, key@, side.width());
        lemma_overlay_fits(base@, entry.pending, side.width());
        crate::join_state::lemma_overlay(base@, entry.pending);
        lemma_table_fits_put(side.ht@, key@, entry.with_cache(base@), side.width());
    }
    side.ht.insert_cached(key, base);
}

/// Whether `row` is one of `rows`.
fn is_listed(rows: &Vec<Row>, row: &Row) -> (r: bool)
    ensures
        r == lists_row(rows@, row@),
{
    let n: usize = rows.len();
    let mut i: usize = 0;
    while i < n
        invariant
            i <= n,
            n == rows@.len(),
            forall|j: int| 0 <= j < i ==> (#[trigger] rows@[j])@ != row@,
        decreases n - i,
    {
        if rows[i].same(row) {
            return true;
        }
        i = i + 1;
    }
    false
}

fn side_readiness(
    side_update: &JoinSide,
    side_match: &JoinSide,
    chunk: &StreamChunk,
    Ghost(rules): Ghost<Rules>,
) -> (r: Readiness)
    requires
        side_update.well_formed(),
        side_match.well_formed(),
        chunk.well_formed(),
        rules.update_keys == side_update.key_indices@,
        rules.layout.update_width == side_update.width(),
    ensures
        ({
            let state = state_of(side_update, side_match);
            match r {
                Readiness::Ready => chunk.width == side_update.width() && all_prepared(
                    rules,
                    state,
                    chunk.records(),
                ),
                Readiness::WrongWidth => chunk.width != side_update.width(),
                Readiness::Missing(keys) => {
                    &&& chunk.width == side_update.width()
                    &&& keys@.len() > 0
                    &&& lists_missing(rules, state, chunk.records(), keys@)
                },
                Readiness::DegreeOverflow => {
                    &&& chunk.width == side_update.width()
                    &&& lists_missing(rules, state, chunk.records(), Seq::empty())
                    &&& !all_prepared(rules, state, chunk.records())
                },
            }
        }),
{
    if chunk.width != side_update.col_types.len() {
        return Readiness::WrongWidth;
    }
    let missing = missing_keys(side_update, side_match, chunk, Ghost(rules));
    if missing.len() > 0 {
        return Readiness::Missing(missing);
    }
    assert(missing@ =~= Seq::empty());
    let ghost state = state_of(side_update, side_match);
    let ghost changes = chunk.records();
    let n: usize = chunk.rows.len();
    let mut i: usize = 0;
    while i < n
        invariant
            i <= n,
            n == chunk.rows@.len(),
            chunk.well_formed(),
            changes == chunk.records(),
            chunk.width == side_update.width(),
            side_update.well_formed(),
            side_match.well_formed(),
            rules.update_keys == side_update.key_indices@,
            state == state_of(side_update, side_match),
            lists_missing(rules, state, changes, Seq::empty()),
            forall|j: int|
                0 <= j < i ==> prepared(rules, state, (#[trigger] changes[j]).row, n as nat),
        decreases n - i,
    {
        let key = chunk.rows[i].row_by_indices(&side_update.key_indices);
        assert(changes[i as int].row == chunk.rows@[i as int]@);
        match hash_eq_match(&key, &side_match.ht) {
            Some(entry) => {
                let m: usize = entry.cached_len();
                let mut j: usize = 0;
                while j < m
                    invariant
                        j <= m,
                        entry@.cached is Some,
                        m == entry@.cached->0.len(),
                        entry@ == at(state.matched, key@),
                        n == changes.len(),
                        i < n,
                        changes == chunk.records(),
                        chunk.width == side_update.width(),
                        state == state_of(side_update, side_match),
                        !row_has_null(key@),
                        key@ == project(changes[i as int].row, rules.update_keys),
                        lists_missing(rules, state, changes, Seq::empty()),
                        forall|k: int|
                            0 <= k < j ==> (#[trigger] entry@.cached->0[k]).1.degree + n <= u64::MAX,
                    decreases m - j,
                {
                    if entry.cached_row(j).degree > u64::MAX - n as u64 {
                        proof {
                            assert(!prepared(rules, state, changes[i as int].row, changes.len()))
                                by {
                                assert(at(state.matched, key@).cached->0[j as int].1.degree + n
                                    > u64::MAX);
                            }
                        }
                        return Readiness::DegreeOverflow;
                    }
                    j = j + 1;
                }
            },
            None => {
                proof {
                    if !row_has_null(key@) {
                        assert(is_missing(state, project(changes[i as int].row, rules.update_keys)));
                    }
                }
            },
        }
        i = i + 1;
    }
    Readiness::Ready
}

/// The join keys of the changes of `chunk` whose rows are not in memory, each once.
fn missing_keys(
    side_update: &JoinSide,
    side_match: &JoinSide,
    chunk: &StreamChunk,
    Ghost(rules): Ghost<Rules>,
) -> (keys: Vec<Row>)
    requires
        side_update.well_formed(),
        side_match.well_formed(),
        chunk.well_formed(),
        chunk.width == side_update.width(),
        rules.update_keys == side_update.key_indices@,
    ensures
        lists_missing(rules, state_of(side_update, side_match), chunk.records(), keys@),
{
    let ghost state = state_of(side_update, side_match);
    let ghost changes = chunk.records();
    let mut keys: Vec<Row> = Vec::new();
    let n: usize = chunk.rows.len();
    let mut i: usize = 0;
    assert(lists_missing(rules, state, changes.take(0), keys@));
    while i < n
        invariant
            i <= n,
            n == chunk.rows@.len(),
            chunk.well_formed(),
            changes == chunk.records(),
            chunk.width == side_update.width(),
            side_update.well_formed(),
            side_match.well_formed(),
            rules.update_keys == side_update.key_indices@,
            state == state_of(side_update, side_match),
            lists_missing(rules, state, changes.take(i as int), keys@),
        decreases n - i,
    {
        let key = chunk.rows[i].row_by_indices(&side_update.key_indices);
        let ghost before = changes.take(i as int);
        let ghost after = changes.take(i + 1);
        let ghost listed = keys@;
        proof {
            assert(after =~= before.push(changes[i as int]));
            assert(changes[i as int].row == chunk.rows@[i as int]@);
            assert forall|j: int| 0 <= j < before.len() implies after[j] == #[trigger] before[j] by {}
        }
        if !key.has_null() && side_match.ht.get_cached(&key).is_none() && !is_listed(&keys, &key) {
            keys.push(key);
            proof {
                assert forall|k: int| 0 <= k < keys@.len() implies is_missing(
                    state,
                    (#[trigger] keys@[k])@,
                ) && exists|j: int|
                    0 <= j < after.len() && project((#[trigger] after[j]).row, rules.update_keys)
                        == keys@[k]@ by {
                    if k < listed.len() {
                        assert(keys@[k] == listed[k]);
                        let j = choose|j: int|
                            0 <= j < before.len() && project(
                                (#[trigger] before[j]).row,
                                rules.update_keys,
                            ) == listed[k]@;
                        assert(after[j] == before[j]);
                    } else {
                        assert(project(after[i as int].row, rules.update_keys) == keys@[k]@);
                    }
                }
                assert forall|j: int|
                    0 <= j < after.len() && is_missing(
                        state,
                        project((#[trigger] after[j]).row, rules.update_keys),
                    ) implies lists_row(keys@, project(after[j].row, rules.update_keys)) by {
                    if j < i {
                        assert(after[j] == before[j]);
                        let k = choose|k: int|
                            0 <= k < listed.len() && (#[trigger] listed[k])@ == project(
                                before[j].row,
                                rules.update_keys,
                            );
                        assert(keys@[k] == listed[k]);
                    } else {
                        assert(keys@[listed.len() as int]@ == key@);
                    }
                }
                assert forall|a: int, b: int|
                    0 <= a < keys@.len() && 0 <= b < keys@.len() && (#[trigger] keys@[a])@ == (
                    #[trigger] keys@[b])@ implies a == b by {
                    if a < listed.len() {
                        assert(keys@[a] == listed[a]);
                    }
                    if b < listed.len() {
                        assert(keys@[b] == listed[b]);
                    }
                }
            }
        } else {
            proof {
                assert forall|k: int| 0 <= k < keys@.len() implies is_missing(
                    state,
                    (#[trigger] keys@[k])@,
                ) && exists|j: int|
                    0 <= j < after.len() && project((#[trigger] after[j]).row, rules.update_keys)
                        == keys@[k]@ by {
                    let j = choose|j: int|
                        0 <= j < before.len() && project(
                            (#[trigger] before[j]).row,
                            rules.update_keys,
                        ) == keys@[k]@;
                    assert(after[j] == before[j]);
                }
                assert forall|j: int|
                    0 <= j < after.len() && is_missing(
                        state,
                        project((#[trigger] after[j]).row, rules.update_keys),
                    ) implies lists_row(keys@, project(after[j].row, rules.update_keys)) by {
                    if j < i {
                        assert(after[j] == before[j]);
                    }
                }
            }
        }
        i = i + 1;
    }
    assert(changes.take(n as int) =~= changes);
    keys
}

/// A semi or anti join has the columns of the side that it keeps. Any other join has the columns of
/// the left side and, behind them, those of the right side: column `i` of the left side is column `i`
/// of the output, and column `j` of the right side stands `left.len()` columns further on. The data
/// types are those of the columns.
pub proof fn law_output_columns(join_type: u8, left: Seq<FieldView>, right: Seq<FieldView>)
    ensures
        ({
            let out = output_fields(join_type, left, right);
            let keeps_left = join_type == JoinType::LeftSemi || join_type == JoinType::LeftAnti;
            let keeps_right = join_type == JoinType::RightSemi || join_type == JoinType::RightAnti;
            &&& keeps_left ==> out == left
            &&& keeps_right ==> out == right
            &&& !keeps_left && !keeps_right ==> {
                &&& out.len() == left.len() + right.len()
                &&& forall|i: int| 0 <= i < left.len() ==> out[i] == #[trigger] left[i]
                &&& forall|j: int|
                    0 <= j < right.len() ==> out[left.len() + j] == #[trigger] right[j]
            }
            &&& types_of(out).len() == out.len()
            &&& forall|i: int|
                0 <= i < out.len() ==> #[trigger] types_of(out)[i] == out[i].data_type
        }),
{
}

/// Indices are covered by others exactly where each of them is among those, in whatever order and
/// however often.
pub proof fn law_covered_indices(inner: Seq<usize>, outer: Seq<usize>)
    ensures
        covered(inner, outer) <==> forall|x: usize| #[trigger]
            inner.contains(x) ==> outer.contains(x),
{
    if covered(inner, outer) {
        assert forall|x: usize| #[trigger] inner.contains(x) implies outer.contains(x) by {
            let i = choose|i: int| 0 <= i < inner.len() && inner[i] == x;
            assert(outer.contains(inner[i]));
        }
    }
    if forall|x: usize| #[trigger] inner.contains(x) ==> outer.contains(x) {
        assert forall|i: int| 0 <= i < inner.len() implies outer.contains(#[trigger] inner[i]) by {
            assert(inner.contains(inner[i]));
        }
    }
}

/// A key is fetched from the other side exactly where a change has it, no value of it is null, and its
/// rows are not all in memory.
pub proof fn law_missing_keys(
    rules: Rules,
    state: JoinState,
    changes: Seq<crate::chunk::Record>,
    keys: Seq<Row>,
    key: RowView,
)
    requires
        lists_missing(rules, state, changes, keys),
    ensures
        (exists|i: int| 0 <= i < keys.len() && (#[trigger] keys[i])@ == key) <==> {
            &&& forall|i: int| 0 <= i < key.len() ==> #[trigger] key[i] is Some
            &&& !(crate::keyed::has_key(state.matched, key) && at(state.matched, key).cached is Some)
            &&& exists|j: int|
                0 <= j < changes.len() && project((#[trigger] changes[j]).row, rules.update_keys)
                    == key
        },
{
    if exists|i: int| 0 <= i < keys.len() && (#[trigger] keys[i])@ == key {
        let i = choose|i: int| 0 <= i < keys.len() && (#[trigger] keys[i])@ == key;
        assert(is_missing(state, keys[i]@));
    }
    if is_missing(state, key) && exists|j: int|
        0 <= j < changes.len() && project((#[trigger] changes[j]).row, rules.update_keys) == key {
        let j = choose|j: int|
            0 <= j < changes.len() && project((#[trigger] changes[j]).row, rules.update_keys) == key;
        assert(lists_row(keys, project(changes[j].row, rules.update_keys)));
    }
    if forall|i: int| 0 <= i < key.len() ==> #[trigger] key[i] is Some {
        assert(!row_has_null(key));
    }
}

/// A join drops rows once they have matched: both inputs only grow, and on either side the join key has
/// all columns of the primary key.
pub open spec fn drops_matched(
    append_only: bool,
    pks_l: Seq<usize>,
    keys_l: Seq<usize>,
    pks_r: Seq<usize>,
    keys_r: Seq<usize>,
) -> bool {
    append_only && covered(pks_l, keys_l) && covered(pks_r, keys_r)
}

/// Rows are dropped once they have matched only where each may match but one row: the inputs only grow,
/// and rows with one join key have one primary key, on either side.
pub proof fn law_drops_matched(
    append_only: bool,
    pks_l: Seq<usize>,
    keys_l: Seq<usize>,
    pks_r: Seq<usize>,
    keys_r: Seq<usize>,
)
    ensures
        drops_matched(append_only, pks_l, keys_l, pks_r, keys_r) <==> append_only && (forall|x: usize|
         #[trigger]
            pks_l.contains(x) ==> keys_l.contains(x)) && (forall|x: usize| #[trigger]
            pks_r.contains(x) ==> keys_r.contains(x)),
{
    law_covered_indices(pks_l, keys_l);
    law_covered_indices(pks_r, keys_r);
}

} // verus!
