//! Chunks of a change stream, and the builder that cuts a run of changes into chunks.
use vstd::prelude::*;

use crate::row::{Row, RowView, pad, pad_row, place, place_row};

verus! {

/// What a change does with its row.
#[derive(Clone, Copy, Debug, PartialEq, Eq, Structural)]
pub enum Op {
    Insert,
    Delete,
    /// Takes the old version of a row out; an `UpdateInsert` brings the new one.
    UpdateDelete,
    UpdateInsert,
}

impl Op {
    /// The change adds its row, rather than taking it out.
    pub open spec fn adds(self) -> bool {
        self == Op::Insert || self == Op::UpdateInsert
    }
}

/// A change of a stream: an operation and its row.
pub struct Record {
    pub op: Op,
    pub row: RowView,
}

/// A run of changes. The changes that `visibility` marks `false` are not part of the stream.
#[derive(Debug, PartialEq, Eq)]
pub struct StreamChunk {
    pub ops: Vec<Op>,
    pub rows: Vec<Row>,
    pub visibility: Option<Vec<bool>>,
    /// The number of columns.
    pub width: usize,
}

/// The first `n` of `records` without those that `visibility` marks `false`.
pub open spec fn visible_prefix(records: Seq<Record>, visibility: Seq<bool>, n: nat) -> Seq<Record>
    decreases n,
{
    if n == 0 {
        Seq::empty()
    } else {
        let before = visible_prefix(records, visibility, (n - 1) as nat);
        if visibility[n - 1] {
            before.push(records[n - 1])
        } else {
            before
        }
    }
}

impl StreamChunk {
    /// There is one operation for each row, each row has `width` columns, and the visibility map,
    /// where there is one, has a mark for each row.
    pub open spec fn well_formed(&self) -> bool {
        &&& self.ops@.len() == self.rows@.len()
        &&& forall|i: int| 0 <= i < self.rows@.len() ==> (#[trigger] self.rows@[i])@.len() == self.width
        &&& self.visibility is Some ==> self.visibility->0@.len() == self.rows@.len()
    }

    /// The changes, hidden ones too.
    pub open spec fn records(&self) -> Seq<Record> {
        Seq::new(self.rows@.len(), |i: int| Record { op: self.ops@[i], row: self.rows@[i]@ })
    }

    /// The changes that are part of the stream.
    pub open spec fn visible(&self) -> Seq<Record> {
        match self.visibility {
            Some(v) => visible_prefix(self.records(), v@, self.rows@.len()),
            None => self.records(),
        }
    }

    /// Executable [`StreamChunk::well_formed`].
    pub fn is_well_formed(&self) -> (r: bool)
        ensures
            r == self.well_formed(),
    {
        let n: usize = self.rows.len();
        if self.ops.len() != n {
            return false;
        }
        if let Some(marks) = &self.visibility {
            if marks.len() != n {
                return false;
            }
        }
        let mut i: usize = 0;
        while i < n
            invariant
                i <= n,
                n == self.rows@.len(),
                forall|j: int| 0 <= j < i ==> (#[trigger] self.rows@[j])@.len() == self.width,
            decreases n - i,
        {
            if self.rows[i].size() != self.width {
                return false;
            }
            i = i + 1;
        }
        true
    }

    /// The same stream of changes with nothing hidden.
    pub fn compact(self) -> (r: StreamChunk)
        requires
            self.well_formed(),
        ensures
            r.well_formed(),
            r.visibility is None,
            r.width == self.width,
            r.records() == self.visible(),
    {
        let ghost records = self.records();
        let width: usize = self.width;
        let ops = self.ops;
        let rows = self.rows;
        match self.visibility {
            None => StreamChunk { ops, rows, visibility: None, width },
            Some(marks) => {
                let n: usize = rows.len();
                let mut kept_ops: Vec<Op> = Vec::new();
                let mut kept_rows: Vec<Row> = Vec::new();
                let mut i: usize = 0;
                while i < n
                    invariant
                        i <= n,
                        n == rows@.len(),
                        n == ops@.len(),
                        n == marks@.len(),
                        records.len() == n,
                        forall|j: int|
                            0 <= j < n ==> #[trigger] records[j] == (Record {
                                op: ops@[j],
                                row: rows@[j]@,
                            }),
                        forall|j: int| 0 <= j < n ==> (#[trigger] rows@[j])@.len() == width,
                        kept_ops@.len() == kept_rows@.len(),
                        forall|j: int|
                            0 <= j < kept_rows@.len() ==> (#[trigger] kept_rows@[j])@.len() == width,
                        visible_prefix(records, marks@, i as nat) == Seq::new(
                            kept_rows@.len(),
                            |j: int| Record { op: kept_ops@[j], row: kept_rows@[j]@ },
                        ),
                    decreases n - i,
                {
                    if marks[i] {
                        let ghost before = visible_prefix(records, marks@, i as nat);
                        kept_ops.push(ops[i]);
                        kept_rows.push(rows[i].clone());
                        assert(records[i as int] == (Record {
                            op: ops@[i as int],
                            row: rows@[i as int]@,
                        }));
                        assert(before.push(records[i as int]) =~= Seq::new(
                            kept_rows@.len(),
                            |j: int| Record { op: kept_ops@[j], row: kept_rows@[j]@ },
                        ));
                    }
                    i = i + 1;
                }
                let r = StreamChunk { ops: kept_ops, rows: kept_rows, visibility: None, width };
                assert(r.records() =~= visible_prefix(records, marks@, n as nat));
                r
            },
        }
    }
}

/// What has become of a run of changes on its way into chunks: the chunks issued so far, and the
/// changes that wait for their chunk to fill up.
pub struct Emission {
    pub issued: Seq<Seq<Record>>,
    pub waiting: Seq<Record>,
}

/// One more change: a chunk is issued once `limit` changes wait, but never behind an
/// `UpdateDelete`, whose `UpdateInsert` belongs into the same chunk.
pub open spec fn emit(e: Emission, limit: nat, r: Record) -> Emission {
    let waiting = e.waiting.push(r);
    if waiting.len() >= limit && r.op != Op::UpdateDelete {
        Emission { issued: e.issued.push(waiting), waiting: Seq::empty() }
    } else {
        Emission { issued: e.issued, waiting }
    }
}

/// The changes `rs`, one after the other.
pub open spec fn emit_all(e: Emission, limit: nat, rs: Seq<Record>) -> Emission
    decreases rs.len(),
{
    if rs.len() == 0 {
        e
    } else {
        emit(emit_all(e, limit, rs.drop_last()), limit, rs.last())
    }
}

/// Nothing issued and nothing waiting.
pub open spec fn no_emission() -> Emission {
    Emission { issued: Seq::empty(), waiting: Seq::empty() }
}

pub proof fn lemma_emit_all_concat(e: Emission, limit: nat, a: Seq<Record>, b: Seq<Record>)
    ensures
        emit_all(e, limit, a + b) == emit_all(emit_all(e, limit, a), limit, b),
    decreases b.len(),
{
    if b.len() == 0 {
        assert(a + b =~= a);
    } else {
        assert((a + b).drop_last() =~= a + b.drop_last());
        assert((a + b).last() == b.last());
        lemma_emit_all_concat(e, limit, a, b.drop_last());
    }
}

pub proof fn lemma_emit_one(e: Emission, limit: nat, r: Record)
    ensures
        emit_all(e, limit, seq![r]) == emit(e, limit, r),
{
    assert(seq![r].drop_last() =~= Seq::<Record>::empty());
    assert(emit_all(e, limit, Seq::<Record>::empty()) == e);
}

/// Two runs of `a_len` columns from `a` on and `b_len` columns from `b` on make up a row of `width`
/// columns, each column once.
pub open spec fn tiles(width: int, a: int, a_len: int, b: int, b_len: int) -> bool {
    &&& a_len + b_len == width
    &&& {
        ||| a == 0 && b == a_len
        ||| b == 0 && a == b_len
        ||| b_len == 0 && a == 0
        ||| a_len == 0 && b == 0
    }
}

/// Collects the changes that a join puts out, and cuts them into chunks.
pub struct StreamChunkBuilder {
    pub ops: Vec<Op>,
    pub rows: Vec<Row>,
    /// A chunk is issued once this many changes have come.
    pub limit: usize,
    /// The number of columns of the output.
    pub width: usize,
    /// The first output column of the side that the update comes from.
    pub update_start_pos: usize,
    /// The first output column of the side that is matched.
    pub matched_start_pos: usize,
}

impl StreamChunkBuilder {
    pub open spec fn well_formed(&self) -> bool {
        &&& self.ops@.len() == self.rows@.len()
        &&& forall|i: int| 0 <= i < self.rows@.len() ==> (#[trigger] self.rows@[i])@.len() == self.width
        &&& self.limit >= 1
    }

    /// The changes that wait for their chunk.
    pub open spec fn waiting(&self) -> Seq<Record> {
        Seq::new(self.rows@.len(), |i: int| Record { op: self.ops@[i], row: self.rows@[i]@ })
    }

    pub open spec fn same_layout(&self, other: &Self) -> bool {
        &&& self.limit == other.limit
        &&& self.width == other.width
        &&& self.update_start_pos == other.update_start_pos
        &&& self.matched_start_pos == other.matched_start_pos
    }

    /// `self` and the chunk `issued`, if any, are what is left of `before` and one more change.
    pub open spec fn follows(
        &self,
        before: &Self,
        record: Record,
        issued: Option<StreamChunk>,
    ) -> bool {
        &&& self.well_formed()
        &&& self.same_layout(before)
        &&& match issued {
            None => emit(
                Emission { issued: Seq::empty(), waiting: before.waiting() },
                before.limit as nat,
                record,
            ) == (Emission { issued: Seq::empty(), waiting: self.waiting() }),
            Some(chunk) => {
                &&& chunk.well_formed()
                &&& chunk.visibility is None
                &&& chunk.width == before.width
                &&& emit(
                    Emission { issued: Seq::empty(), waiting: before.waiting() },
                    before.limit as nat,
                    record,
                ) == (Emission { issued: seq![chunk.records()], waiting: self.waiting() })
            },
        }
    }

    /// A builder for chunks of at most `capacity` changes with `width` columns.
    ///
    /// One place of the `capacity` is kept free, for the `UpdateInsert` that belongs to an
    /// `UpdateDelete` in the place before it.
    pub fn new(
        capacity: usize,
        width: usize,
        update_start_pos: usize,
        matched_start_pos: usize,
    ) -> (r: Self)
        requires
            capacity >= 2,
        ensures
            r.well_formed(),
            r.waiting() == Seq::<Record>::empty(),
            r.limit == capacity - 1,
            r.width == width,
            r.update_start_pos == update_start_pos,
            r.matched_start_pos == matched_start_pos,
    {
        let r = StreamChunkBuilder {
            ops: Vec::new(),
            rows: Vec::new(),
            limit: capacity - 1,
            width,
            update_start_pos,
            matched_start_pos,
        };
        assert(r.waiting() =~= Seq::<Record>::empty());
        r
    }

    fn append(&mut self, op: Op, row: Row) -> (issued: Option<StreamChunk>)
        requires
            old(self).well_formed(),
            row@.len() == old(self).width,
        ensures
            final(self).follows(old(self), (Record { op, row: row@ }), issued),
    {
        let ghost before = *self;
        let ghost record = Record { op, row: row@ };
        self.ops.push(op);
        self.rows.push(row);
        assert(self.waiting() =~= before.waiting().push(record));
        if self.rows.len() >= self.limit && op != Op::UpdateDelete {
            let chunk = self.take();
            assert(Seq::<Seq<Record>>::empty().push(chunk.records()) =~= seq![chunk.records()]);
            Some(chunk)
        } else {
            None
        }
    }

    /// A change that joins the row of the update with a matched row.
    pub fn append_row(&mut self, op: Op, row_update: &Row, row_matched: &Row) -> (issued: Option<
        StreamChunk,
    >)
        requires
            old(self).well_formed(),
            tiles(
                old(self).width as int,
                old(self).update_start_pos as int,
                row_update@.len() as int,
                old(self).matched_start_pos as int,
                row_matched@.len() as int,
            ),
        ensures
            final(self).follows(
                old(self),
                (Record {
                    op,
                    row: place(
                        old(self).width as nat,
                        old(self).update_start_pos as int,
                        row_update@,
                        old(self).matched_start_pos as int,
                        row_matched@,
                    ),
                }),
                issued,
            ),
    {
        let row = place_row(
            self.width,
            self.update_start_pos,
            row_update,
            self.matched_start_pos,
            row_matched,
        );
        self.append(op, row)
    }

    /// A change with the row of the update, and nulls for the other side.
    pub fn append_row_update(&mut self, op: Op, row_update: &Row) -> (issued: Option<StreamChunk>)
        requires
            old(self).well_formed(),
            tiles(
                old(self).width as int,
                old(self).update_start_pos as int,
                row_update@.len() as int,
                old(self).matched_start_pos as int,
                old(self).width - row_update@.len(),
            ),
        ensures
            final(self).follows(
                old(self),
                (Record {
                    op,
                    row: pad(
                        old(self).width as nat,
                        old(self).update_start_pos as int,
                        row_update@,
                    ),
                }),
                issued,
            ),
    {
        let row = pad_row(self.width, self.update_start_pos, row_update);
        self.append(op, row)
    }

    /// A change with a matched row, and nulls for the side of the update.
    pub fn append_row_matched(&mut self, op: Op, row_matched: &Row) -> (issued: Option<StreamChunk>)
        requires
            old(self).well_formed(),
            tiles(
                old(self).width as int,
                old(self).matched_start_pos as int,
                row_matched@.len() as int,
                old(self).update_start_pos as int,
                old(self).width - row_matched@.len(),
            ),
        ensures
            final(self).follows(
                old(self),
                (Record {
                    op,
                    row: pad(
                        old(self).width as nat,
                        old(self).matched_start_pos as int,
                        row_matched@,
                    ),
                }),
                issued,
            ),
    {
        let row = pad_row(self.width, self.matched_start_pos, row_matched);
        self.append(op, row)
    }

    /// A chunk of all changes that wait, of which there may be none.
    pub fn take(&mut self) -> (chunk: StreamChunk)
        requires
            old(self).well_formed(),
        ensures
            final(self).well_formed(),
            final(self).same_layout(old(self)),
            final(self).waiting() == Seq::<Record>::empty(),
            chunk.well_formed(),
            chunk.visibility is None,
            chunk.width == old(self).width,
            chunk.records() == old(self).waiting(),
    {
        let mut ops: Vec<Op> = Vec::new();
        let mut rows: Vec<Row> = Vec::new();
        std::mem::swap(&mut ops, &mut self.ops);
        std::mem::swap(&mut rows, &mut self.rows);
        let chunk = StreamChunk { ops, rows, visibility: None, width: self.width };
        assert(chunk.records() =~= old(self).waiting());
        assert(self.waiting() =~= Seq::<Record>::empty());
        chunk
    }
}

/// An insertion and the second half of an update add their row; a deletion and the first half of an
/// update do not.
pub proof fn law_adding_ops()
    ensures
        Op::Insert.adds(),
        Op::UpdateInsert.adds(),
        !Op::Delete.adds(),
        !Op::UpdateDelete.adds(),
{
}

/// The changes of a chunk are its operations and its rows, in their order.
pub proof fn law_changes_of_chunk(chunk: StreamChunk, i: int)
    requires
        chunk.well_formed(),
        0 <= i < chunk.rows@.len(),
    ensures
        chunk.records().len() == chunk.rows@.len(),
        chunk.records()[i].op == chunk.ops@[i],
        chunk.records()[i].row == chunk.rows@[i]@,
{
}

/// The changes that are part of the stream are those that are marked, all of them, each once and in
/// their order: the result says where each of them stands. Without marks they are all changes.
pub proof fn law_visible_changes(chunk: StreamChunk) -> (at: Seq<int>)
    requires
        chunk.well_formed(),
    ensures
        chunk.visible().len() == at.len(),
        forall|k: int|
            0 <= k < at.len() ==> 0 <= #[trigger] at[k] < chunk.rows@.len() && chunk.visible()[k].op
                == chunk.ops@[at[k]] && chunk.visible()[k].row == chunk.rows@[at[k]]@,
        forall|j: int, k: int| 0 <= j < k < at.len() ==> #[trigger] at[j] < #[trigger] at[k],
        forall|i: int|
            0 <= i < chunk.rows@.len() ==> ((chunk.visibility is None
                || #[trigger] chunk.visibility->0@[i]) <==> at.contains(i)),
{
    let n = chunk.rows@.len();
    match chunk.visibility {
        None => {
            let at = Seq::new(n, |i: int| i);
            assert forall|i: int| 0 <= i < n implies at.contains(i) by {
                assert(at[i] == i);
            }
            at
        },
        Some(marks) => {
            let at = lemma_visible_prefix(chunk.records(), marks@, n);
            at
        },
    }
}

proof fn lemma_visible_prefix(records: Seq<Record>, marks: Seq<bool>, n: nat) -> (at: Seq<int>)
    requires
        n <= records.len(),
        n <= marks.len(),
    ensures
        visible_prefix(records, marks, n).len() == at.len(),
        forall|k: int|
            0 <= k < at.len() ==> 0 <= #[trigger] at[k] < n && visible_prefix(records, marks, n)[k]
                == records[at[k]],
        forall|j: int, k: int| 0 <= j < k < at.len() ==> #[trigger] at[j] < #[trigger] at[k],
        forall|i: int| 0 <= i < n ==> (#[trigger] marks[i] <==> at.contains(i)),
    decreases n,
{
    if n == 0 {
        Seq::empty()
    } else {
        let before = lemma_visible_prefix(records, marks, (n - 1) as nat);
        if marks[n - 1] {
            let at = before.push(n - 1);
            assert forall|i: int| 0 <= i < n implies (#[trigger] marks[i] <==> at.contains(i)) by {
                if i < n - 1 {
                    if before.contains(i) {
                        let k = choose|k: int| 0 <= k < before.len() && before[k] == i;
                        assert(at[k] == i);
                    }
                    if at.contains(i) {
                        let k = choose|k: int| 0 <= k < at.len() && at[k] == i;
                        assert(before[k] == i);
                    }
                } else {
                    assert(at[before.len() as int] == i);
                }
            }
            at
        } else {
            assert forall|i: int| 0 <= i < n implies (#[trigger] marks[i] <==> before.contains(i)) by {
                if i == n - 1 && before.contains(i) {
                    let k = choose|k: int| 0 <= k < before.len() && before[k] == i;
                    assert(before[k] < n - 1);
                }
            }
            before
        }
    }
}

} // verus!
