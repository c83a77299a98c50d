//! The changes that a join puts out for a row of one side and the rows of the other side.
use vstd::prelude::*;

use crate::JoinType;
use crate::SideType;
use crate::chunk::{
    Emission, Op, Record, StreamChunk, StreamChunkBuilder, emit, emit_all, lemma_emit_one, tiles,
};
use crate::join_kind::{
    anti, forward_exactly_once, is_anti, is_outer_side, is_semi, kept_side, only_forward_matched_side,
    other_side_kept, other_side_outer, outer_side, outer_side_null, semi,
};
use crate::join_state::{JoinRow, JoinRowView};
use crate::row::{Row, RowView, pad, place};

verus! {

/// Where the rows of both sides stand in the output of a join, seen from the side that an update
/// comes from.
pub struct Layout {
    pub join_type: u8,
    pub side: u8,
    /// The number of columns of the output.
    pub width: nat,
    pub update_pos: int,
    pub update_width: nat,
    pub matched_pos: int,
    pub matched_width: nat,
}

impl Layout {
    /// The output of a semi or anti join has the columns of the side that it keeps; that of any
    /// other join the columns of both sides.
    pub open spec fn well_formed(self) -> bool {
        if semi(self.join_type) || anti(self.join_type) {
            &&& self.update_pos == 0
            &&& self.matched_pos == 0
            &&& kept_side(self.join_type, self.side) ==> self.width == self.update_width
            &&& other_side_kept(self.join_type, self.side) ==> self.width == self.matched_width
        } else {
            tiles(
                self.width as int,
                self.update_pos,
                self.update_width as int,
                self.matched_pos,
                self.matched_width as int,
            )
        }
    }

    /// An output row made of a row of the updated side and one of the other side.
    pub open spec fn both(self, update: RowView, matched: RowView) -> RowView {
        place(self.width, self.update_pos, update, self.matched_pos, matched)
    }

    /// An output row made of a row of the updated side alone.
    pub open spec fn only_update(self, update: RowView) -> RowView {
        pad(self.width, self.update_pos, update)
    }

    /// An output row made of a row of the other side alone.
    pub open spec fn only_matched(self, matched: RowView) -> RowView {
        pad(self.width, self.matched_pos, matched)
    }

    /// What a new row `row` brings about through one row that it matches, as the latter was before.
    pub open spec fn match_on_insert(self, row: RowView, matched: JoinRowView) -> Seq<Record> {
        let first = matched.degree == 0;
        if anti(self.join_type) {
            if first && other_side_kept(self.join_type, self.side) {
                seq![Record { op: Op::Delete, row: self.only_matched(matched.row) }]
            } else {
                Seq::empty()
            }
        } else if semi(self.join_type) {
            if first && other_side_kept(self.join_type, self.side) {
                seq![Record { op: Op::Insert, row: self.only_matched(matched.row) }]
            } else {
                Seq::empty()
            }
        } else if first && other_side_outer(self.join_type, self.side) {
            seq![
                Record { op: Op::UpdateDelete, row: self.only_matched(matched.row) },
                Record { op: Op::UpdateInsert, row: self.both(row, matched.row) },
            ]
        } else {
            seq![Record { op: Op::Insert, row: self.both(row, matched.row) }]
        }
    }

    /// What the removal of `row` brings about through one row that it matched, as the latter is
    /// afterwards.
    pub open spec fn match_on_delete(self, row: RowView, matched: JoinRowView) -> Seq<Record> {
        let last = matched.degree == 0;
        if anti(self.join_type) {
            if last && other_side_kept(self.join_type, self.side) {
                seq![Record { op: Op::Insert, row: self.only_matched(matched.row) }]
            } else {
                Seq::empty()
            }
        } else if semi(self.join_type) {
            if last && other_side_kept(self.join_type, self.side) {
                seq![Record { op: Op::Delete, row: self.only_matched(matched.row) }]
            } else {
                Seq::empty()
            }
        } else if last && other_side_outer(self.join_type, self.side) {
            seq![
                Record { op: Op::UpdateDelete, row: self.both(row, matched.row) },
                Record { op: Op::UpdateInsert, row: self.only_matched(matched.row) },
            ]
        } else {
            seq![Record { op: Op::Delete, row: self.both(row, matched.row) }]
        }
    }

    /// What a change of a row that matches something brings about by itself.
    pub open spec fn if_matched(self, op: Op, row: RowView) -> Seq<Record> {
        if semi(self.join_type) && kept_side(self.join_type, self.side) {
            seq![Record { op, row: self.only_update(row) }]
        } else {
            Seq::empty()
        }
    }

    /// What a change of a row that matches nothing brings about.
    pub open spec fn if_not_matched(self, op: Op, row: RowView) -> Seq<Record> {
        if anti(self.join_type) && kept_side(self.join_type, self.side) || outer_side(
            self.join_type,
            self.side,
        ) {
            seq![Record { op, row: self.only_update(row) }]
        } else {
            Seq::empty()
        }
    }
}

/// Chunks by the changes they hold.
pub open spec fn chunk_records(chunks: Seq<StreamChunk>) -> Seq<Seq<Record>> {
    Seq::new(chunks.len(), |i: int| chunks[i].records())
}

/// Each chunk is well-formed, hides nothing and has `width` columns.
pub open spec fn chunks_fit(chunks: Seq<StreamChunk>, width: nat) -> bool {
    forall|i: int|
        0 <= i < chunks.len() ==> (#[trigger] chunks[i]).well_formed() && chunks[i].visibility is None
            && chunks[i].width == width
}

/// An optional chunk as a list.
pub open spec fn as_list(chunk: Option<StreamChunk>) -> Seq<StreamChunk> {
    match chunk {
        Some(c) => seq![c],
        None => Seq::empty(),
    }
}

/// What was issued before a run of changes does not bear on what the run issues.
pub proof fn lemma_emit_issued(issued: Seq<Seq<Record>>, waiting: Seq<Record>, limit: nat, rs: Seq<Record>)
    ensures
        ({
            let alone = emit_all(Emission { issued: Seq::empty(), waiting }, limit, rs);
            emit_all(Emission { issued, waiting }, limit, rs) == (Emission {
                issued: issued + alone.issued,
                waiting: alone.waiting,
            })
        }),
    decreases rs.len(),
{
    if rs.len() == 0 {
        assert(issued + Seq::<Seq<Record>>::empty() =~= issued);
    } else {
        lemma_emit_issued(issued, waiting, limit, rs.drop_last());
        let before = emit_all(Emission { issued: Seq::empty(), waiting }, limit, rs.drop_last());
        let w = before.waiting.push(rs.last());
        assert(issued + before.issued.push(w) =~= (issued + before.issued).push(w));
    }
}

/// Builds the chunks that a join of type `T` puts out for the updates of the side `SIDE`.
pub struct HashJoinChunkBuilder<const T: u8, const SIDE: u8> {
    pub stream_chunk_builder: StreamChunkBuilder,
}

impl<const T: u8, const SIDE: u8> HashJoinChunkBuilder<T, SIDE> {
    /// The layout of the output, for rows of these widths.
    pub open spec fn layout(&self, update_width: nat, matched_width: nat) -> Layout {
        Layout {
            join_type: T,
            side: SIDE,
            width: self.stream_chunk_builder.width as nat,
            update_pos: self.stream_chunk_builder.update_start_pos as int,
            update_width,
            matched_pos: self.stream_chunk_builder.matched_start_pos as int,
            matched_width,
        }
    }

    pub open spec fn waiting(&self) -> Seq<Record> {
        self.stream_chunk_builder.waiting()
    }

    pub open spec fn limit(&self) -> nat {
        self.stream_chunk_builder.limit as nat
    }

    /// `self` and the chunk `issued`, if any, are what is left of `before` and the changes `records`.
    pub open spec fn follows(
        &self,
        before: &Self,
        records: Seq<Record>,
        issued: Option<StreamChunk>,
    ) -> bool {
        &&& self.stream_chunk_builder.well_formed()
        &&& self.stream_chunk_builder.same_layout(&before.stream_chunk_builder)
        &&& chunks_fit(as_list(issued), before.stream_chunk_builder.width as nat)
        &&& emit_all(
            Emission { issued: Seq::empty(), waiting: before.waiting() },
            before.limit(),
            records,
        ) == (Emission { issued: chunk_records(as_list(issued)), waiting: self.waiting() })
    }

    proof fn lemma_follows_none(&self)
        requires
            self.stream_chunk_builder.well_formed(),
        ensures
            self.follows(self, Seq::empty(), None),
    {
        assert(chunk_records(as_list(None)) =~= Seq::empty());
    }

    proof fn lemma_follows_one(&self, before: &Self, record: Record, issued: Option<StreamChunk>)
        requires
            self.stream_chunk_builder.follows(&before.stream_chunk_builder, record, issued),
        ensures
            self.follows(before, seq![record], issued),
    {
        lemma_emit_one(
            Emission { issued: Seq::empty(), waiting: before.waiting() },
            before.limit(),
            record,
        );
        match issued {
            Some(c) => assert(chunk_records(as_list(issued)) =~= seq![c.records()]),
            None => assert(chunk_records(as_list(issued)) =~= Seq::empty()),
        }
    }

    proof fn lemma_follows_two(
        &self,
        middle: &Self,
        before: &Self,
        first: Record,
        second: Record,
        issued: Option<StreamChunk>,
    )
        requires
            middle.stream_chunk_builder.follows(&before.stream_chunk_builder, first, None),
            self.stream_chunk_builder.follows(&middle.stream_chunk_builder, second, issued),
        ensures
            self.follows(before, seq![first, second], issued),
    {
        let start = Emission { issued: Seq::<Seq<Record>>::empty(), waiting: before.waiting() };
        self.lemma_follows_one(middle, second, issued);
        lemma_emit_one(start, before.limit(), first);
        assert(seq![first, second].drop_last() =~= seq![first]);
        lemma_emit_one(emit(start, before.limit(), first), before.limit(), second);
    }

    /// The changes for one row that a new row matches. Of the matched row, the degree is that before
    /// the new row came.
    pub fn with_match_on_insert(&mut self, row: &Row, matched_row: &JoinRow) -> (issued: Option<
        StreamChunk,
    >)
        requires
            old(self).stream_chunk_builder.well_formed(),
            old(self).layout(row@.len(), matched_row@.row.len()).well_formed(),
        ensures
            final(self).follows(
                old(self),
                old(self).layout(row@.len(), matched_row@.row.len()).match_on_insert(
                    row@,
                    matched_row@,
                ),
                issued,
            ),
    {
        let ghost layout = self.layout(row@.len(), matched_row@.row.len());
        let ghost before = *self;
        if is_anti(T) {
            if matched_row.is_zero_degree() && only_forward_matched_side(T, SIDE) {
                let issued = self.stream_chunk_builder.append_row_matched(
                    Op::Delete,
                    &matched_row.row,
                );
                proof {
                    let record = Record { op: Op::Delete, row: layout.only_matched(matched_row@.row) };
                    self.lemma_follows_one(&before, record, issued);
                }
                issued
            } else {
                proof {
                    self.lemma_follows_none();
                }
                None
            }
        } else if is_semi(T) {
            if matched_row.is_zero_degree() && only_forward_matched_side(T, SIDE) {
                let issued = self.stream_chunk_builder.append_row_matched(
                    Op::Insert,
                    &matched_row.row,
                );
                proof {
                    let record = Record { op: Op::Insert, row: layout.only_matched(matched_row@.row) };
                    self.lemma_follows_one(&before, record, issued);
                }
                issued
            } else {
                proof {
                    self.lemma_follows_none();
                }
                None
            }
        } else if matched_row.is_zero_degree() && outer_side_null(T, SIDE) {
            // An `UpdateDelete` never issues a chunk.
            let none = self.stream_chunk_builder.append_row_matched(
                Op::UpdateDelete,
                &matched_row.row,
            );
            let ghost middle = *self;
            let issued = self.stream_chunk_builder.append_row(
                Op::UpdateInsert,
                row,
                &matched_row.row,
            );
            proof {
                if none is Some {
                    assert(seq![none->0.records()].len() == 1);
                }
                self.lemma_follows_two(
                    &middle,
                    &before,
                    Record { op: Op::UpdateDelete, row: layout.only_matched(matched_row@.row) },
                    Record { op: Op::UpdateInsert, row: layout.both(row@, matched_row@.row) },
                    issued,
                );
            }
            issued
        } else {
            let issued = self.stream_chunk_builder.append_row(Op::Insert, row, &matched_row.row);
            proof {
                let record = Record { op: Op::Insert, row: layout.both(row@, matched_row@.row) };
                self.lemma_follows_one(&before, record, issued);
            }
            issued
        }
    }

    /// The changes for one row that a removed row matched. Of the matched row, the degree is that
    /// after the removal.
    pub fn with_match_on_delete(&mut self, row: &Row, matched_row: &JoinRow) -> (issued: Option<
        StreamChunk,
    >)
        requires
            old(self).stream_chunk_builder.well_formed(),
            old(self).layout(row@.len(), matched_row@.row.len()).well_formed(),
        ensures
            final(self).follows(
                old(self),
                old(self).layout(row@.len(), matched_row@.row.len()).match_on_delete(
                    row@,
                    matched_row@,
                ),
                issued,
            ),
    {
        let ghost layout = self.layout(row@.len(), matched_row@.row.len());
        let ghost before = *self;
        if is_anti(T) {
            if matched_row.is_zero_degree() && only_forward_matched_side(T, SIDE) {
                let issued = self.stream_chunk_builder.append_row_matched(
                    Op::Insert,
                    &matched_row.row,
                );
                proof {
                    let record = Record { op: Op::Insert, row: layout.only_matched(matched_row@.row) };
                    self.lemma_follows_one(&before, record, issued);
                }
                issued
            } else {
                proof {
                    self.lemma_follows_none();
                }
                None
            }
        } else if is_semi(T) {
            if matched_row.is_zero_degree() && only_forward_matched_side(T, SIDE) {
                let issued = self.stream_chunk_builder.append_row_matched(
                    Op::Delete,
                    &matched_row.row,
                );
                proof {
                    let record = Record { op: Op::Delete, row: layout.only_matched(matched_row@.row) };
                    self.lemma_follows_one(&before, record, issued);
                }
                issued
            } else {
                proof {
                    self.lemma_follows_none();
                }
                None
            }
        } else if matched_row.is_zero_degree() && outer_side_null(T, SIDE) {
            // The pair gives way to the matched row alone; an `UpdateDelete` never issues a chunk.
            let none = self.stream_chunk_builder.append_row(
                Op::UpdateDelete,
                row,
                &matched_row.row,
            );
            let ghost middle = *self;
            let issued = self.stream_chunk_builder.append_row_matched(
                Op::UpdateInsert,
                &matched_row.row,
            );
            proof {
                if none is Some {
                    assert(seq![none->0.records()].len() == 1);
                }
                self.lemma_follows_two(
                    &middle,
                    &before,
                    Record { op: Op::UpdateDelete, row: layout.both(row@, matched_row@.row) },
                    Record { op: Op::UpdateInsert, row: layout.only_matched(matched_row@.row) },
                    issued,
                );
            }
            issued
        } else {
            // Always a `Delete`: an `UpdateDelete` would ask for an `UpdateInsert` behind it.
            let issued = self.stream_chunk_builder.append_row(Op::Delete, row, &matched_row.row);
            proof {
                let record = Record { op: Op::Delete, row: layout.both(row@, matched_row@.row) };
                self.lemma_follows_one(&before, record, issued);
            }
            issued
        }
    }

    /// The change of a row that matches something, where a semi join keeps the side of the row.
    pub fn forward_exactly_once_if_matched(&mut self, op: Op, row: &Row) -> (issued: Option<
        StreamChunk,
    >)
        requires
            old(self).stream_chunk_builder.well_formed(),
            exists|matched_width: nat|
                (#[trigger] old(self).layout(row@.len(), matched_width)).well_formed(),
        ensures
            final(self).follows(
                old(self),
                old(self).layout(row@.len(), 0).if_matched(op, row@),
                issued,
            ),
    {
        let ghost layout = self.layout(row@.len(), 0);
        let ghost before = *self;
        if is_semi(T) && forward_exactly_once(T, SIDE) {
            let issued = self.stream_chunk_builder.append_row_update(op, row);
            proof {
                self.lemma_follows_one(&before, Record { op, row: layout.only_update(row@) }, issued);
            }
            issued
        } else {
            proof {
                self.lemma_follows_none();
            }
            None
        }
    }

    /// The change of a row that matches nothing, where the join keeps such rows of this side.
    pub fn forward_if_not_matched(&mut self, op: Op, row: &Row) -> (issued: Option<StreamChunk>)
        requires
            old(self).stream_chunk_builder.well_formed(),
            exists|matched_width: nat|
                (#[trigger] old(self).layout(row@.len(), matched_width)).well_formed(),
        ensures
            final(self).follows(
                old(self),
                old(self).layout(row@.len(), 0).if_not_matched(op, row@),
                issued,
            ),
    {
        let ghost layout = self.layout(row@.len(), 0);
        let ghost before = *self;
        if (is_anti(T) && forward_exactly_once(T, SIDE)) || is_outer_side(T, SIDE) {
            let issued = self.stream_chunk_builder.append_row_update(op, row);
            proof {
                self.lemma_follows_one(&before, Record { op, row: layout.only_update(row@) }, issued);
            }
            issued
        } else {
            proof {
                self.lemma_follows_none();
            }
            None
        }
    }

    /// A chunk of all changes that wait, of which there may be none.
    pub fn take(&mut self) -> (chunk: StreamChunk)
        requires
            old(self).stream_chunk_builder.well_formed(),
        ensures
            final(self).stream_chunk_builder.well_formed(),
            final(self).stream_chunk_builder.same_layout(&old(self).stream_chunk_builder),
            final(self).waiting() == Seq::<Record>::empty(),
            chunk.well_formed(),
            chunk.visibility is None,
            chunk.width == old(self).stream_chunk_builder.width,
            chunk.records() == old(self).waiting(),
    {
        self.stream_chunk_builder.take()
    }
}

/// What a new row puts out through a row of the other side that it matches. An inner or outer join puts
/// out the pair: as an insertion, or, where it preserves the other side and the matched row was alone so
/// far, as an update that takes the matched row alone out. A semi join puts out the matched row where it
/// keeps the other side and the row was alone so far; an anti join takes it out.
pub proof fn law_new_match(layout: Layout, row: RowView, matched: JoinRowView)
    requires
        layout.side <= 1,
    ensures
        ({
            let t = layout.join_type;
            let from_left = layout.side == SideType::Left;
            let out = layout.match_on_insert(row, matched);
            if t == JoinType::LeftSemi || t == JoinType::RightSemi {
                if matched.degree == 0 && (t == JoinType::LeftSemi) != from_left {
                    out == seq![Record { op: Op::Insert, row: layout.only_matched(matched.row) }]
                } else {
                    out.len() == 0
                }
            } else if t == JoinType::LeftAnti || t == JoinType::RightAnti {
                if matched.degree == 0 && (t == JoinType::LeftAnti) != from_left {
                    out == seq![Record { op: Op::Delete, row: layout.only_matched(matched.row) }]
                } else {
                    out.len() == 0
                }
            } else if matched.degree == 0 && (t == JoinType::FullOuter || t == JoinType::LeftOuter
                && !from_left || t == JoinType::RightOuter && from_left) {
                &&& out.len() == 2
                &&& out[0].op == Op::UpdateDelete
                &&& out[0].row == layout.only_matched(matched.row)
                &&& out[1].op == Op::UpdateInsert
                &&& out[1].row == layout.both(row, matched.row)
            } else {
                out == seq![Record { op: Op::Insert, row: layout.both(row, matched.row) }]
            }
        }),
{
}

/// What the removal of a row puts out through a row of the other side that it matched is what its coming
/// put out, undone: what was put in is taken out and the other way round, in the opposite order.
pub proof fn law_match_undone(layout: Layout, row: RowView, matched: JoinRowView)
    ensures
        ({
            let came = layout.match_on_insert(row, matched);
            let left = layout.match_on_delete(row, matched);
            &&& left.len() == came.len()
            &&& forall|i: int|
                0 <= i < left.len() ==> (#[trigger] left[i]).row == came[left.len() - 1 - i].row
                    && left[i].op == (match came[left.len() - 1 - i].op {
                    Op::Insert => Op::Delete,
                    Op::Delete => Op::Insert,
                    Op::UpdateInsert => Op::UpdateDelete,
                    Op::UpdateDelete => Op::UpdateInsert,
                })
        }),
{
}

/// A change is itself put out with its own operation: where it matches something and a semi join keeps
/// its side; and where it matches nothing and an anti join keeps its side or an outer join preserves it.
pub proof fn law_change_put_out(layout: Layout, op: Op, row: RowView)
    requires
        layout.side <= 1,
    ensures
        ({
            let t = layout.join_type;
            let from_left = layout.side == SideType::Left;
            let itself = seq![Record { op, row: layout.only_update(row) }];
            let semi_keeps = t == JoinType::LeftSemi && from_left || t == JoinType::RightSemi
                && !from_left;
            let anti_keeps = t == JoinType::LeftAnti && from_left || t == JoinType::RightAnti
                && !from_left;
            let preserves = t == JoinType::FullOuter || t == JoinType::LeftOuter && from_left || t
                == JoinType::RightOuter && !from_left;
            &&& semi_keeps ==> layout.if_matched(op, row) == itself
            &&& !semi_keeps ==> layout.if_matched(op, row).len() == 0
            &&& anti_keeps || preserves ==> layout.if_not_matched(op, row) == itself
            &&& !anti_keeps && !preserves ==> layout.if_not_matched(op, row).len() == 0
        }),
{
}

/// Chunks hold the changes of each of them, chunk by chunk.
pub proof fn law_changes_by_chunk(chunks: Seq<StreamChunk>, i: int)
    requires
        0 <= i < chunks.len(),
    ensures
        chunk_records(chunks).len() == chunks.len(),
        chunk_records(chunks)[i] == chunks[i].records(),
        chunk_records(chunks)[i].len() == chunks[i].rows@.len(),
{
}

} // verus!
