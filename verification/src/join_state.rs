//! The rows that one side of a join keeps: in memory, on their way to the state store, or there.
use vstd::prelude::*;

use crate::keyed::{
    KeyedList, at, distinct, has_key, lemma_at_index, lemma_distinct_prefix, lemma_put_last,
    lemma_set_at, lemma_without, pair_views, pos, put_last, set_at, to_map, without,
};
use crate::recency::{
    RecencyMap, lemma_live_at, lemma_live_slot, lemma_next_pair, pair_view, rank,
};
use crate::row::{Row, RowView, indices_below, project};

verus! {

/// The model of a [`JoinRow`].
pub struct JoinRowView {
    pub row: RowView,
    pub degree: nat,
}

/// A row of one side of a join, with the number of rows of the other side that match it.
#[derive(Debug, PartialEq, Eq)]
pub struct JoinRow {
    pub row: Row,
    pub degree: u64,
}

impl View for JoinRow {
    type V = JoinRowView;

    open spec fn view(&self) -> JoinRowView {
        JoinRowView { row: self.row@, degree: self.degree as nat }
    }
}

impl JoinRow {
    pub fn new(row: Row, degree: u64) -> (r: Self)
        ensures
            r@ == (JoinRowView { row: row@, degree: degree as nat }),
    {
        JoinRow { row, degree }
    }

    pub fn is_zero_degree(&self) -> (r: bool)
        ensures
            r == (self@.degree == 0),
    {
        self.degree == 0
    }

    /// One more row of the other side matches.
    pub fn inc_degree(&mut self)
        requires
            old(self).degree < u64::MAX,
        ensures
            final(self)@ == (JoinRowView { degree: old(self)@.degree + 1, ..old(self)@ }),
    {
        self.degree = self.degree + 1;
    }

    /// One row of the other side matches no longer. Fails where none did.
    pub fn dec_degree(&mut self) -> (r: Result<(), ()>)
        ensures
            r is Err == (old(self)@.degree == 0),
            r is Err ==> final(self)@ == old(self)@,
            r is Ok ==> final(self)@ == (JoinRowView {
                degree: (old(self)@.degree - 1) as nat,
                ..old(self)@
            }),
    {
        if self.degree == 0 {
            Err(())
        } else {
            self.degree = self.degree - 1;
            Ok(())
        }
    }

    pub fn row_by_indices(&self, indices: &Vec<usize>) -> (r: Row)
        requires
            indices_below(indices@, self@.row.len() as int),
        ensures
            r@ == project(self@.row, indices@),
    {
        self.row.row_by_indices(indices)
    }

    pub fn copy(&self) -> (r: Self)
        ensures
            r@ == self@,
    {
        JoinRow { row: self.row.clone(), degree: self.degree }
    }
}

/// What is to become of a row in the state store.
#[derive(Debug, PartialEq, Eq)]
pub enum Pending {
    Put(JoinRow),
    Delete,
}

impl View for Pending {
    type V = Option<JoinRowView>;

    open spec fn view(&self) -> Option<JoinRowView> {
        match self {
            Pending::Put(row) => Some(row@),
            Pending::Delete => None,
        }
    }
}

/// Rows under their primary keys.
pub type RowsView = Seq<(RowView, JoinRowView)>;

/// The last write to each primary key since the last flush; `None` for a deletion.
pub type PendingView = Seq<(RowView, Option<JoinRowView>)>;

/// The model of a [`JoinEntryState`].
pub struct EntryView {
    pub cached: Option<RowsView>,
    pub pending: PendingView,
}

/// `rows` after one write.
pub open spec fn apply_pending(rows: RowsView, write: (RowView, Option<JoinRowView>)) -> RowsView {
    match write.1 {
        Some(row) => set_at(rows, write.0, row),
        None => without(rows, write.0),
    }
}

/// `rows` after all of `pending`, one after the other.
pub open spec fn overlay(rows: RowsView, pending: PendingView) -> RowsView
    decreases pending.len(),
{
    if pending.len() == 0 {
        rows
    } else {
        apply_pending(overlay(rows, pending.drop_last()), pending.last())
    }
}

/// The rows of `base` with those that `pending` writes in their place.
pub open spec fn merged(base: Map<RowView, JoinRowView>, pending: PendingView) -> Map<
    RowView,
    JoinRowView,
> {
    Map::new(
        |pk: RowView|
            if has_key(pending, pk) {
                at(pending, pk) is Some
            } else {
                base.contains_key(pk)
            },
        |pk: RowView|
            if has_key(pending, pk) {
                at(pending, pk)->0
            } else {
                base[pk]
            },
    )
}

pub proof fn lemma_overlay(rows: RowsView, pending: PendingView)
    requires
        distinct(rows),
        distinct(pending),
    ensures
        distinct(overlay(rows, pending)),
        to_map(overlay(rows, pending)) == merged(to_map(rows), pending),
    decreases pending.len(),
{
    if pending.len() == 0 {
        assert(merged(to_map(rows), pending) =~= to_map(rows));
    } else {
        let before = overlay(rows, pending.drop_last());
        let pk = pending.last().0;
        lemma_distinct_prefix(pending);
        lemma_overlay(rows, pending.drop_last());
        match pending.last().1 {
            Some(row) => lemma_set_at(before, pk, row),
            None => lemma_without(before, pk),
        }
        let earlier = to_map(pending.drop_last());
        assert(to_map(pending) == earlier.insert(pk, pending.last().1));
        assert forall|x: RowView| has_key(pending, x) == (x == pk || has_key(
            pending.drop_last(),
            x,
        )) by {
            assert(to_map(pending).contains_key(x) == earlier.insert(
                pk,
                pending.last().1,
            ).contains_key(x));
        }
        assert forall|x: RowView| has_key(pending, x) implies at(pending, x) == (if x == pk {
            pending.last().1
        } else {
            at(pending.drop_last(), x)
        }) by {
            assert(to_map(pending)[x] == earlier.insert(pk, pending.last().1)[x]);
        }
        assert(to_map(overlay(rows, pending)) =~= merged(to_map(rows), pending));
    }
}

/// The rows of one side under one join key.
///
/// The rows are all in memory (`cached`), or only the writes since the last flush are.
pub struct JoinEntryState {
    pub cached: Option<KeyedList<JoinRow>>,
    pub pending: KeyedList<Pending>,
}

impl View for JoinEntryState {
    type V = EntryView;

    open spec fn view(&self) -> EntryView {
        EntryView {
            cached: match self.cached {
                Some(rows) => Some(rows@),
                None => None,
            },
            pending: self.pending@,
        }
    }
}

impl EntryView {
    /// No primary key occurs twice.
    pub open spec fn well_formed(self) -> bool {
        &&& distinct(self.pending)
        &&& self.cached is Some ==> distinct(self.cached->0)
    }

    /// Nothing is known of the rows, and nothing is to be written.
    pub open spec fn unknown() -> EntryView {
        EntryView { cached: None, pending: Seq::empty() }
    }

    /// The entry with `row` under the primary key `pk`.
    pub open spec fn insert(self, pk: RowView, row: JoinRowView) -> EntryView {
        EntryView {
            cached: match self.cached {
                Some(rows) => Some(set_at(rows, pk, row)),
                None => None,
            },
            pending: set_at(self.pending, pk, Some(row)),
        }
    }

    /// The entry without a row under the primary key `pk`.
    pub open spec fn remove(self, pk: RowView) -> EntryView {
        EntryView {
            cached: match self.cached {
                Some(rows) => Some(without(rows, pk)),
                None => None,
            },
            pending: set_at(self.pending, pk, None),
        }
    }

    /// The entry with another degree for the cached row at position `i`.
    pub open spec fn set_degree(self, i: int, degree: nat) -> EntryView {
        let pk = self.cached->0[i].0;
        let row = JoinRowView { degree, ..self.cached->0[i].1 };
        EntryView {
            cached: Some(self.cached->0.update(i, (pk, row))),
            pending: set_at(self.pending, pk, Some(row)),
        }
    }

    /// The entry once the rows `base` have come from the state store.
    pub open spec fn with_cache(self, base: RowsView) -> EntryView {
        EntryView { cached: Some(overlay(base, self.pending)), pending: self.pending }
    }

    /// The rows, where the state store holds `base`.
    pub open spec fn content(self, base: Map<RowView, JoinRowView>) -> Map<RowView, JoinRowView> {
        match self.cached {
            Some(rows) => to_map(rows),
            None => merged(base, self.pending),
        }
    }

    /// What is in memory agrees with the state store, where that holds `base`.
    pub open spec fn tracks(self, base: Map<RowView, JoinRowView>) -> bool {
        self.cached is Some ==> to_map(self.cached->0) == merged(base, self.pending)
    }
}

/// A write since the last flush counts for more than what the state store holds.
pub proof fn lemma_merged_write(
    base: Map<RowView, JoinRowView>,
    pending: PendingView,
    pk: RowView,
    row: Option<JoinRowView>,
)
    requires
        distinct(pending),
    ensures
        merged(base, set_at(pending, pk, row)) == (match row {
            Some(r) => merged(base, pending).insert(pk, r),
            None => merged(base, pending).remove(pk),
        }),
{
    lemma_set_at(pending, pk, row);
    let t = set_at(pending, pk, row);
    assert forall|x: RowView| has_key(t, x) == (x == pk || has_key(pending, x)) by {
        assert(to_map(t).contains_key(x) == to_map(pending).insert(pk, row).contains_key(x));
    }
    assert forall|x: RowView| has_key(t, x) implies at(t, x) == (if x == pk {
        row
    } else {
        at(pending, x)
    }) by {
        assert(to_map(t)[x] == to_map(pending).insert(pk, row)[x]);
    }
    let m = merged(base, t);
    match row {
        Some(r) => assert(m =~= merged(base, pending).insert(pk, r)),
        None => assert(m =~= merged(base, pending).remove(pk)),
    }
}

/// The rows of an entry after a write to it, whether or not they are in memory.
pub proof fn lemma_content_write(
    entry: EntryView,
    base: Map<RowView, JoinRowView>,
    pk: RowView,
    row: JoinRowView,
)
    requires
        entry.well_formed(),
    ensures
        entry.insert(pk, row).content(base) == entry.content(base).insert(pk, row),
        entry.remove(pk).content(base) == entry.content(base).remove(pk),
        entry.tracks(base) ==> entry.insert(pk, row).tracks(base) && entry.remove(pk).tracks(base),
{
    lemma_merged_write(base, entry.pending, pk, Some(row));
    lemma_merged_write(base, entry.pending, pk, None);
    if entry.cached is Some {
        lemma_set_at(entry.cached->0, pk, row);
        lemma_without(entry.cached->0, pk);
    }
}

/// The rows of an entry, written or to be written, have `width` columns.
pub open spec fn entry_fits(entry: EntryView, width: nat) -> bool {
    &&& entry.cached is Some ==> rows_fit(entry.cached->0, width)
    &&& forall|i: int|
        0 <= i < entry.pending.len() && (#[trigger] entry.pending[i]).1 is Some
            ==> entry.pending[i].1->0.row.len() == width
}

pub open spec fn rows_fit(rows: RowsView, width: nat) -> bool {
    forall|i: int| 0 <= i < rows.len() ==> (#[trigger] rows[i]).1.row.len() == width
}

pub proof fn lemma_overlay_fits(rows: RowsView, pending: PendingView, width: nat)
    requires
        rows_fit(rows, width),
        forall|i: int|
            0 <= i < pending.len() && (#[trigger] pending[i]).1 is Some
                ==> pending[i].1->0.row.len() == width,
    ensures
        rows_fit(overlay(rows, pending), width),
    decreases pending.len(),
{
    if pending.len() > 0 {
        let before = overlay(rows, pending.drop_last());
        assert forall|i: int|
            0 <= i < pending.drop_last().len() && (
            #[trigger] pending.drop_last()[i]).1 is Some implies pending.drop_last()[i].1->0.row.len()
            == width by {
            assert(pending.drop_last()[i] == pending[i]);
        }
        lemma_overlay_fits(rows, pending.drop_last(), width);
        assert(pending.last() == pending[pending.len() - 1]);
        lemma_apply_fits(before, pending.last(), width);
    }
}

proof fn lemma_apply_fits(rows: RowsView, write: (RowView, Option<JoinRowView>), width: nat)
    requires
        rows_fit(rows, width),
        write.1 is Some ==> write.1->0.row.len() == width,
    ensures
        rows_fit(apply_pending(rows, write), width),
{
    let t = apply_pending(rows, write);
    assert forall|i: int| 0 <= i < t.len() implies (#[trigger] t[i]).1.row.len() == width by {
        match write.1 {
            Some(row) => {
                if i < rows.len() {
                    assert(rows[i].1.row.len() == width);
                }
            },
            None => {
                if has_key(rows, write.0) {
                    let p = pos(rows, write.0);
                    assert(t[i] == rows[if i < p { i } else { i + 1 }]);
                }
            },
        }
    }
}

proof fn lemma_pending_fits(pending: PendingView, pk: RowView, row: Option<JoinRowView>, width: nat)
    requires
        forall|i: int|
            0 <= i < pending.len() && (#[trigger] pending[i]).1 is Some
                ==> pending[i].1->0.row.len() == width,
        row is Some ==> row->0.row.len() == width,
    ensures
        ({
            let t = set_at(pending, pk, row);
            forall|i: int|
                0 <= i < t.len() && (#[trigger] t[i]).1 is Some ==> t[i].1->0.row.len() == width
        }),
{
    let t = set_at(pending, pk, row);
    assert forall|i: int| 0 <= i < t.len() && (#[trigger] t[i]).1 is Some implies t[i].1->0.row.len()
        == width by {
        if i < pending.len() {
            assert(t[i] == pending[i] || t[i] == (pk, row));
        }
    }
}

pub proof fn lemma_entry_fits(entry: EntryView, pk: RowView, row: JoinRowView, width: nat)
    requires
        entry_fits(entry, width),
    ensures
        row.row.len() == width ==> entry_fits(entry.insert(pk, row), width),
        entry_fits(entry.remove(pk), width),
{
    if row.row.len() == width {
        lemma_pending_fits(entry.pending, pk, Some(row), width);
        if entry.cached is Some {
            lemma_apply_fits(entry.cached->0, (pk, Some(row)), width);
        }
    }
    lemma_pending_fits(entry.pending, pk, None, width);
    if entry.cached is Some {
        lemma_apply_fits(entry.cached->0, (pk, None), width);
    }
}

pub proof fn lemma_set_degree(entry: EntryView, i: int, degree: nat, width: nat)
    requires
        entry.well_formed(),
        entry_fits(entry, width),
        entry.cached is Some,
        0 <= i < entry.cached->0.len(),
    ensures
        entry.set_degree(i, degree).well_formed(),
        entry_fits(entry.set_degree(i, degree), width),
{
    let rows = entry.cached->0;
    let pk = rows[i].0;
    let row = JoinRowView { degree, ..rows[i].1 };
    lemma_at_index(rows, i);
    lemma_set_at(rows, pk, row);
    lemma_set_at(entry.pending, pk, Some(row));
    lemma_pending_fits(entry.pending, pk, Some(row), width);
    lemma_apply_fits(rows, (pk, Some(row)), width);
}

impl JoinEntryState {
    /// An entry of which nothing is known.
    pub fn new() -> (r: Self)
        ensures
            r@ == EntryView::unknown(),
            r@.well_formed(),
    {
        JoinEntryState { cached: None, pending: KeyedList::new() }
    }

    pub fn is_cached(&self) -> (r: bool)
        ensures
            r == self@.cached is Some,
    {
        self.cached.is_some()
    }

    /// Whether there are writes that the state store has not got.
    pub fn is_dirty(&self) -> (r: bool)
        ensures
            r == (self@.pending.len() > 0),
    {
        self.pending.len() > 0
    }

    pub fn insert(&mut self, pk: Row, row: JoinRow)
        requires
            old(self)@.well_formed(),
        ensures
            final(self)@ == old(self)@.insert(pk@, row@),
            final(self)@.well_formed(),
    {
        let cached = self.cached.take();
        match cached {
            Some(mut rows) => {
                rows.insert(pk.clone(), row.copy());
                self.cached = Some(rows);
            },
            None => {},
        }
        self.pending.insert(pk, Pending::Put(row));
    }

    pub fn remove(&mut self, pk: Row)
        requires
            old(self)@.well_formed(),
        ensures
            final(self)@ == old(self)@.remove(pk@),
            final(self)@.well_formed(),
    {
        let cached = self.cached.take();
        match cached {
            Some(mut rows) => {
                let _row = rows.remove(&pk);
                self.cached = Some(rows);
            },
            None => {},
        }
        self.pending.insert(pk, Pending::Delete);
    }

    /// How many rows are in memory.
    pub fn cached_len(&self) -> (n: usize)
        requires
            self@.cached is Some,
        ensures
            n == self@.cached->0.len(),
    {
        match &self.cached {
            Some(rows) => rows.len(),
            None => 0,
        }
    }

    /// The cached row at position `i`.
    pub fn cached_row(&self, i: usize) -> (r: JoinRow)
        requires
            self@.cached is Some,
            i < self@.cached->0.len(),
        ensures
            r@ == self@.cached->0[i as int].1,
    {
        match &self.cached {
            Some(rows) => {
                assert(rows@[i as int].1 == rows.items@[i as int].1@);
                rows.items[i].1.copy()
            },
            None => JoinRow::new(Row(Vec::new()), 0),
        }
    }

    /// Puts `row`, which differs from the cached row at position `i` at most by its degree, into the
    /// place of that row.
    pub fn update_row(&mut self, i: usize, row: JoinRow)
        requires
            old(self)@.well_formed(),
            old(self)@.cached is Some,
            i < old(self)@.cached->0.len(),
            row@.row == old(self)@.cached->0[i as int].1.row,
        ensures
            final(self)@ == old(self)@.set_degree(i as int, row@.degree),
    {
        let cached = self.cached.take();
        match cached {
            Some(mut rows) => {
                let ghost before = rows@;
                let pk = rows.items[i].0.clone();
                rows.items.set(i, (pk.clone(), row.copy()));
                assert(rows@ =~= before.update(i as int, (before[i as int].0, row@)));
                self.cached = Some(rows);
                self.pending.insert(pk, Pending::Put(row));
            },
            None => {},
        }
    }

    /// The rows of the state store have come.
    pub fn attach(&mut self, base: KeyedList<JoinRow>)
        requires
            old(self)@.well_formed(),
            distinct(base@),
        ensures
            final(self)@ == old(self)@.with_cache(base@),
            final(self)@.well_formed(),
    {
        let mut rows = base;
        let n: usize = self.pending.items.len();
        let mut i: usize = 0;
        while i < n
            invariant
                i <= n,
                n == self.pending@.len(),
                self@.pending == old(self)@.pending,
                self@.well_formed(),
                distinct(base@),
                distinct(rows@),
                rows@ == overlay(base@, self.pending@.take(i as int)),
            decreases n - i,
        {
            let ghost write = self.pending@[i as int];
            proof {
                let next = self.pending@.take(i + 1);
                assert(next.drop_last() =~= self.pending@.take(i as int));
                assert(next.last() == write);
            }
            match &self.pending.items[i].1 {
                Pending::Put(row) => {
                    rows.insert(self.pending.items[i].0.clone(), row.copy());
                },
                Pending::Delete => {
                    let _row = rows.remove(&self.pending.items[i].0);
                },
            }
            i = i + 1;
        }
        assert(self.pending@.take(n as int) =~= self.pending@);
        self.cached = Some(rows);
    }
}

/// A write to the state store.
#[derive(Debug, PartialEq, Eq)]
pub struct StateWrite {
    pub key: Row,
    pub pk: Row,
    /// The row to store; a deletion where there is none.
    pub row: Option<JoinRow>,
}

/// The model of a [`StateWrite`].
pub struct WriteView {
    pub key: RowView,
    pub pk: RowView,
    pub row: Option<JoinRowView>,
}

impl View for StateWrite {
    type V = WriteView;

    open spec fn view(&self) -> WriteView {
        WriteView {
            key: self.key@,
            pk: self.pk@,
            row: match self.row {
                Some(row) => Some(row@),
                None => None,
            },
        }
    }
}

pub open spec fn writes_view(writes: Seq<StateWrite>) -> Seq<WriteView> {
    Seq::new(writes.len(), |i: int| writes[i]@)
}

/// Join keys with their entries, the one used last at the end.
pub type TableView = Seq<(RowView, EntryView)>;

/// The writes of an entry.
pub open spec fn entry_writes(key: RowView, entry: EntryView) -> Seq<WriteView> {
    Seq::new(
        entry.pending.len(),
        |i: int| WriteView { key, pk: entry.pending[i].0, row: entry.pending[i].1 },
    )
}

/// The writes of all entries of a table.
pub open spec fn table_writes(table: TableView) -> Seq<WriteView>
    decreases table.len(),
{
    if table.len() == 0 {
        Seq::empty()
    } else {
        table_writes(table.drop_last()) + entry_writes(table.last().0, table.last().1)
    }
}

/// The table once its writes are handed over.
pub open spec fn cleaned(table: TableView) -> TableView {
    Seq::new(
        table.len(),
        |i: int|
            (table[i].0, EntryView { cached: table[i].1.cached, pending: Seq::empty() }),
    )
}

/// At most the `cap` entries used last.
pub open spec fn evicted(table: TableView, cap: nat) -> TableView {
    if table.len() > cap {
        table.skip(table.len() - cap)
    } else {
        table
    }
}

pub open spec fn table_well_formed(table: TableView) -> bool {
    &&& distinct(table)
    &&& forall|i: int| 0 <= i < table.len() ==> (#[trigger] table[i]).1.well_formed()
}

/// Some entry has writes that the state store has not got.
pub open spec fn table_dirty(table: TableView) -> bool {
    exists|i: int| 0 <= i < table.len() && (#[trigger] table[i]).1.pending.len() > 0
}

/// The rows under `key` are all in memory.
pub open spec fn resident(table: TableView, key: RowView) -> bool {
    has_key(table, key) && at(table, key).cached is Some
}

/// The entry under `key`, or one of which nothing is known.
pub open spec fn entry_or_unknown(table: TableView, key: RowView) -> EntryView {
    if has_key(table, key) {
        at(table, key)
    } else {
        EntryView::unknown()
    }
}

/// The entries that one side of a join has in memory.
pub struct JoinHashMap {
    pub entries: RecencyMap<JoinEntryState>,
    /// How many entries to keep once the table is clean.
    pub target_cap: usize,
    /// The epoch that reads of the state store belong to.
    pub epoch: u64,
}

impl View for JoinHashMap {
    type V = TableView;

    open spec fn view(&self) -> TableView {
        self.entries@
    }
}

impl JoinHashMap {
    pub open spec fn well_formed(&self) -> bool {
        &&& self.entries.well_formed()
        &&& table_well_formed(self@)
    }

    /// `self` differs from `other` at most by its entries.
    pub open spec fn same_limits(&self, other: &Self) -> bool {
        &&& self.target_cap == other.target_cap
        &&& self.epoch == other.epoch
    }

    pub fn new(target_cap: usize) -> (r: Self)
        ensures
            r@ == TableView::empty(),
            r.well_formed(),
            r.target_cap == target_cap,
            r.epoch == 0,
    {
        JoinHashMap { entries: RecencyMap::new(), target_cap, epoch: 0 }
    }

    pub fn update_epoch(&mut self, epoch: u64)
        ensures
            final(self).epoch == epoch,
            final(self).entries == old(self).entries,
            final(self).target_cap == old(self).target_cap,
    {
        self.epoch = epoch;
    }

    /// The entry under `key`, where its rows are all in memory.
    pub fn get_cached(&self, key: &Row) -> (r: Option<&JoinEntryState>)
        requires
            self.well_formed(),
        ensures
            r is Some == resident(self@, key@),
            r is Some ==> r->0@ == at(self@, key@),
    {
        match self.entries.get(key) {
            Some(entry) => {
                if entry.is_cached() {
                    Some(entry)
                } else {
                    None
                }
            },
            None => None,
        }
    }

    /// Takes out the entry under `key`; one of which nothing is known, where there is none.
    pub fn take_or_init_without_cache(&mut self, key: &Row) -> (r: JoinEntryState)
        requires
            old(self).well_formed(),
        ensures
            final(self)@ == without(old(self)@, key@),
            final(self).well_formed(),
            final(self).same_limits(old(self)),
            r@ == entry_or_unknown(old(self)@, key@),
            r@.well_formed(),
    {
        let ghost before = self@;
        let taken = self.entries.take(key);
        proof {
            lemma_table_without(before, key@);
            if has_key(before, key@) {
                assert(before[pos(before, key@)].1.well_formed());
            }
        }
        match taken {
            Some(entry) => entry,
            None => JoinEntryState::new(),
        }
    }

    /// Puts `entry` under `key`, as the one used last.
    pub fn put(&mut self, key: Row, entry: JoinEntryState)
        requires
            old(self).well_formed(),
            entry@.well_formed(),
        ensures
            final(self)@ == put_last(old(self)@, key@, entry@),
            final(self).well_formed(),
            final(self).same_limits(old(self)),
    {
        let ghost before = self@;
        proof {
            lemma_without(before, key@);
            lemma_table_put(before, key@, entry@);
        }
        let _old = self.entries.take(&key);
        self.entries.push(key, entry);
    }

    /// The rows under `key` have come from the state store.
    pub fn insert_cached(&mut self, key: Row, base: KeyedList<JoinRow>)
        requires
            old(self).well_formed(),
            distinct(base@),
        ensures
            final(self)@ == put_last(
                old(self)@,
                key@,
                entry_or_unknown(old(self)@, key@).with_cache(base@),
            ),
            final(self).well_formed(),
            final(self).same_limits(old(self)),
    {
        let ghost before = self@;
        let mut entry = self.take_or_init_without_cache(&key);
        entry.attach(base);
        proof {
            lemma_without(before, key@);
        }
        self.put(key, entry);
    }

    /// Whether some entry has writes that the state store has not got.
    pub fn is_dirty(&self) -> (r: bool)
        ensures
            r == table_dirty(self@),
    {
        let ghost slots = self.entries.slots@;
        let n: usize = self.entries.slots.len();
        let mut i: usize = 0;
        while i < n
            invariant
                i <= n,
                n == slots.len(),
                slots == self.entries.slots@,
                forall|j: int|
                    0 <= j < i && (#[trigger] slots[j]) is Some ==> pair_view(
                        slots[j]->0,
                    ).1.pending.len() == 0,
            decreases n - i,
        {
            if let Some(item) = &self.entries.slots[i] {
                if item.1.is_dirty() {
                    proof {
                        lemma_live_at(slots, i as int);
                        assert(self@[rank(slots, i as int)].1.pending.len() > 0);
                    }
                    return true;
                }
            }
            i = i + 1;
        }
        proof {
            if table_dirty(self@) {
                let r = choose|r: int| 0 <= r < self@.len() && (#[trigger] self@[r]).1.pending.len() > 0;
                let j = lemma_live_slot(slots, r);
                assert(slots[j] is Some);
            }
        }
        false
    }

    /// Appends the writes of all entries to `batch`; none is left to be written.
    pub fn flush(&mut self, batch: &mut Vec<StateWrite>)
        requires
            old(self).well_formed(),
        ensures
            final(self)@ == cleaned(old(self)@),
            final(self).well_formed(),
            !table_dirty(final(self)@),
            final(self).same_limits(old(self)),
            writes_view(final(batch)@) == writes_view(old(batch)@) + table_writes(old(self)@),
    {
        let ghost before = self@;
        let ghost start = writes_view(batch@);
        let entries = self.entries.drain();
        let ghost given = entries@;
        proof {
            lemma_cleaned(before);
            assert(start + table_writes(before.take(0)) =~= start);
            assert(cleaned(before).take(0) =~= Seq::empty());
        }
        for item in it: entries
            invariant
                it.seq() == given,
                pair_views(given) == before,
                table_well_formed(before),
                distinct(cleaned(before)),
                self.entries.well_formed(),
                self.same_limits(old(self)),
                self@ == cleaned(before).take(it.index() as int),
                writes_view(batch@) == start + table_writes(before.take(it.index() as int)),
        {
            let ghost i = it.index() as int;
            assert(pair_views(given)[i] == pair_view(item));
            let (key, entry) = item;
            let ghost view = entry@;
            let ghost prior = writes_view(batch@);
            let ghost own = entry_writes(key@, view);
            let cached = entry.cached;
            let pending = entry.pending.items;
            let ghost given_writes = pending@;
            assert(prior + own.take(0) =~= prior);
            for write in wit: pending
                invariant
                    wit.seq() == given_writes,
                    given_writes.len() == view.pending.len(),
                    forall|j: int|
                        0 <= j < given_writes.len() ==> pair_view(#[trigger] given_writes[j])
                            == view.pending[j],
                    own == entry_writes(key@, view),
                    writes_view(batch@) == prior + own.take(wit.index() as int),
            {
                let ghost j = wit.index() as int;
                assert(pair_view(given_writes[j]) == view.pending[j]);
                let (pk, value) = write;
                let row = match value {
                    Pending::Put(row) => Some(row),
                    Pending::Delete => None,
                };
                let ghost earlier = batch@;
                batch.push(StateWrite { key: key.clone(), pk, row });
                assert(batch@.last()@ == own[j]);
                assert(writes_view(batch@) =~= writes_view(earlier).push(own[j]));
                assert(own.take(j + 1) =~= own.take(j).push(own[j]));
            }
            assert(own.take(own.len() as int) =~= own);
            proof {
                let next = before.take(i + 1);
                assert(next.drop_last() =~= before.take(i));
                assert(next.last() == before[i]);
                assert(prior + own =~= start + table_writes(next));
                lemma_next_pair(cleaned(before), i);
            }
            self.entries.push(key, JoinEntryState { cached, pending: KeyedList::new() });
        }
        assert(before.take(before.len() as int) =~= before);
        assert(cleaned(before).take(before.len() as int) =~= cleaned(before));
    }

    /// Drops the entries used least recently, down to the target capacity.
    pub fn evict_to_target_cap(&mut self)
        requires
            old(self).well_formed(),
        ensures
            final(self)@ == evicted(old(self)@, old(self).target_cap as nat),
            final(self).well_formed(),
            final(self).same_limits(old(self)),
    {
        let ghost before = self@;
        let n: usize = self.entries.count;
        proof {
            lemma_evicted(before, self.target_cap as nat);
        }
        if n > self.target_cap {
            let mut entries = self.entries.drain();
            let kept = entries.split_off(n - self.target_cap);
            let ghost given = kept@;
            let ghost rest = before.skip(n - self.target_cap);
            proof {
                assert(pair_views(given) =~= rest);
                assert(rest.take(0) =~= Seq::empty());
            }
            for item in it: kept
                invariant
                    it.seq() == given,
                    pair_views(given) == rest,
                    distinct(rest),
                    self.entries.well_formed(),
                    self.same_limits(old(self)),
                    self@ == rest.take(it.index() as int),
            {
                proof {
                    assert(pair_views(given)[it.index() as int] == pair_view(item));
                    lemma_next_pair(rest, it.index() as int);
                }
                self.entries.push(item.0, item.1);
            }
            assert(rest.take(rest.len() as int) =~= rest);
        }
    }
}

pub proof fn lemma_table_without(table: TableView, key: RowView)
    requires
        table_well_formed(table),
    ensures
        table_well_formed(without(table, key)),
{
    lemma_without(table, key);
    let t = without(table, key);
    assert forall|i: int| 0 <= i < t.len() implies (#[trigger] t[i]).1.well_formed() by {
        if has_key(table, key) {
            let p = pos(table, key);
            assert(t[i] == table[if i < p { i } else { i + 1 }]);
        }
    }
}

pub proof fn lemma_table_put(table: TableView, key: RowView, entry: EntryView)
    requires
        table_well_formed(table),
        entry.well_formed(),
    ensures
        table_well_formed(put_last(table, key, entry)),
{
    lemma_table_without(table, key);
    lemma_put_last(table, key, entry);
    let t = put_last(table, key, entry);
    assert forall|i: int| 0 <= i < t.len() implies (#[trigger] t[i]).1.well_formed() by {
        if i < without(table, key).len() {
            assert(t[i] == without(table, key)[i]);
        }
    }
}

/// The rows of all entries have `width` columns.
pub open spec fn table_fits(table: TableView, width: nat) -> bool {
    forall|i: int| 0 <= i < table.len() ==> entry_fits((#[trigger] table[i]).1, width)
}

pub proof fn lemma_table_fits_at(table: TableView, key: RowView, width: nat)
    requires
        table_well_formed(table),
        table_fits(table, width),
    ensures
        entry_fits(entry_or_unknown(table, key), width),
        entry_or_unknown(table, key).well_formed(),
        has_key(table, key) ==> entry_fits(at(table, key), width) && at(table, key).well_formed(),
{
    if has_key(table, key) {
        let p = pos(table, key);
        assert(entry_fits(table[p].1, width));
        assert(table[p].1.well_formed());
    }
}

pub proof fn lemma_table_fits_put(table: TableView, key: RowView, entry: EntryView, width: nat)
    requires
        table_well_formed(table),
        table_fits(table, width),
        entry.well_formed(),
        entry_fits(entry, width),
    ensures
        table_well_formed(put_last(table, key, entry)),
        table_fits(put_last(table, key, entry), width),
{
    lemma_table_put(table, key, entry);
    let t = put_last(table, key, entry);
    assert forall|i: int| 0 <= i < t.len() implies entry_fits((#[trigger] t[i]).1, width) by {
        if i < t.len() - 1 {
            assert(t[i] == without(table, key)[i]);
            if has_key(table, key) {
                let p = pos(table, key);
                assert(t[i] == table[if i < p { i } else { i + 1 }]);
            }
        }
    }
}

pub proof fn lemma_cleaned_fits(table: TableView, width: nat)
    requires
        table_fits(table, width),
    ensures
        table_fits(cleaned(table), width),
{
    let t = cleaned(table);
    assert forall|i: int| 0 <= i < t.len() implies entry_fits((#[trigger] t[i]).1, width) by {
        assert(entry_fits(table[i].1, width));
    }
}

pub proof fn lemma_evicted_fits(table: TableView, cap: nat, width: nat)
    requires
        table_fits(table, width),
    ensures
        table_fits(evicted(table, cap), width),
        table_dirty(evicted(table, cap)) ==> table_dirty(table),
{
    let t = evicted(table, cap);
    if table.len() > cap {
        let d = table.len() - cap;
        assert forall|i: int| 0 <= i < t.len() implies entry_fits((#[trigger] t[i]).1, width) by {
            assert(entry_fits(table[i + d].1, width));
        }
        if table_dirty(t) {
            let i = choose|i: int| 0 <= i < t.len() && (#[trigger] t[i]).1.pending.len() > 0;
            assert(table[i + d].1.pending.len() > 0);
        }
    }
}

pub proof fn lemma_cleaned(table: TableView)
    requires
        table_well_formed(table),
    ensures
        table_well_formed(cleaned(table)),
        !table_dirty(cleaned(table)),
{
    let t = cleaned(table);
    assert forall|i: int, j: int|
        0 <= i < t.len() && 0 <= j < t.len() && (#[trigger] t[i]).0 == (
        #[trigger] t[j]).0 implies i == j by {
        assert(table[i].0 == table[j].0);
    }
    assert forall|i: int| 0 <= i < t.len() implies (#[trigger] t[i]).1.well_formed() by {
        assert(table[i].1.well_formed());
    }
}

pub proof fn lemma_evicted(table: TableView, cap: nat)
    requires
        table_well_formed(table),
    ensures
        table_well_formed(evicted(table, cap)),
{
    let t = evicted(table, cap);
    if table.len() > cap {
        let d = table.len() - cap;
        assert forall|i: int, j: int|
            0 <= i < t.len() && 0 <= j < t.len() && (#[trigger] t[i]).0 == (
            #[trigger] t[j]).0 implies i == j by {
            assert(table[i + d].0 == table[j + d].0);
        }
        assert forall|i: int| 0 <= i < t.len() implies (#[trigger] t[i]).1.well_formed() by {
            assert(table[i + d].1.well_formed());
        }
    }
}

/// Of the entries those used last stay, in their order, and not more than fit.
pub proof fn law_entries_used_last_stay(table: TableView, cap: nat)
    ensures
        ({
            let kept = evicted(table, cap);
            let gone = table.len() - kept.len();
            &&& kept.len() == (if table.len() < cap { table.len() } else { cap })
            &&& forall|i: int| 0 <= i < kept.len() ==> #[trigger] kept[i] == table[gone + i]
        }),
{
}

/// Once its writes are handed over, a table has the same keys in the same order, with the same rows in
/// memory, and nothing to be written.
pub proof fn law_handed_over(table: TableView)
    ensures
        cleaned(table).len() == table.len(),
        forall|i: int|
            0 <= i < table.len() ==> (#[trigger] cleaned(table)[i]).0 == table[i].0 && cleaned(
                table,
            )[i].1.cached == table[i].1.cached && cleaned(table)[i].1.pending.len() == 0,
{
}

/// Each write that an entry has pending is handed over, under the join key of the entry, and nothing
/// else is.
pub proof fn law_writes_handed_over(table: TableView, write: WriteView)
    ensures
        table_writes(table).contains(write) <==> exists|i: int|
            0 <= i < table.len() && (#[trigger] table[i]).0 == write.key && table[i].1.pending.contains(
                (write.pk, write.row),
            ),
    decreases table.len(),
{
    let writes = table_writes(table);
    if table.len() > 0 {
        let less = table.drop_last();
        let n = table.len() - 1;
        let before = table_writes(less);
        let entry = table.last().1;
        let own = entry_writes(table.last().0, entry);
        law_writes_handed_over(less, write);
        assert(writes == before + own);
        if writes.contains(write) {
            let k = choose|k: int| 0 <= k < writes.len() && writes[k] == write;
            if k < before.len() {
                assert(before[k] == write);
                let i = choose|i: int|
                    0 <= i < less.len() && (#[trigger] less[i]).0 == write.key
                        && less[i].1.pending.contains((write.pk, write.row));
                assert(table[i] == less[i]);
            } else {
                assert(own[k - before.len()] == write);
                assert(entry.pending[k - before.len()] == (write.pk, write.row));
                assert(table[n].0 == write.key);
            }
        }
        if exists|i: int|
            0 <= i < table.len() && (#[trigger] table[i]).0 == write.key && table[i].1.pending.contains(
                (write.pk, write.row),
            ) {
            let i = choose|i: int|
                0 <= i < table.len() && (#[trigger] table[i]).0 == write.key
                    && table[i].1.pending.contains((write.pk, write.row));
            if i < n {
                assert(less[i] == table[i]);
                let k = choose|k: int| 0 <= k < before.len() && before[k] == write;
                assert(writes[k] == write);
            } else {
                let k = choose|k: int|
                    0 <= k < entry.pending.len() && entry.pending[k] == (write.pk, write.row);
                assert(own[k] == write);
                assert(writes[before.len() + k] == write);
            }
        }
    }
}

/// A write tells the join key, the primary key and the row, or that there is none any more.
pub proof fn law_write_as_seen(write: StateWrite)
    ensures
        write@.key == write.key@,
        write@.pk == write.pk@,
        write.row is None ==> write@.row is None,
        write.row matches Some(row) ==> write@.row is Some && write@.row->0.row == row.row@
            && write@.row->0.degree == row.degree,
{
}

/// A table is dirty exactly where some entry of it has a write that has not been handed over.
pub proof fn law_dirty(table: TableView)
    ensures
        table_dirty(table) <==> exists|i: int, j: int|
            #![trigger table[i].1.pending[j]]
            0 <= i < table.len() && 0 <= j < table[i].1.pending.len(),
        table_dirty(table) <==> table_writes(table).len() > 0,
    decreases table.len(),
{
    if table_dirty(table) {
        let i = choose|i: int| 0 <= i < table.len() && (#[trigger] table[i]).1.pending.len() > 0;
        assert(0 <= 0 < table[i].1.pending.len());
        let first = table[i].1.pending[0];
        let write = WriteView { key: table[i].0, pk: first.0, row: first.1 };
        assert(table[i].1.pending.contains((write.pk, write.row)));
        law_writes_handed_over(table, write);
        assert(table_writes(table).contains(write));
    }
    if table_writes(table).len() > 0 {
        let write = table_writes(table)[0];
        assert(table_writes(table).contains(write));
        law_writes_handed_over(table, write);
    }
}

/// The entry under a key is the one that the table has, or one without rows and without writes.
pub proof fn law_entry_under_key(table: TableView, key: RowView, i: int)
    requires
        distinct(table),
    ensures
        0 <= i < table.len() && table[i].0 == key ==> entry_or_unknown(table, key) == table[i].1,
        !(exists|j: int| 0 <= j < table.len() && (#[trigger] table[j]).0 == key) ==> entry_or_unknown(
            table,
            key,
        ).cached is None && entry_or_unknown(table, key).pending.len() == 0,
        resident(table, key) <==> exists|j: int|
            0 <= j < table.len() && (#[trigger] table[j]).0 == key && table[j].1.cached is Some,
{
    if 0 <= i < table.len() && table[i].0 == key {
        lemma_at_index(table, i);
    }
    if resident(table, key) {
        let p = pos(table, key);
        assert(table[p].0 == key);
    }
    if exists|j: int|
        0 <= j < table.len() && (#[trigger] table[j]).0 == key && table[j].1.cached is Some {
        let j = choose|j: int|
            0 <= j < table.len() && (#[trigger] table[j]).0 == key && table[j].1.cached is Some;
        lemma_at_index(table, j);
    }
}

/// A row that is put into an entry is there under its primary key, and is to be written; one that is
/// removed is not there, and that is to be written. Other rows and other writes stay.
pub proof fn law_entry_takes_write(entry: EntryView, pk: RowView, row: JoinRowView, other: RowView)
    requires
        entry.well_formed(),
    ensures
        ({
            let with = entry.insert(pk, row);
            let less = entry.remove(pk);
            &&& to_map(with.pending)[pk] == Some(row) && to_map(with.pending).contains_key(pk)
            &&& to_map(less.pending)[pk] is None && to_map(less.pending).contains_key(pk)
            &&& other != pk ==> {
                &&& to_map(with.pending).contains_key(other) == to_map(entry.pending).contains_key(other)
                &&& to_map(with.pending).contains_key(other) ==> to_map(with.pending)[other] == to_map(
                    entry.pending,
                )[other]
                &&& to_map(less.pending).contains_key(other) == to_map(entry.pending).contains_key(other)
                &&& to_map(less.pending).contains_key(other) ==> to_map(less.pending)[other] == to_map(
                    entry.pending,
                )[other]
            }
            &&& with.cached is Some <==> entry.cached is Some
            &&& less.cached is Some <==> entry.cached is Some
            &&& entry.cached is Some ==> to_map(with.cached->0) == to_map(entry.cached->0).insert(
                pk,
                row,
            ) && to_map(less.cached->0) == to_map(entry.cached->0).remove(pk)
        }),
{
    lemma_set_at(entry.pending, pk, Some(row));
    lemma_set_at(entry.pending, pk, None);
    if entry.cached is Some {
        lemma_set_at(entry.cached->0, pk, row);
        lemma_without(entry.cached->0, pk);
    }
}

/// Another degree for a row changes that and nothing else, and is to be written.
pub proof fn law_degree_changes_alone(entry: EntryView, i: int, degree: nat, j: int)
    requires
        entry.well_formed(),
        entry.cached is Some,
        0 <= i < entry.cached->0.len(),
        0 <= j < entry.cached->0.len(),
    ensures
        ({
            let after = entry.set_degree(i, degree);
            let rows = entry.cached->0;
            &&& after.cached is Some
            &&& after.cached->0.len() == rows.len()
            &&& after.cached->0[j].0 == rows[j].0
            &&& after.cached->0[j].1.row == rows[j].1.row
            &&& after.cached->0[j].1.degree == (if i == j { degree } else { rows[j].1.degree })
            &&& to_map(after.pending) == to_map(entry.pending).insert(
                rows[i].0,
                Some(JoinRowView { row: rows[i].1.row, degree }),
            )
        }),
{
    let row = JoinRowView { degree, ..entry.cached->0[i].1 };
    lemma_set_at(entry.pending, entry.cached->0[i].0, Some(row));
}

/// Once the rows of the state store have come, an entry has those of them that it has not written since,
/// and in the place of the others what it has written.
pub proof fn law_writes_win_over_store(entry: EntryView, base: RowsView, pk: RowView)
    requires
        entry.well_formed(),
        distinct(base),
    ensures
        ({
            let rows = to_map(entry.with_cache(base).cached->0);
            let written = to_map(entry.pending);
            &&& entry.with_cache(base).cached is Some
            &&& entry.with_cache(base).pending == entry.pending
            &&& written.contains_key(pk) && written[pk] is None ==> !rows.contains_key(pk)
            &&& written.contains_key(pk) && written[pk] is Some ==> rows.contains_key(pk) && rows[pk]
                == written[pk]->0
            &&& !written.contains_key(pk) ==> (rows.contains_key(pk) <==> to_map(base).contains_key(pk))
            &&& !written.contains_key(pk) && rows.contains_key(pk) ==> rows[pk] == to_map(base)[pk]
        }),
{
    lemma_overlay(base, entry.pending);
}

/// Rows fit a width exactly where each of them has as many columns.
pub proof fn law_rows_fit(rows: RowsView, width: nat)
    ensures
        rows_fit(rows, width) <==> forall|i: int|
            0 <= i < rows.len() ==> (#[trigger] rows[i]).1.row.len() == width,
{
}

} // verus!
