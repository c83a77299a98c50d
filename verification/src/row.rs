//! Rows of values, and the operations on them that a join needs.
use vstd::prelude::*;

verus! {

/// A value of a row: null, or the value encoding of a scalar of the column's data type.
///
/// Two scalars of one data type are equal exactly where their encodings are.
pub type Datum = Option<Vec<u8>>;

/// The mathematical model of a row: one entry for each column, `None` for null.
pub type RowView = Seq<Option<Seq<u8>>>;

pub open spec fn datum_view(d: Datum) -> Option<Seq<u8>> {
    match d {
        Some(bytes) => Some(bytes@),
        None => None,
    }
}

/// A row, one value for each column.
#[derive(Debug, PartialEq, Eq)]
pub struct Row(pub Vec<Datum>);

impl View for Row {
    type V = RowView;

    open spec fn view(&self) -> RowView {
        Seq::new(self.0@.len(), |i: int| datum_view(self.0@[i]))
    }
}

/// The values of `row` at `indices`, in that order.
pub open spec fn project(row: RowView, indices: Seq<usize>) -> RowView {
    Seq::new(indices.len(), |i: int| row[indices[i] as int])
}

/// Each index names a column of a row with `width` columns.
pub open spec fn indices_below(indices: Seq<usize>, width: int) -> bool {
    forall|i: int| 0 <= i < indices.len() ==> #[trigger] indices[i] < width
}

/// Executable [`indices_below`].
pub fn indices_are_below(indices: &Vec<usize>, width: usize) -> (r: bool)
    ensures
        r == indices_below(indices@, width as int),
{
    let n: usize = indices.len();
    let mut i: usize = 0;
    while i < n
        invariant
            i <= n,
            n == indices@.len(),
            forall|j: int| 0 <= j < i ==> #[trigger] indices@[j] < width,
        decreases n - i,
    {
        if indices[i] >= width {
            return false;
        }
        i = i + 1;
    }
    true
}

pub open spec fn row_has_null(row: RowView) -> bool {
    exists|i: int| 0 <= i < row.len() && #[trigger] row[i] is None
}

/// A row of `width` columns with the values of `a` from column `at_a` on and, over them, those of
/// `b` from column `at_b` on. The columns that neither reaches are null.
pub open spec fn place(width: nat, at_a: int, a: RowView, at_b: int, b: RowView) -> RowView {
    Seq::new(
        width,
        |i: int|
            if at_b <= i < at_b + b.len() {
                b[i - at_b]
            } else if at_a <= i < at_a + a.len() {
                a[i - at_a]
            } else {
                None
            },
    )
}

/// A row of `width` columns with the values of `row` from column `at` on and nulls elsewhere.
pub open spec fn pad(width: nat, at: int, row: RowView) -> RowView {
    place(width, at, row, 0, Seq::empty())
}

/// Executable [`place`].
pub fn place_row(width: usize, at_a: usize, a: &Row, at_b: usize, b: &Row) -> (r: Row)
    ensures
        r@ == place(width as nat, at_a as int, a@, at_b as int, b@),
{
    let mut out: Vec<Datum> = Vec::new();
    let a_len: usize = a.size();
    let b_len: usize = b.size();
    let mut i: usize = 0;
    while i < width
        invariant
            i <= width,
            a_len == a@.len(),
            b_len == b@.len(),
            out@.len() == i,
            forall|j: int|
                0 <= j < i ==> datum_view(#[trigger] out@[j]) == place(
                    width as nat,
                    at_a as int,
                    a@,
                    at_b as int,
                    b@,
                )[j],
        decreases width - i,
    {
        if at_b <= i && i - at_b < b_len {
            out.push(copy_datum(&b.0[i - at_b]));
        } else if at_a <= i && i - at_a < a_len {
            out.push(copy_datum(&a.0[i - at_a]));
        } else {
            out.push(None);
        }
        i = i + 1;
    }
    let r = Row(out);
    assert(r@ =~= place(width as nat, at_a as int, a@, at_b as int, b@));
    r
}

/// Executable [`pad`].
pub fn pad_row(width: usize, at: usize, row: &Row) -> (r: Row)
    ensures
        r@ == pad(width as nat, at as int, row@),
{
    let empty = Row(Vec::new());
    assert(empty@ =~= Seq::empty());
    place_row(width, at, row, 0, &empty)
}

pub fn same_bytes(a: &Vec<u8>, b: &Vec<u8>) -> (r: bool)
    ensures
        r == (a@ == b@),
{
    let r = a == b;
    proof {
        if r {
            assert forall|i: int| 0 <= i < a@.len() implies a@[i] == b@[i] by {}
            assert(a@ =~= b@);
        }
    }
    r
}

pub fn same_datum(a: &Datum, b: &Datum) -> (r: bool)
    ensures
        r == (datum_view(*a) == datum_view(*b)),
{
    match (a, b) {
        (Some(x), Some(y)) => same_bytes(x, y),
        (None, None) => true,
        _ => false,
    }
}

pub fn copy_datum(d: &Datum) -> (r: Datum)
    ensures
        datum_view(r) == datum_view(*d),
{
    match d {
        Some(bytes) => {
            let copy = bytes.clone();
            assert(copy@ =~= bytes@);
            Some(copy)
        },
        None => None,
    }
}

impl Clone for Row {
    fn clone(&self) -> (r: Self)
        ensures
            r@ == self@,
    {
        let mut out: Vec<Datum> = Vec::new();
        let n: usize = self.0.len();
        let mut i: usize = 0;
        while i < n
            invariant
                i <= n,
                n == self.0@.len(),
                out@.len() == i,
                forall|j: int| 0 <= j < i ==> datum_view(#[trigger] out@[j]) == datum_view(self.0@[j]),
            decreases n - i,
        {
            out.push(copy_datum(&self.0[i]));
            i = i + 1;
        }
        let r = Row(out);
        assert(r@ =~= self@);
        r
    }
}

impl Row {
    /// The number of columns.
    pub fn size(&self) -> (n: usize)
        ensures
            n == self@.len(),
    {
        self.0.len()
    }

    /// Whether both rows have the same values in the same columns.
    pub fn same(&self, other: &Row) -> (r: bool)
        ensures
            r == (self@ == other@),
    {
        let n: usize = self.0.len();
        if n != other.0.len() {
            assert(self@.len() != other@.len());
            return false;
        }
        let mut i: usize = 0;
        while i < n
            invariant
                i <= n,
                n == self.0@.len(),
                n == other.0@.len(),
                forall|j: int| 0 <= j < i ==> self@[j] == #[trigger] other@[j],
            decreases n - i,
        {
            if !same_datum(&self.0[i], &other.0[i]) {
                assert(self@[i as int] != other@[i as int]);
                return false;
            }
            i = i + 1;
        }
        assert(self@ =~= other@);
        true
    }

    /// The values at `indices`, in that order.
    pub fn row_by_indices(&self, indices: &Vec<usize>) -> (r: Row)
        requires
            indices_below(indices@, self@.len() as int),
        ensures
            r@ == project(self@, indices@),
    {
        let mut out: Vec<Datum> = Vec::new();
        let n: usize = indices.len();
        let mut i: usize = 0;
        while i < n
            invariant
                i <= n,
                n == indices@.len(),
                indices_below(indices@, self@.len() as int),
                out@.len() == i,
                forall|j: int| 0 <= j < i ==> datum_view(#[trigger] out@[j]) == self@[indices@[j] as int],
            decreases n - i,
        {
            let at: usize = indices[i];
            out.push(copy_datum(&self.0[at]));
            i = i + 1;
        }
        let r = Row(out);
        assert(r@ =~= project(self@, indices@));
        r
    }

    /// Whether some value is null.
    pub fn has_null(&self) -> (r: bool)
        ensures
            r == row_has_null(self@),
    {
        let n: usize = self.0.len();
        let mut i: usize = 0;
        while i < n
            invariant
                i <= n,
                n == self.0@.len(),
                forall|j: int| 0 <= j < i ==> #[trigger] self@[j] is Some,
            decreases n - i,
        {
            if self.0[i].is_none() {
                assert(self@[i as int] is None);
                return true;
            }
            i = i + 1;
        }
        false
    }
}

/// A value of a row is null exactly where there is no scalar, and else the bytes of the scalar.
pub proof fn law_row_values(row: Row, i: int)
    requires
        0 <= i < row.0@.len(),
    ensures
        row@.len() == row.0@.len(),
        row.0@[i] is None ==> row@[i] is None,
        row.0@[i] matches Some(bytes) ==> row@[i] == Some(bytes@),
{
}

/// A row has a null where any of its columns is null, the first, the last or one between, and only
/// there. A row that is put together from two has one where one of the two has.
pub proof fn law_null_in_any_column(row: RowView, other: RowView)
    ensures
        forall|i: int| 0 <= i < row.len() && #[trigger] row[i] is None ==> row_has_null(row),
        (forall|i: int| 0 <= i < row.len() ==> #[trigger] row[i] is Some) ==> !row_has_null(row),
        row_has_null(row + other) == (row_has_null(row) || row_has_null(other)),
{
    let both = row + other;
    if row_has_null(row) {
        let i = choose|i: int| 0 <= i < row.len() && #[trigger] row[i] is None;
        assert(both[i] is None);
    }
    if row_has_null(other) {
        let i = choose|i: int| 0 <= i < other.len() && #[trigger] other[i] is None;
        assert(both[row.len() + i] is None);
    }
    if row_has_null(both) {
        let i = choose|i: int| 0 <= i < both.len() && #[trigger] both[i] is None;
        if i < row.len() {
            assert(row[i] is None);
        } else {
            assert(other[i - row.len()] is None);
        }
    }
}

/// Picking columns gives one value for each index, that of the column it names.
pub proof fn law_picked_columns(row: RowView, indices: Seq<usize>)
    ensures
        project(row, indices).len() == indices.len(),
        forall|i: int|
            0 <= i < indices.len() ==> #[trigger] project(row, indices)[i] == row[indices[i] as int],
{
}

/// A row that is placed behind another one gives both, one behind the other, in whichever order they
/// are named. A row alone is followed, or preceded, by nulls.
pub proof fn law_placed_side_by_side(first: RowView, second: RowView)
    ensures
        ({
            let width = (first.len() + second.len()) as nat;
            let at = first.len() as int;
            &&& place(width, 0, first, at, second) == first + second
            &&& place(width, at, second, 0, first) == first + second
            &&& pad(width, 0, first) == first + Seq::new(second.len(), |i: int| None::<Seq<u8>>)
            &&& pad(width, at, second) == Seq::new(first.len(), |i: int| None::<Seq<u8>>) + second
            &&& pad(first.len(), 0, first) == first
        }),
{
    let width = (first.len() + second.len()) as nat;
    let at = first.len() as int;
    assert(place(width, 0, first, at, second) =~= first + second);
    assert(place(width, at, second, 0, first) =~= first + second);
    assert(pad(width, 0, first) =~= first + Seq::new(second.len(), |i: int| None::<Seq<u8>>));
    assert(pad(width, at, second) =~= Seq::new(first.len(), |i: int| None::<Seq<u8>>) + second);
    assert(pad(first.len(), 0, first) =~= first);
}

/// A placed row has the columns that were asked for: those of the second row in their places, those of
/// the first row in theirs unless the second one covers them, and nulls elsewhere.
pub proof fn law_placed_columns(width: nat, at_a: int, a: RowView, at_b: int, b: RowView)
    ensures
        ({
            let out = place(width, at_a, a, at_b, b);
            &&& out.len() == width
            &&& forall|j: int|
                0 <= j < b.len() && 0 <= at_b + j < width ==> out[at_b + j] == #[trigger] b[j]
            &&& forall|j: int|
                0 <= j < a.len() && 0 <= at_a + j < width && !(at_b <= at_a + j < at_b + b.len())
                    ==> out[at_a + j] == #[trigger] a[j]
            &&& forall|i: int|
                0 <= i < width && !(at_a <= i < at_a + a.len()) && !(at_b <= i < at_b + b.len())
                    ==> #[trigger] out[i] is None
        }),
{
}

/// Indices name columns of a row exactly where the row is longer than each of them.
pub proof fn law_indices_below(indices: Seq<usize>, width: int)
    ensures
        indices_below(indices, width) <==> forall|i: int|
            0 <= i < indices.len() ==> (#[trigger] indices[i]) as int <= width - 1,
{
}

} // verus!
