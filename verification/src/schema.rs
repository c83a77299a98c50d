//! Columns and their types.
use vstd::prelude::*;

verus! {

/// The data type of a column. A composite type is known by its number in the catalog.
#[derive(Clone, Copy, Debug, PartialEq, Eq, Structural, Hash)]
pub enum DataType {
    Boolean,
    Int16,
    Int32,
    Int64,
    Float32,
    Float64,
    Decimal,
    Date,
    Varchar,
    Time,
    Timestamp,
    Timestampz,
    Interval,
    Struct(u32),
    List(u32),
}

/// A column.
#[derive(Debug, PartialEq, Eq)]
pub struct Field {
    pub data_type: DataType,
    pub name: String,
}

/// The model of a [`Field`].
pub struct FieldView {
    pub data_type: DataType,
    pub name: Seq<char>,
}

impl View for Field {
    type V = FieldView;

    open spec fn view(&self) -> FieldView {
        FieldView { data_type: self.data_type, name: self.name@ }
    }
}

impl Field {
    /// A column without a name.
    pub fn unnamed(data_type: DataType) -> (r: Self)
        ensures
            r@.data_type == data_type,
            r@.name == Seq::<char>::empty(),
    {
        let name = String::new();
        Field { data_type, name }
    }

    pub fn copy(&self) -> (r: Self)
        ensures
            r@ == self@,
    {
        Field { data_type: self.data_type, name: self.name.clone() }
    }
}

/// The columns of a stream.
#[derive(Debug, PartialEq, Eq)]
pub struct Schema {
    pub fields: Vec<Field>,
}

impl View for Schema {
    type V = Seq<FieldView>;

    open spec fn view(&self) -> Seq<FieldView> {
        Seq::new(self.fields@.len(), |i: int| self.fields@[i]@)
    }
}

/// The data types of columns.
pub open spec fn types_of(fields: Seq<FieldView>) -> Seq<DataType> {
    Seq::new(fields.len(), |i: int| fields[i].data_type)
}

impl Schema {
    /// The number of columns.
    pub fn len(&self) -> (n: usize)
        ensures
            n == self@.len(),
    {
        self.fields.len()
    }

    pub fn copy(&self) -> (r: Self)
        ensures
            r@ == self@,
    {
        let mut fields: Vec<Field> = Vec::new();
        let n: usize = self.fields.len();
        let mut i: usize = 0;
        while i < n
            invariant
                i <= n,
                n == self.fields@.len(),
                fields@.len() == i,
                forall|j: int| 0 <= j < i ==> (#[trigger] fields@[j])@ == self@[j],
            decreases n - i,
        {
            fields.push(self.fields[i].copy());
            i = i + 1;
        }
        let r = Schema { fields };
        assert(r@ =~= self@);
        r
    }

    /// The columns of `self`, and behind them those of `other`.
    pub fn concat(&self, other: &Schema) -> (r: Self)
        ensures
            r@ == self@ + other@,
    {
        let mut r = self.copy();
        let mut rest = other.copy();
        let ghost a = r@;
        let ghost b = rest@;
        r.fields.append(&mut rest.fields);
        assert(r@ =~= a + b);
        r
    }

    pub fn data_types(&self) -> (r: Vec<DataType>)
        ensures
            r@ == types_of(self@),
    {
        let mut types: Vec<DataType> = Vec::new();
        let n: usize = self.fields.len();
        let mut i: usize = 0;
        while i < n
            invariant
                i <= n,
                n == self.fields@.len(),
                types@.len() == i,
                forall|j: int| 0 <= j < i ==> #[trigger] types@[j] == self@[j].data_type,
            decreases n - i,
        {
            types.push(self.fields[i].data_type);
            i = i + 1;
        }
        assert(types@ =~= types_of(self@));
        types
    }
}

/// The columns of a schema stand in the order of its fields, each with its name and its type.
pub proof fn law_columns_of_schema(schema: Schema, i: int)
    requires
        0 <= i < schema.fields@.len(),
    ensures
        schema@.len() == schema.fields@.len(),
        schema@[i].name == schema.fields@[i].name@,
        schema@[i].data_type == schema.fields@[i].data_type,
        types_of(schema@).len() == schema.fields@.len(),
        types_of(schema@)[i] == schema.fields@[i].data_type,
{
}

} // verus!
