//! The catalog entry of a user-defined function.
use vstd::prelude::*;

use crate::schema::DataType;

verus! {

/// A function as the meta store records it.
#[derive(Debug, PartialEq, Eq)]
pub struct ProstFunction {
    pub id: u32,
    pub name: String,
    pub owner: u32,
    pub arg_types: Vec<DataType>,
    pub return_type: Option<DataType>,
    pub language: String,
    pub path: String,
}

/// The number that a function is known by.
#[derive(Clone, Copy, Debug, PartialEq, Eq, Structural, Hash)]
pub struct FunctionId(pub u32);

/// A user-defined function.
#[derive(Debug, PartialEq, Eq, Hash)]
pub struct FunctionCatalog {
    pub id: FunctionId,
    pub name: String,
    pub owner: u32,
    pub arg_types: Vec<DataType>,
    pub return_type: DataType,
    pub language: String,
    pub path: String,
}

impl Clone for FunctionCatalog {
    fn clone(&self) -> (r: Self)
        ensures
            r.id == self.id,
            r.name@ == self.name@,
            r.owner == self.owner,
            r.arg_types@ == self.arg_types@,
            r.return_type == self.return_type,
            r.language@ == self.language@,
            r.path@ == self.path@,
    {
        let arg_types = self.arg_types.clone();
        assert(arg_types@ =~= self.arg_types@);
        FunctionCatalog {
            id: self.id,
            name: self.name.clone(),
            owner: self.owner,
            arg_types,
            return_type: self.return_type,
            language: self.language.clone(),
            path: self.path.clone(),
        }
    }
}

impl FunctionCatalog {
    /// The entry for a function that has a return type.
    pub fn from(prost: &ProstFunction) -> (r: Self)
        requires
            prost.return_type is Some,
        ensures
            r.id == FunctionId(prost.id),
            r.name@ == prost.name@,
            r.owner == prost.owner,
            r.arg_types@ == prost.arg_types@,
            Some(r.return_type) == prost.return_type,
            r.language@ == prost.language@,
            r.path@ == prost.path@,
            is_entry_for(r, *prost),
    {
        let mut arg_types: Vec<DataType> = Vec::new();
        let n: usize = prost.arg_types.len();
        let mut i: usize = 0;
        while i < n
            invariant
                i <= n,
                n == prost.arg_types@.len(),
                arg_types@ == prost.arg_types@.take(i as int),
            decreases n - i,
        {
            arg_types.push(prost.arg_types[i]);
            assert(prost.arg_types@.take(i + 1) =~= prost.arg_types@.take(i as int).push(
                prost.arg_types@[i as int],
            ));
            i = i + 1;
        }
        assert(prost.arg_types@.take(n as int) =~= prost.arg_types@);
        let return_type = match prost.return_type {
            Some(data_type) => data_type,
            None => DataType::Boolean,
        };
        FunctionCatalog {
            id: FunctionId(prost.id),
            name: prost.name.clone(),
            owner: prost.owner,
            arg_types,
            return_type,
            language: prost.language.clone(),
            path: prost.path.clone(),
        }
    }
}

/// `catalog` is the entry for `prost`.
pub open spec fn is_entry_for(catalog: FunctionCatalog, prost: ProstFunction) -> bool {
    &&& catalog.id.0 == prost.id
    &&& catalog.name@ == prost.name@
    &&& catalog.owner == prost.owner
    &&& catalog.arg_types@ == prost.arg_types@
    &&& Some(catalog.return_type) == prost.return_type
    &&& catalog.language@ == prost.language@
    &&& catalog.path@ == prost.path@
}

/// The entry of a function has its arguments in their order, and tells apart what differs: two functions
/// with the same entry are the same.
pub proof fn law_entry_tells_functions_apart(
    a: FunctionCatalog,
    f: ProstFunction,
    b: FunctionCatalog,
    g: ProstFunction,
)
    requires
        is_entry_for(a, f),
        is_entry_for(b, g),
    ensures
        a.arg_types@.len() == f.arg_types@.len(),
        forall|i: int|
            0 <= i < f.arg_types@.len() ==> #[trigger] a.arg_types@[i] == f.arg_types@[i],
        a.id.0 == b.id.0 <==> f.id == g.id,
        a.name@ == b.name@ <==> f.name@ == g.name@,
        a.owner == b.owner <==> f.owner == g.owner,
        a.arg_types@ == b.arg_types@ <==> f.arg_types@ == g.arg_types@,
        a.return_type == b.return_type <==> f.return_type == g.return_type,
        a.language@ == b.language@ <==> f.language@ == g.language@,
        a.path@ == b.path@ <==> f.path@ == g.path@,
{
}

} // verus!
