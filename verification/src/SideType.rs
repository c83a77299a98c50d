//! The two inputs of a join, numbered so that a side can stand as a const generic argument.
use vstd::prelude::*;

verus! {

/// The number of a side of a join.
pub type SideTypePrimitive = u8;

pub const Left: SideTypePrimitive = 0;

pub const Right: SideTypePrimitive = 1;

/// Each side has its own number.
pub proof fn law_numbers()
    ensures
        Left == 0,
        Right == 1,
{
}

} // verus!
