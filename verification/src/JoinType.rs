//! The kinds of join, numbered so that a kind can stand as a const generic argument.
use vstd::prelude::*;

verus! {

/// The number of a kind of join.
pub type JoinTypePrimitive = u8;

pub const Inner: JoinTypePrimitive = 0;

pub const LeftOuter: JoinTypePrimitive = 1;

pub const RightOuter: JoinTypePrimitive = 2;

pub const FullOuter: JoinTypePrimitive = 3;

pub const LeftSemi: JoinTypePrimitive = 4;

pub const LeftAnti: JoinTypePrimitive = 5;

pub const RightSemi: JoinTypePrimitive = 6;

pub const RightAnti: JoinTypePrimitive = 7;

/// Each kind of join has its own number.
pub proof fn law_numbers()
    ensures
        Inner == 0,
        LeftOuter == 1,
        RightOuter == 2,
        FullOuter == 3,
        LeftSemi == 4,
        LeftAnti == 5,
        RightSemi == 6,
        RightAnti == 7,
{
}

} // verus!
