//! What each kind of join does with the rows of each of its sides.
use vstd::prelude::*;

use crate::JoinType;
use crate::JoinType::JoinTypePrimitive;
use crate::SideType;
use crate::SideType::SideTypePrimitive;

verus! {

/// The rows of this side appear in the output even where they match nothing, padded with nulls.
pub open spec fn outer_side(join_type: u8, side_type: u8) -> bool {
    ||| join_type == JoinType::FullOuter
    ||| join_type == JoinType::LeftOuter && side_type == SideType::Left
    ||| join_type == JoinType::RightOuter && side_type == SideType::Right
}

/// The rows of the side across from this one appear in the output padded with nulls.
pub open spec fn other_side_outer(join_type: u8, side_type: u8) -> bool {
    ||| join_type == JoinType::FullOuter
    ||| join_type == JoinType::LeftOuter && side_type == SideType::Right
    ||| join_type == JoinType::RightOuter && side_type == SideType::Left
}

/// A semi or anti join whose output is made of the rows of the left side.
pub open spec fn keeps_left(join_type: u8) -> bool {
    join_type == JoinType::LeftSemi || join_type == JoinType::LeftAnti
}

/// A semi or anti join whose output is made of the rows of the right side.
pub open spec fn keeps_right(join_type: u8) -> bool {
    join_type == JoinType::RightSemi || join_type == JoinType::RightAnti
}

/// The output of a semi or anti join is made of the rows of this side.
pub open spec fn kept_side(join_type: u8, side_type: u8) -> bool {
    ||| keeps_left(join_type) && side_type == SideType::Left
    ||| keeps_right(join_type) && side_type == SideType::Right
}

/// The output of a semi or anti join is made of the rows of the side across from this one.
pub open spec fn other_side_kept(join_type: u8, side_type: u8) -> bool {
    ||| keeps_left(join_type) && side_type == SideType::Right
    ||| keeps_right(join_type) && side_type == SideType::Left
}

pub open spec fn semi(join_type: u8) -> bool {
    join_type == JoinType::LeftSemi || join_type == JoinType::RightSemi
}

pub open spec fn anti(join_type: u8) -> bool {
    join_type == JoinType::LeftAnti || join_type == JoinType::RightAnti
}

/// Whether unmatched rows of `side_type` are part of the output, padded with nulls.
pub fn is_outer_side(join_type: JoinTypePrimitive, side_type: SideTypePrimitive) -> (r: bool)
    ensures
        r == outer_side(join_type, side_type),
{
    join_type == JoinType::FullOuter
        || (join_type == JoinType::LeftOuter && side_type == SideType::Left)
        || (join_type == JoinType::RightOuter && side_type == SideType::Right)
}

/// Whether the columns of `side_type` are padded with nulls for unmatched rows of the other side.
pub fn outer_side_null(join_type: JoinTypePrimitive, side_type: SideTypePrimitive) -> (r: bool)
    ensures
        r == other_side_outer(join_type, side_type),
{
    join_type == JoinType::FullOuter
        || (join_type == JoinType::LeftOuter && side_type == SideType::Right)
        || (join_type == JoinType::RightOuter && side_type == SideType::Left)
}

/// Send the update only once if the join type is semi/anti and the update is the same side as the
/// join.
pub fn forward_exactly_once(join_type: JoinTypePrimitive, side_type: SideTypePrimitive) -> (r: bool)
    ensures
        r == kept_side(join_type, side_type),
{
    ((join_type == JoinType::LeftSemi || join_type == JoinType::LeftAnti)
        && side_type == SideType::Left)
        || ((join_type == JoinType::RightSemi || join_type == JoinType::RightAnti)
        && side_type == SideType::Right)
}

/// Whether an update of `side_type` can only send rows that it matched on the other side.
pub fn only_forward_matched_side(
    join_type: JoinTypePrimitive,
    side_type: SideTypePrimitive,
) -> (r: bool)
    ensures
        r == other_side_kept(join_type, side_type),
{
    ((join_type == JoinType::LeftSemi || join_type == JoinType::LeftAnti)
        && side_type == SideType::Right)
        || ((join_type == JoinType::RightSemi || join_type == JoinType::RightAnti)
        && side_type == SideType::Left)
}

pub fn is_semi(join_type: JoinTypePrimitive) -> (r: bool)
    ensures
        r == semi(join_type),
{
    join_type == JoinType::LeftSemi || join_type == JoinType::RightSemi
}

pub fn is_anti(join_type: JoinTypePrimitive) -> (r: bool)
    ensures
        r == anti(join_type),
{
    join_type == JoinType::LeftAnti || join_type == JoinType::RightAnti
}

pub fn is_semi_or_anti(join_type: JoinTypePrimitive) -> (r: bool)
    ensures
        r == (semi(join_type) || anti(join_type)),
{
    is_semi(join_type) || is_anti(join_type)
}

} // verus!
