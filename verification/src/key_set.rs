//! Sets of join keys, each with the side that it belongs to.
use madsim::collections::HashSet;
use vstd::prelude::*;

use crate::row::{Row, RowView};

verus! {

/// A set of join keys, `HashSet` of `madsim::collections`. An item is a side and the values of a key;
/// two items are the same where the sides and the values are.
pub type KeySet = HashSet<(u8, Vec<Option<Vec<u8>>>)>;

/// The keys that a set holds.
pub uninterp spec fn key_contents(set: KeySet) -> Set<(u8, RowView)>;

/// `HashSet::new`: a set that holds nothing.
#[verifier::external_body]
pub(crate) fn empty_key_set() -> (r: KeySet)
    ensures
        key_contents(r) == Set::<(u8, RowView)>::empty(),
{
    HashSet::new()
}

/// `HashSet::insert`: afterwards the set holds the key too. Returns whether it did not before.
#[verifier::external_body]
pub(crate) fn insert_key(set: &mut KeySet, side: u8, key: Row) -> (r: bool)
    ensures
        key_contents(*final(set)) == key_contents(*old(set)).insert((side, key@)),
        r == !key_contents(*old(set)).contains((side, key@)),
{
    set.insert((side, key.0))
}

/// `HashSet::remove`: afterwards the set holds the key no longer. Returns whether it did before.
#[verifier::external_body]
pub(crate) fn remove_key(set: &mut KeySet, side: u8, key: &Row) -> (r: bool)
    ensures
        key_contents(*final(set)) == key_contents(*old(set)).remove((side, key@)),
        r == key_contents(*old(set)).contains((side, key@)),
{
    set.remove(&(side, key.0.clone()))
}

/// `HashSet::is_disjoint`: whether no key is in both sets.
#[verifier::external_body]
pub(crate) fn are_disjoint(a: &KeySet, b: &KeySet) -> (r: bool)
    ensures
        r == key_contents(*a).disjoint(key_contents(*b)),
{
    a.is_disjoint(b)
}

} // verus!
