//! A hash map from rows that remembers which of its values was put in last.
use std::collections::HashMap;

use vstd::prelude::*;

use crate::keyed::{
    at, distinct, has_key, lemma_at_index, lemma_push_new, lemma_without, pair_views, pos, without,
};
use crate::row::{Row, RowView, datum_view};

verus! {

broadcast use vstd::std_specs::hash::group_hash_axioms;

pub open spec fn pair_view<V: View>(pair: (Row, V)) -> (RowView, V::V) {
    (pair.0@, pair.1@)
}

/// The pairs that are there, in the order in which they were put in.
pub open spec fn live<V: View>(slots: Seq<Option<(Row, V)>>) -> Seq<(RowView, V::V)>
    decreases slots.len(),
{
    if slots.len() == 0 {
        Seq::empty()
    } else {
        let before = live(slots.drop_last());
        match slots.last() {
            Some(pair) => before.push(pair_view(pair)),
            None => before,
        }
    }
}

/// How many pairs stand before the slot `i`.
pub open spec fn rank<V: View>(slots: Seq<Option<(Row, V)>>, i: int) -> int {
    live(slots.take(i)).len() as int
}

pub proof fn lemma_live_at<V: View>(slots: Seq<Option<(Row, V)>>, i: int)
    requires
        0 <= i < slots.len(),
        slots[i] is Some,
    ensures
        0 <= rank(slots, i) < live(slots).len(),
        live(slots)[rank(slots, i)] == pair_view(slots[i]->0),
    decreases slots.len(),
{
    let less = slots.drop_last();
    if i == slots.len() - 1 {
        assert(slots.take(i) =~= less);
    } else {
        assert(less.take(i) =~= slots.take(i));
        assert(less[i] == slots[i]);
        lemma_live_at(less, i);
    }
}

/// Each pair that is there stands in some slot.
pub proof fn lemma_live_slot<V: View>(slots: Seq<Option<(Row, V)>>, r: int) -> (i: int)
    requires
        0 <= r < live(slots).len(),
    ensures
        0 <= i < slots.len(),
        slots[i] is Some,
        live(slots)[r] == pair_view(slots[i]->0),
    decreases slots.len(),
{
    let less = slots.drop_last();
    if slots.last() is Some && r == live(less).len() {
        slots.len() - 1
    } else {
        let i = lemma_live_slot(less, r);
        assert(less[i] == slots[i]);
        i
    }
}

/// Clearing a slot takes its pair out.
proof fn lemma_live_clear<V: View>(slots: Seq<Option<(Row, V)>>, i: int)
    requires
        0 <= i < slots.len(),
        slots[i] is Some,
    ensures
        0 <= rank(slots, i) < live(slots).len(),
        live(slots.update(i, None)) == live(slots).remove(rank(slots, i)),
    decreases slots.len(),
{
    let less = slots.drop_last();
    let cleared = slots.update(i, None);
    lemma_live_at(slots, i);
    if i == slots.len() - 1 {
        assert(slots.take(i) =~= less);
        assert(cleared.drop_last() =~= less);
        assert(live(slots).remove(rank(slots, i)) =~= live(less));
    } else {
        assert(less.take(i) =~= slots.take(i));
        assert(less[i] == slots[i]);
        lemma_live_clear(less, i);
        assert(cleared.drop_last() =~= less.update(i, None));
        assert(cleared.last() == slots.last());
        assert(live(cleared) =~= live(slots).remove(rank(slots, i)));
    }
}

/// A number for bytes, by which they are found.
pub open spec fn bytes_hash(start: u64, bytes: Seq<u8>) -> u64
    decreases bytes.len(),
{
    if bytes.len() == 0 {
        start
    } else {
        (bytes_hash(start, bytes.drop_last()) ^ bytes.last() as u64).wrapping_mul(0x100000001b3)
    }
}

/// A number for a row, by which it is found.
pub open spec fn row_hash(row: RowView) -> u64
    decreases row.len(),
{
    if row.len() == 0 {
        0xcbf29ce484222325
    } else {
        let before = row_hash(row.drop_last());
        match row.last() {
            Some(bytes) => bytes_hash(before.wrapping_mul(0x100000001b3), bytes),
            None => before.wrapping_add(1),
        }
    }
}

fn hash_bytes(start: u64, bytes: &Vec<u8>) -> (h: u64)
    ensures
        h == bytes_hash(start, bytes@),
{
    let n: usize = bytes.len();
    let mut h: u64 = start;
    let mut i: usize = 0;
    while i < n
        invariant
            i <= n,
            n == bytes@.len(),
            h == bytes_hash(start, bytes@.take(i as int)),
        decreases n - i,
    {
        proof {
            let next = bytes@.take(i + 1);
            assert(next.drop_last() =~= bytes@.take(i as int));
            assert(next.last() == bytes@[i as int]);
        }
        h = (h ^ bytes[i] as u64).wrapping_mul(0x100000001b3);
        i = i + 1;
    }
    assert(bytes@.take(n as int) =~= bytes@);
    h
}

fn hash_row(row: &Row) -> (h: u64)
    ensures
        h == row_hash(row@),
{
    let n: usize = row.0.len();
    let mut h: u64 = 0xcbf29ce484222325;
    let mut i: usize = 0;
    while i < n
        invariant
            i <= n,
            n == row.0@.len(),
            h == row_hash(row@.take(i as int)),
        decreases n - i,
    {
        proof {
            let next = row@.take(i + 1);
            assert(next.drop_last() =~= row@.take(i as int));
            assert(next.last() == datum_view(row.0@[i as int]));
        }
        match &row.0[i] {
            Some(bytes) => {
                h = hash_bytes(h.wrapping_mul(0x100000001b3), bytes);
            },
            None => {
                h = h.wrapping_add(1);
            },
        }
        i = i + 1;
    }
    assert(row@.take(n as int) =~= row@);
    h
}

/// A map from rows. Values are looked up by a hash of their key; the order in which they were put in
/// is kept.
pub struct RecencyMap<V> {
    /// The pairs in the order in which they were put in. A slot is empty once its pair was taken out.
    pub slots: Vec<Option<(Row, V)>>,
    /// For each hash, the slots that pairs with such a key were put into.
    pub index: HashMap<u64, Vec<usize>>,
    /// How many slots are not empty.
    pub count: usize,
}

impl<V: View> View for RecencyMap<V> {
    type V = Seq<(RowView, V::V)>;

    open spec fn view(&self) -> Seq<(RowView, V::V)> {
        live(self.slots@)
    }
}

/// Each pair is found by the hash of its key.
pub open spec fn indexed<V: View>(slots: Seq<Option<(Row, V)>>, index: Map<u64, Vec<usize>>) -> bool {
    forall|i: int|
        0 <= i < slots.len() && (#[trigger] slots[i]) is Some ==> {
            let h = row_hash(pair_view(slots[i]->0).0);
            index.contains_key(h) && index[h]@.contains(i as usize)
        }
}

impl<V: View> RecencyMap<V> {
    pub open spec fn well_formed(&self) -> bool {
        &&& distinct(self@)
        &&& indexed(self.slots@, self.index@)
        &&& self.count == self@.len()
    }

    pub fn new() -> (r: Self)
        ensures
            r.well_formed(),
            r@ == Seq::<(RowView, V::V)>::empty(),
    {
        RecencyMap { slots: Vec::new(), index: HashMap::new(), count: 0 }
    }

    /// The slot of a key, if it is there.
    fn find(&self, key: &Row) -> (r: Option<usize>)
        requires
            self.well_formed(),
        ensures
            match r {
                Some(i) => {
                    &&& i < self.slots@.len()
                    &&& self.slots@[i as int] is Some
                    &&& pair_view(self.slots@[i as int]->0).0 == key@
                    &&& has_key(self@, key@)
                    &&& pos(self@, key@) == rank(self.slots@, i as int)
                    &&& at(self@, key@) == pair_view(self.slots@[i as int]->0).1
                },
                None => !has_key(self@, key@),
            },
    {
        let h: u64 = hash_row(key);
        let total: usize = self.slots.len();
        match self.index.get(&h) {
            Some(bucket) => {
                // The slot that was filled last comes last.
                let mut n: usize = bucket.len();
                while n > 0
                    invariant
                        n <= bucket@.len(),
                        total == self.slots@.len(),
                        self.well_formed(),
                        forall|j: int|
                            n <= j < bucket@.len() ==> {
                                let i = (#[trigger] bucket@[j]) as int;
                                !(i < self.slots@.len() && self.slots@[i] is Some && pair_view(
                                    self.slots@[i]->0,
                                ).0 == key@)
                            },
                    decreases n,
                {
                    n = n - 1;
                    let i: usize = bucket[n];
                    if i < total {
                        if let Some(pair) = &self.slots[i] {
                            if pair.0.same(key) {
                                proof {
                                    lemma_live_at(self.slots@, i as int);
                                    lemma_at_index(self@, rank(self.slots@, i as int));
                                }
                                return Some(i);
                            }
                        }
                    }
                }
                proof {
                    if has_key(self@, key@) {
                        let i = lemma_live_slot(self.slots@, pos(self@, key@));
                        assert(self.index@[h]@.contains(i as usize));
                        let j = choose|j: int| 0 <= j < bucket@.len() && bucket@[j] == i as usize;
                        assert(bucket@[j] == i);
                    }
                }
                None
            },
            None => {
                proof {
                    if has_key(self@, key@) {
                        let i = lemma_live_slot(self.slots@, pos(self@, key@));
                        assert(self.index@.contains_key(h));
                    }
                }
                None
            },
        }
    }

    /// The value under a key.
    pub fn get(&self, key: &Row) -> (r: Option<&V>)
        requires
            self.well_formed(),
        ensures
            r is Some == has_key(self@, key@),
            r is Some ==> r->0@ == at(self@, key@),
    {
        match self.find(key) {
            Some(i) => match &self.slots[i] {
                Some(pair) => Some(&pair.1),
                None => None,
            },
            None => None,
        }
    }

    /// Takes out the value under a key.
    pub fn take(&mut self, key: &Row) -> (r: Option<V>)
        requires
            old(self).well_formed(),
        ensures
            final(self).well_formed(),
            final(self)@ == without(old(self)@, key@),
            r is Some == has_key(old(self)@, key@),
            r is Some ==> r->0@ == at(old(self)@, key@),
    {
        match self.find(key) {
            Some(i) => {
                let ghost before = self.slots@;
                proof {
                    lemma_live_clear(before, i as int);
                    lemma_without(self@, key@);
                }
                let mut slot: Option<(Row, V)> = None;
                std::mem::swap(&mut slot, &mut self.slots[i]);
                self.count = self.count - 1;
                assert(self.slots@ =~= before.update(i as int, None));
                match slot {
                    Some(pair) => Some(pair.1),
                    None => None,
                }
            },
            None => None,
        }
    }

    /// Puts a value in, under a key that is not there.
    pub fn push(&mut self, key: Row, value: V)
        requires
            old(self).well_formed(),
            !has_key(old(self)@, key@),
        ensures
            final(self).well_formed(),
            final(self)@ == old(self)@.push((key@, value@)),
    {
        proof {
            lemma_live_len(self.slots@);
        }
        let empty: usize = self.slots.len() - self.count;
        if empty > 16 && empty > self.count {
            let pairs = self.drain();
            for pair in it: pairs
                invariant
                    self.well_formed(),
                    distinct(old(self)@),
                    pair_views(it.seq()) == old(self)@,
                    self@ == old(self)@.take(it.index() as int),
            {
                proof {
                    lemma_next_pair(old(self)@, it.index() as int);
                    assert(pair_views(it.seq())[it.index() as int] == pair_view(pair));
                }
                self.append(pair.0, pair.1);
            }
            assert(old(self)@.take(old(self)@.len() as int) =~= old(self)@);
        }
        self.append(key, value);
    }

    fn append(&mut self, key: Row, value: V)
        requires
            old(self).well_formed(),
            !has_key(old(self)@, key@),
        ensures
            final(self).well_formed(),
            final(self)@ == old(self)@.push((key@, value@)),
    {
        let ghost before = self.slots@;
        let ghost index = self.index@;
        let i: usize = self.slots.len();
        let h: u64 = hash_row(&key);
        let mut bucket: Vec<usize> = match self.index.remove(&h) {
            Some(bucket) => bucket,
            None => Vec::new(),
        };
        let ghost old_bucket = bucket@;
        bucket.push(i);
        let ghost new_bucket = bucket@;
        self.index.insert(h, bucket);
        proof {
            lemma_live_len(before);
            lemma_push_new(self@, key@, value@);
        }
        let ghost pair = (key, value);
        self.slots.push(Some((key, value)));
        let total: usize = self.slots.len();
        assert(total == before.len() + 1);
        self.count = self.count + 1;
        proof {
            let slots = self.slots@;
            assert(slots.drop_last() =~= before);
            assert(self@ == live(before).push(pair_view(pair)));
            assert forall|k: int| 0 <= k < slots.len() && (#[trigger] slots[k]) is Some implies ({
                let g = row_hash(pair_view(slots[k]->0).0);
                self.index@.contains_key(g) && self.index@[g]@.contains(k as usize)
            }) by {
                let g = row_hash(pair_view(slots[k]->0).0);
                if k < before.len() {
                    assert(slots[k] == before[k]);
                    assert(index.contains_key(g) && index[g]@.contains(k as usize));
                    if g == h {
                        let j = choose|j: int|
                            0 <= j < old_bucket.len() && old_bucket[j] == k as usize;
                        assert(new_bucket[j] == k as usize);
                    }
                } else {
                    assert(new_bucket[new_bucket.len() - 1] == i);
                }
            }
        }
    }

    /// Takes all pairs out, in the order in which they were put in.
    pub fn drain(&mut self) -> (r: Vec<(Row, V)>)
        requires
            old(self).well_formed(),
        ensures
            final(self).well_formed(),
            final(self)@ == Seq::<(RowView, V::V)>::empty(),
            pair_views(r@) == old(self)@,
    {
        let mut slots: Vec<Option<(Row, V)>> = Vec::new();
        std::mem::swap(&mut slots, &mut self.slots);
        self.index = HashMap::new();
        self.count = 0;
        let ghost given = slots@;
        let mut pairs: Vec<(Row, V)> = Vec::new();
        assert(pair_views(pairs@) =~= live(given.take(0)));
        for slot in it: slots
            invariant
                it.seq() == given,
                pair_views(pairs@) == live(given.take(it.index() as int)),
        {
            proof {
                let i = it.index() as int;
                let next = given.take(i + 1);
                assert(next.drop_last() =~= given.take(i));
                assert(next.last() == given[i]);
            }
            match slot {
                Some(pair) => {
                    let ghost before = pairs@;
                    pairs.push(pair);
                    assert(pair_views(pairs@) =~= pair_views(before).push(pair_view(pair)));
                },
                None => {},
            }
        }
        assert(given.take(given.len() as int) =~= given);
        pairs
    }
}

proof fn lemma_live_len<V: View>(slots: Seq<Option<(Row, V)>>)
    ensures
        live(slots).len() <= slots.len(),
    decreases slots.len(),
{
    if slots.len() > 0 {
        lemma_live_len(slots.drop_last());
    }
}

/// The next pair of a list has a key that is not among those before it.
pub proof fn lemma_next_pair<W>(all: Seq<(RowView, W)>, i: int)
    requires
        distinct(all),
        0 <= i < all.len(),
    ensures
        !has_key(all.take(i), all[i].0),
        all.take(i + 1) == all.take(i).push(all[i]),
{
    let before = all.take(i);
    assert forall|j: int| 0 <= j < before.len() implies (#[trigger] before[j]).0 != all[i].0 by {
        assert(before[j] == all[j]);
    }
    assert(all.take(i + 1) =~= before.push(all[i]));
}

} // verus!
