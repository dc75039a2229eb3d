//! Sets of 32-byte values: what the ledger keeps of the nullifiers it has seen
//! and of the roots its tree has had.

use crate::crypto::repr::same_bytes;
use std::collections::HashMap;
use vstd::bytes::{spec_u64_from_le_bytes, u64_from_le_bytes};
use vstd::prelude::*;
use vstd::slice::slice_subrange;

verus! {

broadcast use vstd::std_specs::hash::group_hash_axioms;

/// The bytes of each entry of `items`, in order.
pub open spec fn entries_view(items: Seq<[u8; 32]>) -> Seq<Seq<u8>> {
    Seq::new(items.len(), |i: int| items[i]@)
}

/// The number that the first eight bytes of a value spell, lowest byte first: the
/// key under which the value is looked up.
pub open spec fn prefix_of(value: Seq<u8>) -> u64 {
    spec_u64_from_le_bytes(value.subrange(0, 8))
}

/// The key under which `value` is looked up.
fn prefix(value: &[u8; 32]) -> (r: u64)
    ensures
        r == prefix_of(value@),
{
    u64_from_le_bytes(slice_subrange(value.as_slice(), 0, 8))
}

/// A set of 32-byte values that only grows. Its view is the set of the values
/// inserted so far.
///
/// The values are kept in the order of their coming; an index from the first
/// bytes of a value to the places of the values that begin so finds a value
/// without a walk through all of them.
pub struct DigestSet {
    items: Vec<[u8; 32]>,
    index: HashMap<u64, Vec<usize>>,
}

impl View for DigestSet {
    type V = Set<Seq<u8>>;

    closed spec fn view(&self) -> Set<Seq<u8>> {
        entries_view(self.items@).to_set()
    }
}

impl DigestSet {
    /// Whether every place that the index holds under a key is the place of a value
    /// with that key.
    spec fn index_is_sound(&self) -> bool {
        forall|key: u64, j: int|
            #![trigger self.index@[key]@[j]]
            self.index@.contains_key(key) && 0 <= j < self.index@[key]@.len() ==> {
                &&& self.index@[key]@[j] < self.items.len()
                &&& prefix_of(self.items[self.index@[key]@[j] as int]@) == key
            }
    }

    /// Whether the index holds the place of every value, under the key of the value.
    spec fn index_is_complete(&self) -> bool {
        forall|i: int|
            #![trigger self.items[i]]
            0 <= i < self.items.len() ==> {
                &&& self.index@.contains_key(prefix_of(self.items[i]@))
                &&& self.index@[prefix_of(self.items[i]@)]@.contains(i as usize)
            }
    }

    /// What holds of every set that this module hands out: it keeps each of its
    /// values once, and its index finds every one of them.
    pub closed spec fn wf(&self) -> bool {
        &&& entries_view(self.items@).no_duplicates()
        &&& self.index_is_sound()
        &&& self.index_is_complete()
    }

    /// A well-formed set is finite.
    pub proof fn lemma_finite(&self)
        requires
            self.wf(),
        ensures
            self@.finite(),
    {
        vstd::seq_lib::seq_to_set_is_finite(entries_view(self.items@));
    }

    /// The set without values.
    pub fn new() -> (r: Self)
        ensures
            r.wf(),
            r@ == Set::<Seq<u8>>::empty(),
    {
        let r = DigestSet { items: Vec::new(), index: HashMap::new() };
        r
    }

    /// Whether `value` is in the set.
    pub fn contains(&self, value: &[u8; 32]) -> (r: bool)
        requires
            self.wf(),
        ensures
            r == self@.contains(value@),
    {
        let ghost entries = entries_view(self.items@);
        let key = prefix(value);
        match self.index.get(&key) {
            None => {
                assert forall|i: int| 0 <= i < entries.len() implies entries[i] != value@ by {
                    let _ = self.items[i];
                }
                false
            },
            Some(places) => {
                let mut j: usize = 0;
                while j < places.len()
                    invariant
                        self.wf(),
                        entries == entries_view(self.items@),
                        self.index@.contains_key(key),
                        self.index@[key] == *places,
                        forall|n: int| 0 <= n < j ==> entries[places@[n] as int] != value@,
                    decreases places.len() - j,
                {
                    let place = places[j];
                    if same_bytes(&self.items[place], value) {
                        assert(entries[place as int] == value@);
                        return true;
                    }
                    j = j + 1;
                }
                assert forall|i: int| 0 <= i < entries.len() implies entries[i] != value@ by {
                    let _ = self.items[i];
                    if entries[i] == value@ {
                        let n = choose|n: int| 0 <= n < places@.len() && places@[n] == i as usize;
                    }
                }
                false
            },
        }
    }

    /// Puts `value` into the set, and tells whether it was new to it.
    pub fn insert(&mut self, value: [u8; 32]) -> (r: bool)
        requires
            old(self).wf(),
        ensures
            final(self).wf(),
            final(self)@ == old(self)@.insert(value@),
            r == !old(self)@.contains(value@),
    {
        if self.contains(&value) {
            return false;
        }
        let ghost before = entries_view(self.items@);
        let ghost old_items = self.items@;
        let ghost old_index = self.index@;
        let key = prefix(&value);
        let place = self.items.len();
        self.items.push(value);
        let mut places = match self.index.remove(&key) {
            Some(places) => places,
            None => Vec::new(),
        };
        let ghost old_places = places@;
        places.push(place);
        let ghost new_places = places;
        self.index.insert(key, places);
        proof {
            let after = entries_view(self.items@);
            assert(after =~= before.push(value@));
            assert(self.index@ =~= old_index.insert(key, new_places));
            assert forall|i: int, j: int| 0 <= i < after.len() && 0 <= j < after.len() && i
                != j implies after[i] != after[j] by {
                if i < before.len() && j < before.len() {
                    assert(before[i] != before[j]);
                } else if i < before.len() {
                    assert(before.contains(before[i]));
                } else {
                    assert(before.contains(before[j]));
                }
            }
            assert forall|x: Seq<u8>| after.to_set().contains(x) <==> before.to_set().insert(
                value@,
            ).contains(x) by {
                if after.contains(x) {
                    let i = choose|i: int| 0 <= i < after.len() && after[i] == x;
                    if i < before.len() {
                        assert(before[i] == x);
                    }
                }
                if before.contains(x) {
                    let i = choose|i: int| 0 <= i < before.len() && before[i] == x;
                    assert(after[i] == x);
                }
                if x == value@ {
                    assert(after[before.len() as int] == x);
                }
            }
            assert forall|k: u64, j: int|
                #![trigger self.index@[k]@[j]]
                self.index@.contains_key(k) && 0 <= j < self.index@[k]@.len() implies {
                &&& self.index@[k]@[j] < self.items.len()
                &&& prefix_of(self.items[self.index@[k]@[j] as int]@) == k
            } by {
                if k == key {
                    if j < old_places.len() {
                        assert(old_index[key]@[j] == old_places[j]);
                    }
                } else {
                    assert(old_index[k]@[j] < old_items.len());
                }
            }
            assert forall|i: int|
                #![trigger self.items[i]]
                0 <= i < self.items.len() implies {
                &&& self.index@.contains_key(prefix_of(self.items[i]@))
                &&& self.index@[prefix_of(self.items[i]@)]@.contains(i as usize)
            } by {
                if i < old_items.len() {
                    let _ = old_items[i];
                    let k = prefix_of(old_items[i]@);
                    if k == key {
                        let n = choose|n: int| 0 <= n < old_places.len() && old_places[n] == i as usize;
                        assert(old_places.push(place)[n] == i as usize);
                    }
                } else {
                    assert(old_places.push(place)[old_places.len() as int] == place);
                }
            }
        }
        true
    }

    /// The number of values in the set.
    pub fn len(&self) -> (r: usize)
        requires
            self.wf(),
        ensures
            r == self@.len(),
    {
        proof {
            entries_view(self.items@).unique_seq_to_set();
        }
        self.items.len()
    }

    /// Whether the set holds no value.
    pub fn is_empty(&self) -> (r: bool)
        requires
            self.wf(),
        ensures
            r == (self@.len() == 0),
    {
        self.len() == 0
    }
}

} // verus!
