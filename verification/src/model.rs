//! What a table is, as a mathematical value, and how a search goes through it.

use vstd::arithmetic::power2::*;
use vstd::prelude::*;

use crate::byte_array::ByteArray;
use crate::hash_fn::{HashFn, HashValue};
use crate::raw_table::{Entry, EntryMetadata};
use crate::swisstable_group_query::GROUP_SIZE;

verus! {

/// The seven bits of a hash value that the control byte of an occupied slot holds.
pub open spec fn h2_of(hash: HashValue) -> u8 {
    (hash / 0x200_0000) as u8
}

/// The control byte of a hash value is its seven highest bits: of the 128 intervals of
/// equal length that the hash values fall into, it says in which one the value is.
pub proof fn law_control_byte_of_hash(hash: HashValue)
    ensures
        h2_of(hash) * 0x200_0000 <= hash < (h2_of(hash) + 1) * 0x200_0000,
        h2_of(hash) < 128,
        h2_of(hash) == hash >> 25u32,
{
    assert(hash >> 25u32 == hash / 0x200_0000u32) by (bit_vector);
}

/// The map after all of `pairs` have been inserted, one after the other.
pub open spec fn map_insert_all<K: ByteArray, V>(
    map: Map<Seq<u8>, V>,
    pairs: Seq<(K, V)>,
) -> Map<Seq<u8>, V>
    decreases pairs.len(),
{
    if pairs.len() == 0 {
        map
    } else {
        map_insert_all(map, pairs.drop_last()).insert(pairs.last().0.bytes(), pairs.last().1)
    }
}

/// The contents of the two arrays that a table is made of: a control byte for each
/// slot, with a copy of the first `GROUP_SIZE` ones at the end, and an entry for
/// each slot.
#[verifier::ext_equal]
pub struct TableModel<K: ByteArray, V: ByteArray> {
    pub metadata: Seq<EntryMetadata>,
    pub data: Seq<Entry<K, V>>,
}

impl<K: ByteArray, V: ByteArray> TableModel<K, V> {
    /// The number of slots is a power of two, and the control bytes are
    /// `GROUP_SIZE` more.
    pub open spec fn well_shaped(self) -> bool {
        &&& is_pow2(self.data.len() as int)
        &&& self.metadata.len() == self.data.len() + GROUP_SIZE
    }

    /// Slot `i` holds no entry.
    pub open spec fn free(self, i: int) -> bool {
        0 <= i < self.data.len() && crate::swisstable_group_query::is_free(self.metadata[i])
    }

    /// The slots that hold no entry.
    pub open spec fn free_slots(self) -> Set<int> {
        Set::new(|i: int| self.free(i))
    }

    /// Slot `i` holds an entry.
    pub open spec fn occupied(self, i: int) -> bool {
        0 <= i < self.data.len() && !crate::swisstable_group_query::is_free(self.metadata[i])
    }

    /// Some slot holds no entry.
    pub open spec fn has_free_slot(self) -> bool {
        exists|i: int| self.free(i)
    }

    /// Slot `i` holds an entry for `key`.
    pub open spec fn holds(self, i: int, key: Seq<u8>) -> bool {
        self.occupied(i) && self.data[i].key.bytes() == key
    }

    /// The entries of the table, as a map from the bytes of a key to a value.
    pub open spec fn contents(self) -> Map<Seq<u8>, V> {
        Map::new(
            |key: Seq<u8>| exists|i: int| self.holds(i, key),
            |key: Seq<u8>| self.data[choose|i: int| self.holds(i, key)].value,
        )
    }

    /// The control bytes behind that of the last slot repeat those of the first
    /// slots. In a table with fewer than `GROUP_SIZE` slots, what is left behind
    /// the copy stands for empty slots.
    pub open spec fn mirrored(self) -> bool {
        forall|j: int|
            self.data.len() <= j < self.data.len() + GROUP_SIZE ==> if j < 2 * self.data.len() {
                #[trigger] self.metadata[j] == self.metadata[j - self.data.len()]
            } else {
                crate::swisstable_group_query::is_free(self.metadata[j])
            }
    }

    /// The slot at which the `k`-th group of the search for `key` starts.
    pub open spec fn group_start<H: HashFn>(self, key: Seq<u8>, k: nat) -> int {
        crate::probing::probe_start(H::hash_of(key), self.data.len(), k)
    }

    /// The `m`-th slot of the group that starts at `start`.
    pub open spec fn slot_at(self, start: int, m: int) -> int {
        (start + m) % (self.data.len() as int)
    }

    /// The `m`-th control byte of the group that starts at `start` is the one that
    /// `key` has, and the key in its slot is `key`.
    pub open spec fn matches_at<H: HashFn>(self, key: Seq<u8>, start: int, m: int) -> bool {
        &&& 0 <= m < GROUP_SIZE
        &&& self.metadata[start + m] == h2_of(H::hash_of(key))
        &&& self.data[self.slot_at(start, m)].key.bytes() == key
    }

    /// The `m`-th control byte of the group that starts at `start` is its first one
    /// that stands for an empty slot.
    pub open spec fn first_free_at(self, start: int, m: int) -> bool {
        &&& 0 <= m < GROUP_SIZE
        &&& crate::swisstable_group_query::is_free(self.metadata[start + m])
        &&& forall|i: int|
            0 <= i < m ==> !#[trigger] crate::swisstable_group_query::is_free(
                self.metadata[start + i],
            )
    }

    /// The `k`-th group of the search for `key` holds a match.
    pub open spec fn group_matches<H: HashFn>(self, key: Seq<u8>, k: nat) -> bool {
        exists|m: int| self.matches_at::<H>(key, self.group_start::<H>(key, k), m)
    }

    /// The `k`-th group of the search for `key` holds a control byte that stands for
    /// an empty slot.
    pub open spec fn group_has_free<H: HashFn>(self, key: Seq<u8>, k: nat) -> bool {
        exists|m: int| self.first_free_at(self.group_start::<H>(key, k), m)
    }

    /// The search for `key` goes on behind its `k`-th group.
    pub open spec fn passes<H: HashFn>(self, key: Seq<u8>, k: nat) -> bool {
        !self.group_matches::<H>(key, k) && !self.group_has_free::<H>(key, k)
    }

    /// The search for `key` comes to its `k`-th group.
    pub open spec fn comes_to<H: HashFn>(self, key: Seq<u8>, k: nat) -> bool {
        forall|j: nat| j < k ==> self.passes::<H>(key, j)
    }

    /// The search for `key` ends successfully, at the `m`-th slot of the `k`-th
    /// group.
    pub open spec fn found_at<H: HashFn>(self, key: Seq<u8>, k: nat, m: int) -> bool {
        &&& self.comes_to::<H>(key, k)
        &&& self.matches_at::<H>(key, self.group_start::<H>(key, k), m)
        &&& forall|i: int|
            0 <= i < m ==> !self.matches_at::<H>(key, self.group_start::<H>(key, k), i)
    }

    /// The search for `key` ends without success, in the `k`-th group.
    pub open spec fn missed_at<H: HashFn>(self, key: Seq<u8>, k: nat) -> bool {
        &&& self.comes_to::<H>(key, k)
        &&& !self.group_matches::<H>(key, k)
        &&& self.group_has_free::<H>(key, k)
    }

    /// The search for `key` ends.
    pub open spec fn search_ends<H: HashFn>(self, key: Seq<u8>) -> bool {
        exists|k: nat| !self.passes::<H>(key, k)
    }

    /// The slot at which the search for `key` ends, if it is successful.
    pub open spec fn search<H: HashFn>(self, key: Seq<u8>) -> Option<int> {
        if exists|k: nat, m: int| self.found_at::<H>(key, k, m) {
            let (k, m) = choose|k: nat, m: int| self.found_at::<H>(key, k, m);
            Some(self.slot_at(self.group_start::<H>(key, k), m))
        } else {
            None
        }
    }

    /// The slot that an unsuccessful search for `key` proposes for it: the first empty
    /// one of the group in which the search ends.
    pub open spec fn vacancy<H: HashFn>(self, key: Seq<u8>) -> int {
        let k = choose|k: nat| self.missed_at::<H>(key, k);
        let start = self.group_start::<H>(key, k);
        self.slot_at(start, choose|m: int| self.first_free_at(start, m))
    }

    /// The value that a search for `key` gives.
    pub open spec fn get<H: HashFn>(self, key: Seq<u8>) -> Option<V> {
        match self.search::<H>(key) {
            Some(slot) => Some(self.data[slot].value),
            None => None,
        }
    }

    /// The table with `value` in `slot`, which keeps its key.
    pub open spec fn with_value(self, slot: int, value: V) -> Self {
        TableModel {
            metadata: self.metadata,
            data: self.data.update(slot, Entry { key: self.data[slot].key, value }),
        }
    }

    /// The table with `entry` in `slot`, and with its control byte there and, for one
    /// of the first slots, in the copy.
    pub open spec fn with_entry<H: HashFn>(self, slot: int, entry: Entry<K, V>) -> Self {
        let h2 = h2_of(H::hash_of(entry.key.bytes()));
        let metadata = self.metadata.update(slot, h2);
        TableModel {
            metadata: if slot < GROUP_SIZE {
                metadata.update(self.data.len() + slot, h2)
            } else {
                metadata
            },
            data: self.data.update(slot, entry),
        }
    }

    /// The table after `value` has been inserted for `key`.
    pub open spec fn insert<H: HashFn>(self, key: K, value: V) -> Self {
        match self.search::<H>(key.bytes()) {
            Some(slot) => self.with_value(slot, value),
            None => self.with_entry::<H>(
                self.vacancy::<H>(key.bytes()),
                Entry { key, value },
            ),
        }
    }

    /// The table after all of `pairs` have been inserted, one after the other.
    pub open spec fn insert_all<H: HashFn>(self, pairs: Seq<(K, V)>) -> Self
        decreases pairs.len(),
    {
        if pairs.len() == 0 {
            self
        } else {
            self.insert_all::<H>(pairs.drop_last()).insert::<H>(pairs.last().0, pairs.last().1)
        }
    }

    /// The search for the key in slot `i` comes to that slot.
    pub open spec fn reachable<H: HashFn>(self, i: int) -> bool {
        exists|k: nat, m: int| self.reached_at::<H>(i, k, m)
    }

    /// The search for the key in slot `i` comes to that slot as the `m`-th of the
    /// `k`-th group, whatever keys are in the groups before.
    pub open spec fn reached_at<H: HashFn>(self, i: int, k: nat, m: int) -> bool {
        let key = self.data[i].key.bytes();
        &&& 0 <= m < GROUP_SIZE
        &&& m < self.data.len()
        &&& self.slot_at(self.group_start::<H>(key, k), m) == i
        &&& forall|j: nat| j < k ==> !self.group_has_free::<H>(key, j)
    }

    /// The table is one that insertions into an empty table lead to: its shape is
    /// right, the copy of the first control bytes is right, each occupied slot has the
    /// control byte of its key, no key is in two slots, and each can be found.
    pub open spec fn valid<H: HashFn>(self) -> bool {
        &&& self.well_shaped()
        &&& self.mirrored()
        &&& forall|i: int| #[trigger]
            self.occupied(i) ==> self.metadata[i] == h2_of(
                H::hash_of(self.data[i].key.bytes()),
            )
        &&& forall|i: int, j: int| #[trigger]
            self.occupied(i) && #[trigger] self.occupied(j) && self.data[i].key.bytes()
                == self.data[j].key.bytes() ==> i == j
        &&& forall|i: int| #[trigger] self.occupied(i) ==> self.reachable::<H>(i)
    }

    /// The entries in the slots from `i` on, each with its control byte.
    pub open spec fn entries_from(self, i: int) -> Seq<(EntryMetadata, Entry<K, V>)>
        decreases self.data.len() - i,
    {
        if i >= self.data.len() {
            Seq::empty()
        } else if self.occupied(i) {
            seq![(self.metadata[i], self.data[i])] + self.entries_from(i + 1)
        } else {
            self.entries_from(i + 1)
        }
    }

    /// Slots without an entry hold zeros only.
    pub open spec fn free_slots_zeroed(self) -> bool {
        forall|i: int| #[trigger]
            self.free(i) ==> {
                &&& crate::byte_array::all_zeros(self.data[i].key.bytes())
                &&& crate::byte_array::all_zeros(self.data[i].value.bytes())
            }
    }

    /// What is wrong with slot `i`, in words, if anything is: a slot without an entry
    /// that holds something else than zeros, or a control byte that is not the one of
    /// the key in the slot.
    pub open spec fn slot_fault<H: HashFn>(self, i: int) -> Option<Seq<char>> {
        let entry = self.data[i];
        let h2 = h2_of(H::hash_of(entry.key.bytes()));
        if self.free(i) {
            if crate::byte_array::all_zeros(entry.key.bytes()) && crate::byte_array::all_zeros(
                entry.value.bytes(),
            ) {
                None
            } else {
                Some(crate::error::nonzero_text(i as nat))
            }
        } else if self.metadata[i] != h2 {
            Some(crate::error::mismatch_text(i as nat, h2, self.metadata[i]))
        } else {
            None
        }
    }

    /// A search for `key` comes to an end: in a valid table it does if the key is there or
    /// a slot is free.
    pub open spec fn settles<H: HashFn>(self, key: Seq<u8>) -> bool {
        ||| self.search_ends::<H>(key)
        ||| self.valid::<H>() && (self.contents().contains_key(key) || self.has_free_slot())
    }

    /// The table can take a value for `key`: the key is there, or a slot is free.
    pub open spec fn has_room<H: HashFn>(self, key: Seq<u8>) -> bool {
        ||| self.search::<H>(key) is Some
        ||| self.valid::<H>() && self.contents().contains_key(key)
        ||| self.has_free_slot()
    }
}

impl<K: ByteArray, V: ByteArray> TableModel<K, V> {
    /// In a table with the right copy, a control byte of a group is that of its slot.
    pub proof fn lemma_control_byte(self, start: int, m: int)
        requires
            self.well_shaped(),
            self.mirrored(),
            0 <= start < self.data.len(),
            0 <= m < GROUP_SIZE,
        ensures
            0 <= self.slot_at(start, m) < self.data.len(),
            start + m < 2 * self.data.len() ==> self.metadata[start + m]
                == self.metadata[self.slot_at(start, m)],
            start + m >= 2 * self.data.len() ==> crate::swisstable_group_query::is_free(
                self.metadata[start + m],
            ),
    {
        let n = self.data.len() as int;
        vstd::arithmetic::div_mod::lemma_mod_bound(start + m, n);
        if start + m < n {
            vstd::arithmetic::div_mod::lemma_small_mod((start + m) as nat, n as nat);
        } else if start + m < 2 * n {
            vstd::arithmetic::div_mod::lemma_fundamental_div_mod_converse(
                start + m,
                n,
                1,
                start + m - n,
            );
            assert(self.metadata[start + m] == self.metadata[start + m - n]);
        } else {
            assert(crate::swisstable_group_query::is_free(self.metadata[start + m]));
        }
    }

    pub proof fn lemma_group_start<H: HashFn>(self, key: Seq<u8>, k: nat)
        requires
            self.well_shaped(),
        ensures
            self.data.len() > 0,
            0 <= self.group_start::<H>(key, k) < self.data.len(),
    {
        reveal(is_pow2);
        vstd::arithmetic::div_mod::lemma_mod_bound(
            H::hash_of(key) + GROUP_SIZE * crate::probing::triangular(k),
            self.data.len() as int,
        );
    }

    /// A group with a free control byte has a first one.
    pub proof fn lemma_first_free(self, start: int, m: int) -> (first: int)
        requires
            0 <= m < GROUP_SIZE,
            crate::swisstable_group_query::is_free(self.metadata[start + m]),
        ensures
            first <= m,
            self.first_free_at(start, first),
        decreases m,
    {
        if exists|i: int|
            0 <= i < m && #[trigger] crate::swisstable_group_query::is_free(
                self.metadata[start + i],
            ) {
            let i = choose|i: int|
                0 <= i < m && #[trigger] crate::swisstable_group_query::is_free(
                    self.metadata[start + i],
                );
            self.lemma_first_free(start, i)
        } else {
            m
        }
    }

    /// A group with a match has a first one.
    pub proof fn lemma_first_match<H: HashFn>(self, key: Seq<u8>, start: int, m: int) -> (first:
        int)
        requires
            self.matches_at::<H>(key, start, m),
        ensures
            first <= m,
            self.matches_at::<H>(key, start, first),
            forall|i: int| 0 <= i < first ==> !self.matches_at::<H>(key, start, i),
        decreases m,
    {
        if exists|i: int| 0 <= i < m && self.matches_at::<H>(key, start, i) {
            let i = choose|i: int| 0 <= i < m && self.matches_at::<H>(key, start, i);
            self.lemma_first_match::<H>(key, start, i)
        } else {
            m
        }
    }

    /// A search that does not pass some group has a first one that it does not pass.
    proof fn lemma_first_stop<H: HashFn>(self, key: Seq<u8>, k: nat) -> (stop: nat)
        requires
            !self.passes::<H>(key, k),
        ensures
            stop <= k,
            !self.passes::<H>(key, stop),
            self.comes_to::<H>(key, stop),
        decreases k,
    {
        if exists|j: nat| j < k && !self.passes::<H>(key, j) {
            let j = choose|j: nat| j < k && !self.passes::<H>(key, j);
            self.lemma_first_stop::<H>(key, j)
        } else {
            k
        }
    }

    /// A search that ends does so before it comes back to a group.
    pub proof fn lemma_search_stop<H: HashFn>(self, key: Seq<u8>) -> (stop: nat)
        requires
            self.well_shaped(),
            self.search_ends::<H>(key),
        ensures
            stop < crate::probing::probe_groups(self.data.len()),
            !self.passes::<H>(key, stop),
            self.comes_to::<H>(key, stop),
    {
        let k = choose|k: nat| !self.passes::<H>(key, k);
        let j = crate::probing::lemma_probe_is_periodic(H::hash_of(key), self.data.len(), k);
        assert(self.group_start::<H>(key, j) == self.group_start::<H>(key, k));
        assert(!self.passes::<H>(key, j)) by {
            if self.group_matches::<H>(key, k) {
                let m = choose|m: int|
                    self.matches_at::<H>(key, self.group_start::<H>(key, k), m);
                assert(self.matches_at::<H>(key, self.group_start::<H>(key, j), m));
            } else {
                let m = choose|m: int| self.first_free_at(self.group_start::<H>(key, k), m);
                assert(self.first_free_at(self.group_start::<H>(key, j), m));
            }
        }
        self.lemma_first_stop::<H>(key, j)
    }

    /// A search has one end only: a successful end is where it says.
    pub proof fn lemma_search_found<H: HashFn>(self, key: Seq<u8>, k: nat, m: int)
        requires
            self.found_at::<H>(key, k, m),
        ensures
            self.search::<H>(key) == Some(self.slot_at(self.group_start::<H>(key, k), m)),
    {
        let (k1, m1) = choose|k1: nat, m1: int| self.found_at::<H>(key, k1, m1);
        assert(self.found_at::<H>(key, k1, m1));
        assert(self.group_matches::<H>(key, k));
        assert(self.group_matches::<H>(key, k1));
        assert(!self.passes::<H>(key, k));
        assert(!self.passes::<H>(key, k1));
        assert(k == k1);
    }

    /// A search has one end only: an unsuccessful end is where it says.
    pub proof fn lemma_search_missed<H: HashFn>(self, key: Seq<u8>, k: nat, m: int)
        requires
            self.missed_at::<H>(key, k),
            self.first_free_at(self.group_start::<H>(key, k), m),
        ensures
            self.search::<H>(key) is None,
            self.vacancy::<H>(key) == self.slot_at(self.group_start::<H>(key, k), m),
    {
        assert(!self.passes::<H>(key, k));
        assert forall|k1: nat, m1: int| !self.found_at::<H>(key, k1, m1) by {
            if self.found_at::<H>(key, k1, m1) {
                assert(self.group_matches::<H>(key, k1));
                assert(!self.passes::<H>(key, k1));
                assert(k == k1);
            }
        }
        let k1 = choose|k1: nat| self.missed_at::<H>(key, k1);
        assert(self.missed_at::<H>(key, k1));
        assert(!self.passes::<H>(key, k1));
        assert(k == k1);
        let start = self.group_start::<H>(key, k);
        let m1 = choose|m1: int| self.first_free_at(start, m1);
        assert(self.first_free_at(start, m1));
        if m1 < m {
            assert(crate::swisstable_group_query::is_free(self.metadata[start + m1]));
        } else if m < m1 {
            assert(crate::swisstable_group_query::is_free(self.metadata[start + m]));
        }
    }

    /// A match in a table with the right copy is in an occupied slot.
    pub proof fn lemma_match_is_held<H: HashFn>(self, key: Seq<u8>, start: int, m: int)
        requires
            self.well_shaped(),
            self.mirrored(),
            0 <= start < self.data.len(),
            self.matches_at::<H>(key, start, m),
        ensures
            self.holds(self.slot_at(start, m), key),
    {
        self.lemma_control_byte(start, m);
        assert(h2_of(H::hash_of(key)) < 128);
    }
}

} // verus!
