//! What holds of every table.

use vstd::arithmetic::power2::*;
use vstd::prelude::*;
use vstd::set_lib::*;

use crate::byte_array::ByteArray;
use crate::hash_fn::HashFn;
use crate::model::TableModel;
use crate::raw_table::Entry;
use crate::swisstable_group_query::GROUP_SIZE;

verus! {

impl<K: ByteArray, V: ByteArray> TableModel<K, V> {
    /// The map that a valid table stands for has, for each occupied slot, the key and
    /// the value in it.
    pub proof fn law_contents<H: HashFn>(self, i: int)
        requires
            self.valid::<H>(),
            self.occupied(i),
        ensures
            self.contents().contains_key(self.data[i].key.bytes()),
            self.contents()[self.data[i].key.bytes()] == self.data[i].value,
    {
        let key = self.data[i].key.bytes();
        assert(self.holds(i, key));
        let j = choose|j: int| self.holds(j, key);
        assert(self.holds(j, key));
        assert(self.occupied(i) && self.occupied(j));
    }

    /// A search for a key of a valid table succeeds, in the slot that holds the key.
    pub proof fn law_stored_key_is_found<H: HashFn>(self, key: Seq<u8>)
        requires
            self.valid::<H>(),
            self.contents().contains_key(key),
        ensures
            self.search_ends::<H>(key),
            self.search::<H>(key) matches Some(slot) && self.holds(slot, key),
            self.get::<H>(key) == Some(self.contents()[key]),
    {
        let i = choose|i: int| self.holds(i, key);
        assert(self.holds(i, key));
        assert(self.occupied(i));
        assert(self.reachable::<H>(i));
        let (k, m) = choose|k: nat, m: int| self.reached_at::<H>(i, k, m);
        assert(self.reached_at::<H>(i, k, m));
        let start = self.group_start::<H>(key, k);
        self.lemma_group_start::<H>(key, k);
        self.lemma_control_byte(start, m);
        assert(self.matches_at::<H>(key, start, m));
        assert(self.group_matches::<H>(key, k));
        assert(!self.passes::<H>(key, k));
        // No group before the k-th one ends the search without success.
        let stop = self.lemma_search_stop::<H>(key);
        assert(stop <= k) by {
            if k < stop {
                assert(self.passes::<H>(key, k));
            }
        }
        assert(self.group_matches::<H>(key, stop)) by {
            if stop < k {
                assert(!self.group_has_free::<H>(key, stop));
            }
        }
        let at = self.group_start::<H>(key, stop);
        self.lemma_group_start::<H>(key, stop);
        let any = choose|any: int| self.matches_at::<H>(key, at, any);
        let first = self.lemma_first_match::<H>(key, at, any);
        assert(self.found_at::<H>(key, stop, first));
        self.lemma_search_found::<H>(key, stop, first);
        self.lemma_match_is_held::<H>(key, at, first);
        let slot = self.slot_at(at, first);
        self.law_contents::<H>(slot);
    }

    /// A search for anything else in a valid table does not succeed.
    pub proof fn law_other_key_is_not_found<H: HashFn>(self, key: Seq<u8>)
        requires
            self.valid::<H>(),
            !self.contents().contains_key(key),
        ensures
            self.search::<H>(key) is None,
            self.get::<H>(key) is None,
            forall|k: nat| !self.group_matches::<H>(key, k),
    {
        assert forall|k: nat| !self.group_matches::<H>(key, k) by {
            let start = self.group_start::<H>(key, k);
            self.lemma_group_start::<H>(key, k);
            if self.group_matches::<H>(key, k) {
                let m = choose|m: int| self.matches_at::<H>(key, start, m);
                self.lemma_match_is_held::<H>(key, start, m);
            }
        }
        assert forall|k: nat, m: int| !self.found_at::<H>(key, k, m) by {
            if self.found_at::<H>(key, k, m) {
                assert(self.group_matches::<H>(key, k));
            }
        }
    }

    /// Every search in a table with a free slot ends, also in one whose entries are
    /// not where they belong.
    pub proof fn law_search_ends_with_free_slot<H: HashFn>(self, key: Seq<u8>)
        requires
            self.well_shaped(),
            self.mirrored(),
            self.has_free_slot(),
        ensures
            self.search_ends::<H>(key),
    {
        let i = choose|i: int| self.free(i);
        assert(self.free(i));
        let (k, m) = crate::probing::lemma_probe_covers(H::hash_of(key), self.data.len(), i);
        let start = self.group_start::<H>(key, k);
        self.lemma_group_start::<H>(key, k);
        self.lemma_control_byte(start, m);
        let first = self.lemma_first_free(start, m);
        assert(self.group_has_free::<H>(key, k));
        assert(!self.passes::<H>(key, k));
    }

    /// A search in a valid table ends if the key is there or a slot is free.
    pub proof fn law_search_ends<H: HashFn>(self, key: Seq<u8>)
        requires
            self.settles::<H>(key),
        ensures
            self.search_ends::<H>(key),
    {
        if !self.search_ends::<H>(key) {
            if self.contents().contains_key(key) {
                self.law_stored_key_is_found::<H>(key);
            } else {
                self.law_search_ends_with_free_slot::<H>(key);
            }
        }
    }

    /// A search in a valid table looks the key up in the map that the table stands for.
    pub proof fn law_search_is_lookup<H: HashFn>(self, key: Seq<u8>)
        requires
            self.valid::<H>(),
        ensures
            self.get::<H>(key) == (if self.contents().contains_key(key) {
                Some(self.contents()[key])
            } else {
                None
            }),
    {
        if self.contents().contains_key(key) {
            self.law_stored_key_is_found::<H>(key);
        } else {
            self.law_other_key_is_not_found::<H>(key);
        }
    }

    /// An insertion that finds the key only replaces a value.
    proof fn lemma_replace<H: HashFn>(self, key: K, value: V)
        requires
            self.valid::<H>(),
            self.contents().contains_key(key.bytes()),
        ensures
            self.insert::<H>(key, value).valid::<H>(),
            self.insert::<H>(key, value).contents() == self.contents().insert(key.bytes(), value),
    {
        let kb = key.bytes();
        self.law_stored_key_is_found::<H>(kb);
        let slot = self.search::<H>(kb).unwrap();
        let after = self.insert::<H>(key, value);
        assert(after == self.with_value(slot, value));
        assert(self.holds(slot, kb));
        assert forall|i: int| 0 <= i < self.data.len() implies #[trigger] after.data[i].key
            == self.data[i].key by {}
        assert forall|i: int| #[trigger] after.occupied(i) == self.occupied(i) by {}
        assert forall|i: int| #[trigger] after.occupied(i) implies after.reachable::<H>(i) by {
            assert(self.occupied(i));
            assert(self.reachable::<H>(i));
            let (k, m) = choose|k: nat, m: int| self.reached_at::<H>(i, k, m);
            self.lemma_same_groups::<H>(after, self.data[i].key.bytes());
            assert(after.reached_at::<H>(i, k, m));
        }
        assert(after.valid::<H>());
        assert(after.contents() =~= self.contents().insert(kb, value)) by {
            assert forall|other: Seq<u8>, i: int| #[trigger] after.holds(i, other) == self.holds(
                i,
                other,
            ) by {}
            assert forall|other: Seq<u8>| after.contents().contains_key(other)
                == self.contents().contains_key(other) by {
                if self.contents().contains_key(other) {
                    let i = choose|i: int| self.holds(i, other);
                    assert(after.holds(i, other));
                }
                if after.contents().contains_key(other) {
                    let i = choose|i: int| after.holds(i, other);
                    assert(self.holds(i, other));
                }
            }
            assert forall|other: Seq<u8>| after.contents().contains_key(other) implies #[trigger]
                after.contents()[other] == self.contents().insert(kb, value)[other] by {
                let i = choose|i: int| after.holds(i, other);
                assert(after.holds(i, other));
                assert(after.occupied(i));
                after.law_contents::<H>(i);
                assert(self.holds(i, other));
                self.law_contents::<H>(i);
                if other == kb {
                    assert(self.occupied(i) && self.occupied(slot));
                } else {
                    assert(i != slot);
                }
            }
        }
    }

    /// Which groups hold a free control byte depends on the control bytes only.
    proof fn lemma_same_groups<H: HashFn>(self, after: Self, key: Seq<u8>)
        requires
            after.metadata == self.metadata,
            after.data.len() == self.data.len(),
        ensures
            forall|k: nat| #[trigger]
                after.group_has_free::<H>(key, k) == self.group_has_free::<H>(key, k),
    {
        assert forall|k: nat| #[trigger]
            after.group_has_free::<H>(key, k) == self.group_has_free::<H>(key, k) by {
            let start = self.group_start::<H>(key, k);
            assert(after.group_start::<H>(key, k) == start);
            if self.group_has_free::<H>(key, k) {
                let m = choose|m: int| self.first_free_at(start, m);
                assert(after.first_free_at(start, m));
            }
            if after.group_has_free::<H>(key, k) {
                let m = choose|m: int| after.first_free_at(start, m);
                assert(self.first_free_at(start, m));
            }
        }
    }

    /// The slot that an insertion takes for a new key is a free one, and a search comes
    /// to it.
    proof fn lemma_vacancy<H: HashFn>(self, key: Seq<u8>) -> (at: (nat, int))
        requires
            self.valid::<H>(),
            !self.contents().contains_key(key),
            self.has_free_slot(),
        ensures
            self.missed_at::<H>(key, at.0),
            0 <= at.1 < GROUP_SIZE,
            at.1 < self.data.len(),
            self.search::<H>(key) is None,
            self.vacancy::<H>(key) == self.slot_at(self.group_start::<H>(key, at.0), at.1),
            self.free(self.vacancy::<H>(key)),
            forall|j: nat| j < at.0 ==> !self.group_has_free::<H>(key, j),
    {
        self.law_search_ends_with_free_slot::<H>(key);
        self.law_other_key_is_not_found::<H>(key);
        let k = self.lemma_search_stop::<H>(key);
        assert(!self.group_matches::<H>(key, k));
        let start = self.group_start::<H>(key, k);
        self.lemma_group_start::<H>(key, k);
        assert(self.group_has_free::<H>(key, k));
        let m = choose|m: int| self.first_free_at(start, m);
        assert(self.first_free_at(start, m));
        assert(self.missed_at::<H>(key, k));
        self.lemma_search_missed::<H>(key, k, m);
        self.lemma_control_byte(start, m);
        assert(m < self.data.len()) by {
            if m >= self.data.len() {
                // The group runs over all slots, the free one among them.
                let n = self.data.len() as int;
                let i = choose|i: int| self.free(i);
                assert(self.free(i));
                let d = if i >= start {
                    i - start
                } else {
                    i - start + n
                };
                assert(self.slot_at(start, d) == i) by {
                    if i >= start {
                        vstd::arithmetic::div_mod::lemma_small_mod(i as nat, n as nat);
                    } else {
                        vstd::arithmetic::div_mod::lemma_fundamental_div_mod_converse(
                            i + n,
                            n,
                            1,
                            i,
                        );
                    }
                }
                self.lemma_control_byte(start, d);
                assert(crate::swisstable_group_query::is_free(self.metadata[start + d]));
            }
        }
        assert forall|j: nat| j < k implies !self.group_has_free::<H>(key, j) by {
            assert(self.passes::<H>(key, j));
        }
        (k, m)
    }

    /// An insertion of a new key occupies one more slot.
    proof fn lemma_add<H: HashFn>(self, key: K, value: V)
        requires
            self.valid::<H>(),
            !self.contents().contains_key(key.bytes()),
            self.has_free_slot(),
        ensures
            self.insert::<H>(key, value).valid::<H>(),
            self.insert::<H>(key, value).contents() == self.contents().insert(key.bytes(), value),
    {
        let kb = key.bytes();
        let n = self.data.len() as int;
        let h2 = crate::model::h2_of(H::hash_of(kb));
        let (k0, m0) = self.lemma_vacancy::<H>(kb);
        let slot = self.vacancy::<H>(kb);
        let after = self.insert::<H>(key, value);
        assert(after == self.with_entry::<H>(slot, Entry { key, value }));
        assert(h2 < 128);
        assert(after.data[slot] == Entry { key, value });
        assert(after.metadata[slot] == h2);
        assert forall|i: int| 0 <= i < n && i != slot implies #[trigger] after.data[i]
            == self.data[i] by {}
        assert forall|i: int| 0 <= i < n && i != slot implies #[trigger] after.metadata[i]
            == self.metadata[i] by {}
        assert forall|i: int| #[trigger] after.occupied(i) == (i == slot || self.occupied(i)) by {}
        assert(after.mirrored()) by {
            assert forall|j: int| n <= j < n + GROUP_SIZE implies if j < 2 * n {
                #[trigger] after.metadata[j] == after.metadata[j - n]
            } else {
                crate::swisstable_group_query::is_free(after.metadata[j])
            } by {
                assert(if j < 2 * n {
                    self.metadata[j] == self.metadata[j - n]
                } else {
                    crate::swisstable_group_query::is_free(self.metadata[j])
                });
            }
        }
        // Free control bytes only go away.
        assert forall|other: Seq<u8>, k: nat| #[trigger]
            after.group_has_free::<H>(other, k) implies self.group_has_free::<H>(other, k) by {
            let start = self.group_start::<H>(other, k);
            self.lemma_group_start::<H>(other, k);
            assert(after.group_start::<H>(other, k) == start);
            let m = choose|m: int| after.first_free_at(start, m);
            assert(after.first_free_at(start, m));
            assert(crate::swisstable_group_query::is_free(self.metadata[start + m]));
            let first = self.lemma_first_free(start, m);
            assert(self.first_free_at(self.group_start::<H>(other, k), first));
        }
        assert forall|i: int| #[trigger] after.occupied(i) implies after.reachable::<H>(i) by {
            if i == slot {
                assert(after.group_start::<H>(kb, k0) == self.group_start::<H>(kb, k0));
                assert(after.reached_at::<H>(i, k0, m0));
            } else {
                assert(self.occupied(i));
                assert(self.reachable::<H>(i));
                let (k, m) = choose|k: nat, m: int| self.reached_at::<H>(i, k, m);
                assert(self.reached_at::<H>(i, k, m));
                let other = self.data[i].key.bytes();
                assert(after.group_start::<H>(other, k) == self.group_start::<H>(other, k));
                assert(after.reached_at::<H>(i, k, m));
            }
        }
        assert forall|i: int, j: int| #[trigger]
            after.occupied(i) && #[trigger] after.occupied(j) && after.data[i].key.bytes()
                == after.data[j].key.bytes() implies i == j by {
            if i == slot && j != slot {
                assert(self.holds(j, kb));
            } else if j == slot && i != slot {
                assert(self.holds(i, kb));
            } else if i != slot && j != slot {
                assert(self.occupied(i) && self.occupied(j));
            }
        }
        assert(after.valid::<H>());
        assert(after.contents() =~= self.contents().insert(kb, value)) by {
            assert forall|other: Seq<u8>| after.contents().contains_key(other) == (other == kb
                || self.contents().contains_key(other)) by {
                if other == kb {
                    assert(after.holds(slot, kb));
                }
                if self.contents().contains_key(other) {
                    let i = choose|i: int| self.holds(i, other);
                    assert(self.holds(i, other));
                    assert(after.holds(i, other));
                }
                if after.contents().contains_key(other) {
                    let i = choose|i: int| after.holds(i, other);
                    assert(after.holds(i, other));
                    if i != slot {
                        assert(self.holds(i, other));
                    }
                }
            }
            assert forall|other: Seq<u8>| after.contents().contains_key(other) implies #[trigger]
                after.contents()[other] == self.contents().insert(kb, value)[other] by {
                let i = choose|i: int| after.holds(i, other);
                assert(after.holds(i, other));
                assert(after.occupied(i));
                after.law_contents::<H>(i);
                if i != slot {
                    assert(self.holds(i, other));
                    assert(self.occupied(i));
                    self.law_contents::<H>(i);
                }
            }
        }
    }

    /// An insertion into a valid table gives a valid table, which stands for the same
    /// map but for the value of the inserted key.
    pub proof fn law_insert<H: HashFn>(self, key: K, value: V)
        requires
            self.valid::<H>(),
            self.contents().contains_key(key.bytes()) || self.has_free_slot(),
        ensures
            self.insert::<H>(key, value).valid::<H>(),
            self.insert::<H>(key, value).contents() == self.contents().insert(key.bytes(), value),
    {
        if self.contents().contains_key(key.bytes()) {
            self.lemma_replace::<H>(key, value);
        } else {
            self.lemma_add::<H>(key, value);
        }
    }

    /// A search for a key gives the value that was inserted last for it, and an
    /// insertion changes nothing for any other key.
    pub proof fn law_get_after_insert<H: HashFn>(self, key: K, value: V, other: Seq<u8>)
        requires
            self.valid::<H>(),
            self.contents().contains_key(key.bytes()) || self.has_free_slot(),
        ensures
            self.insert::<H>(key, value).get::<H>(key.bytes()) == Some(value),
            other != key.bytes() ==> self.insert::<H>(key, value).get::<H>(other) == self.get::<H>(
                other,
            ),
    {
        let after = self.insert::<H>(key, value);
        self.law_insert::<H>(key, value);
        after.law_search_is_lookup::<H>(key.bytes());
        after.law_search_is_lookup::<H>(other);
        self.law_search_is_lookup::<H>(other);
    }

    /// An insertion for a key that is in the table changes the value in one slot and
    /// nothing else. An insertion for a new key occupies a slot that was free and leaves
    /// all other slots as they are.
    pub proof fn law_insert_changes_one_slot<H: HashFn>(self, key: K, value: V) -> (slot: int)
        requires
            self.valid::<H>(),
            self.contents().contains_key(key.bytes()) || self.has_free_slot(),
        ensures
            ({
                let after = self.insert::<H>(key, value);
                &&& after.holds(slot, key.bytes())
                &&& after.data[slot].value == value
                &&& after.data.len() == self.data.len()
                &&& after.metadata.len() == self.metadata.len()
                &&& forall|i: int|
                    0 <= i < self.data.len() && i != slot ==> {
                        &&& #[trigger] after.data[i] == self.data[i]
                        &&& after.metadata[i] == self.metadata[i]
                    }
                &&& if self.contents().contains_key(key.bytes()) {
                    self.holds(slot, key.bytes()) && after.metadata == self.metadata
                        && after.data[slot].key == self.data[slot].key
                } else {
                    self.free(slot) && after.data[slot].key == key
                }
            }),
    {
        let kb = key.bytes();
        if self.contents().contains_key(kb) {
            self.law_stored_key_is_found::<H>(kb);
            self.search::<H>(kb).unwrap()
        } else {
            self.lemma_vacancy::<H>(kb);
            assert(crate::model::h2_of(H::hash_of(kb)) < 128);
            self.vacancy::<H>(kb)
        }
    }

    /// A table with empty slots only is valid and stands for the empty map.
    pub proof fn law_blank_table<H: HashFn>(self)
        requires
            self.well_shaped(),
            self.mirrored(),
            forall|j: int|
                0 <= j < self.metadata.len() ==> crate::swisstable_group_query::is_free(
                    #[trigger] self.metadata[j],
                ),
        ensures
            self.valid::<H>(),
            self.contents() == Map::<Seq<u8>, V>::empty(),
            self.has_free_slot(),
    {
        assert forall|i: int| !self.occupied(i) by {}
        assert(self.contents() =~= Map::<Seq<u8>, V>::empty());
        reveal(is_pow2);
        assert(self.free(0));
    }

    /// The keys of a valid table and its free slots are as many as it has slots. So it
    /// has a free slot exactly as long as it has fewer keys than slots.
    pub proof fn law_capacity<H: HashFn>(self)
        requires
            self.valid::<H>(),
        ensures
            self.contents().dom().finite(),
            self.contents().len() + self.free_slots().len() == self.data.len(),
            self.has_free_slot() <==> self.contents().len() < self.data.len(),
    {
        let n = self.data.len() as int;
        let all = set_int_range(0, n);
        let occupied = Set::new(|i: int| self.occupied(i));
        let free = self.free_slots();
        lemma_int_range(0, n);
        lemma_len_subset(occupied, all);
        lemma_len_subset(free, all);
        assert(all =~= occupied + free);
        lemma_set_disjoint_lens(occupied, free);
        let key_in = |i: int| self.data[i].key.bytes();
        assert forall|i: int, j: int| #![trigger key_in(i), key_in(j)]
            occupied.contains(i) && occupied.contains(j) && key_in(i) == key_in(j) implies i
            == j by {
            assert(self.occupied(i) && self.occupied(j));
        }
        assert(occupied.map(key_in) =~= self.contents().dom()) by {
            assert forall|key: Seq<u8>| self.contents().contains_key(key) implies occupied.map(
                key_in,
            ).contains(key) by {
                let i = choose|i: int| self.holds(i, key);
                assert(self.holds(i, key));
                assert(occupied.contains(i) && key_in(i) == key);
            }
            assert forall|key: Seq<u8>| occupied.map(key_in).contains(
                key,
            ) implies self.contents().contains_key(key) by {
                let i = choose|i: int| occupied.contains(i) && key_in(i) == key;
                assert(self.holds(i, key));
            }
        }
        lemma_map_size(occupied, self.contents().dom(), key_in);
        if self.has_free_slot() {
            let i = choose|i: int| self.free(i);
            assert(free.contains(i));
            if free.len() == 0 {
                free.lemma_len0_is_empty();
            }
        }
        if free.len() > 0 {
            let i = free.choose();
            assert(free.contains(i));
            assert(self.free(i));
        }
    }

    /// More pairs in a map never mean fewer keys.
    proof fn lemma_map_grows(map: Map<Seq<u8>, V>, pairs: Seq<(K, V)>)
        requires
            map.dom().finite(),
        ensures
            crate::model::map_insert_all(map, pairs).dom().finite(),
            map.dom().len() <= crate::model::map_insert_all(map, pairs).dom().len(),
            crate::model::map_insert_all(map, pairs).dom().len() <= map.dom().len() + pairs.len(),
            pairs.len() > 0 ==> crate::model::map_insert_all(map, pairs.drop_last()).dom().len()
                <= crate::model::map_insert_all(map, pairs).dom().len(),
        decreases pairs.len(),
    {
        if pairs.len() > 0 {
            Self::lemma_map_grows(map, pairs.drop_last());
        }
    }

    /// Insertions into a valid table, in any order and with any repetitions, succeed as long
    /// as there are in the end no more keys than slots, and do to the map that the table
    /// stands for what they do to a map.
    pub proof fn law_insert_all<H: HashFn>(self, pairs: Seq<(K, V)>)
        requires
            self.valid::<H>(),
            crate::model::map_insert_all(self.contents(), pairs).dom().len() <= self.data.len(),
        ensures
            self.insert_all::<H>(pairs).valid::<H>(),
            self.insert_all::<H>(pairs).data.len() == self.data.len(),
            self.insert_all::<H>(pairs).contents() == crate::model::map_insert_all(
                self.contents(),
                pairs,
            ),
            self.insert_all::<H>(pairs).free_slots().len() + crate::model::map_insert_all(
                self.contents(),
                pairs,
            ).dom().len() == self.data.len(),
            pairs.len() > 0 ==> {
                let before = self.insert_all::<H>(pairs.drop_last());
                before.contents().contains_key(pairs.last().0.bytes()) || before.has_free_slot()
            },
        decreases pairs.len(),
    {
        self.law_capacity::<H>();
        if pairs.len() > 0 {
            let before = self.insert_all::<H>(pairs.drop_last());
            let (key, value) = pairs.last();
            Self::lemma_map_grows(self.contents(), pairs);
            self.law_insert_all::<H>(pairs.drop_last());
            before.law_capacity::<H>();
            before.law_insert::<H>(key, value);
            before.law_insert_changes_one_slot::<H>(key, value);
            before.insert::<H>(key, value).law_capacity::<H>();
        }
    }

    /// A valid table has room for at least as many insertions as it has free slots.
    pub proof fn law_room<H: HashFn>(self, pairs: Seq<(K, V)>)
        requires
            self.valid::<H>(),
            pairs.len() <= self.free_slots().len(),
        ensures
            crate::model::map_insert_all(self.contents(), pairs).dom().len() <= self.data.len(),
    {
        self.law_capacity::<H>();
        Self::lemma_map_grows(self.contents(), pairs);
    }

    /// In a valid table with a whole group of slots or more, the last control bytes are
    /// a copy of the first ones.
    pub proof fn law_mirror<H: HashFn>(self)
        requires
            self.valid::<H>(),
            self.data.len() >= GROUP_SIZE,
        ensures
            self.metadata.take(GROUP_SIZE as int) == self.metadata.skip(self.data.len() as int),
    {
        let n = self.data.len() as int;
        assert forall|i: int| 0 <= i < GROUP_SIZE implies #[trigger] self.metadata[i]
            == self.metadata[n + i] by {
            assert(self.metadata[n + i] == self.metadata[n + i - n]);
        }
        assert(self.metadata.take(GROUP_SIZE as int) =~= self.metadata.skip(n));
    }

    /// A valid table whose free slots hold zeros passes the check of its slots.
    pub proof fn law_valid_table_is_sane<H: HashFn>(self, i: int)
        requires
            self.valid::<H>(),
            self.free_slots_zeroed(),
            0 <= i < self.data.len(),
        ensures
            self.slot_fault::<H>(i) is None,
    {
        if !self.free(i) {
            assert(self.occupied(i));
        }
    }

    /// An insertion writes to no slot that it leaves free.
    pub proof fn law_insert_keeps_free_slots_zeroed<H: HashFn>(self, key: K, value: V)
        requires
            self.valid::<H>(),
            self.contents().contains_key(key.bytes()) || self.has_free_slot(),
            self.free_slots_zeroed(),
        ensures
            self.insert::<H>(key, value).free_slots_zeroed(),
    {
        let after = self.insert::<H>(key, value);
        let slot = self.law_insert_changes_one_slot::<H>(key, value);
        assert forall|i: int| #[trigger] after.free(i) implies {
            &&& crate::byte_array::all_zeros(after.data[i].key.bytes())
            &&& crate::byte_array::all_zeros(after.data[i].value.bytes())
        } by {
            assert(i != slot);
            assert(after.data[i] == self.data[i]);
            assert(self.free(i));
        }
    }

    /// Each of the entries from slot `i` on is that of a slot.
    proof fn lemma_entry_slot(self, i: int, j: int) -> (slot: int)
        requires
            0 <= i,
            0 <= j < self.entries_from(i).len(),
        ensures
            i <= slot,
            self.occupied(slot),
            self.entries_from(i)[j] == (self.metadata[slot], self.data[slot]),
        decreases self.data.len() - i,
    {
        if self.occupied(i) {
            if j == 0 {
                i
            } else {
                self.lemma_entry_slot(i + 1, j - 1)
            }
        } else {
            self.lemma_entry_slot(i + 1, j)
        }
    }

    /// Each slot from `i` on that is occupied has its place among the entries.
    proof fn lemma_slot_entry(self, i: int, slot: int) -> (j: int)
        requires
            0 <= i <= slot,
            self.occupied(slot),
        ensures
            0 <= j < self.entries_from(i).len(),
            self.entries_from(i)[j] == (self.metadata[slot], self.data[slot]),
        decreases slot - i,
    {
        if i == slot {
            0
        } else {
            let j = self.lemma_slot_entry(i + 1, slot);
            if self.occupied(i) {
                j + 1
            } else {
                j
            }
        }
    }

    /// The entries are in the order of their slots.
    proof fn lemma_entries_in_order(self, i: int, a: int, b: int) -> (slots: (int, int))
        requires
            0 <= i,
            0 <= a < b < self.entries_from(i).len(),
        ensures
            i <= slots.0 < slots.1,
            self.occupied(slots.0),
            self.occupied(slots.1),
            self.entries_from(i)[a] == (self.metadata[slots.0], self.data[slots.0]),
            self.entries_from(i)[b] == (self.metadata[slots.1], self.data[slots.1]),
        decreases self.data.len() - i,
    {
        if self.occupied(i) {
            if a == 0 {
                (i, self.lemma_entry_slot(i + 1, b - 1))
            } else {
                self.lemma_entries_in_order(i + 1, a - 1, b - 1)
            }
        } else {
            self.lemma_entries_in_order(i + 1, a, b)
        }
    }

    /// Going through the entries of a valid table gives each key of the map that it
    /// stands for, once, with its value and the control byte that belongs to it.
    pub proof fn law_iteration<H: HashFn>(self)
        requires
            self.valid::<H>(),
        ensures
            forall|j: int|
                0 <= j < self.entries_from(0).len() ==> {
                    let (metadata, entry) = #[trigger] self.entries_from(0)[j];
                    &&& self.contents().contains_key(entry.key.bytes())
                    &&& self.contents()[entry.key.bytes()] == entry.value
                    &&& metadata == crate::model::h2_of(H::hash_of(entry.key.bytes()))
                },
            forall|key: Seq<u8>| #[trigger]
                self.contents().contains_key(key) ==> exists|j: int|
                    0 <= j < self.entries_from(0).len() && (#[trigger] self.entries_from(
                        0,
                    )[j]).1.key.bytes() == key,
            forall|a: int, b: int|
                0 <= a < b < self.entries_from(0).len() ==> (#[trigger] self.entries_from(
                    0,
                )[a]).1.key.bytes() != (#[trigger] self.entries_from(0)[b]).1.key.bytes(),
    {
        let entries = self.entries_from(0);
        assert forall|j: int| 0 <= j < entries.len() implies {
            let (metadata, entry) = #[trigger] entries[j];
            &&& self.contents().contains_key(entry.key.bytes())
            &&& self.contents()[entry.key.bytes()] == entry.value
            &&& metadata == crate::model::h2_of(H::hash_of(entry.key.bytes()))
        } by {
            let slot = self.lemma_entry_slot(0, j);
            assert(self.occupied(slot));
            self.law_contents::<H>(slot);
        }
        assert forall|key: Seq<u8>| #[trigger] self.contents().contains_key(key) implies exists|
            j: int,
        |
            0 <= j < entries.len() && (#[trigger] entries[j]).1.key.bytes() == key by {
            let slot = choose|slot: int| self.holds(slot, key);
            assert(self.holds(slot, key));
            let j = self.lemma_slot_entry(0, slot);
            assert(entries[j].1.key.bytes() == key);
        }
        assert forall|a: int, b: int| 0 <= a < b < entries.len() implies (
        #[trigger] entries[a]).1.key.bytes() != (#[trigger] entries[b]).1.key.bytes() by {
            let (s, t) = self.lemma_entries_in_order(0, a, b);
            assert(self.occupied(s) && self.occupied(t));
        }
    }
}

} // verus!
