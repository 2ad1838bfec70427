//! What is stored where: what holds of a table in terms of its two arrays and of the hash
//! values of its keys alone. Any table that was stored can be read by these.

use vstd::arithmetic::power2::*;
use vstd::prelude::*;

use crate::byte_array::ByteArray;
use crate::hash_fn::HashFn;
use crate::model::TableModel;
use crate::raw_table::{Entry, RawIter, RawTable, RawTableMut};

verus! {

/// A table on two arrays is what the arrays hold, and has the right shape just if the
/// number of slots is a power of two with sixteen more control bytes.
pub proof fn law_table_is_its_arrays<'a, K: ByteArray, V: ByteArray, H: HashFn>(
    table: RawTable<'a, K, V, H>,
)
    ensures
        table@.metadata == table.metadata@,
        table@.data == table.data@,
        table@.well_shaped() <==> is_pow2(table.data@.len() as int) && table.metadata@.len()
            == table.data@.len() + 16,
{
}

/// A table for insertions is what its arrays hold at the time, and has the right shape
/// just if the number of slots is a power of two with sixteen more control bytes.
pub proof fn law_table_mut_is_its_arrays<'a, K: ByteArray, V: ByteArray, H: HashFn>(
    table: RawTableMut<'a, K, V, H>,
)
    ensures
        table@.metadata == old(table.metadata)@,
        table@.data == old(table.data)@,
        table@.well_shaped() <==> is_pow2(old(table.data)@.len() as int) && old(table.metadata)@.len()
            == old(table.data)@.len() + 16,
{
}

/// Entries are packed just if their size is that of a key and a value together and their
/// alignment is one.
pub proof fn law_packed<K: ByteArray, V: ByteArray>()
    ensures
        Entry::<K, V>::packed() <==> vstd::layout::size_of::<Entry<K, V>>()
            == vstd::layout::size_of::<K>() + vstd::layout::size_of::<V>()
            && vstd::layout::align_of::<Entry<K, V>>() == 1,
{
}

/// Of several values that are inserted into a map for one key, the last one stays.
pub proof fn law_last_pair_stays<K: ByteArray, V>(
    map: Map<Seq<u8>, V>,
    pairs: Seq<(K, V)>,
    key: Seq<u8>,
    j: int,
)
    requires
        0 <= j < pairs.len(),
        pairs[j].0.bytes() == key,
        forall|i: int| j < i < pairs.len() ==> (#[trigger] pairs[i]).0.bytes() != key,
    ensures
        crate::model::map_insert_all(map, pairs).contains_key(key),
        crate::model::map_insert_all(map, pairs)[key] == pairs[j].1,
    decreases pairs.len(),
{
    if j < pairs.len() - 1 {
        let rest = pairs.drop_last();
        assert(pairs[pairs.len() - 1].0.bytes() != key);
        assert forall|i: int| j < i < rest.len() implies (#[trigger] rest[i]).0.bytes() != key by {
            assert(pairs[i].0.bytes() != key);
        }
        law_last_pair_stays(map, rest, key, j);
    }
}

/// An insertion into a map changes nothing for any other key.
pub proof fn law_other_keys_stay<K: ByteArray, V>(
    map: Map<Seq<u8>, V>,
    pairs: Seq<(K, V)>,
    key: Seq<u8>,
)
    requires
        forall|i: int| 0 <= i < pairs.len() ==> (#[trigger] pairs[i]).0.bytes() != key,
    ensures
        crate::model::map_insert_all(map, pairs).contains_key(key) == map.contains_key(key),
        map.contains_key(key) ==> crate::model::map_insert_all(map, pairs)[key] == map[key],
    decreases pairs.len(),
{
    if pairs.len() > 0 {
        let rest = pairs.drop_last();
        assert(pairs[pairs.len() - 1].0.bytes() != key);
        assert forall|i: int| 0 <= i < rest.len() implies (#[trigger] rest[i]).0.bytes() != key by {
            assert(pairs[i].0.bytes() != key);
        }
        law_other_keys_stay(map, rest, key);
    }
}

/// An iterator gives an entry just for each slot from `current_index` on whose control byte
/// is below 128: the slots of the entries that are left increase from one to the next, and
/// none is left out.
pub proof fn law_iterator_slots<'a, K: ByteArray, V: ByteArray>(
    iter: RawIter<'a, K, V>,
) -> (slots: Seq<int>)
    requires
        iter.wf(),
    ensures
        slots.len() == iter@.len(),
        forall|j: int|
            0 <= j < slots.len() ==> {
                &&& iter.current_index <= #[trigger] slots[j] < iter.data@.len()
                &&& iter.metadata@[slots[j]] < 128
                &&& iter@[j] == (iter.metadata@[slots[j]], iter.data@[slots[j]])
            },
        forall|a: int, b: int| 0 <= a < b < slots.len() ==> slots[a] < slots[b],
        forall|i: int|
            iter.current_index <= i < iter.data@.len() && (#[trigger] iter.metadata@[i]) < 128
                ==> slots.contains(i),
{
    let table = TableModel { metadata: iter.metadata@, data: iter.data@ };
    table.lemma_slots_from(iter.current_index as int)
}

impl<K: ByteArray, V: ByteArray> TableModel<K, V> {
    /// The slots of the entries from slot `i` on.
    proof fn lemma_slots_from(self, i: int) -> (slots: Seq<int>)
        requires
            0 <= i <= self.data.len(),
        ensures
            slots.len() == self.entries_from(i).len(),
            forall|j: int|
                0 <= j < slots.len() ==> {
                    &&& i <= #[trigger] slots[j] < self.data.len()
                    &&& self.metadata[slots[j]] < 128
                    &&& self.entries_from(i)[j] == (self.metadata[slots[j]], self.data[slots[j]])
                },
            forall|a: int, b: int| 0 <= a < b < slots.len() ==> slots[a] < slots[b],
            forall|s: int|
                i <= s < self.data.len() && (#[trigger] self.metadata[s]) < 128
                    ==> slots.contains(s),
        decreases self.data.len() - i,
    {
        if i == self.data.len() {
            Seq::empty()
        } else {
            let rest = self.lemma_slots_from(i + 1);
            if self.occupied(i) {
                let slots = seq![i] + rest;
                assert forall|s: int|
                    i <= s < self.data.len() && (
                    #[trigger] self.metadata[s]) < 128 implies slots.contains(s) by {
                    if s == i {
                        assert(slots[0] == s);
                    } else {
                        let j = choose|j: int| 0 <= j < rest.len() && rest[j] == s;
                        assert(slots[j + 1] == s);
                    }
                }
                slots
            } else {
                rest
            }
        }
    }

    /// A slot is occupied if its control byte is below 128, and free if it is not. With a
    /// free slot there is room for every key.
    pub proof fn law_slots<H: HashFn>(self, i: int, key: Seq<u8>)
        ensures
            self.free(i) <==> 0 <= i < self.data.len() && self.metadata[i] >= 128,
            self.occupied(i) <==> 0 <= i < self.data.len() && self.metadata[i] < 128,
            self.holds(i, key) <==> 0 <= i < self.data.len() && self.metadata[i] < 128
                && self.data[i].key.bytes() == key,
            self.free_slots().contains(i) <==> 0 <= i < self.data.len() && self.metadata[i] >= 128,
            0 <= i < self.data.len() && self.metadata[i] >= 128 ==> self.has_free_slot()
                && self.has_room::<H>(key),
            self.has_free_slot() ==> exists|j: int|
                0 <= j < self.data.len() && (#[trigger] self.metadata[j]) >= 128,
    {
        if 0 <= i < self.data.len() && self.metadata[i] >= 128 {
            assert(self.free(i));
        }
        if self.has_free_slot() {
            let j = choose|j: int| self.free(j);
            assert(self.free(j));
            assert(self.metadata[j] >= 128);
        }
    }

    /// The map that a valid table stands for has a key just if some slot with a control
    /// byte below 128 holds it, and then has the value in that slot for it.
    pub proof fn law_contents_of_arrays<H: HashFn>(self, key: Seq<u8>)
        requires
            self.valid::<H>(),
        ensures
            self.contents().contains_key(key) <==> exists|i: int|
                0 <= i < self.data.len() && self.metadata[i] < 128 && (
                #[trigger] self.data[i]).key.bytes() == key,
            forall|i: int|
                0 <= i < self.data.len() && self.metadata[i] < 128 && (
                #[trigger] self.data[i]).key.bytes() == key ==> self.contents()[key]
                    == self.data[i].value,
    {
        assert forall|i: int|
            0 <= i < self.data.len() && self.metadata[i] < 128 && (
            #[trigger] self.data[i]).key.bytes() == key implies self.contents().contains_key(key)
            && self.contents()[key] == self.data[i].value by {
            assert(self.occupied(i));
            self.law_contents::<H>(i);
        }
        if self.contents().contains_key(key) {
            let i = choose|i: int| self.holds(i, key);
            assert(self.holds(i, key));
            assert(self.data[i].key.bytes() == key);
        }
    }

    /// The arrays of a valid table: each control byte below 128 is the seven highest bits of
    /// the hash value of the key in its slot, no two such slots hold the same key, and the
    /// last sixteen control bytes repeat the first ones, as far as there are so many.
    pub proof fn law_valid_arrays<H: HashFn>(self)
        requires
            self.valid::<H>(),
        ensures
            is_pow2(self.data.len() as int),
            self.metadata.len() == self.data.len() + 16,
            forall|i: int|
                0 <= i < self.data.len() && (#[trigger] self.metadata[i]) < 128 ==> self.metadata[i]
                    * 0x200_0000 <= H::hash_of(self.data[i].key.bytes()) < (self.metadata[i] + 1)
                    * 0x200_0000,
            forall|i: int, j: int|
                0 <= i < j < self.data.len() && self.metadata[i] < 128 && self.metadata[j] < 128
                    ==> (#[trigger] self.data[i]).key.bytes() != (
                #[trigger] self.data[j]).key.bytes(),
            forall|j: int|
                self.data.len() <= j < self.data.len() + 16 && j < 2 * self.data.len() ==> (
                #[trigger] self.metadata[j]) == self.metadata[j - self.data.len()],
            forall|j: int|
                2 * self.data.len() <= j < self.data.len() + 16 ==> (#[trigger] self.metadata[j])
                    >= 128,
    {
        assert forall|i: int|
            0 <= i < self.data.len() && (
            #[trigger] self.metadata[i]) < 128 implies self.metadata[i] * 0x200_0000
            <= H::hash_of(self.data[i].key.bytes()) < (self.metadata[i] + 1) * 0x200_0000 by {
            assert(self.occupied(i));
        }
        assert forall|i: int, j: int|
            0 <= i < j < self.data.len() && self.metadata[i] < 128 && self.metadata[j]
                < 128 implies (#[trigger] self.data[i]).key.bytes() != (
        #[trigger] self.data[j]).key.bytes() by {
            assert(self.occupied(i) && self.occupied(j));
        }
    }

    /// A table whose control bytes are all the same one from 128 on is valid and holds no
    /// key, and there is room in it for every key.
    pub proof fn law_blank_arrays<H: HashFn>(self, blank: u8, key: Seq<u8>)
        requires
            is_pow2(self.data.len() as int),
            self.metadata.len() == self.data.len() + 16,
            blank >= 128,
            forall|p: int| 0 <= p < self.metadata.len() ==> self.metadata[p] == blank,
        ensures
            self.valid::<H>(),
            !self.contents().contains_key(key),
            self.get::<H>(key) is None,
            self.settles::<H>(key),
            self.has_room::<H>(key),
    {
        self.law_blank_table::<H>();
        self.law_search_is_lookup::<H>(key);
    }

    /// Insertions one after the other: the pairs before the last one come first.
    pub proof fn law_insert_one_more<H: HashFn>(self, pairs: Seq<(K, V)>, key: K, value: V)
        ensures
            self.insert_all::<H>(Seq::<(K, V)>::empty()) == self,
            self.insert_all::<H>(pairs.push((key, value))) == self.insert_all::<H>(pairs).insert::<
                H,
            >(key, value),
    {
        assert(pairs.push((key, value)).drop_last() =~= pairs);
    }

    /// What makes a slot pass the check. An empty slot passes if it holds zero bytes only,
    /// and an occupied one if its control byte is the seven highest bits of the hash value
    /// of its key. Otherwise the fault names the slot and says what was expected and found.
    pub proof fn law_slot_check<H: HashFn>(self, i: int)
        requires
            0 <= i < self.data.len(),
        ensures
            ({
                let key = self.data[i].key.bytes();
                let value = self.data[i].value.bytes();
                let zeros = key == Seq::new(key.len(), |b: int| 0u8) && value == Seq::new(
                    value.len(),
                    |b: int| 0u8,
                );
                let fault = self.slot_fault::<H>(i);
                if self.metadata[i] >= 128 {
                    &&& fault is None <==> zeros
                    &&& !zeros ==> fault == Some(
                        "Found empty entry with non-zero contents at "@ + crate::error::decimal(
                            i as nat,
                        ),
                    )
                } else {
                    let expected = H::hash_of(key) / 0x200_0000;
                    &&& fault is None <==> self.metadata[i] == expected
                    &&& self.metadata[i] != expected ==> fault == Some(
                        "Control byte does not match hash value for entry "@
                            + crate::error::decimal(i as nat) + ". Expected "@
                            + crate::error::decimal(expected as nat) + ", found "@
                            + crate::error::decimal(self.metadata[i] as nat) + "."@,
                    )
                }
            }),
    {
        crate::byte_array::law_all_zeros(self.data[i].key.bytes());
        crate::byte_array::law_all_zeros(self.data[i].value.bytes());
    }

    /// The steps of a search, up to one of its groups.
    proof fn lemma_comes_to<H: HashFn>(self, key: Seq<u8>, starts: Seq<int>)
        requires
            self.well_shaped(),
            starts.len() > 0,
            forall|j: int|
                0 <= j < starts.len() ==> #[trigger] starts[j] == (H::hash_of(key) + 8 * (j * (j
                    + 1))) % (self.data.len() as int),
            forall|j: int, p: int|
                #![trigger starts[j], self.metadata[p]]
                0 <= j < starts.len() - 1 && starts[j] <= p < starts[j] + 16 ==> self.metadata[p]
                    < 128 && !(self.metadata[p] == H::hash_of(key) / 0x200_0000 && self.data[p % (
                self.data.len() as int)].key.bytes() == key),
        ensures
            self.comes_to::<H>(key, (starts.len() - 1) as nat),
            self.group_start::<H>(key, (starts.len() - 1) as nat) == starts.last(),
            0 <= starts.last() < self.data.len(),
    {
        let last = (starts.len() - 1) as nat;
        self.lemma_group_start::<H>(key, last);
        crate::probing::law_probe_position(H::hash_of(key), self.data.len(), last);
        assert(starts[last as int] == starts.last());
        assert forall|j: nat| j < last implies self.passes::<H>(key, j) by {
            self.lemma_group_start::<H>(key, j);
            crate::probing::law_probe_position(H::hash_of(key), self.data.len(), j);
            let start = starts[j as int];
            assert(self.group_start::<H>(key, j) == start);
            if self.group_matches::<H>(key, j) {
                let m = choose|m: int| self.matches_at::<H>(key, start, m);
                assert(self.matches_at::<H>(key, start, m));
                assert(self.metadata[start + m] < 128);
            }
            if self.group_has_free::<H>(key, j) {
                let m = choose|m: int| self.first_free_at(start, m);
                assert(self.first_free_at(start, m));
                assert(self.metadata[start + m] < 128);
            }
        }
    }

    /// Where a key is found. The groups of a search start at the hash value, modulo the
    /// number of slots, and then one group further, two groups further and so on. The key is
    /// found at the first place in these groups whose control byte is the seven highest bits
    /// of the hash value and whose slot holds the key, unless a group before holds a control
    /// byte from 128 on. An insertion then replaces the value there and nothing else.
    ///
    /// `starts` are the places at which the groups start, and `at` is the place in the last
    /// of them; places behind the last slot stand for the first slots.
    pub proof fn law_first_match<H: HashFn>(self, key: K, value: V, starts: Seq<int>, at: int)
        requires
            is_pow2(self.data.len() as int),
            self.metadata.len() == self.data.len() + 16,
            starts.len() > 0,
            forall|j: int|
                0 <= j < starts.len() ==> #[trigger] starts[j] == (H::hash_of(key.bytes()) + 8 * (j
                    * (j + 1))) % (self.data.len() as int),
            forall|j: int, p: int|
                #![trigger starts[j], self.metadata[p]]
                0 <= j < starts.len() - 1 && starts[j] <= p < starts[j] + 16 ==> self.metadata[p]
                    < 128 && !(self.metadata[p] == H::hash_of(key.bytes()) / 0x200_0000
                    && self.data[p % (self.data.len() as int)].key.bytes() == key.bytes()),
            starts.last() <= at < starts.last() + 16,
            self.metadata[at] == H::hash_of(key.bytes()) / 0x200_0000,
            self.data[at % (self.data.len() as int)].key.bytes() == key.bytes(),
            forall|p: int|
                starts.last() <= p < at ==> !((#[trigger] self.metadata[p]) == H::hash_of(
                    key.bytes(),
                ) / 0x200_0000 && self.data[p % (self.data.len() as int)].key.bytes()
                    == key.bytes()),
        ensures
            ({
                let slot = at % (self.data.len() as int);
                let after = self.insert::<H>(key, value);
                &&& self.settles::<H>(key.bytes())
                &&& self.has_room::<H>(key.bytes())
                &&& self.get::<H>(key.bytes()) == Some(self.data[slot].value)
                &&& after.metadata == self.metadata
                &&& after.data == self.data.update(
                    slot,
                    Entry { key: self.data[slot].key, value },
                )
            }),
    {
        let kb = key.bytes();
        let k = (starts.len() - 1) as nat;
        let start = starts.last();
        self.lemma_comes_to::<H>(kb, starts);
        let m = at - start;
        assert(self.slot_at(start, m) == at % (self.data.len() as int));
        assert(self.metadata[start + m] == self.metadata[at]);
        assert(self.matches_at::<H>(kb, start, m));
        assert forall|i: int| 0 <= i < m implies !self.matches_at::<H>(kb, start, i) by {
            assert(self.metadata[start + i] == self.metadata[start + i]);
        }
        assert(self.found_at::<H>(kb, k, m));
        assert(self.group_matches::<H>(kb, k));
        assert(!self.passes::<H>(kb, k));
        self.lemma_search_found::<H>(kb, k, m);
    }

    /// Where a key is not found, and where an insertion puts it. If the groups of a search up
    /// to some group do not hold the key, and this group is the first one that holds a control
    /// byte from 128 on, then the key is not found. An insertion puts the entry in the slot of
    /// the first such control byte of the group, which becomes the seven highest bits of the
    /// hash value; so does the copy of this control byte, if it has one. Nothing else
    /// changes.
    ///
    /// `starts` and `at` are as in `law_first_match`.
    pub proof fn law_first_gap<H: HashFn>(self, key: K, value: V, starts: Seq<int>, at: int)
        requires
            is_pow2(self.data.len() as int),
            self.metadata.len() == self.data.len() + 16,
            starts.len() > 0,
            forall|j: int|
                0 <= j < starts.len() ==> #[trigger] starts[j] == (H::hash_of(key.bytes()) + 8 * (j
                    * (j + 1))) % (self.data.len() as int),
            forall|j: int, p: int|
                #![trigger starts[j], self.metadata[p]]
                0 <= j < starts.len() - 1 && starts[j] <= p < starts[j] + 16 ==> self.metadata[p]
                    < 128 && !(self.metadata[p] == H::hash_of(key.bytes()) / 0x200_0000
                    && self.data[p % (self.data.len() as int)].key.bytes() == key.bytes()),
            forall|p: int|
                starts.last() <= p < starts.last() + 16 ==> !((#[trigger] self.metadata[p])
                    == H::hash_of(key.bytes()) / 0x200_0000 && self.data[p % (
                self.data.len() as int)].key.bytes() == key.bytes()),
            starts.last() <= at < starts.last() + 16,
            self.metadata[at] >= 128,
            forall|p: int| starts.last() <= p < at ==> (#[trigger] self.metadata[p]) < 128,
        ensures
            ({
                let n = self.data.len() as int;
                let slot = at % n;
                let after = self.insert::<H>(key, value);
                &&& self.settles::<H>(key.bytes())
                &&& self.get::<H>(key.bytes()) is None
                &&& after.data == self.data.update(slot, Entry { key, value })
                &&& after.metadata.len() == self.metadata.len()
                &&& forall|p: int|
                    0 <= p < self.metadata.len() ==> (#[trigger] after.metadata[p]) == (if p == slot
                        || (p == n + slot && slot < 16) {
                        H::hash_of(key.bytes()) / 0x200_0000
                    } else {
                        self.metadata[p] as u32
                    })
            }),
    {
        let kb = key.bytes();
        let k = (starts.len() - 1) as nat;
        let start = starts.last();
        self.lemma_comes_to::<H>(kb, starts);
        let m = at - start;
        vstd::arithmetic::div_mod::lemma_mod_bound(at, self.data.len() as int);
        assert(self.slot_at(start, m) == at % (self.data.len() as int));
        assert(self.metadata[start + m] == self.metadata[at]);
        assert forall|i: int| 0 <= i < m implies !#[trigger]
            crate::swisstable_group_query::is_free(self.metadata[start + i]) by {}
        assert(self.first_free_at(start, m));
        assert(self.group_has_free::<H>(kb, k));
        assert forall|i: int| !self.matches_at::<H>(kb, start, i) by {
            if 0 <= i < 16 {
                assert(self.metadata[start + i] == self.metadata[start + i]);
            }
        }
        assert(!self.group_matches::<H>(kb, k));
        assert(self.missed_at::<H>(kb, k));
        assert(!self.passes::<H>(kb, k));
        self.lemma_search_missed::<H>(kb, k, m);
    }

    /// A key that is in the group at its hash value, modulo the number of slots, is found
    /// there, whatever else the table holds.
    pub proof fn law_found_at_home<H: HashFn>(self, key: K, m: int)
        requires
            is_pow2(self.data.len() as int),
            self.metadata.len() == self.data.len() + 16,
            0 <= m < 16,
            ({
                let n = self.data.len() as int;
                let home = H::hash_of(key.bytes()) as int % n;
                &&& self.metadata[home + m] == H::hash_of(key.bytes()) / 0x200_0000
                &&& self.data[(home + m) % n].key.bytes() == key.bytes()
                &&& forall|p: int|
                    home <= p < home + m ==> !((#[trigger] self.metadata[p]) == H::hash_of(
                        key.bytes(),
                    ) / 0x200_0000 && self.data[p % n].key.bytes() == key.bytes())
            }),
        ensures
            ({
                let n = self.data.len() as int;
                let slot = (H::hash_of(key.bytes()) + m) % n;
                &&& self.settles::<H>(key.bytes())
                &&& self.get::<H>(key.bytes()) == Some(self.data[slot].value)
            }),
    {
        let n = self.data.len() as int;
        let hash = H::hash_of(key.bytes()) as int;
        reveal(is_pow2);
        vstd::arithmetic::div_mod::lemma_add_mod_noop(hash, m, n);
        vstd::arithmetic::div_mod::lemma_add_mod_noop(hash % n, m, n);
        vstd::arithmetic::div_mod::lemma_mod_twice(hash, n);
        let value = self.data[(hash % n + m) % n].value;
        let starts = seq![hash % n];
        assert forall|j: int| 0 <= j < starts.len() implies #[trigger] starts[j] == (hash + 8 * (j
            * (j + 1))) % n by {
            assert(j * (j + 1) == 0) by (nonlinear_arith)
                requires
                    j == 0,
            ;
        }
        self.law_first_match::<H>(key, value, starts, hash % n + m);
    }

    /// A key that is not in the group at its hash value, modulo the number of slots, is put
    /// into the slot of that number by an insertion, if this slot is free. In a table with
    /// empty slots only it always is.
    pub proof fn law_inserted_at_home<H: HashFn>(self, key: K, value: V)
        requires
            is_pow2(self.data.len() as int),
            self.metadata.len() == self.data.len() + 16,
            ({
                let n = self.data.len() as int;
                let home = H::hash_of(key.bytes()) as int % n;
                &&& self.metadata[home] >= 128
                &&& forall|p: int|
                    home <= p < home + 16 ==> !((#[trigger] self.metadata[p]) == H::hash_of(
                        key.bytes(),
                    ) / 0x200_0000 && self.data[p % n].key.bytes() == key.bytes())
            }),
        ensures
            ({
                let home = H::hash_of(key.bytes()) as int % (self.data.len() as int);
                let after = self.insert::<H>(key, value);
                &&& self.settles::<H>(key.bytes())
                &&& self.has_room::<H>(key.bytes())
                &&& self.get::<H>(key.bytes()) is None
                &&& after.data == self.data.update(home, Entry { key, value })
                &&& after.metadata[home] * 0x200_0000 <= H::hash_of(key.bytes()) < (
                after.metadata[home] + 1) * 0x200_0000
                &&& after.get::<H>(key.bytes()) == Some(value)
            }),
    {
        let n = self.data.len() as int;
        let hash = H::hash_of(key.bytes()) as int;
        let home = hash % n;
        reveal(is_pow2);
        vstd::arithmetic::div_mod::lemma_mod_bound(hash, n);
        vstd::arithmetic::div_mod::lemma_small_mod(home as nat, n as nat);
        let starts = seq![hash % n];
        assert forall|j: int| 0 <= j < starts.len() implies #[trigger] starts[j] == (hash + 8 * (j
            * (j + 1))) % n by {
            assert(j * (j + 1) == 0) by (nonlinear_arith)
                requires
                    j == 0,
            ;
        }
        self.law_first_gap::<H>(key, value, starts, home);
        self.law_slots::<H>(home, key.bytes());
        let after = self.insert::<H>(key, value);
        after.law_found_at_home::<H>(key, 0);
    }
}

/// Byte arrays that differ in any byte are different keys: what is inserted for one of them
/// is found for it, and nothing changes for the other.
pub proof fn law_different_arrays_are_different_keys<
    const N: usize,
    const M: usize,
    H: HashFn,
>(table: TableModel<[u8; N], [u8; M]>, a: [u8; N], b: [u8; N], value: [u8; M], i: int) where
    [u8; N]: Default,
    [u8; M]: Default,

    requires
        table.valid::<H>(),
        table.has_room::<H>(a.bytes()),
        0 <= i < N,
        a[i] != b[i],
    ensures
        table.insert::<H>(a, value).get::<H>(a.bytes()) == Some(value),
        table.insert::<H>(a, value).get::<H>(b.bytes()) == table.get::<H>(b.bytes()),
        table.insert::<H>(a, value).contents().contains_key(b.bytes())
            == table.contents().contains_key(b.bytes()),
{
    crate::byte_array::law_array_bytes(a, b);
    table.law_search_is_lookup::<H>(a.bytes());
    table.law_insert::<H>(a, value);
    table.law_get_after_insert::<H>(a, value, b.bytes());
}

} // verus!
