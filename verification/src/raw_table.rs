//! This module implements the actual hash table logic. It works solely with
//! byte arrays and does not know anything about the unencoded key and value
//! types.

use std::marker::PhantomData;
use vstd::arithmetic::power2::is_pow2;
use vstd::layout::{align_of, size_of};
use vstd::prelude::*;

use crate::byte_array::ByteArray;
use crate::error::Error;
use crate::hash_fn::{HashFn, HashValue};
use crate::model::TableModel;
use crate::swisstable_group_query::{is_empty_or_deleted, is_free, GroupQuery, GROUP_SIZE};

verus! {

/// Values of this type represent key-value pairs, encoded as byte arrays.
#[derive(PartialEq, Eq, Default, Copy, Debug)]
pub struct Entry<K: ByteArray, V: ByteArray> {
    pub key: K,
    pub value: V,
}

impl<K: ByteArray, V: ByteArray> Clone for Entry<K, V> {
    #[inline]
    fn clone(&self) -> (r: Self)
        ensures
            r == *self,
    {
        *self
    }
}

impl<K: ByteArray, V: ByteArray> Entry<K, V> {
    /// Entries have no padding bytes in memory and can stand at any address.
    pub open spec fn packed() -> bool {
        &&& size_of::<Entry<K, V>>() == size_of::<K>() + size_of::<V>()
        &&& align_of::<Entry<K, V>>() == 1
    }

    /// The pair of `key` and `value`.
    #[inline]
    pub fn new(key: K, value: V) -> (r: Entry<K, V>)
        ensures
            r == (Entry { key, value }),
    {
        Entry { key, value }
    }
}

/// The control byte of a slot: seven bits of the hash value of the key in the slot,
/// or a byte with the highest bit set if the slot is empty.
pub type EntryMetadata = u8;

/// The part of a hash value that says where a search starts.
#[inline]
pub fn h1(h: HashValue) -> (r: usize)
    ensures
        r == h,
{
    h as usize
}

/// The part of a hash value that the control byte holds: its seven highest bits.
#[inline]
pub fn h2(h: HashValue) -> (r: u8)
    ensures
        r == crate::model::h2_of(h),
        r < 128,
        r * 0x200_0000 <= h < (r + 1) * 0x200_0000,
{
    assert(h >> 25u32 == h / 0x200_0000u32) by (bit_vector);
    (h >> 25u32) as u8
}

/// The groups that a search looks at, one after the other.
pub struct PropeSeq {
    pub index: usize,
    pub stride: usize,
}

impl PropeSeq {
    /// Starts where the hash value says.
    #[inline]
    pub fn new(h1: usize, mask: usize) -> (r: PropeSeq)
        ensures
            r.index == h1 & mask,
            is_pow2(mask + 1) && mask < usize::MAX ==> r.index == h1 as int % (mask + 1),
            r.stride == 0,
    {
        proof {
            if is_pow2(mask + 1) && mask < usize::MAX {
                crate::probing::lemma_mask_is_mod(h1, mask);
            }
        }
        PropeSeq { index: h1 & mask, stride: 0 }
    }

    /// Goes on to the next group: by one group more than the last time.
    #[inline]
    pub fn advance(&mut self, mask: usize)
        requires
            old(self).index + old(self).stride + GROUP_SIZE <= usize::MAX,
        ensures
            final(self).stride == old(self).stride + GROUP_SIZE,
            final(self).index == ((old(self).index + final(self).stride) as usize) & mask,
            is_pow2(mask + 1) && mask < usize::MAX ==> final(self).index == (old(self).index
                + old(self).stride + GROUP_SIZE) % (mask + 1),
    {
        self.stride += GROUP_SIZE;
        self.index += self.stride;
        proof {
            if is_pow2(mask + 1) && mask < usize::MAX {
                crate::probing::lemma_mask_is_mod(self.index, mask);
            }
        }
        self.index = self.index & mask;
    }
}

/// The control bytes of a group.
#[inline]
fn group_starting_at(control_bytes: &[u8], index: usize) -> (r: &[u8])
    requires
        index + GROUP_SIZE < control_bytes@.len(),
    ensures
        r@ == control_bytes@.subrange(index as int, index + GROUP_SIZE),
{
    assert(control_bytes@.len() == control_bytes.len());
    &control_bytes[index..index + GROUP_SIZE]
}

/// This type provides a readonly view of the given table data.
#[derive(PartialEq, Eq)]
pub struct RawTable<'a, K, V, H> where K: ByteArray, V: ByteArray, H: HashFn {
    pub metadata: &'a [EntryMetadata],
    pub data: &'a [Entry<K, V>],
    pub _hash_fn: PhantomData<H>,
}

impl<'a, K, V, H> View for RawTable<'a, K, V, H> where K: ByteArray, V: ByteArray, H: HashFn {
    type V = TableModel<K, V>;

    open spec fn view(&self) -> TableModel<K, V> {
        TableModel { metadata: self.metadata@, data: self.data@ }
    }
}

/// The `m`-th control byte of the group that starts at `index` belongs to a slot of the
/// table, whose number a mask gives.
proof fn lemma_slot<K: ByteArray, V: ByteArray>(
    table: TableModel<K, V>,
    index: usize,
    m: usize,
    mask: usize,
)
    requires
        table.well_shaped(),
        table.data.len() == mask + 1,
        index + m <= usize::MAX,
        mask < usize::MAX,
    ensures
        ((index + m) as usize) & mask == table.slot_at(index as int, m as int),
        0 <= table.slot_at(index as int, m as int) < table.data.len(),
{
    crate::probing::lemma_mask_is_mod((index + m) as usize, mask);
    vstd::arithmetic::div_mod::lemma_mod_bound(index + m, mask + 1);
}

impl<'a, K, V, H> RawTable<'a, K, V, H> where K: ByteArray, V: ByteArray, H: HashFn {
    /// A table on the given arrays, whose entries must have no padding bytes and no
    /// alignment requirement.
    #[inline]
    pub fn new(metadata: &'a [EntryMetadata], data: &'a [Entry<K, V>]) -> (r: Self)
        requires
            Entry::<K, V>::packed(),
            is_pow2(data@.len() as int),
            metadata@.len() == data@.len() + GROUP_SIZE,
        ensures
            r.metadata@ == metadata@,
            r.data@ == data@,
            r@.well_shaped(),
    {
        RawTable { metadata, data, _hash_fn: PhantomData }
    }

    /// The value for `key`. The search for it must come to an end: it does if the key is
    /// there or a slot is free, and may go on forever in a full table without the key.
    ///
    /// What is found is always what the search comes to first. In a valid table that is
    /// the value that belongs to the key.
    #[inline]
    pub fn find(&self, key: &K) -> (r: Option<&V>)
        requires
            self@.well_shaped(),
            self@.settles::<H>(key.bytes()),
        ensures
            match r {
                Some(value) => self@.get::<H>(key.bytes()) == Some(*value),
                None => self@.get::<H>(key.bytes()) is None,
            },
            self@.valid::<H>() ==> match r {
                Some(value) => {
                    &&& self@.contents().contains_key(key.bytes())
                    &&& self@.contents()[key.bytes()] == *value
                },
                None => !self@.contents().contains_key(key.bytes()),
            },
    {
        let ghost table = self@;
        let ghost kb = key.bytes();
        proof {
            table.law_search_ends::<H>(kb);
            table.lemma_group_start::<H>(kb, 0);
        }
        let ghost stop = table.lemma_search_stop::<H>(kb);
        let ghost mut k: nat = 0;

        let mask: usize = self.data.len() - 1;
        let hash: HashValue = H::hash(key.as_slice());
        let mut ps = PropeSeq::new(h1(hash), mask);
        let h2: u8 = h2(hash);
        proof {
            assert(self.metadata@.len() == self.metadata.len());
            crate::probing::lemma_probe_first(hash, table.data.len());
        }

        loop
            invariant
                table == self@,
                table.well_shaped(),
                kb == key.bytes(),
                hash == H::hash_of(kb),
                h2 == crate::model::h2_of(hash),
                mask + 1 == table.data.len(),
                mask + 1 + GROUP_SIZE <= usize::MAX,
                ps.index == table.group_start::<H>(kb, k),
                ps.stride == GROUP_SIZE * k,
                k <= stop < crate::probing::probe_groups(table.data.len()),
                table.comes_to::<H>(kb, k),
                !table.passes::<H>(kb, stop),
            decreases stop - k,
        {
            proof {
                table.lemma_group_start::<H>(kb, k);
            }
            let mut group_query = GroupQuery::from(group_starting_at(self.metadata, ps.index), h2);
            let ghost start = ps.index as int;
            let ghost mut seen: int = 0;
            loop
                invariant
                    table == self@,
                    table.well_shaped(),
                    kb == key.bytes(),
                    hash == H::hash_of(kb),
                    h2 == crate::model::h2_of(hash),
                    mask + 1 == table.data.len(),
                    mask + 1 + GROUP_SIZE <= usize::MAX,
                    start == ps.index == table.group_start::<H>(kb, k),
                    0 <= start < table.data.len(),
                    table.comes_to::<H>(kb, k),
                    0 <= seen <= GROUP_SIZE,
                    forall|i: int| 0 <= i < seen ==> !table.matches_at::<H>(kb, start, i),
                    forall|i: int|
                        0 <= i < GROUP_SIZE ==> #[trigger] group_query.match_at(i) == (i >= seen
                            && table.metadata[start + i] == h2),
                    forall|i: int|
                        0 <= i < GROUP_SIZE ==> #[trigger] group_query.empty_at(i)
                            == is_free(table.metadata[start + i]),
                ensures
                    forall|i: int| !table.matches_at::<H>(kb, start, i),
                    forall|i: int|
                        0 <= i < GROUP_SIZE ==> #[trigger] group_query.empty_at(i)
                            == is_free(table.metadata[start + i]),
                decreases GROUP_SIZE - seen,
            {
                let ghost before = group_query;
                match group_query.next() {
                    Some(m) => {
                        proof {
                            lemma_slot(table, ps.index, m, mask);
                            assert forall|i: int| 0 <= i < m implies !table.matches_at::<H>(
                                kb,
                                start,
                                i,
                            ) by {
                                assert(!before.match_at(i));
                            }
                        }
                        let index: usize = (ps.index + m) & mask;

                        let entry = self.entry_at(index);

                        if entry.key.equals(key) {
                            proof {
                                assert(table.matches_at::<H>(kb, start, m as int));
                                assert(table.found_at::<H>(kb, k, m as int));
                                table.lemma_search_found::<H>(kb, k, m as int);
                                if table.valid::<H>() {
                                    table.law_search_is_lookup::<H>(kb);
                                }
                            }
                            return Some(&entry.value);
                        }
                        proof {
                            seen = m + 1;
                        }
                    },
                    None => {
                        proof {
                            assert forall|i: int| !table.matches_at::<H>(kb, start, i) by {
                                if seen <= i < GROUP_SIZE {
                                    assert(!before.match_at(i));
                                }
                            }
                        }
                        break;
                    },
                }
            }

            assert(!table.group_matches::<H>(kb, k));
            if group_query.any_empty() {
                proof {
                    let m = choose|m: int| 0 <= m < GROUP_SIZE && group_query.empty_at(m);
                    let first = table.lemma_first_free(start, m);
                    assert(table.group_has_free::<H>(kb, k));
                    table.lemma_search_missed::<H>(kb, k, first);
                    if table.valid::<H>() {
                        table.law_search_is_lookup::<H>(kb);
                    }
                }
                return None;
            }

            proof {
                assert(!table.group_has_free::<H>(kb, k)) by {
                    if table.group_has_free::<H>(kb, k) {
                        let m = choose|m: int| table.first_free_at(start, m);
                        assert(group_query.empty_at(m));
                    }
                }
                assert(table.passes::<H>(kb, k));
                assert(k < stop);
                lemma_advance(table, hash, k, ps, mask);
            }
            ps.advance(mask);
            proof {
                k = k + 1;
            }
        }
    }

    /// The entries of the table, in the order of their slots.
    #[inline]
    pub fn iter(&'a self) -> (r: RawIter<'a, K, V>)
        requires
            self@.well_shaped(),
        ensures
            r.wf(),
            r.metadata@ == self.metadata@,
            r.data@ == self.data@,
            r.current_index == 0,
            r@ == self@.entries_from(0),
    {
        RawIter::new(self.metadata, self.data)
    }

    /// Check (for the first `slots_to_check` slots) if the computed and
    /// the stored hash value match.
    ///
    /// A mismatch is an indication that the table has been deserialized with
    /// the wrong hash function.
    pub fn sanity_check_hashes(&self, slots_to_check: usize) -> (r: Result<(), Error>)
        requires
            self@.data.len() <= self@.metadata.len() || slots_to_check <= self@.metadata.len(),
        ensures
            match r {
                Ok(()) => forall|i: int|
                    0 <= i < slots_to_check && i < self@.data.len() ==> #[trigger]
                        self@.slot_fault::<H>(i) is None,
                Err(error) => exists|i: int|
                    {
                        &&& 0 <= i < slots_to_check
                        &&& i < self@.data.len()
                        &&& #[trigger] self@.slot_fault::<H>(i) == Some(error.0@)
                        &&& forall|j: int| 0 <= j < i ==> self@.slot_fault::<H>(j) is None
                    },
            },
            r is Ok <==> forall|i: int|
                0 <= i < slots_to_check && i < self.data@.len() ==> {
                    let entry = self.data@[i];
                    if (#[trigger] self.metadata@[i]) >= 128 {
                        &&& forall|b: int|
                            0 <= b < entry.key.bytes().len() ==> entry.key.bytes()[b] == 0
                        &&& forall|b: int|
                            0 <= b < entry.value.bytes().len() ==> entry.value.bytes()[b] == 0
                    } else {
                        self.metadata@[i] * 0x200_0000 <= H::hash_of(entry.key.bytes()) < (
                        self.metadata@[i] + 1) * 0x200_0000
                    }
                },
    {
        let limit: usize = if slots_to_check < self.data.len() {
            slots_to_check
        } else {
            self.data.len()
        };

        for i in 0..limit
            invariant
                limit <= slots_to_check,
                limit <= self@.data.len(),
                limit <= self@.metadata.len(),
                forall|j: int| 0 <= j < i ==> self@.slot_fault::<H>(j) is None,
        {
            let metadata: u8 = self.metadata[i];
            let entry = &self.data[i];

            if is_empty_or_deleted(metadata) {
                if !entry.key.is_all_zeros() || !entry.value.is_all_zeros() {
                    let error = Error::nonzero_contents(i);
                    assert(self@.slot_fault::<H>(i as int) == Some(error.0@));
                    return Err(error);
                }
            } else {
                let hash: HashValue = H::hash(entry.key.as_slice());
                let h2: u8 = h2(hash);

                if metadata != h2 {
                    let error = Error::hash_mismatch(i, h2, metadata);
                    assert(self@.slot_fault::<H>(i as int) == Some(error.0@));
                    return Err(error);
                }
            }
        }

        proof {
            assert forall|i: int| 0 <= i < limit implies {
                let entry = self.data@[i];
                if (#[trigger] self.metadata@[i]) >= 128 {
                    &&& forall|b: int|
                        0 <= b < entry.key.bytes().len() ==> entry.key.bytes()[b] == 0
                    &&& forall|b: int|
                        0 <= b < entry.value.bytes().len() ==> entry.value.bytes()[b] == 0
                } else {
                    self.metadata@[i] * 0x200_0000 <= H::hash_of(entry.key.bytes()) < (
                    self.metadata@[i] + 1) * 0x200_0000
                }
            } by {
                assert(self@.slot_fault::<H>(i) is None);
            }
        }
        Ok(())
    }

    /// The text that stands for a table in debug output.
    pub fn fmt(&self) -> (r: String)
        ensures
            r@ == "<debug no implemented>"@,
    {
        String::from_str("<debug no implemented>")
    }

    /// The entry in a slot.
    #[inline]
    fn entry_at(&self, index: usize) -> (r: &Entry<K, V>)
        requires
            index < self@.data.len(),
        ensures
            *r == self@.data[index as int],
    {
        &self.data[index]
    }
}

/// A search that has not seen every slot can go on.
proof fn lemma_advance<K: ByteArray, V: ByteArray>(
    table: TableModel<K, V>,
    hash: HashValue,
    k: nat,
    ps: PropeSeq,
    mask: usize,
)
    requires
        table.well_shaped(),
        table.data.len() == mask + 1,
        mask < usize::MAX,
        ps.index == crate::probing::probe_start(hash, table.data.len(), k),
        ps.stride == GROUP_SIZE * k,
        k + 1 < crate::probing::probe_groups(table.data.len()),
    ensures
        ps.index + ps.stride + GROUP_SIZE <= usize::MAX,
        (ps.index + ps.stride + GROUP_SIZE) % (mask + 1) == crate::probing::probe_start(
            hash,
            table.data.len(),
            k + 1,
        ),
{
    let n = table.data.len() as int;
    vstd::arithmetic::div_mod::lemma_mod_bound(
        hash + GROUP_SIZE * crate::probing::triangular(k),
        n,
    );
    assert(16 * (n / 16) <= n);
    assert(ps.stride + GROUP_SIZE < n);
    crate::probing::lemma_double_fits(mask);
    crate::probing::lemma_probe_step(hash, table.data.len(), k);
}

/// What an insertion into a valid table comes to.
proof fn lemma_insertion<K: ByteArray, V: ByteArray, H: HashFn>(
    table: TableModel<K, V>,
    key: K,
    value: V,
)
    requires
        table.has_room::<H>(key.bytes()),
    ensures
        table.valid::<H>() ==> {
            let after = table.insert::<H>(key, value);
            &&& after.valid::<H>()
            &&& after.contents() == table.contents().insert(key.bytes(), value)
            &&& table.get::<H>(key.bytes()) == (if table.contents().contains_key(key.bytes()) {
                Some(table.contents()[key.bytes()])
            } else {
                None
            })
        },
{
    if table.valid::<H>() {
        table.law_search_is_lookup::<H>(key.bytes());
        table.law_insert::<H>(key, value);
    }
}

/// This type provides a mutable view of the given table data. It allows for
/// inserting new entries but does *not* allow for growing the table.
#[derive(PartialEq, Eq)]
pub struct RawTableMut<'a, K, V, H> where K: ByteArray, V: ByteArray, H: HashFn {
    pub metadata: &'a mut [EntryMetadata],
    pub data: &'a mut [Entry<K, V>],
    pub _hash_fn: PhantomData<H>,
}

impl<'a, K, V, H> View for RawTableMut<'a, K, V, H> where K: ByteArray, V: ByteArray, H: HashFn {
    type V = TableModel<K, V>;

    open spec fn view(&self) -> TableModel<K, V> {
        TableModel { metadata: self.metadata@, data: self.data@ }
    }
}

impl<'a, K, V, H> RawTableMut<'a, K, V, H> where K: ByteArray, V: ByteArray, H: HashFn {
    /// A table on the given arrays. What it does to them the arrays show once it is no
    /// longer in use. The entries must have no padding bytes and no alignment requirement.
    #[inline]
    pub fn new(metadata: &'a mut [EntryMetadata], data: &'a mut [Entry<K, V>]) -> (r: Self)
        requires
            Entry::<K, V>::packed(),
            is_pow2(old(data)@.len() as int),
            old(metadata)@.len() == old(data)@.len() + GROUP_SIZE,
        ensures
            r.metadata@ == old(metadata)@,
            r.data@ == old(data)@,
            r@.well_shaped(),
            final(r.metadata)@ == final(metadata)@,
            final(r.data)@ == final(data)@,
    {
        RawTableMut { metadata, data, _hash_fn: PhantomData }
    }

    /// Inserts the given key value pair into the hash table, and returns the value that
    /// the key had before.
    ///
    /// WARNING: This method assumes that the key is in the hash table or that there is
    ///          free space in it somewhere. Otherwise it would end up in an infinite loop
    ///          or, in a table smaller than a group, could overwrite another entry.
    #[inline]
    pub fn insert(&mut self, key: K, value: V) -> (r: Option<V>)
        requires
            old(self)@.well_shaped(),
            old(self)@.settles::<H>(key.bytes()),
            old(self)@.has_room::<H>(key.bytes()),
        ensures
            r == old(self)@.get::<H>(key.bytes()),
            final(self)@ == old(self)@.insert::<H>(key, value),
            final(self)@.well_shaped(),
            old(self)@.valid::<H>() ==> {
                &&& final(self)@.valid::<H>()
                &&& final(self)@.contents() == old(self)@.contents().insert(key.bytes(), value)
                &&& r == (if old(self)@.contents().contains_key(key.bytes()) {
                    Some(old(self)@.contents()[key.bytes()])
                } else {
                    None
                })
            },
            final(final(self).metadata)@ == final(old(self).metadata)@,
            final(final(self).data)@ == final(old(self).data)@,
    {
        let ghost table = self@;
        let ghost kb = key.bytes();
        proof {
            table.law_search_ends::<H>(kb);
            table.lemma_group_start::<H>(kb, 0);
        }
        let ghost stop = table.lemma_search_stop::<H>(kb);
        let ghost mut k: nat = 0;

        let mask: usize = self.data.len() - 1;
        let hash: HashValue = H::hash(key.as_slice());

        let mut ps = PropeSeq::new(h1(hash), mask);
        let h2: u8 = h2(hash);
        proof {
            assert(self.metadata@.len() == self.metadata.len());
            crate::probing::lemma_probe_first(hash, table.data.len());
        }

        loop
            invariant
                table == self@,
                table == old(self)@,
                final(self.metadata)@ == final(old(self).metadata)@,
                final(self.data)@ == final(old(self).data)@,
                table.well_shaped(),
                table.has_room::<H>(kb),
                kb == key.bytes(),
                hash == H::hash_of(kb),
                h2 == crate::model::h2_of(hash),
                mask + 1 == table.data.len(),
                mask + 1 + GROUP_SIZE <= usize::MAX,
                ps.index == table.group_start::<H>(kb, k),
                ps.stride == GROUP_SIZE * k,
                k <= stop < crate::probing::probe_groups(table.data.len()),
                table.comes_to::<H>(kb, k),
                !table.passes::<H>(kb, stop),
            decreases stop - k,
        {
            proof {
                table.lemma_group_start::<H>(kb, k);
            }
            let mut group_query = GroupQuery::from(group_starting_at(self.metadata, ps.index), h2);
            let ghost start = ps.index as int;
            let ghost mut seen: int = 0;
            loop
                invariant
                    table == self@,
                    table == old(self)@,
                    final(self.metadata)@ == final(old(self).metadata)@,
                    final(self.data)@ == final(old(self).data)@,
                    table.well_shaped(),
                    table.has_room::<H>(kb),
                    kb == key.bytes(),
                    hash == H::hash_of(kb),
                    h2 == crate::model::h2_of(hash),
                    mask + 1 == table.data.len(),
                    mask + 1 + GROUP_SIZE <= usize::MAX,
                    start == ps.index == table.group_start::<H>(kb, k),
                    0 <= start < table.data.len(),
                    table.comes_to::<H>(kb, k),
                    0 <= seen <= GROUP_SIZE,
                    forall|i: int| 0 <= i < seen ==> !table.matches_at::<H>(kb, start, i),
                    forall|i: int|
                        0 <= i < GROUP_SIZE ==> #[trigger] group_query.match_at(i) == (i >= seen
                            && table.metadata[start + i] == h2),
                    forall|i: int|
                        0 <= i < GROUP_SIZE ==> #[trigger] group_query.empty_at(i)
                            == is_free(table.metadata[start + i]),
                ensures
                    table == self@,
                    final(self.metadata)@ == final(old(self).metadata)@,
                    final(self.data)@ == final(old(self).data)@,
                    forall|i: int| !table.matches_at::<H>(kb, start, i),
                    forall|i: int|
                        0 <= i < GROUP_SIZE ==> #[trigger] group_query.empty_at(i)
                            == is_free(table.metadata[start + i]),
                decreases GROUP_SIZE - seen,
            {
                let ghost before = group_query;
                match group_query.next() {
                    Some(m) => {
                        proof {
                            lemma_slot(table, ps.index, m, mask);
                            assert forall|i: int| 0 <= i < m implies !table.matches_at::<H>(
                                kb,
                                start,
                                i,
                            ) by {
                                assert(!before.match_at(i));
                            }
                        }
                        let index: usize = (ps.index + m) & mask;

                        let entry = entry_at_mut(self.data, index);

                        if entry.key.equals(&key) {
                            proof {
                                assert(table.matches_at::<H>(kb, start, m as int));
                                assert(table.found_at::<H>(kb, k, m as int));
                                table.lemma_search_found::<H>(kb, k, m as int);
                                lemma_insertion::<K, V, H>(table, key, value);
                            }
                            let ret = Some(entry.value);
                            entry.value = value;
                            assert(self@ =~= table.with_value(index as int, value));
                            return ret;
                        }
                        proof {
                            seen = m + 1;
                        }
                        assert(self@ =~= table);
                    },
                    None => {
                        proof {
                            assert forall|i: int| !table.matches_at::<H>(kb, start, i) by {
                                if seen <= i < GROUP_SIZE {
                                    assert(!before.match_at(i));
                                }
                            }
                        }
                        break;
                    },
                }
            }

            assert(!table.group_matches::<H>(kb, k));
            if let Some(first_empty) = group_query.first_empty() {
                proof {
                    lemma_slot(table, ps.index, first_empty, mask);
                    assert forall|i: int| 0 <= i < first_empty implies !#[trigger]
                        is_free(table.metadata[start + i]) by {
                        assert(!group_query.empty_at(i));
                    }
                    assert(table.first_free_at(start, first_empty as int));
                    assert(table.group_has_free::<H>(kb, k));
                    table.lemma_search_missed::<H>(kb, k, first_empty as int);
                    lemma_insertion::<K, V, H>(table, key, value);
                }
                let index: usize = (ps.index + first_empty) & mask;
                *entry_at_mut(self.data, index) = Entry::new(key, value);
                *metadata_at_mut(self.metadata, index) = h2;

                if index < GROUP_SIZE {
                    let first_mirror: usize = self.data.len();
                    *metadata_at_mut(self.metadata, first_mirror + index) = h2;
                }
                assert(self@ =~= table.with_entry::<H>(index as int, Entry { key, value }));

                return None;
            }

            proof {
                assert(!table.group_has_free::<H>(kb, k)) by {
                    if table.group_has_free::<H>(kb, k) {
                        let m = choose|m: int| table.first_free_at(start, m);
                        assert(group_query.empty_at(m));
                    }
                }
                assert(table.passes::<H>(kb, k));
                assert(k < stop);
                lemma_advance(table, hash, k, ps, mask);
            }
            ps.advance(mask);
            proof {
                k = k + 1;
            }
        }
    }

    /// The text that stands for a table in debug output.
    pub fn fmt(&self) -> (r: String)
        requires
            Entry::<K, V>::packed(),
            self@.well_shaped(),
        ensures
            r@ == "<debug no implemented>"@,
    {
        let readonly: RawTable<'_, K, V, H> = RawTable::new(self.metadata, self.data);
        readonly.fmt()
    }
}

/// The entry in a slot, to be changed.
#[inline]
fn entry_at_mut<K: ByteArray, V: ByteArray>(data: &mut [Entry<K, V>], index: usize) -> (r:
    &mut Entry<K, V>)
    requires
        index < old(data)@.len(),
    ensures
        *r == old(data)@[index as int],
        final(data)@ == old(data)@.update(index as int, *final(r)),
{
    &mut data[index]
}

/// A control byte, to be changed.
#[inline]
fn metadata_at_mut(metadata: &mut [EntryMetadata], index: usize) -> (r: &mut EntryMetadata)
    requires
        index < old(metadata)@.len(),
    ensures
        *r == old(metadata)@[index as int],
        final(metadata)@ == old(metadata)@.update(index as int, *final(r)),
{
    &mut metadata[index]
}

/// Goes through the entries of a table, in the order of their slots.
pub struct RawIter<'a, K, V> where K: ByteArray, V: ByteArray {
    pub metadata: &'a [EntryMetadata],
    pub data: &'a [Entry<K, V>],
    pub current_index: usize,
}

/// The entries that are left, each with its control byte.
impl<'a, K, V> View for RawIter<'a, K, V> where K: ByteArray, V: ByteArray {
    type V = Seq<(EntryMetadata, Entry<K, V>)>;

    open spec fn view(&self) -> Seq<(EntryMetadata, Entry<K, V>)> {
        TableModel { metadata: self.metadata@, data: self.data@ }.entries_from(
            self.current_index as int,
        )
    }
}

impl<'a, K, V> RawIter<'a, K, V> where K: ByteArray, V: ByteArray {
    /// There is a control byte for each slot, and the next slot to look at is a slot or
    /// the end of the table.
    pub open spec fn wf(self) -> bool {
        self.current_index <= self.data@.len() <= self.metadata@.len()
    }

    /// Starts at the first slot.
    pub fn new(metadata: &'a [EntryMetadata], data: &'a [Entry<K, V>]) -> (r: RawIter<'a, K, V>)
        requires
            is_pow2(data@.len() as int),
            metadata@.len() == data@.len() + GROUP_SIZE,
        ensures
            r.wf(),
            r.metadata@ == metadata@,
            r.data@ == data@,
            r.current_index == 0,
    {
        RawIter { metadata, data, current_index: 0 }
    }

    /// Takes out the next entry, with its control byte: that of the first occupied slot
    /// from `current_index` on, behind which the iterator then stands. If there is none, the
    /// iterator then stands at the end of the table, and stays there.
    pub fn next(&mut self) -> (r: Option<(EntryMetadata, &'a Entry<K, V>)>)
        requires
            old(self).wf(),
        ensures
            final(self).wf(),
            final(self).metadata == old(self).metadata,
            final(self).data == old(self).data,
            match r {
                Some((metadata, entry)) => {
                    let slot = final(self).current_index - 1;
                    &&& old(self).current_index <= slot < old(self).data@.len()
                    &&& metadata == old(self).metadata@[slot]
                    &&& *entry == old(self).data@[slot]
                    &&& !is_free(metadata)
                    &&& forall|j: int|
                        old(self).current_index <= j < slot ==> is_free(
                            #[trigger] old(self).metadata@[j],
                        )
                    &&& old(self)@.len() > 0
                    &&& old(self)@[0] == (metadata, *entry)
                    &&& final(self)@ == old(self)@.drop_first()
                },
                None => {
                    &&& final(self).current_index == old(self).data@.len()
                    &&& forall|j: int|
                        old(self).current_index <= j < old(self).data@.len() ==> is_free(
                            #[trigger] old(self).metadata@[j],
                        )
                    &&& old(self)@.len() == 0
                    &&& final(self)@.len() == 0
                },
            },
            old(self).current_index == old(self).data@.len() ==> r is None && *final(self) == *old(self),
    {
        let ghost table = TableModel { metadata: self.metadata@, data: self.data@ };
        loop
            invariant
                self.wf(),
                self.metadata == old(self).metadata,
                self.data == old(self).data,
                old(self).current_index <= self.current_index,
                forall|j: int|
                    old(self).current_index <= j < self.current_index ==> is_free(
                        #[trigger] self.metadata@[j],
                    ),
                table == (TableModel { metadata: self.metadata@, data: self.data@ }),
                self@ == old(self)@,
            decreases self.data@.len() - self.current_index,
        {
            if self.current_index == self.data.len() {
                return None;
            }

            let index: usize = self.current_index;

            self.current_index += 1;

            let entry_metadata: u8 = self.metadata[index];
            if !is_empty_or_deleted(entry_metadata) {
                assert(table.entries_from(index as int).drop_first() =~= table.entries_from(
                    index + 1,
                ));
                return Some((entry_metadata, &self.data[index]));
            }
        }
    }
}

} // verus!
