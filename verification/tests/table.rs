use raw_table::{is_empty_or_deleted, ByteArray, Entry, EntryMetadata, FxHashFn, HashFn};
use raw_table::{RawTable, RawTableMut};
use std::marker::PhantomData;

fn make_table<
    I: Iterator<Item = (K, V)> + ExactSizeIterator,
    K: ByteArray,
    V: ByteArray,
    H: HashFn,
>(
    xs: I,
) -> (Vec<EntryMetadata>, Vec<Entry<K, V>>) {
    let size = xs.size_hint().0.next_power_of_two();
    let mut data = vec![Entry::default(); size];
    let mut metadata = vec![255; size + 16];

    assert!(metadata.iter().all(|b| is_empty_or_deleted(*b)));

    {
        let mut table: RawTableMut<K, V, H> = RawTableMut {
            metadata: &mut metadata[..],
            data: &mut data[..],
            _hash_fn: Default::default(),
        };

        for (k, v) in xs {
            table.insert(k, v);
        }
    }

    (metadata, data)
}

#[test]
fn stress() {
    let xs: Vec<[u8; 2]> = (0..=u16::MAX).map(|x| x.to_le_bytes()).collect();

    let (mut metadata, mut data) = make_table::<_, _, _, FxHashFn>(xs.iter().map(|x| (*x, *x)));

    {
        let table: RawTable<_, _, FxHashFn> = RawTable {
            metadata: &metadata[..],
            data: &data[..],
            _hash_fn: PhantomData::default(),
        };

        for x in xs.iter() {
            assert_eq!(table.find(x), Some(x));
        }
    }

    // overwrite all values
    {
        let mut table: RawTableMut<_, _, FxHashFn> = RawTableMut {
            metadata: &mut metadata[..],
            data: &mut data[..],
            _hash_fn: PhantomData::default(),
        };

        for (i, x) in xs.iter().enumerate() {
            assert_eq!(table.insert(*x, [i as u8, (i + 1) as u8]), Some(*x));
        }
    }

    // Check if we find the new expected values
    {
        let table: RawTable<_, _, FxHashFn> = RawTable {
            metadata: &metadata[..],
            data: &data[..],
            _hash_fn: PhantomData::default(),
        };

        for (i, x) in xs.iter().enumerate() {
            assert_eq!(table.find(x), Some(&[i as u8, (i + 1) as u8]));
        }
    }
}

/// The key of four bytes that has the given hash value: such a key is hashed by a
/// multiplication with an odd number, which can be undone.
fn key_for(hash: u32) -> [u8; 4] {
    let factor: u32 = 0x2722_0a95;
    let mut inverse: u32 = 1;
    for _ in 0..5 {
        inverse = inverse.wrapping_mul(2u32.wrapping_sub(factor.wrapping_mul(inverse)));
    }
    let key = hash.wrapping_mul(inverse).to_le_bytes();
    assert_eq!(FxHashFn::hash(&key), hash);
    key
}

/// Different keys whose search starts at the same slot, number 3 in a table of up to
/// 256 slots, and whose control byte is 0x43.
fn colliding_key(i: u8) -> [u8; 4] {
    key_for(0x8600_0003 + ((i as u32) << 8))
}

fn blank<K: ByteArray, V: ByteArray>(slots: usize) -> (Vec<u8>, Vec<Entry<K, V>>) {
    (vec![255; slots + 16], vec![Entry::default(); slots])
}

#[test]
fn an_empty_table_holds_nothing() {
    let (metadata, data) = blank::<[u8; 2], [u8; 1]>(32);
    let table: RawTable<_, _, FxHashFn> = RawTable::new(&metadata, &data);
    assert_eq!(table.find(&[0, 0]), None);
    assert_eq!(table.find(&[1, 0]), None);
    let mut iter = table.iter();
    assert_eq!(iter.next(), None);
    assert_eq!(iter.next(), None);
    assert_eq!(table.sanity_check_hashes(1000), Ok(()));
}

#[test]
fn a_key_has_the_value_inserted_last() {
    let (mut metadata, mut data) = blank::<[u8; 3], [u8; 4]>(16);
    {
        let mut table: RawTableMut<_, _, FxHashFn> = RawTableMut::new(&mut metadata, &mut data);
        assert_eq!(table.insert([1, 2, 3], [1; 4]), None);
        assert_eq!(table.insert([1, 2, 4], [2; 4]), None);
        assert_eq!(table.insert([1, 2, 3], [3; 4]), Some([1; 4]));
        assert_eq!(table.insert([1, 2, 3], [4; 4]), Some([3; 4]));
    }
    let table: RawTable<_, _, FxHashFn> = RawTable::new(&metadata, &data);
    assert_eq!(table.find(&[1, 2, 3]), Some(&[4; 4]));
    assert_eq!(table.find(&[1, 2, 4]), Some(&[2; 4]));
    assert_eq!(table.find(&[1, 2, 5]), None);
}

#[test]
fn overwriting_keeps_the_control_bytes() {
    let (mut metadata, mut data) = blank::<[u8; 1], [u8; 1]>(16);
    {
        let mut table: RawTableMut<_, _, FxHashFn> = RawTableMut::new(&mut metadata, &mut data);
        table.insert([9], [1]);
    }
    let metadata_before = metadata.clone();
    let data_before = data.clone();
    {
        let mut table: RawTableMut<_, _, FxHashFn> = RawTableMut::new(&mut metadata, &mut data);
        assert_eq!(table.insert([9], [2]), Some([1]));
    }
    assert_eq!(metadata, metadata_before);
    let changed: Vec<usize> = (0..16).filter(|i| data[*i] != data_before[*i]).collect();
    assert_eq!(changed.len(), 1);
    assert_eq!(data[changed[0]], Entry::new([9], [2]));
}

#[test]
fn an_entry_lands_in_the_first_free_slot_of_its_group() {
    // The search starts at slot 3, and the control byte is 0x43.
    let (mut metadata, mut data) = blank::<[u8; 4], [u8; 1]>(32);
    {
        let mut table: RawTableMut<_, _, FxHashFn> = RawTableMut::new(&mut metadata, &mut data);
        table.insert(colliding_key(7), [70]);
        table.insert(colliding_key(8), [80]);
    }
    let mut expected = vec![255u8; 48];
    expected[3] = 0x43;
    expected[4] = 0x43;
    expected[35] = 0x43;
    expected[36] = 0x43;
    assert_eq!(metadata, expected);
    assert_eq!(data[3], Entry::new(colliding_key(7), [70]));
    assert_eq!(data[4], Entry::new(colliding_key(8), [80]));
    assert_eq!(data[5], Entry::default());
}

#[test]
fn a_group_wraps_around_at_the_end_of_the_table() {
    // The search starts at slot 30 of 32.
    let (mut metadata, mut data) = blank::<[u8; 4], [u8; 1]>(32);
    {
        let mut table: RawTableMut<_, _, FxHashFn> = RawTableMut::new(&mut metadata, &mut data);
        for i in 0..4u8 {
            assert_eq!(table.insert(key_for(30 + ((i as u32) << 8)), [i]), None);
        }
    }
    let places: Vec<usize> = (0..32).filter(|i| metadata[*i] == 0).collect();
    assert_eq!(places, vec![0, 1, 30, 31]);
    assert_eq!(data[0].value, [2]);
    assert_eq!(data[1].value, [3]);
    assert_eq!(metadata[32], 0);
    assert_eq!(metadata[33], 0);
    assert_eq!(metadata[34], 255);
    let table: RawTable<_, _, FxHashFn> = RawTable::new(&metadata, &data);
    for i in 0..4u8 {
        assert_eq!(table.find(&key_for(30 + ((i as u32) << 8))), Some(&[i]));
    }
    assert_eq!(table.find(&key_for(30 + (4 << 8))), None);
}

#[test]
fn keys_that_collide_fill_the_whole_table() {
    let (mut metadata, mut data) = blank::<[u8; 4], [u8; 1]>(128);
    {
        let mut table: RawTableMut<_, _, FxHashFn> = RawTableMut::new(&mut metadata, &mut data);
        for i in 0..128u8 {
            assert_eq!(table.insert(colliding_key(i), [i ^ 0x55]), None);
        }
        // Full, but every key is there.
        for i in 0..128u8 {
            assert_eq!(table.insert(colliding_key(i), [i ^ 0x33]), Some([i ^ 0x55]));
        }
    }
    assert!(metadata.iter().all(|b| *b == 0x43));
    let table: RawTable<_, _, FxHashFn> = RawTable::new(&metadata, &data);
    for i in 0..128u8 {
        assert_eq!(table.find(&colliding_key(i)), Some(&[i ^ 0x33]));
    }
    assert_eq!(table.sanity_check_hashes(128), Ok(()));
}

#[test]
fn the_second_group_is_one_group_further_and_the_third_two() {
    // Start 3; the groups start at 3, 19, 51 and 99.
    let (mut metadata, mut data) = blank::<[u8; 4], [u8; 1]>(128);
    {
        let mut table: RawTableMut<_, _, FxHashFn> = RawTableMut::new(&mut metadata, &mut data);
        for i in 0..50u8 {
            table.insert(colliding_key(i), [i]);
        }
    }
    assert_eq!(data[3].value, [0]);
    assert_eq!(data[18].value, [15]);
    assert_eq!(data[19].value, [16]);
    assert_eq!(data[34].value, [31]);
    assert_eq!(data[51].value, [32]);
    assert_eq!(data[66].value, [47]);
    assert_eq!(data[99].value, [48]);
    assert_eq!(data[100].value, [49]);
}

#[test]
fn the_last_control_bytes_copy_the_first_ones() {
    for slots in [16usize, 32, 64] {
        let (mut metadata, mut data) = blank::<[u8; 1], [u8; 0]>(slots);
        {
            let mut table: RawTableMut<_, _, FxHashFn> = RawTableMut::new(&mut metadata, &mut data);
            for i in 0..slots {
                table.insert([i as u8], []);
            }
        }
        assert_eq!(metadata[..16], metadata[slots..]);
    }
}

#[test]
fn a_table_smaller_than_a_group_takes_as_many_keys_as_it_has_slots() {
    for slots in [1usize, 2, 4, 8] {
        let (mut metadata, mut data) = blank::<[u8; 1], [u8; 1]>(slots);
        {
            let mut table: RawTableMut<_, _, FxHashFn> = RawTableMut::new(&mut metadata, &mut data);
            for i in 0..slots {
                assert_eq!(table.insert([i as u8], [1]), None);
            }
            for i in 0..slots {
                assert_eq!(table.insert([i as u8], [i as u8]), Some([1]));
            }
        }
        let table: RawTable<_, _, FxHashFn> = RawTable::new(&metadata, &data);
        for i in 0..slots {
            assert_eq!(table.find(&[i as u8]), Some(&[i as u8]));
        }
    }
}

#[test]
fn iteration_gives_every_entry_once_in_slot_order() {
    let (mut metadata, mut data) = blank::<[u8; 4], [u8; 1]>(16);
    {
        let mut table: RawTableMut<_, _, FxHashFn> = RawTableMut::new(&mut metadata, &mut data);
        table.insert(key_for(0x0200_0009), [1]);
        table.insert(key_for(0x0400_0002), [2]);
        table.insert(key_for(0x8000_000f), [3]);
        table.insert(key_for(0x0400_0002), [4]);
    }
    let table: RawTable<_, _, FxHashFn> = RawTable::new(&metadata, &data);
    let mut iter = table.iter();
    assert_eq!(iter.next(), Some((2, &Entry::new(key_for(0x0400_0002), [4]))));
    assert_eq!(iter.next(), Some((1, &Entry::new(key_for(0x0200_0009), [1]))));
    assert_eq!(iter.next(), Some((64, &Entry::new(key_for(0x8000_000f), [3]))));
    assert_eq!(iter.next(), None);
    assert_eq!(iter.next(), None);
}

#[test]
fn an_iterator_stands_behind_the_slot_it_took_and_stays_at_the_end() {
    let (mut metadata, mut data) = blank::<[u8; 4], [u8; 1]>(16);
    {
        let mut table: RawTableMut<_, _, FxHashFn> = RawTableMut::new(&mut metadata, &mut data);
        table.insert(key_for(5), [1]);
        table.insert(key_for(9), [2]);
    }
    let table: RawTable<_, _, FxHashFn> = RawTable::new(&metadata, &data);
    let mut iter = table.iter();
    assert_eq!(iter.current_index, 0);
    assert_eq!(iter.metadata, &metadata[..]);
    assert_eq!(iter.data, &data[..]);
    assert!(iter.next().is_some());
    assert_eq!(iter.current_index, 6);
    assert!(iter.next().is_some());
    assert_eq!(iter.current_index, 10);
    for _ in 0..3 {
        assert!(iter.next().is_none());
        assert_eq!(iter.current_index, 16);
    }
}

#[test]
fn entries_are_packed() {
    assert_eq!(std::mem::size_of::<Entry<[u8; 3], [u8; 4]>>(), 7);
    assert_eq!(std::mem::align_of::<Entry<[u8; 3], [u8; 4]>>(), 1);
    assert_eq!(std::mem::size_of::<Entry<[u8; 0], [u8; 0]>>(), 0);
    assert_eq!(std::mem::size_of::<Entry<[u8; 32], [u8; 8]>>(), 40);
    assert_eq!(std::mem::align_of::<Entry<[u8; 32], [u8; 8]>>(), 1);
}

#[test]
fn a_filled_table_is_sane() {
    let (mut metadata, mut data) = blank::<[u8; 2], [u8; 2]>(64);
    {
        let mut table: RawTableMut<_, _, FxHashFn> = RawTableMut::new(&mut metadata, &mut data);
        for i in 0..40u8 {
            table.insert([i, 1], [i, 2]);
        }
    }
    let table: RawTable<_, _, FxHashFn> = RawTable::new(&metadata, &data);
    for slots in [0usize, 1, 63, 64, 65, usize::MAX] {
        assert_eq!(table.sanity_check_hashes(slots), Ok(()));
    }
}

#[test]
fn a_control_byte_of_another_hash_value_is_noticed() {
    let (mut metadata, mut data) = blank::<[u8; 4], [u8; 1]>(16);
    {
        let mut table: RawTableMut<_, _, FxHashFn> = RawTableMut::new(&mut metadata, &mut data);
        table.insert(key_for(0x8600_000c), [1]);
    }
    assert_eq!(metadata[12], 67);
    metadata[12] = 127;
    metadata[28] = 127;
    let table: RawTable<_, _, FxHashFn> = RawTable::new(&metadata, &data);
    assert_eq!(table.sanity_check_hashes(12), Ok(()));
    let message = table.sanity_check_hashes(13).unwrap_err().0;
    assert_eq!(
        message,
        "Control byte does not match hash value for entry 12. Expected 67, found 127."
    );
    // With it, the key is not found either.
    assert_eq!(table.find(&key_for(0x8600_000c)), None);
}

#[test]
fn garbage_in_an_empty_slot_is_noticed() {
    let (metadata, mut data) = blank::<[u8; 2], [u8; 2]>(128);
    data[5].value = [0, 1];
    data[107].key = [1, 0];
    {
        let table: RawTable<_, _, FxHashFn> = RawTable::new(&metadata, &data);
        assert_eq!(table.sanity_check_hashes(5), Ok(()));
        let message = table.sanity_check_hashes(128).unwrap_err().0;
        assert_eq!(message, "Found empty entry with non-zero contents at 5");
    }
    data[5].value = [0, 0];
    let table: RawTable<_, _, FxHashFn> = RawTable::new(&metadata, &data);
    assert_eq!(table.sanity_check_hashes(107), Ok(()));
    let message = table.sanity_check_hashes(108).unwrap_err().0;
    assert_eq!(message, "Found empty entry with non-zero contents at 107");
}

#[test]
fn the_check_needs_control_bytes_for_the_checked_slots_only() {
    let mut data = vec![Entry::<[u8; 1], [u8; 1]>::default(); 3];
    data[2].value = [1];
    let metadata = vec![255u8; 3];
    let table: RawTable<_, _, FxHashFn> = RawTable {
        metadata: &metadata[..],
        data: &data[..],
        _hash_fn: PhantomData::default(),
    };
    assert_eq!(table.sanity_check_hashes(2), Ok(()));
    let message = table.sanity_check_hashes(9).unwrap_err().0;
    assert_eq!(message, "Found empty entry with non-zero contents at 2");
    let table: RawTable<_, _, FxHashFn> = RawTable {
        metadata: &metadata[..2],
        data: &data[..],
        _hash_fn: PhantomData::default(),
    };
    assert_eq!(table.sanity_check_hashes(2), Ok(()));
}

#[test]
fn tables_on_equal_arrays_are_equal() {
    let (mut metadata, mut data) = blank::<[u8; 2], [u8; 2]>(16);
    let (other_metadata, other_data) = blank::<[u8; 2], [u8; 2]>(16);
    {
        let a: RawTable<_, _, FxHashFn> = RawTable::new(&metadata, &data);
        let b: RawTable<_, _, FxHashFn> = RawTable::new(&other_metadata, &other_data);
        assert!(a == b);
    }
    {
        let mut table: RawTableMut<_, _, FxHashFn> = RawTableMut::new(&mut metadata, &mut data);
        table.insert([1, 1], [1, 1]);
    }
    let a: RawTable<_, _, FxHashFn> = RawTable::new(&metadata, &data);
    let b: RawTable<_, _, FxHashFn> = RawTable::new(&other_metadata, &other_data);
    assert!(a != b);
}

#[test]
fn debug_text() {
    let (mut metadata, mut data) = blank::<[u8; 2], [u8; 2]>(16);
    {
        let table: RawTable<_, _, FxHashFn> = RawTable::new(&metadata, &data);
        assert_eq!(table.fmt(), "<debug no implemented>");
    }
    let table: RawTableMut<_, _, FxHashFn> = RawTableMut::new(&mut metadata, &mut data);
    assert_eq!(table.fmt(), "<debug no implemented>");
}
