use raw_table::{h1, h2, is_empty_or_deleted, ByteArray, Entry, FxHashFn, GroupQuery, HashFn};
use raw_table::{PropeSeq, GROUP_SIZE};

#[test]
fn the_two_parts_of_a_hash_value() {
    assert_eq!(h1(0), 0);
    assert_eq!(h1(0x1234_5678), 0x1234_5678);
    assert_eq!(h1(u32::MAX), 0xffff_ffff);
    assert_eq!(h2(0), 0);
    assert_eq!(h2(0x01ff_ffff), 0);
    assert_eq!(h2(0x0200_0000), 1);
    assert_eq!(h2(0x8600_0003), 0x43);
    assert_eq!(h2(u32::MAX), 127);
}

#[test]
fn control_bytes_of_empty_slots() {
    for b in 0..=255u8 {
        assert_eq!(is_empty_or_deleted(b), b >= 128);
    }
}

#[test]
fn a_probe_sequence_takes_growing_steps() {
    let mut ps = PropeSeq::new(0x1003, 127);
    let mut seen = vec![ps.index];
    for _ in 0..7 {
        ps.advance(127);
        seen.push(ps.index);
    }
    assert_eq!(seen, vec![3, 19, 51, 99, 35, 115, 83, 67]);
    assert_eq!(ps.stride, 7 * GROUP_SIZE);
}

#[test]
fn a_probe_sequence_visits_every_group() {
    for slots in [16usize, 32, 256, 4096] {
        let mut visited = vec![false; slots];
        let mut ps = PropeSeq::new(12345, slots - 1);
        for i in 0..slots / GROUP_SIZE {
            if i > 0 {
                ps.advance(slots - 1);
            }
            for m in 0..GROUP_SIZE {
                visited[(ps.index + m) % slots] = true;
            }
        }
        assert!(visited.iter().all(|v| *v));
    }
}

#[test]
fn a_query_gives_matches_in_order_and_the_first_empty() {
    let mut group = [5u8; 16];
    group[0] = 9;
    group[7] = 9;
    group[15] = 9;
    group[6] = 0x80;
    group[11] = 0xff;
    let mut query = GroupQuery::from(&group, 9);
    assert!(query.any_empty());
    assert_eq!(query.first_empty(), Some(6));
    assert_eq!(query.next(), Some(0));
    assert_eq!(query.next(), Some(7));
    assert_eq!(query.next(), Some(15));
    assert_eq!(query.next(), None);
    assert_eq!(query.next(), None);
    assert_eq!(query.first_empty(), Some(6));
}

#[test]
fn a_query_on_a_full_group() {
    let group = [5u8; 16];
    let mut query = GroupQuery::from(&group, 4);
    assert!(!query.any_empty());
    assert_eq!(query.first_empty(), None);
    assert_eq!(query.next(), None);
    let mut query = GroupQuery::from(&group, 5);
    for m in 0..16 {
        assert_eq!(query.next(), Some(m));
    }
    assert_eq!(query.next(), None);
}

#[test]
fn every_byte_counts_in_a_comparison() {
    fn check<const N: usize>()
    where
        [u8; N]: ByteArray,
    {
        let a: [u8; N] = [7; N];
        assert!(a.equals(&a));
        for i in 0..N {
            let mut b = a;
            b[i] = 6;
            assert!(!a.equals(&b));
            assert!(!b.equals(&a));
        }
    }
    check::<1>();
    check::<7>();
    check::<8>();
    check::<9>();
    check::<16>();
    check::<24>();
    check::<31>();
    check::<32>();
}

#[test]
fn byte_arrays_compare_by_their_bytes() {
    assert!([0u8; 0].equals(&[]));
    assert!([1u8, 2, 3].equals(&[1, 2, 3]));
    assert!(![1u8, 2, 3].equals(&[1, 2, 4]));
    let a: [u8; 8] = [1; 8];
    let b: [u8; 8] = [1, 1, 1, 1, 1, 1, 1, 2];
    assert!(!a.equals(&b));
    let a: [u8; 16] = [3; 16];
    assert!(a.equals(&[3; 16]));
    let a: [u8; 24] = [3; 24];
    assert!(a.equals(&[3; 24]));
}

#[test]
fn byte_arrays_as_slices() {
    let a: [u8; 5] = [1, 2, 3, 4, 5];
    assert_eq!(ByteArray::as_slice(&a), &[1u8, 2, 3, 4, 5][..]);
    let e: [u8; 0] = [];
    assert_eq!(ByteArray::as_slice(&e).len(), 0);
}

#[test]
fn byte_arrays_of_zeros() {
    assert!([0u8; 0].is_all_zeros());
    assert!([0u8; 32].is_all_zeros());
    assert!(!([0u8, 0, 1].is_all_zeros()));
    assert!(!([1u8, 0, 0].is_all_zeros()));
}

#[test]
fn entries_are_pairs() {
    let e = Entry::new([1u8, 2], [3u8]);
    assert_eq!(e.key, [1, 2]);
    assert_eq!(e.value, [3]);
    assert_eq!(e.clone(), e);
    assert!(e != Entry::new([1u8, 2], [4u8]));
    assert_eq!(Entry::<[u8; 2], [u8; 1]>::default(), Entry::new([0, 0], [0]));
}

fn hash_by_hand(mut bytes: &[u8]) -> u32 {
    let mut state: u64 = 0;
    while !bytes.is_empty() {
        let n = [8usize, 4, 2, 1].into_iter().find(|n| bytes.len() >= *n).unwrap();
        let mut word = [0u8; 8];
        word[..n].copy_from_slice(&bytes[..n]);
        state = (state.rotate_left(5) ^ u64::from_le_bytes(word)).wrapping_mul(0x517cc1b727220a95);
        bytes = &bytes[n..];
    }
    state as u32
}

#[test]
fn fx_hash_values() {
    assert_eq!(FxHashFn::hash(&[]), 0);
    assert_eq!(FxHashFn::hash(&[1]), 0x2722_0a95);
    assert_eq!(FxHashFn::hash(&[1, 0]), 0x2722_0a95);
    assert_eq!(FxHashFn::hash(&[2, 0, 0, 0]), 0x4e44_152a);
    let bytes: Vec<u8> = (0..40u8).map(|i| i.wrapping_mul(89).wrapping_add(200)).collect();
    for len in 0..=40 {
        assert_eq!(FxHashFn::hash(&bytes[..len]), hash_by_hand(&bytes[..len]));
    }
}
