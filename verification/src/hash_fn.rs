//! Hash functions on byte strings.

use vstd::prelude::*;
use vstd::slice::slice_subrange;

verus! {

/// The hash value of a key.
pub type HashValue = u32;

/// This trait represents hash functions as used by the tables. A hash function
/// gives the same value for the same bytes, in every process and on every machine.
pub trait HashFn: Eq {
    /// The hash value of `bytes`.
    spec fn hash_of(bytes: Seq<u8>) -> HashValue;

    /// Computes the hash value of `bytes`.
    fn hash(bytes: &[u8]) -> (r: HashValue)
        ensures
            r == Self::hash_of(bytes@),
    ;
}

/// The factor that `FxHashFn` multiplies with.
pub const FX_FACTOR: u64 = 0x517c_c1b7_2722_0a95;

/// The number that `bytes` stand for, the least significant byte first.
pub open spec fn little_endian(bytes: Seq<u8>) -> nat
    decreases bytes.len(),
{
    if bytes.len() == 0 {
        0
    } else {
        bytes[0] as nat + 256 * little_endian(bytes.skip(1))
    }
}

/// The state of `FxHashFn` after it has taken in `word` in the state `state`.
pub open spec fn fx_step(state: u64, word: u64) -> u64 {
    (((state << 5u64) | (state >> 59u64)) ^ word).wrapping_mul(FX_FACTOR)
}

/// The number of bytes that `FxHashFn` takes in at once if `len` are left.
pub open spec fn fx_word_len(len: nat) -> nat {
    if len >= 8 {
        8
    } else if len >= 4 {
        4
    } else if len >= 2 {
        2
    } else {
        1
    }
}

/// The state of `FxHashFn` after it has taken in all of `bytes`, word by word.
pub open spec fn fx_fold(state: u64, bytes: Seq<u8>) -> u64
    decreases bytes.len(),
{
    if bytes.len() == 0 {
        state
    } else {
        let n = fx_word_len(bytes.len()) as int;
        fx_fold(fx_step(state, little_endian(bytes.take(n)) as u64), bytes.skip(n))
    }
}

/// The hash function that is known as FxHash. It is fast and not meant to
/// withstand keys that were chosen to collide.
#[derive(PartialEq, Eq)]
pub struct FxHashFn;

impl HashFn for FxHashFn {
    open spec fn hash_of(bytes: Seq<u8>) -> HashValue {
        fx_fold(0, bytes) as u32
    }

    #[inline]
    fn hash(bytes: &[u8]) -> (r: HashValue) {
        let mut state: u64 = 0;
        let mut done: usize = 0;
        assert(bytes@.skip(0) =~= bytes@);
        while done < bytes.len()
            invariant
                done <= bytes@.len(),
                fx_fold(state, bytes@.skip(done as int)) == fx_fold(0, bytes@),
            decreases bytes@.len() - done,
        {
            let left: usize = bytes.len() - done;
            let n: usize = if left >= 8 {
                8
            } else if left >= 4 {
                4
            } else if left >= 2 {
                2
            } else {
                1
            };
            let word: u64 = read_word(slice_subrange(bytes, done, done + n));
            proof {
                let rest = bytes@.skip(done as int);
                assert(rest.take(n as int) =~= bytes@.subrange(done as int, done + n));
                assert(rest.skip(n as int) =~= bytes@.skip(done + n));
            }
            state = ((state << 5u64) | (state >> 59u64)) ^ word;
            state = state.wrapping_mul(FX_FACTOR);
            done += n;
        }
        #[verifier::truncate]
        let r: u32 = state as u32;
        r
    }
}

/// A byte in front of others counts once, and the others count 256 times as much as they
/// did.
pub proof fn law_little_endian(byte: u8, rest: Seq<u8>)
    ensures
        little_endian(Seq::<u8>::empty()) == 0,
        little_endian(seq![byte] + rest) == byte + 256 * little_endian(rest),
{
    assert((seq![byte] + rest).skip(1) =~= rest);
}

/// FxHash in numbers. The state starts at zero, and the hash value is the lower half of
/// the last state. A word of eight bytes is taken in as long as there is one, then one of
/// four bytes, then one of two bytes and then a single byte, as far as there are such:
/// the state is rotated by five bits to the left, the word is added bit by bit without
/// carry, and the result is multiplied with a constant, modulo 2^64.
pub proof fn law_fx_hash(state: u64, word: Seq<u8>, rest: Seq<u8>)
    requires
        word.len() == 8 || (word.len() == 4 && rest.len() < 4) || (word.len() == 2 && rest.len()
            < 2) || (word.len() == 1 && rest.len() < 1),
    ensures
        FxHashFn::hash_of(word + rest) == fx_fold(0, word + rest) as int % 0x1_0000_0000,
        FxHashFn::hash_of(Seq::<u8>::empty()) == 0,
        fx_fold(state, Seq::<u8>::empty()) == state,
        ({
            let rotated = ((state * 32) % 0x1_0000_0000_0000_0000 + state as int
                / 0x800_0000_0000_0000) as u64;
            let mixed = rotated ^ (little_endian(word) as u64);
            let next = ((mixed * 0x517c_c1b7_2722_0a95) % 0x1_0000_0000_0000_0000) as u64;
            fx_fold(state, word + rest) == fx_fold(next, rest)
        }),
{
    let bytes = word + rest;
    assert(bytes.take(word.len() as int) =~= word);
    assert(bytes.skip(word.len() as int) =~= rest);
    assert(fx_word_len(bytes.len()) == word.len());
    let all = fx_fold(0, bytes);
    assert((all as u32) as int == all % 0x1_0000_0000u64) by (bit_vector);
    let rotated = ((state * 32) % 0x1_0000_0000_0000_0000 + state as int
        / 0x800_0000_0000_0000) as u64;
    assert(rotated == (state << 5u64) | (state >> 59u64)) by {
        let low = state << 5u64;
        let high = state >> 59u64;
        assert(low == (state * 32) % 0x1_0000_0000_0000_0000) by (bit_vector)
            requires
                low == state << 5u64,
        ;
        assert(high == state / 0x800_0000_0000_0000u64) by (bit_vector)
            requires
                high == state >> 59u64,
        ;
        assert(low | high == low + high && low + high < 0x1_0000_0000_0000_0000) by (bit_vector)
            requires
                low == state << 5u64,
                high == state >> 59u64,
        ;
    }
}

/// Reads a number of at most eight bytes, the least significant byte first.
fn read_word(bytes: &[u8]) -> (r: u64)
    requires
        bytes@.len() <= 8,
    ensures
        r == little_endian(bytes@),
{
    let mut r: u64 = 0;
    let mut i: usize = bytes.len();
    assert(bytes@.skip(i as int) =~= Seq::<u8>::empty());
    while i > 0
        invariant
            i <= bytes@.len() <= 8,
            r == little_endian(bytes@.skip(i as int)),
            i == 8 ==> r < 1,
            i == 7 ==> r < 0x100,
            i == 6 ==> r < 0x1_0000,
            i == 5 ==> r < 0x100_0000,
            i == 4 ==> r < 0x1_0000_0000,
            i == 3 ==> r < 0x100_0000_0000,
            i == 2 ==> r < 0x1_0000_0000_0000,
            i == 1 ==> r < 0x100_0000_0000_0000,
        decreases i,
    {
        i -= 1;
        assert(bytes@.skip(i as int).skip(1) =~= bytes@.skip(i + 1));
        r = r * 256 + bytes[i] as u64;
    }
    assert(bytes@.skip(0) =~= bytes@);
    r
}

} // verus!
