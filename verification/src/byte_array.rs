//! Fixed size byte arrays.

use std::fmt::Debug;
use vstd::bytes::*;
use vstd::prelude::*;
use vstd::slice::slice_subrange;

verus! {

/// Whether every byte of `bytes` is zero.
pub open spec fn all_zeros(bytes: Seq<u8>) -> bool {
    forall|i: int| 0 <= i < bytes.len() ==> bytes[i] == 0
}

/// A byte string is all zeros just if it is the string of as many zero bytes. A byte that
/// is not zero, at whatever place, makes the difference.
pub proof fn law_all_zeros(bytes: Seq<u8>)
    ensures
        all_zeros(bytes) <==> bytes == Seq::new(bytes.len(), |i: int| 0u8),
        all_zeros(bytes) <==> !exists|i: int| 0 <= i < bytes.len() && bytes[i] != 0,
{
    if all_zeros(bytes) {
        assert(bytes =~= Seq::new(bytes.len(), |i: int| 0u8));
    }
}

/// The bytes of an array are its elements, all of them and in order. So arrays have the
/// same bytes just if they are equal.
pub proof fn law_array_bytes<const N: usize>(a: [u8; N], b: [u8; N]) where [u8; N]: Default
    ensures
        a.bytes().len() == N,
        <[u8; N] as ByteArray>::byte_len() == N,
        forall|i: int| 0 <= i < N ==> #[trigger] a.bytes()[i] == a[i],
        a.bytes() == b.bytes() <==> forall|i: int| 0 <= i < N ==> a[i] == b[i],
        a.bytes() == b.bytes() <==> a == b,
{
    assert(a@.len() == N);
    assert(b@.len() == N);
    if forall|i: int| 0 <= i < N ==> a[i] == b[i] {
        assert(a =~= b);
    }
    if a.bytes() == b.bytes() {
        assert forall|i: int| 0 <= i < N implies a[i] == b[i] by {
            assert(a.bytes()[i] == b.bytes()[i]);
        }
    }
}

/// A trait that lets us abstract over different lengths of fixed size byte
/// arrays. Don't implement it for anything other than fixed size byte arrays!
pub trait ByteArray: Sized + Copy + Eq + Clone + PartialEq + Default + Debug + 'static {
    /// The bytes of the array.
    spec fn bytes(&self) -> Seq<u8>;

    /// The number of bytes in every array of this type.
    spec fn byte_len() -> nat;

    /// The bytes of the array, as a slice.
    fn as_slice(&self) -> (r: &[u8])
        ensures
            r@ == self.bytes(),
            r@.len() == Self::byte_len(),
    ;

    /// Whether two arrays hold the same bytes.
    fn equals(&self, other: &Self) -> (r: bool)
        ensures
            r == (self.bytes() == other.bytes()),
    ;

    /// Whether every byte of the array is zero.
    fn is_all_zeros(&self) -> (r: bool)
        ensures
            r == all_zeros(self.bytes()),
            r <==> !exists|i: int| 0 <= i < self.bytes().len() && self.bytes()[i] != 0,
    {
        let bytes = self.as_slice();
        let mut i: usize = 0;
        while i < bytes.len()
            invariant
                bytes@ == self.bytes(),
                i <= bytes@.len(),
                forall|j: int| 0 <= j < i ==> bytes@[j] == 0,
            decreases bytes@.len() - i,
        {
            if bytes[i] != 0 {
                return false;
            }
            i += 1;
        }
        true
    }
}

/// Arrays have a default value up to a length of 32, so it is up to that length
/// that they are byte arrays in the sense of the trait.
impl<const N: usize> ByteArray for [u8; N] where [u8; N]: Default {
    open spec fn bytes(&self) -> Seq<u8> {
        self@
    }

    open spec fn byte_len() -> nat {
        N as nat
    }

    #[inline(always)]
    fn as_slice(&self) -> (r: &[u8])
        ensures
            r@ == self@,
            r@.len() == N,
    {
        assert(self@.len() == N);
        assert(Self::byte_len() == N as nat);
        self
    }

    /// Arrays that are made of whole words are compared word by word, which makes a
    /// difference for keys of 16 bytes and more.
    #[inline]
    fn equals(&self, other: &Self) -> (r: bool)
        ensures
            r == (self@ == other@),
    {
        if N % WORD_SIZE == 0 {
            words_equal(self, other)
        } else {
            bytes_equal(self, other)
        }
    }
}

/// The number of bytes that are compared at once.
const WORD_SIZE: usize = 8;

/// Reads the word number `index` of `bytes`.
#[inline(always)]
fn read_word(bytes: &[u8], index: usize) -> (r: u64)
    requires
        (index + 1) * WORD_SIZE <= bytes@.len(),
    ensures
        r == spec_u64_from_le_bytes(
            bytes@.subrange(index * WORD_SIZE, (index + 1) * WORD_SIZE),
        ),
{
    assert(bytes@.len() == bytes.len());
    let start: usize = index * WORD_SIZE;
    u64_from_le_bytes(slice_subrange(bytes, start, start + WORD_SIZE))
}

/// Compares byte strings that are made of whole words.
#[inline]
fn words_equal(a: &[u8], b: &[u8]) -> (r: bool)
    requires
        a@.len() == b@.len(),
        a@.len() % (WORD_SIZE as nat) == 0,
    ensures
        r == (a@ == b@),
{
    let words: usize = a.len() / WORD_SIZE;
    let mut i: usize = 0;
    proof {
        lemma_auto_spec_u64_to_from_le_bytes();
    }
    while i < words
        invariant
            i <= words,
            a@.len() == b@.len() == words * WORD_SIZE,
            forall|j: int| 0 <= j < i * WORD_SIZE ==> a@[j] == b@[j],
            forall|s: Seq<u8>|
                #![trigger spec_u64_to_le_bytes(spec_u64_from_le_bytes(s))]
                s.len() == WORD_SIZE ==> spec_u64_to_le_bytes(spec_u64_from_le_bytes(s)) == s,
        decreases words - i,
    {
        let ghost x = a@.subrange(i * WORD_SIZE, (i + 1) * WORD_SIZE);
        let ghost y = b@.subrange(i * WORD_SIZE, (i + 1) * WORD_SIZE);
        if read_word(a, i) != read_word(b, i) {
            return false;
        }
        proof {
            assert(spec_u64_to_le_bytes(spec_u64_from_le_bytes(x)) == x);
            assert(spec_u64_to_le_bytes(spec_u64_from_le_bytes(y)) == y);
            assert forall|j: int| i * WORD_SIZE <= j < (i + 1) * WORD_SIZE implies a@[j]
                == b@[j] by {
                assert(x[j - i * WORD_SIZE] == a@[j]);
                assert(y[j - i * WORD_SIZE] == b@[j]);
            }
        }
        i += 1;
    }
    assert(a@ =~= b@);
    true
}

/// Compares byte strings of any length.
#[inline]
fn bytes_equal(a: &[u8], b: &[u8]) -> (r: bool)
    requires
        a@.len() == b@.len(),
    ensures
        r == (a@ == b@),
{
    let mut i: usize = 0;
    while i < a.len()
        invariant
            i <= a@.len() == b@.len(),
            forall|j: int| 0 <= j < i ==> a@[j] == b@[j],
        decreases a@.len() - i,
    {
        if a[i] != b[i] {
            return false;
        }
        i += 1;
    }
    assert(a@ =~= b@);
    true
}

} // verus!
