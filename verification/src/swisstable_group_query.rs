//! Queries on a group of control bytes.

use vstd::prelude::*;

verus! {

/// The number of control bytes that are looked at together.
pub const GROUP_SIZE: usize = 16;

/// The control byte of a slot that holds no entry. Any control byte with this
/// bit set stands for such a slot.
pub const EMPTY_CONTROL_BYTE: u8 = 0b1000_0000;

/// Whether a control byte stands for a slot that holds no entry: it does if it is
/// at least `EMPTY_CONTROL_BYTE`, that is, if its highest bit is set.
pub open spec fn is_free(control_byte: u8) -> bool {
    control_byte >= EMPTY_CONTROL_BYTE
}

/// Of the 256 control bytes, the upper 128 stand for empty slots. None of the others, the
/// seven bits of a hash value, does.
pub proof fn law_free_bytes(control_byte: u8)
    ensures
        is_free(control_byte) <==> 128 <= control_byte <= 255,
{
}

/// Whether a control byte stands for a slot that holds no entry.
#[inline]
pub fn is_empty_or_deleted(control_byte: u8) -> (r: bool)
    ensures
        r == is_free(control_byte),
        r == (control_byte >= 128),
{
    assert((control_byte & 0b1000_0000u8) != 0 <==> control_byte >= 0b1000_0000u8) by (bit_vector);
    (control_byte & EMPTY_CONTROL_BYTE) != 0
}

/// Whether bit `i` of `x` is set.
spec fn has_bit(x: u16, i: int) -> bool {
    (x >> (i as u16)) & 1u16 == 1u16
}

proof fn lemma_no_bits(x: u16)
    ensures
        x == 0 <==> forall|i: int| 0 <= i < GROUP_SIZE ==> !has_bit(x, i),
{
    if x == 0 {
        assert forall|i: int| 0 <= i < GROUP_SIZE implies !has_bit(x, i) by {
            let j = i as u16;
            assert((0u16 >> j) & 1u16 == 0u16) by (bit_vector);
        }
    } else {
        vstd::std_specs::bits::axiom_u16_trailing_zeros(x);
        let t = vstd::std_specs::bits::u16_trailing_zeros(x);
        assert(has_bit(x, t as int));
    }
}

proof fn lemma_set_bit(x: u16, i: u16, j: int)
    requires
        i < GROUP_SIZE,
        0 <= j < GROUP_SIZE,
    ensures
        has_bit(x | (1u16 << i), j) == (j == i || has_bit(x, j)),
{
    let k = j as u16;
    assert(((x | (1u16 << i)) >> k) & 1u16 == 1u16 <==> (k == i || (x >> k) & 1u16 == 1u16))
        by (bit_vector)
        requires
            i < 16,
            k < 16,
    ;
}

proof fn lemma_clear_lowest_bit(x: u16, t: u16, j: int)
    requires
        x != 0,
        t < GROUP_SIZE,
        has_bit(x, t as int),
        x << ((16 - t) as u16) == 0,
        0 <= j < GROUP_SIZE,
    ensures
        has_bit(x & ((x - 1) as u16), j) == (j != t && has_bit(x, j)),
{
    let k = j as u16;
    let s = (16 - t) as u16;
    let y = (x - 1) as u16;
    assert(((x & y) >> k) & 1u16 == 1u16 <==> (k != t && (x >> k) & 1u16 == 1u16)) by (bit_vector)
        requires
            x != 0,
            t < 16,
            k < 16,
            s == 16 - t,
            y == x - 1,
            (x >> t) & 1u16 == 1u16,
            x << s == 0,
    ;
}

/// The answer to two questions about the control bytes of a group: which of them
/// equal a given byte, and which of them stand for empty slots. The former can be
/// taken out one after the other with `next`.
pub struct GroupQuery {
    matches: u16,
    empty: u16,
}

impl GroupQuery {
    /// Whether position `i` of the group is a match that `next` has yet to return.
    pub closed spec fn match_at(self, i: int) -> bool {
        has_bit(self.matches, i)
    }

    /// Whether position `i` of the group stands for an empty slot.
    pub closed spec fn empty_at(self, i: int) -> bool {
        has_bit(self.empty, i)
    }

    /// Asks which of the control bytes `group` equal `h2`, and which are empty.
    #[inline]
    pub fn from(group: &[u8], h2: u8) -> (r: GroupQuery)
        requires
            group@.len() == GROUP_SIZE,
        ensures
            forall|i: int|
                0 <= i < GROUP_SIZE ==> #[trigger] r.match_at(i) == (group@[i] == h2),
            forall|i: int|
                0 <= i < GROUP_SIZE ==> #[trigger] r.empty_at(i) == is_free(group@[i]),
    {
        let mut matches: u16 = 0;
        let mut empty: u16 = 0;
        let mut i: usize = 0;
        proof {
            lemma_no_bits(0);
        }
        while i < GROUP_SIZE
            invariant
                i <= GROUP_SIZE,
                group@.len() == GROUP_SIZE,
                forall|j: int|
                    0 <= j < GROUP_SIZE ==> #[trigger] has_bit(matches, j) == (j < i && group@[j]
                        == h2),
                forall|j: int|
                    0 <= j < GROUP_SIZE ==> #[trigger] has_bit(empty, j) == (j < i && is_free(
                        group@[j],
                    )),
            decreases GROUP_SIZE - i,
        {
            let bit: u16 = 1u16 << (i as u16);
            proof {
                assert forall|j: int| 0 <= j < GROUP_SIZE implies #[trigger] has_bit(matches | bit, j) == (j
                    == i || has_bit(matches, j)) by {
                    lemma_set_bit(matches, i as u16, j);
                }
                assert forall|j: int| 0 <= j < GROUP_SIZE implies #[trigger] has_bit(empty | bit, j) == (j == i
                    || has_bit(empty, j)) by {
                    lemma_set_bit(empty, i as u16, j);
                }
            }
            if group[i] == h2 {
                matches = matches | bit;
            }
            if is_empty_or_deleted(group[i]) {
                empty = empty | bit;
            }
            i += 1;
        }
        GroupQuery { matches, empty }
    }

    /// Whether any position of the group stands for an empty slot.
    #[inline]
    pub fn any_empty(&self) -> (r: bool)
        ensures
            r == exists|i: int| 0 <= i < GROUP_SIZE && self.empty_at(i),
    {
        proof {
            lemma_no_bits(self.empty);
            assert(forall|i: int| #[trigger] has_bit(self.empty, i) == self.empty_at(i));
        }
        self.empty != 0
    }

    /// The first position of the group that stands for an empty slot.
    #[inline]
    pub fn first_empty(&self) -> (r: Option<usize>)
        ensures
            match r {
                Some(m) => {
                    &&& m < GROUP_SIZE
                    &&& self.empty_at(m as int)
                    &&& forall|i: int| 0 <= i < m ==> !self.empty_at(i)
                },
                None => forall|i: int| 0 <= i < GROUP_SIZE ==> !self.empty_at(i),
            },
    {
        proof {
            lemma_no_bits(self.empty);
            vstd::std_specs::bits::axiom_u16_trailing_zeros(self.empty);
        }
        if self.empty == 0 {
            None
        } else {
            Some(self.empty.trailing_zeros() as usize)
        }
    }

    /// Takes out the first of the remaining matches.
    #[inline]
    pub fn next(&mut self) -> (r: Option<usize>)
        ensures
            match r {
                Some(m) => {
                    &&& m < GROUP_SIZE
                    &&& old(self).match_at(m as int)
                    &&& forall|i: int| 0 <= i < m ==> !old(self).match_at(i)
                    &&& forall|i: int|
                        0 <= i < GROUP_SIZE ==> #[trigger] final(self).match_at(i) == (i != m
                            && old(self).match_at(i))
                },
                None => {
                    &&& forall|i: int| 0 <= i < GROUP_SIZE ==> !old(self).match_at(i)
                    &&& *final(self) == *old(self)
                },
            },
            forall|i: int| #[trigger] final(self).empty_at(i) == old(self).empty_at(i),
    {
        proof {
            lemma_no_bits(self.matches);
            vstd::std_specs::bits::axiom_u16_trailing_zeros(self.matches);
        }
        if self.matches == 0 {
            None
        } else {
            let m: usize = self.matches.trailing_zeros() as usize;
            proof {
                assert forall|j: int| 0 <= j < GROUP_SIZE implies has_bit(
                    self.matches & ((self.matches - 1) as u16),
                    j,
                ) == (j != m && has_bit(self.matches, j)) by {
                    lemma_clear_lowest_bit(self.matches, m as u16, j);
                }
            }
            self.matches = self.matches & (self.matches - 1);
            Some(m)
        }
    }
}

} // verus!
