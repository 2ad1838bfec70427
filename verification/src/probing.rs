//! The arithmetic of triangular probing.
//!
//! A probe sequence over `slots` slots starts at a hash value and then takes
//! steps of one group, two groups, three groups and so on, wrapping around at
//! the end of the table. With a power of two as the number of slots it comes to
//! every slot.

use vstd::arithmetic::div_mod::*;
use vstd::arithmetic::power2::*;
use vstd::prelude::*;
use vstd::set_lib::*;

use crate::swisstable_group_query::GROUP_SIZE;

verus! {

/// `1 + 2 + ... + k`.
pub open spec fn triangular(k: nat) -> nat
    decreases k,
{
    if k == 0 {
        0
    } else {
        triangular((k - 1) as nat) + k
    }
}

/// The slot at which the `k`-th group of the probe sequence of `hash` starts.
pub open spec fn probe_start(hash: u32, slots: nat, k: nat) -> int {
    (hash + GROUP_SIZE * triangular(k)) % (slots as int)
}

/// The number of groups that a probe sequence has to look at to have seen every
/// slot.
pub open spec fn probe_groups(slots: nat) -> nat {
    if slots < GROUP_SIZE {
        1
    } else {
        slots / (GROUP_SIZE as nat)
    }
}

proof fn lemma_triangular_formula(k: nat)
    ensures
        2 * triangular(k) == k * (k + 1),
    decreases k,
{
    if k > 0 {
        let j = (k - 1) as nat;
        lemma_triangular_formula(j);
        assert(k * (k + 1) == j * (j + 1) + 2 * k) by (nonlinear_arith)
            requires
                k == j + 1,
        ;
        assert(triangular(k) == triangular(j) + k);
    } else {
        assert(k * (k + 1) == 0) by (nonlinear_arith)
            requires
                k == 0,
        ;
    }
}

/// Where the `k`-th group of a probe sequence starts, in numbers: after the steps of one
/// group, two groups and so on up to `k` groups.
pub proof fn law_probe_position(hash: u32, slots: nat, k: nat)
    requires
        slots > 0,
    ensures
        probe_start(hash, slots, k) == (hash + 8 * (k * (k + 1))) % (slots as int),
{
    lemma_triangular_formula(k);
}

/// A probe sequence comes to every slot, before it has taken more steps than there are
/// groups.
pub proof fn law_probe_visits_every_slot(hash: u32, slots: nat, slot: int) -> (at: (nat, int))
    requires
        is_pow2(slots as int),
        0 <= slot < slots,
    ensures
        at.0 == 0 || 16 * at.0 < slots,
        0 <= at.1 < 16,
        (hash + 8 * (at.0 * (at.0 + 1)) + at.1) % (slots as int) == slot,
{
    let (k, m) = lemma_probe_covers(hash, slots, slot);
    law_probe_position(hash, slots, k);
    let x = hash + 8 * (k * (k + 1));
    lemma_add_mod_noop(x, m, slots as int);
    lemma_add_mod_noop(x % (slots as int), m, slots as int);
    lemma_mod_twice(x, slots as int);
    (k, m)
}

/// Dividing by a power of two is not helped by an odd factor.
proof fn lemma_odd_factor_drops_out(e: nat, x: int, y: int)
    requires
        (x * y) % (pow2(e) as int) == 0,
        y % 2 == 1,
    ensures
        x % (pow2(e) as int) == 0,
    decreases e,
{
    lemma_pow2_pos(e);
    if e == 0 {
        lemma2_to64();
    } else {
        let half = pow2((e - 1) as nat) as int;
        lemma_pow2_pos((e - 1) as nat);
        lemma_pow2_unfold(e);
        let q = (x * y) / (2 * half);
        lemma_fundamental_div_mod(x * y, 2 * half);
        assert(x * y == 2 * (half * q)) by (nonlinear_arith)
            requires
                x * y == (2 * half) * q + 0,
        ;
        assert(x % 2 == 0) by {
            if x % 2 == 1 {
                let a = x / 2;
                let b = y / 2;
                assert(x * y == 2 * (2 * a * b + a + b) + 1) by (nonlinear_arith)
                    requires
                        x == 2 * a + 1,
                        y == 2 * b + 1,
                ;
            }
        }
        let x2 = x / 2;
        assert(x2 * y == half * q) by (nonlinear_arith)
            requires
                x == 2 * x2,
                x * y == 2 * (half * q),
        ;
        lemma_mod_multiples_basic(q, half);
        assert(half * q == q * half) by (nonlinear_arith);
        lemma_odd_factor_drops_out((e - 1) as nat, x2, y);
        let r = x2 / half;
        lemma_fundamental_div_mod(x2, half);
        assert(x == r * (2 * half)) by (nonlinear_arith)
            requires
                x == 2 * x2,
                x2 == half * r + 0,
        ;
        lemma_mod_multiples_basic(r, 2 * half);
    }
}

/// The first `2^e` triangular numbers differ modulo `2^e`.
proof fn lemma_triangular_injective(e: nat, a: nat, b: nat)
    requires
        a < b < pow2(e),
    ensures
        triangular(a) % pow2(e) != triangular(b) % pow2(e),
{
    let g = pow2(e) as int;
    lemma_pow2_pos(e);
    lemma_pow2_unfold(e + 1);
    if triangular(a) % pow2(e) == triangular(b) % pow2(e) {
        let ta = triangular(a) as int;
        let tb = triangular(b) as int;
        lemma_triangular_formula(a);
        lemma_triangular_formula(b);
        lemma_fundamental_div_mod(ta, g);
        lemma_fundamental_div_mod(tb, g);
        let q = tb / g - ta / g;
        assert(tb - ta == g * q) by (nonlinear_arith)
            requires
                ta == g * (ta / g) + ta % g,
                tb == g * (tb / g) + tb % g,
                ta % g == tb % g,
                q == tb / g - ta / g,
        ;
        let x: int = b - a;
        let y = a + b + 1int;
        assert(x * y == 2 * (tb - ta)) by (nonlinear_arith)
            requires
                2 * ta == a * (a + 1),
                2 * tb == b * (b + 1),
                x == b - a,
                y == a + b + 1,
        ;
        assert(x * y == q * (2 * g)) by (nonlinear_arith)
            requires
                x * y == 2 * (tb - ta),
                tb - ta == g * q,
        ;
        assert(y * x == x * y) by (nonlinear_arith);
        lemma_mod_multiples_basic(q, 2 * g);
        if y % 2 == 1 {
            lemma_odd_factor_drops_out(e + 1, x, y);
            lemma_small_mod(x as nat, (2 * g) as nat);
        } else {
            lemma_odd_factor_drops_out(e + 1, y, x);
            lemma_small_mod(y as nat, (2 * g) as nat);
        }
    }
}

/// Every residue modulo `2^e` is that of one of the first `2^e` triangular numbers.
proof fn lemma_triangular_surjective(e: nat, r: nat) -> (k: nat)
    requires
        r < pow2(e),
    ensures
        k < pow2(e),
        triangular(k) % pow2(e) == r,
{
    let g = pow2(e) as int;
    lemma_pow2_pos(e);
    let all = set_int_range(0, g);
    let f = |i: int| (triangular(i as nat) % pow2(e)) as int;
    lemma_int_range(0, g);
    assert forall|i: int, j: int| #![trigger f(i), f(j)]
        all.contains(i) && all.contains(j) && f(i) == f(j) implies i == j by {
        if i < j {
            lemma_triangular_injective(e, i as nat, j as nat);
        } else if j < i {
            lemma_triangular_injective(e, j as nat, i as nat);
        }
    }
    let image = all.map(f);
    lemma_map_size(all, image, f);
    assert forall|x: int| image.contains(x) implies all.contains(x) by {
        let i = choose|i: int| all.contains(i) && f(i) == x;
        lemma_mod_bound(triangular(i as nat) as int, g);
    }
    lemma_subset_equality(image, all);
    assert(all.contains(r as int));
    let i = choose|i: int| all.contains(i) && f(i) == r as int;
    i as nat
}

/// A power of two that is at least `GROUP_SIZE` is a power of two times
/// `GROUP_SIZE`.
proof fn lemma_groups_power_of_two(slots: nat) -> (e: nat)
    requires
        is_pow2(slots as int),
        slots >= GROUP_SIZE,
    ensures
        slots == GROUP_SIZE * pow2(e),
        probe_groups(slots) == pow2(e),
{
    is_pow2_equiv(slots as int);
    let s = choose|i: nat| vstd::arithmetic::power::pow(2, i) == slots as int;
    assert(pow2(s) == slots);
    lemma2_to64();
    assert(s >= 4) by {
        if s < 4 {
            lemma_pow2_strictly_increases(s, 4);
        }
    }
    lemma_pow2_adds(4, (s - 4) as nat);
    let e = (s - 4) as nat;
    assert(slots == 16 * pow2(e));
    assert((16 * pow2(e)) / 16 == pow2(e));
    e
}

/// A power of two below `GROUP_SIZE` divides `GROUP_SIZE`.
proof fn lemma_small_table(slots: nat)
    requires
        is_pow2(slots as int),
        slots < GROUP_SIZE,
    ensures
        slots == 1 || slots == 2 || slots == 4 || slots == 8,
{
    is_pow2_equiv(slots as int);
    let s = choose|i: nat| vstd::arithmetic::power::pow(2, i) == slots as int;
    assert(pow2(s) == slots);
    lemma2_to64();
    if s > 4 {
        lemma_pow2_strictly_increases(4, s);
    }
}

/// Each group that a probe sequence ever comes to is among its first
/// `probe_groups(slots)` groups.
pub proof fn lemma_probe_is_periodic(hash: u32, slots: nat, k: nat) -> (j: nat)
    requires
        is_pow2(slots as int),
    ensures
        j < probe_groups(slots),
        probe_start(hash, slots, j) == probe_start(hash, slots, k),
{
    let n = slots as int;
    if slots < GROUP_SIZE {
        lemma_small_table(slots);
        let t = triangular(k) as int;
        let c = 16int / n;
        assert(16 * t == n * (c * t)) by (nonlinear_arith)
            requires
                16 == n * c,
        ;
        lemma_mod_multiples_vanish(c * t, hash as int, n);
        assert(triangular(0) == 0);
        0
    } else {
        let e = lemma_groups_power_of_two(slots);
        let g = pow2(e) as int;
        lemma_pow2_pos(e);
        let r = triangular(k) % pow2(e);
        let j = lemma_triangular_surjective(e, r);
        let tk = triangular(k) as int;
        let tj = triangular(j) as int;
        lemma_fundamental_div_mod(tk, g);
        lemma_fundamental_div_mod(tj, g);
        let q = tj / g - tk / g;
        assert(hash + 16 * tj == n * q + (hash + 16 * tk)) by (nonlinear_arith)
            requires
                tk == g * (tk / g) + tk % g,
                tj == g * (tj / g) + tj % g,
                tk % g == tj % g,
                q == tj / g - tk / g,
                n == 16 * g,
        ;
        lemma_mod_multiples_vanish(q, hash + 16 * tk, n);
        j
    }
}

/// A probe sequence comes to every slot: `slot` is the `m`-th slot of its `k`-th
/// group, for a `k` and an `m` that the lemma gives.
pub proof fn lemma_probe_covers(hash: u32, slots: nat, slot: int) -> (at: (nat, int))
    requires
        is_pow2(slots as int),
        0 <= slot < slots,
    ensures
        at.0 < probe_groups(slots),
        0 <= at.1 < GROUP_SIZE,
        at.1 < slots,
        (probe_start(hash, slots, at.0) + at.1) % (slots as int) == slot,
{
    let n = slots as int;
    let d = (slot - hash) % n;
    lemma_mod_bound(slot - hash, n);
    // hash + d is slot modulo n
    lemma_fundamental_div_mod(slot - hash, n);
    let c = (slot - hash) / n;
    assert(hash + d == n * (-c) + slot) by (nonlinear_arith)
        requires
            slot - hash == n * c + d,
    ;
    lemma_mod_multiples_vanish(-c, slot, n);
    lemma_small_mod(slot as nat, slots);
    if slots < GROUP_SIZE {
        lemma_small_table(slots);
        assert(triangular(0) == 0);
        lemma_add_mod_noop(hash as int, d, n);
        lemma_small_mod(d as nat, slots);
        (0, d)
    } else {
        let e = lemma_groups_power_of_two(slots);
        let g = pow2(e) as int;
        lemma_pow2_pos(e);
        let m = d % 16;
        let r = d / 16;
        assert(0 <= r < g);
        let k = lemma_triangular_surjective(e, r as nat);
        let t = triangular(k) as int;
        lemma_fundamental_div_mod(t, g);
        let q = t / g;
        assert(hash + 16 * t + m == n * q + (hash + d)) by (nonlinear_arith)
            requires
                t == g * q + r,
                n == 16 * g,
                d == 16 * r + m,
        ;
        lemma_mod_multiples_vanish(q, hash + d, n);
        lemma_add_mod_noop(hash + 16 * t, m, n);
        lemma_small_mod(m as nat, slots);
        (k, m)
    }
}

/// A power of two that is a machine number has an exponent below the number of bits of a
/// machine number.
proof fn lemma_machine_exponent(mask: usize) -> (e: nat)
    requires
        is_pow2(mask + 1),
        mask < usize::MAX,
    ensures
        e < usize::BITS,
        pow2(e) == mask + 1,
        pow2(usize::BITS as nat) == usize::MAX + 1,
{
    is_pow2_equiv(mask + 1);
    let e = choose|i: nat| vstd::arithmetic::power::pow(2, i) == mask + 1;
    assert(pow2(e) == mask + 1);
    lemma2_to64();
    lemma2_to64_rest();
    assert(e < usize::BITS) by {
        if e > usize::BITS {
            lemma_pow2_strictly_increases(usize::BITS as nat, e);
        }
    }
    e
}

/// Twice a power of two of machine size is at most one more than the largest
/// machine number.
pub proof fn lemma_double_fits(mask: usize)
    requires
        is_pow2(mask + 1),
        mask < usize::MAX,
    ensures
        2 * mask + 1 <= usize::MAX,
{
    let e = lemma_machine_exponent(mask);
    lemma_pow2_unfold(e + 1);
    if e + 1 < usize::BITS {
        lemma_pow2_strictly_increases(e + 1, usize::BITS as nat);
    }
}

/// Where a probe sequence starts.
pub proof fn lemma_probe_first(hash: u32, slots: nat)
    requires
        slots > 0,
    ensures
        probe_start(hash, slots, 0) == hash as int % (slots as int),
{
    assert(triangular(0) == 0);
}

/// The step that a probe sequence takes from one group to the next.
pub proof fn lemma_probe_step(hash: u32, slots: nat, k: nat)
    requires
        slots > 0,
    ensures
        probe_start(hash, slots, k + 1) == (probe_start(hash, slots, k) + GROUP_SIZE * (k + 1)) % (
        slots as int),
{
    let n = slots as int;
    let step = 16int * (k + 1);
    assert(triangular(k + 1) == triangular(k) + (k + 1));
    let x = hash + 16 * triangular(k);
    assert(hash + 16 * triangular(k + 1) == x + step);
    lemma_add_mod_noop(x, step, n);
    lemma_add_mod_noop(x % n, step, n);
    lemma_mod_twice(x, n);
}

/// Masking with one less than a power of two takes the remainder.
pub proof fn lemma_mask_is_mod(x: usize, mask: usize)
    requires
        is_pow2(mask + 1),
        mask < usize::MAX,
    ensures
        x & mask == x as int % (mask + 1),
{
    let e = lemma_machine_exponent(mask);
    vstd::bits::lemma_usize_low_bits_mask_is_mod(x, e);
}

} // verus!
