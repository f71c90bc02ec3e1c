//! A number viewed as a string of fixed-width lanes.
//!
//! Every identity this crate proves about bit slicing reduces to three facts
//! about the sum `Σ_{j<n} d(j)·2^{w·j}`: it stays below `2^{w·n}` when every
//! lane is narrow enough, each lane can be read back by shifting and masking,
//! and the lanes of a value rebuild the value.  The lemmas here state those
//! facts once, for arbitrary lane width `w`, so the split gates (width 4 and
//! 16), the spread encoding (width 2) and packed bytes (width 1) all share
//! them.

use vstd::prelude::*;
use vstd::arithmetic::div_mod::{
    lemma_breakdown, lemma_div_denominator, lemma_fundamental_div_mod,
    lemma_fundamental_div_mod_converse_div, lemma_mod_division_less_than_divisor,
    lemma_mod_multiples_vanish, lemma_small_mod,
};
use vstd::arithmetic::mul::lemma_mul_inequality;
use vstd::arithmetic::power2::{lemma2_to64, lemma_pow2_adds, lemma_pow2_pos, pow2};
use vstd::bits::{
    lemma_low_bits_mask_values, lemma_u64_low_bits_mask_is_mod, lemma_u64_pow2_no_overflow,
    lemma_u64_shl_is_mul, lemma_u64_shr_is_div, low_bits_mask,
};

verus! {

/// The i-th binary digit of `x`, either 0 or 1.
pub open spec fn bit_of(x: nat, i: nat) -> nat {
    (x / pow2(i)) % 2
}

/// The j-th base-`2^w` digit of `x`.
pub open spec fn lane_of(x: nat, w: nat, j: nat) -> nat {
    (x / pow2(w * j)) % pow2(w)
}

/// `Σ_{j<n} d(j)·2^{w·j}`: the number assembled from `n` width-`w` lanes.
pub open spec fn lane_sum(d: spec_fn(nat) -> nat, w: nat, n: nat) -> nat
    decreases n,
{
    if n == 0 {
        0
    } else {
        lane_sum(d, w, (n - 1) as nat) + d((n - 1) as nat) * pow2(w * ((n - 1) as nat))
    }
}

pub proof fn lemma_bit_of_bound(x: nat, i: nat)
    ensures
        bit_of(x, i) < 2,
{
    lemma_mod_division_less_than_divisor((x / pow2(i)) as int, 2);
}

pub proof fn lemma_lane_of_bound(x: nat, w: nat, j: nat)
    ensures
        lane_of(x, w, j) < pow2(w),
{
    lemma_pow2_pos(w);
    lemma_mod_division_less_than_divisor((x / pow2(w * j)) as int, pow2(w) as int);
}

/// Two lane descriptions that agree below `n` assemble the same number.
pub proof fn lemma_lane_sum_congruence(d1: spec_fn(nat) -> nat, d2: spec_fn(nat) -> nat, w: nat, n: nat)
    requires
        forall|j: nat| j < n ==> #[trigger] d1(j) == d2(j),
    ensures
        lane_sum(d1, w, n) == lane_sum(d2, w, n),
    decreases n,
{
    if n > 0 {
        lemma_lane_sum_congruence(d1, d2, w, (n - 1) as nat);
    }
}

/// Assembling the lane-wise sum of two descriptions adds the assembled values.
pub proof fn lemma_lane_sum_add(
    d: spec_fn(nat) -> nat,
    d1: spec_fn(nat) -> nat,
    d2: spec_fn(nat) -> nat,
    w: nat,
    n: nat,
)
    requires
        forall|j: nat| j < n ==> #[trigger] d(j) == d1(j) + d2(j),
    ensures
        lane_sum(d, w, n) == lane_sum(d1, w, n) + lane_sum(d2, w, n),
    decreases n,
{
    if n > 0 {
        let m: nat = (n - 1) as nat;
        lemma_lane_sum_add(d, d1, d2, w, m);
        let p: nat = pow2(w * m);
        assert((d1(m) + d2(m)) * p == d1(m) * p + d2(m) * p) by (nonlinear_arith);
    }
}

/// Lane-wise larger descriptions assemble to larger numbers.
pub proof fn lemma_lane_sum_le(d1: spec_fn(nat) -> nat, d2: spec_fn(nat) -> nat, w: nat, n: nat)
    requires
        forall|j: nat| j < n ==> #[trigger] d1(j) <= d2(j),
    ensures
        lane_sum(d1, w, n) <= lane_sum(d2, w, n),
    decreases n,
{
    if n > 0 {
        let m: nat = (n - 1) as nat;
        lemma_lane_sum_le(d1, d2, w, m);
        lemma_mul_inequality(d1(m) as int, d2(m) as int, pow2(w * m) as int);
    }
}

/// A number assembled from narrow lanes stays below `2^{w·n}`.
pub proof fn lemma_lane_sum_bound(d: spec_fn(nat) -> nat, w: nat, n: nat)
    requires
        forall|j: nat| j < n ==> #[trigger] d(j) < pow2(w),
    ensures
        lane_sum(d, w, n) < pow2(w * n),
    decreases n,
{
    if n == 0 {
        lemma_pow2_pos(0);
    } else {
        let m: nat = (n - 1) as nat;
        lemma_lane_sum_bound(d, w, m);
        let p: nat = pow2(w * m);
        lemma_pow2_pos(w);
        lemma_pow2_pos(w * m);
        lemma_mul_inequality(d(m) as int, (pow2(w) - 1) as int, p as int);
        assert((pow2(w) - 1) * p + p == pow2(w) * p) by (nonlinear_arith)
            requires
                p > 0,
        ;
        lemma_pow2_adds(w, w * m);
        assert(w + w * m == w * n) by (nonlinear_arith)
            requires
                n == m + 1,
        ;
    }
}

/// Each lane of an assembled number reads back as the description wrote it.
pub proof fn lemma_lane_sum_read(d: spec_fn(nat) -> nat, w: nat, n: nat, k: nat)
    requires
        w > 0,
        forall|j: nat| j < n ==> #[trigger] d(j) < pow2(w),
        k < n,
    ensures
        lane_of(lane_sum(d, w, n), w, k) == d(k),
    decreases n,
{
    let m: nat = (n - 1) as nat;
    let y: nat = lane_sum(d, w, m);
    let yn: nat = lane_sum(d, w, n);
    lemma_pow2_pos(w);
    lemma_pow2_pos(w * m);
    lemma_pow2_pos(w * k);
    if k == m {
        lemma_lane_sum_bound(d, w, m);
        lemma_fundamental_div_mod_converse_div(yn as int, pow2(w * m) as int, d(m) as int, y as int);
        lemma_small_mod(d(m), pow2(w));
    } else {
        lemma_lane_sum_read(d, w, m, k);
        let p: nat = pow2(w * k);
        let q: nat = y / p;
        let r: nat = y % p;
        lemma_fundamental_div_mod(y as int, p as int);
        lemma_mod_division_less_than_divisor(y as int, p as int);
        let g: nat = ((m - k) as nat - 1) as nat;
        assert(w * m == w * k + (w * g + w)) by (nonlinear_arith)
            requires
                m == k + g + 1,
        ;
        lemma_pow2_adds(w * k, w * g + w);
        lemma_pow2_adds(w * g, w);
        // yn == p * (q + d(m) * pow2(w*g) * pow2(w)) + r
        assert(yn as int == p as int * (q + d(m) * (pow2(w * g) * pow2(w))) + r as int)
            by (nonlinear_arith)
            requires
                yn == y + d(m) * pow2(w * m),
                y == p * q + r,
                pow2(w * m) == p * (pow2(w * g) * pow2(w)),
        ;
        lemma_fundamental_div_mod_converse_div(
            yn as int,
            p as int,
            (q + d(m) * (pow2(w * g) * pow2(w))) as int,
            r as int,
        );
        // (q + (d(m) * pow2(w*g)) * pow2(w)) % pow2(w) == q % pow2(w)
        assert(q + d(m) * (pow2(w * g) * pow2(w)) == pow2(w) * (d(m) * pow2(w * g)) + q)
            by (nonlinear_arith);
        lemma_mod_multiples_vanish((d(m) * pow2(w * g)) as int, q as int, pow2(w) as int);
    }
}

/// The lanes of `x` rebuild `x` modulo `2^{w·n}`.
pub proof fn lemma_lanes_rebuild(d: spec_fn(nat) -> nat, x: nat, w: nat, n: nat)
    requires
        forall|j: nat| j < n ==> #[trigger] d(j) == lane_of(x, w, j),
    ensures
        lane_sum(d, w, n) == x % pow2(w * n),
    decreases n,
{
    if n == 0 {
        lemma2_to64();
        lemma_small_mod(0, 1);
        assert(x % 1 == 0) by (nonlinear_arith);
    } else {
        let m: nat = (n - 1) as nat;
        lemma_lanes_rebuild(d, x, w, m);
        lemma_pow2_pos(w);
        lemma_pow2_pos(w * m);
        lemma_breakdown(x as int, pow2(w * m) as int, pow2(w) as int);
        lemma_pow2_adds(w * m, w);
        assert(w * m + w == w * n) by (nonlinear_arith)
            requires
                n == m + 1,
        ;
        assert(pow2(w * m) as int * ((x as int / pow2(w * m) as int) % pow2(w) as int)
            == ((x / pow2(w * m)) % pow2(w)) * pow2(w * m)) by (nonlinear_arith)
            requires
                pow2(w * m) > 0,
                pow2(w) > 0,
        ;
    }
}

/// Extending a truncation by `b` more bits: the next base-`2^b` digit slots in
/// above the low `a` bits.
pub proof fn lemma_mod_step(x: nat, a: nat, b: nat)
    ensures
        x % pow2(a) + ((x / pow2(a)) % pow2(b)) * pow2(a) == x % pow2(a + b),
{
    lemma_pow2_pos(a);
    lemma_pow2_pos(b);
    lemma_pow2_adds(a, b);
    lemma_breakdown(x as int, pow2(a) as int, pow2(b) as int);
    assert(pow2(a) as int * ((x as int / pow2(a) as int) % pow2(b) as int) == ((x / pow2(a))
        % pow2(b)) * pow2(a)) by (nonlinear_arith)
        requires
            pow2(a) > 0,
            pow2(b) > 0,
    ;
}

/// A width-2 lane is its two binary digits, and the digits are read off the lane.
pub proof fn lemma_lane2_bits(x: nat, j: nat)
    ensures
        bit_of(x, 2 * j) == lane_of(x, 2, j) % 2,
        bit_of(x, 2 * j + 1) == lane_of(x, 2, j) / 2,
        lane_of(x, 2, j) == bit_of(x, 2 * j) + 2 * bit_of(x, 2 * j + 1),
{
    lemma_pow2_pos(2 * j);
    let z: nat = x / pow2(2 * j);
    lemma2_to64();
    assert(pow2(2) == 4);
    lemma_breakdown(z as int, 2int, 2int);
    // z % 4 == 2 * ((z / 2) % 2) + z % 2
    lemma_mod_division_less_than_divisor(z as int, 2);
    lemma_mod_division_less_than_divisor((z / 2) as int, 2);
    lemma_fundamental_div_mod_converse_div((z % 4) as int, 2, ((z / 2) % 2) as int, (z % 2) as int);
    lemma_mod_multiples_vanish(((z / 2) % 2) as int, (z % 2) as int, 2);
    // bit_of(x, 2j+1) == (z / 2) % 2
    lemma_pow2_adds(2 * j, 1);
    lemma_pow2_pos(2 * j);
    lemma_div_denominator(x as int, pow2(2 * j) as int, 2);
    assert(x / pow2(2 * j + 1) == z / 2);
    // lane_of(x, 2, j) == z % 4
    assert(lane_of(x, 2, j) == z % pow2(2));
}

/// A width-1 lane of `x` is the bit of `x` at that index.
pub proof fn lemma_lane1_bit(x: nat, j: nat)
    ensures
        lane_of(x, 1, j) == bit_of(x, j),
{
    assert(1 * j == j) by (nonlinear_arith);
    lemma2_to64();
}

/// Bridge to executable shifts: `(x >> i) & 1` extracts `bit_of`.
pub proof fn lemma_u64_bit_shift(x: u64, i: u64)
    requires
        i < 64,
    ensures
        ((x >> i) & 1) as nat == bit_of(x as nat, i as nat),
        (x >> i) & 1 < 2,
{
    lemma_u64_shr_is_div(x, i);
    lemma_low_bits_mask_values();
    lemma_u64_low_bits_mask_is_mod(x >> i, 1);
    lemma2_to64();
    lemma_mod_division_less_than_divisor((x >> i) as int, 2);
}

/// Bridge to executable masks: `x & ((1 << k) - 1)` is `x % 2^k`.
pub proof fn lemma_u64_mask_low(x: u64, k: u64)
    requires
        k < 64,
    ensures
        ((1u64 << k) - 1) as u64 == (pow2(k as nat) - 1) as u64,
        (x & (((1u64 << k) - 1) as u64)) as nat == x as nat % pow2(k as nat),
        x as nat % pow2(k as nat) < pow2(k as nat),
{
    lemma_u64_pow2_no_overflow(k as nat);
    lemma_u64_shl_is_mul(1u64, k);
    assert(low_bits_mask(k as nat) == pow2(k as nat) - 1);
    lemma_u64_low_bits_mask_is_mod(x, k as nat);
    lemma_pow2_pos(k as nat);
    lemma_mod_division_less_than_divisor(x as int, pow2(k as nat) as int);
}

/// Bridge to executable shifts: `x >> k` is `x / 2^k`.
pub proof fn lemma_u64_shift_div(x: u64, k: u64)
    requires
        k < 64,
    ensures
        (x >> k) as nat == x as nat / pow2(k as nat),
{
    lemma_u64_shr_is_div(x, k);
}

} // verus!
