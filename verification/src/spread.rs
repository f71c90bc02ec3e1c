//! The spread encoding: `spread(b) = Σ_i bit_i(b)·4^i`.
//!
//! A byte is stretched so that each information bit sits at an even position
//! with a zero guard bit above it.  Three spread values can then be added
//! inside one field element without any cross-lane carry, and the per-lane
//! parity and carry of the sum read back the XOR and majority of the inputs.
//! This module defines the encoding, its packed inverses (`even_byte` /
//! `odd_byte`), the 256-entry table certifying the round trip, and the
//! round-trip identities themselves.

use vstd::prelude::*;
use crate::bitmath::{
    bit_of, lane_of, lane_sum, lemma_bit_of_bound, lemma_lane1_bit, lemma_lane2_bits,
    lemma_lane_sum_add, lemma_lane_sum_bound, lemma_lane_sum_congruence, lemma_lane_sum_le,
    lemma_lane_sum_read, lemma_lanes_rebuild, lemma_u64_bit_shift,
};
use vstd::arithmetic::div_mod::{
    lemma_fundamental_div_mod_converse_div, lemma_mod_multiples_vanish, lemma_small_mod,
};
use vstd::arithmetic::power2::{lemma2_to64, lemma_pow2_adds, lemma_pow2_strictly_increases, pow2};
use vstd::bits::lemma_u64_shl_is_mul;

verus! {

/// All eight lanes of a spread byte set: `spread8(0xFF)`.
pub const SPREAD_ONES: u64 = 0x5555;

/// `Σ_{i<8} bit_i(b)·4^i`: the spread form of the low byte of `b`.
pub open spec fn spread8(b: nat) -> nat {
    lane_sum(|i: nat| bit_of(b, i), 2, 8)
}

/// `Σ_{i<8} bit_{2i}(x)·2^i`: the bits of `x` at even positions, packed.
pub open spec fn even_byte(x: nat) -> nat {
    lane_sum(|i: nat| bit_of(x, 2 * i), 1, 8)
}

/// `Σ_{i<8} bit_{2i+1}(x)·2^i`: the bits of `x` at odd positions, packed.
pub open spec fn odd_byte(x: nat) -> nat {
    lane_sum(|i: nat| bit_of(x, 2 * i + 1), 1, 8)
}

/// A registered lookup table certifying the spread encoding: entry `b` holds
/// `spread8(b)`.
pub open spec fn is_spread_table(t: Seq<u64>) -> bool {
    &&& t.len() == 256
    &&& forall|b: int| 0 <= b < 256 ==> #[trigger] t[b] as nat == spread8(b as nat)
}

/// `Σ_{i<n} 1·4^i`, three times, plus one, is `4^n`: pins the all-ones sum.
pub proof fn lemma_spread_ones(n: nat)
    ensures
        lane_sum(|i: nat| 1nat, 2, n) * 3 + 1 == pow2(2 * n),
    decreases n,
{
    if n == 0 {
        lemma2_to64();
    } else {
        let m: nat = (n - 1) as nat;
        lemma_spread_ones(m);
        lemma_pow2_adds(2 * m, 2);
        lemma2_to64();
        assert((|i: nat| 1nat)(m) == 1nat);
        assert(lane_sum(|i: nat| 1nat, 2, n) == lane_sum(|i: nat| 1nat, 2, m) + 1nat * pow2(
            2 * m,
        ));
        assert(1nat * pow2(2 * m) == pow2(2 * m)) by (nonlinear_arith);
    }
}

/// The spread of zero is zero.
pub proof fn lemma_spread8_zero()
    ensures
        spread8(0) == 0,
{
    assert forall|j: nat| j < 8 implies #[trigger] bit_of(0nat, j) == 0nat by {
        vstd::arithmetic::power2::lemma_pow2_pos(j);
        lemma_small_mod(0nat, 2);
        assert(0nat / pow2(j) == 0) by (nonlinear_arith)
            requires
                pow2(j) > 0,
        ;
    }
    lemma_lane_sum_congruence(|i: nat| bit_of(0nat, i), |i: nat| 0nat, 2, 8);
    lemma_zero_lanes(8);
}

proof fn lemma_zero_lanes(n: nat)
    ensures
        lane_sum(|i: nat| 0nat, 2, n) == 0,
    decreases n,
{
    if n > 0 {
        lemma_zero_lanes((n - 1) as nat);
        assert(0nat * pow2(2 * ((n - 1) as nat)) == 0) by (nonlinear_arith);
    }
}

/// The spread of any value is at most `spread8(0xFF)`.
pub proof fn lemma_spread8_bound(b: nat)
    ensures
        spread8(b) <= SPREAD_ONES as nat,
        spread8(b) < pow2(16),
{
    assert forall|j: nat| j < 8 implies #[trigger] bit_of(b, j) <= 1nat by {
        lemma_bit_of_bound(b, j);
    }
    lemma_lane_sum_le(|i: nat| bit_of(b, i), |i: nat| 1nat, 2, 8);
    lemma_spread_ones(8);
    lemma2_to64();
    assert forall|j: nat| j < 8 implies #[trigger] bit_of(b, j) < pow2(2) by {
        lemma_bit_of_bound(b, j);
        lemma2_to64();
    }
    lemma_lane_sum_bound(|i: nat| bit_of(b, i), 2, 8);
}

/// Packed bytes stay below 256, whatever the input.
pub proof fn lemma_packed_byte_bound(x: nat)
    ensures
        even_byte(x) < 256,
        odd_byte(x) < 256,
{
    assert forall|i: nat| i < 8 implies #[trigger] bit_of(x, 2 * i) < pow2(1) by {
        lemma_bit_of_bound(x, 2 * i);
        lemma2_to64();
    }
    assert forall|i: nat| i < 8 implies #[trigger] bit_of(x, 2 * i + 1) < pow2(1) by {
        lemma_bit_of_bound(x, 2 * i + 1);
        lemma2_to64();
    }
    lemma_lane_sum_bound(|i: nat| bit_of(x, 2 * i), 1, 8);
    lemma_lane_sum_bound(|i: nat| bit_of(x, 2 * i + 1), 1, 8);
    lemma2_to64();
}

/// Bit `j` of `even_byte(x)` is bit `2j` of `x`; likewise for `odd_byte`.
pub proof fn lemma_packed_byte_bits(x: nat, j: nat)
    requires
        j < 8,
    ensures
        bit_of(even_byte(x), j) == bit_of(x, 2 * j),
        bit_of(odd_byte(x), j) == bit_of(x, 2 * j + 1),
{
    assert forall|i: nat| i < 8 implies #[trigger] bit_of(x, 2 * i) < pow2(1) by {
        lemma_bit_of_bound(x, 2 * i);
        lemma2_to64();
    }
    assert forall|i: nat| i < 8 implies #[trigger] bit_of(x, 2 * i + 1) < pow2(1) by {
        lemma_bit_of_bound(x, 2 * i + 1);
        lemma2_to64();
    }
    lemma_lane_sum_read(|i: nat| bit_of(x, 2 * i), 1, 8, j);
    lemma_lane_sum_read(|i: nat| bit_of(x, 2 * i + 1), 1, 8, j);
    lemma_lane1_bit(even_byte(x), j);
    lemma_lane1_bit(odd_byte(x), j);
}

/// A byte is rebuilt from any description of its bits.
pub proof fn lemma_byte_from_bits(y: nat, d: spec_fn(nat) -> nat)
    requires
        y < 256,
        forall|j: nat| j < 8 ==> #[trigger] d(j) == bit_of(y, j),
    ensures
        lane_sum(d, 1, 8) == y,
{
    assert forall|j: nat| j < 8 implies #[trigger] d(j) == lane_of(y, 1, j) by {
        lemma_lane1_bit(y, j);
    }
    lemma_lanes_rebuild(d, y, 1, 8);
    lemma2_to64();
    lemma_small_mod(y, 256);
}

/// Two bytes with the same bits are the same byte.
pub proof fn lemma_byte_ext(y1: nat, y2: nat)
    requires
        y1 < 256,
        y2 < 256,
        forall|j: nat| j < 8 ==> #[trigger] bit_of(y1, j) == bit_of(y2, j),
    ensures
        y1 == y2,
{
    lemma_byte_from_bits(y1, |j: nat| bit_of(y1, j));
    lemma_byte_from_bits(y2, |j: nat| bit_of(y1, j));
}

/// Interleaving two bytes: `spread8(e) + 2·spread8(o)` places `e` on the even
/// bit positions and `o` on the odd ones, and both read back unchanged.
pub proof fn lemma_interleave(e: nat, o: nat)
    requires
        e < 256,
        o < 256,
    ensures
        spread8(e) + 2 * spread8(o) < pow2(16),
        even_byte(spread8(e) + 2 * spread8(o)) == e,
        odd_byte(spread8(e) + 2 * spread8(o)) == o,
{
    let de = |i: nat| bit_of(e, i);
    let dd = |i: nat| bit_of(o, i) + bit_of(o, i);
    let dt = |i: nat| bit_of(e, i) + (bit_of(o, i) + bit_of(o, i));
    let v: nat = spread8(e) + 2 * spread8(o);
    lemma_lane_sum_add(dd, |i: nat| bit_of(o, i), |i: nat| bit_of(o, i), 2, 8);
    lemma_lane_sum_add(dt, de, dd, 2, 8);
    assert(v == lane_sum(dt, 2, 8));
    assert forall|j: nat| j < 8 implies #[trigger] dt(j) < pow2(2) by {
        lemma_bit_of_bound(e, j);
        lemma_bit_of_bound(o, j);
        lemma2_to64();
    }
    lemma_lane_sum_bound(dt, 2, 8);
    assert forall|j: nat| j < 8 implies #[trigger] bit_of(v, 2 * j) == bit_of(e, j)
        && #[trigger] bit_of(v, 2 * j + 1) == bit_of(o, j) by {
        lemma_lane_sum_read(dt, 2, 8, j);
        lemma_lane2_bits(v, j);
        lemma_bit_of_bound(e, j);
        lemma_bit_of_bound(o, j);
        // lane_of(v, 2, j) == bit_of(e, j) + 2 * bit_of(o, j)
        lemma_fundamental_div_mod_converse_div(
            (bit_of(e, j) + 2 * bit_of(o, j)) as int,
            2,
            bit_of(o, j) as int,
            bit_of(e, j) as int,
        );
        lemma_mod_multiples_vanish(bit_of(o, j) as int, bit_of(e, j) as int, 2);
        lemma_small_mod(bit_of(e, j), 2);
    }
    lemma_packed_byte_bound(v);
    assert forall|j: nat| j < 8 implies #[trigger] bit_of(even_byte(v), j) == bit_of(e, j) by {
        lemma_packed_byte_bits(v, j);
    }
    assert forall|j: nat| j < 8 implies #[trigger] bit_of(odd_byte(v), j) == bit_of(o, j) by {
        lemma_packed_byte_bits(v, j);
    }
    lemma_byte_ext(even_byte(v), e);
    lemma_byte_ext(odd_byte(v), o);
}

/// De-interleaving is total on 16-bit values: `x` is exactly the interleave of
/// its even and odd packed bytes.  This is the identity behind the
/// `x = even + 2·odd` gate constraint.
pub proof fn lemma_even_odd_split(x: nat)
    requires
        x < pow2(16),
    ensures
        x == spread8(even_byte(x)) + 2 * spread8(odd_byte(x)),
{
    let e: nat = even_byte(x);
    let o: nat = odd_byte(x);
    lemma_packed_byte_bound(x);
    lemma_interleave(e, o);
    let v: nat = spread8(e) + 2 * spread8(o);
    // both x and v have lane_of(., 2, j) == bit_of(x, 2j) + 2 bit_of(x, 2j+1)
    let dx = |j: nat| lane_of(x, 2, j);
    assert forall|j: nat| j < 8 implies #[trigger] dx(j) == lane_of(v, 2, j) by {
        lemma_lane2_bits(x, j);
        lemma_lane2_bits(v, j);
        lemma_packed_byte_bits(v, j);
        lemma_packed_byte_bits(x, j);
    }
    lemma_lanes_rebuild(dx, x, 2, 8);
    lemma_lanes_rebuild(|j: nat| lane_of(v, 2, j), v, 2, 8);
    lemma_lane_sum_congruence(dx, |j: nat| lane_of(v, 2, j), 2, 8);
    lemma2_to64();
    lemma_small_mod(x, pow2(16));
    lemma_small_mod(v, pow2(16));
}

/// Computes `spread8` of a byte by shifting each bit to twice its position.
pub fn spread_byte(b: u64) -> (r: u64)
    requires
        b < 256,
    ensures
        r as nat == spread8(b as nat),
        r <= SPREAD_ONES,
{
    let mut r: u64 = 0;
    let mut i: u64 = 0;
    while i < 8
        invariant
            i <= 8,
            b < 256,
            r as nat == lane_sum(|j: nat| bit_of(b as nat, j), 2, i as nat),
        decreases 8 - i,
    {
        let bit: u64 = (b >> i) & 1;
        proof {
            lemma_u64_bit_shift(b, i);
            lemma2_to64();
            lemma_pow2_strictly_increases(2 * (i as nat), 15);
            assert(bit as nat * pow2(2 * (i as nat)) <= pow2(2 * (i as nat)))
                by (nonlinear_arith)
                requires
                    bit < 2,
            ;
            lemma_u64_shl_is_mul(bit, (2 * i) as u64);
            assert forall|j: nat| j < 8 implies #[trigger] bit_of(b as nat, j) < pow2(2) by {
                lemma_bit_of_bound(b as nat, j);
                lemma2_to64();
            }
            lemma_lane_sum_bound(|j: nat| bit_of(b as nat, j), 2, i as nat);
            lemma_pow2_strictly_increases(2 * (i as nat), 16);
            assert(lane_sum(|j: nat| bit_of(b as nat, j), 2, (i + 1) as nat) == lane_sum(
                |j: nat| bit_of(b as nat, j),
                2,
                i as nat,
            ) + bit_of(b as nat, i as nat) * pow2(2 * (i as nat)));
        }
        r = r + (bit << (2 * i));
        i = i + 1;
    }
    proof {
        lemma_spread8_bound(b as nat);
    }
    r
}

/// Builds the 256-entry spread lookup table: entry `b` holds `spread8(b)`.
pub fn spread_table() -> (t: Vec<u64>)
    ensures
        is_spread_table(t@),
{
    let mut t: Vec<u64> = Vec::new();
    let mut b: u64 = 0;
    while b < 256
        invariant
            b <= 256,
            t@.len() == b as nat,
            forall|i: int| 0 <= i < b ==> #[trigger] t@[i] as nat == spread8(i as nat),
        decreases 256 - b,
    {
        let s: u64 = spread_byte(b);
        t.push(s);
        b = b + 1;
    }
    t
}

} // verus!
