//! Byte serialization for gate parameters, so a circuit description
//! persists byte-identically: a little-endian `u64` codec with a proved
//! round trip.

use vstd::prelude::*;
use crate::bitmath::{
    lane_of, lane_sum, lemma_lane_of_bound, lemma_lane_sum_bound, lemma_lane_sum_read,
    lemma_lanes_rebuild, lemma_u64_mask_low, lemma_u64_shift_div,
};
use vstd::arithmetic::div_mod::lemma_small_mod;
use vstd::arithmetic::power2::{lemma2_to64, lemma2_to64_rest, pow2};
use vstd::bits::lemma_u64_shl_is_mul;

verus! {

/// The eight little-endian bytes of `v`.
pub open spec fn le_bytes8(v: u64) -> Seq<u8> {
    Seq::new(8, |i: int| ((v as nat / pow2((8 * i) as nat)) % 256) as u8)
}

/// Two values with the same little-endian bytes are equal.
pub proof fn lemma_le_bytes8_injective(a: u64, b: u64)
    requires
        le_bytes8(a) == le_bytes8(b),
    ensures
        a == b,
{
    lemma_rebuild_from_bytes(a);
    lemma_rebuild_from_bytes(b);
    assert forall|j: nat| j < 8 implies #[trigger] lane_of(a as nat, 8, j) == lane_of(
        b as nat,
        8,
        j,
    ) by {
        assert(le_bytes8(a)[j as int] == le_bytes8(b)[j as int]);
        lemma_lane_of_bound(a as nat, 8, j);
        lemma_lane_of_bound(b as nat, 8, j);
        lemma2_to64();
        assert(le_bytes8(a)[j as int] == ((a as nat / pow2(8 * j)) % 256) as u8);
        assert(le_bytes8(b)[j as int] == ((b as nat / pow2(8 * j)) % 256) as u8);
        assert(lane_of(a as nat, 8, j) == (a as nat / pow2(8 * j)) % 256);
        assert(lane_of(b as nat, 8, j) == (b as nat / pow2(8 * j)) % 256);
    }
    vstd::arithmetic::power2::lemma_pow2_adds(32, 32);
    lemma_lane_sum_congruence_bytes(a, b);
}

proof fn lemma_lane_sum_congruence_bytes(a: u64, b: u64)
    requires
        forall|j: nat| j < 8 ==> #[trigger] lane_of(a as nat, 8, j) == lane_of(b as nat, 8, j),
    ensures
        a == b,
{
    crate::bitmath::lemma_lane_sum_congruence(
        |j: nat| lane_of(a as nat, 8, j),
        |j: nat| lane_of(b as nat, 8, j),
        8,
        8,
    );
    lemma_rebuild_from_bytes(a);
    lemma_rebuild_from_bytes(b);
}

/// A `u64` is the lane sum of its eight bytes.
proof fn lemma_rebuild_from_bytes(v: u64)
    ensures
        lane_sum(|j: nat| lane_of(v as nat, 8, j), 8, 8) == v as nat,
{
    lemma_lanes_rebuild(|j: nat| lane_of(v as nat, 8, j), v as nat, 8, 8);
    lemma2_to64();
    lemma_small_mod(v as nat, pow2(64));
}

/// Appends the eight little-endian bytes of `v`.
pub fn write_u64_le(dst: &mut Vec<u8>, v: u64)
    ensures
        final(dst)@ == old(dst)@ + le_bytes8(v),
{
    let mut i: u64 = 0;
    while i < 8
        invariant
            i <= 8,
            dst@ == old(dst)@ + le_bytes8(v).take(i as int),
        decreases 8 - i,
    {
        proof {
            lemma_u64_shift_div(v, (8 * i) as u64);
            lemma_u64_mask_low(v >> ((8 * i) as u64), 8);
            lemma2_to64();
        }
        let byte: u8 = ((v >> (8 * i)) & 0xFF) as u8;
        dst.push(byte);
        proof {
            assert(dst@ =~= old(dst)@ + le_bytes8(v).take(i as int + 1));
        }
        i = i + 1;
    }
    proof {
        assert(le_bytes8(v).take(8) =~= le_bytes8(v));
    }
}

/// Reads eight little-endian bytes at `pos`, returning the value and the
/// position after it; `None` when the buffer is too short.
pub fn read_u64_le(src: &Vec<u8>, pos: usize) -> (r: Option<(u64, usize)>)
    ensures
        pos + 8 <= src@.len() ==> (r matches Some(t) && t.1 == pos + 8 && le_bytes8(t.0)
            == src@.subrange(pos as int, pos as int + 8)),
        pos + 8 > src@.len() ==> r is None,
{
    if src.len() < 8 || pos > src.len() - 8 {
        return None;
    }
    let n = src.len();
    let mut acc: u64 = 0;
    let mut i: usize = 0;
    while i < 8
        invariant
            i <= 8,
            pos + 8 <= n,
            n == src@.len(),
            acc as nat == lane_sum(|j: nat| src@[pos + j] as nat, 8, i as nat),
        decreases 8 - i,
    {
        let b: u64 = src[pos + i] as u64;
        proof {
            lemma2_to64();
            lemma2_to64_rest();
            assert(b as nat * pow2((8 * (i as nat))) <= 255 * pow2(56)) by (nonlinear_arith)
                requires
                    b < 256,
                    pow2(8 * (i as nat)) <= pow2(56),
            ;
            lemma_u64_shl_is_mul(b, (8 * i) as u64);
            lemma_lane_sum_bound(|j: nat| src@[pos + j] as nat, 8, i as nat);
        }
        acc = acc + (b << ((8 * i) as u64));
        i = i + 1;
    }
    proof {
        lemma2_to64();
        assert forall|k: int| 0 <= k < 8 implies le_bytes8(acc)[k] == src@.subrange(
            pos as int,
            pos as int + 8,
        )[k] by {
            lemma_lane_sum_read(|j: nat| src@[pos + j] as nat, 8, 8, k as nat);
            lemma2_to64();
        }
        assert(le_bytes8(acc) =~= src@.subrange(pos as int, pos as int + 8));
    }
    Some((acc, pos + 8))
}

} // verus!
