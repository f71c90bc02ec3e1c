//! Reading boolean functions off sums of spread values.
//!
//! Three spread bytes add without cross-lane carry, so each width-2 lane of
//! the sum holds how many of the three inputs set that bit.  The lane's
//! parity (its even bit) is the three-way XOR, the lane's carry (its odd bit)
//! is the majority, and one subtraction from `spread8(0xFF)` complements a
//! spread value, which yields choose.  This module proves those readings, per
//! byte, per 16-bit half, and for the final 32-bit recombination.

use vstd::prelude::*;
use crate::bitmath::{
    bit_of, lane_sum, lemma_bit_of_bound, lemma_lane2_bits, lemma_lane_sum_add,
    lemma_lane_sum_bound, lemma_lane_sum_congruence, lemma_lane_sum_read, lemma_u64_bit_shift,
};
use crate::spread::{
    even_byte, odd_byte, spread8, lemma_byte_ext, lemma_byte_from_bits, lemma_even_odd_split,
    lemma_packed_byte_bits, lemma_packed_byte_bound, lemma_spread_ones, lemma_spread8_bound,
    SPREAD_ONES,
};
use vstd::arithmetic::power2::{lemma2_to64, pow2};

verus! {

proof fn bv_bit_xor3(a: u64, b: u64, c: u64, j: u64)
    by (bit_vector)
    requires
        j < 16,
    ensures
        ((a ^ b ^ c) >> j) & 1 == (((a >> j) & 1) + ((b >> j) & 1) + ((c >> j) & 1)) % 2,
{
}

proof fn bv_bit_maj3(a: u64, b: u64, c: u64, j: u64)
    by (bit_vector)
    requires
        j < 16,
    ensures
        (((a & b) | (a & c) | (b & c)) >> j) & 1 == (((a >> j) & 1) + ((b >> j) & 1) + ((c >> j)
            & 1)) / 2,
{
}

proof fn bv_bit_not(a: u64, j: u64)
    by (bit_vector)
    requires
        j < 8,
        a < 256,
    ensures
        ((a ^ 0xFF) >> j) & 1 == 1 - ((a >> j) & 1),
        a ^ 0xFF < 256,
{
}

proof fn bv_bit_or_disjoint(u: u64, v: u64, j: u64)
    by (bit_vector)
    requires
        j < 16,
        u & v == 0,
    ensures
        ((u | v) >> j) & 1 == ((u >> j) & 1) + ((v >> j) & 1),
{
}

proof fn bv_byte_bounds(a: u64, b: u64, c: u64)
    by (bit_vector)
    requires
        a < 256,
        b < 256,
        c < 256,
    ensures
        a ^ b ^ c < 256,
        ((a & b) | (a & c) | (b & c)) < 256,
        a & b < 256,
        ((a ^ 0xFF) & c) < 256,
        ((a & b) | ((a ^ 0xFF) & c)) < 256,
        ((a & b) & ((a ^ 0xFF) & c)) == 0,
{
}

/// The sum of three spread bytes: each lane counts set bits, the packed even
/// bits give the three-way XOR and the packed odd bits give the majority.
pub proof fn lemma_spread3_sum(a: u64, b: u64, c: u64)
    requires
        a < 256,
        b < 256,
        c < 256,
    ensures
        spread8(a as nat) + spread8(b as nat) + spread8(c as nat) < pow2(16),
        even_byte(spread8(a as nat) + spread8(b as nat) + spread8(c as nat)) == (a ^ b ^ c) as nat,
        odd_byte(spread8(a as nat) + spread8(b as nat) + spread8(c as nat)) == ((a & b) | (a & c)
            | (b & c)) as nat,
{
    let na = a as nat;
    let nb = b as nat;
    let nc = c as nat;
    let s: nat = spread8(na) + spread8(nb) + spread8(nc);
    let dab = |j: nat| bit_of(na, j) + bit_of(nb, j);
    let dt = |j: nat| bit_of(na, j) + bit_of(nb, j) + bit_of(nc, j);
    lemma_lane_sum_add(dab, |i: nat| bit_of(na, i), |i: nat| bit_of(nb, i), 2, 8);
    lemma_lane_sum_add(dt, dab, |i: nat| bit_of(nc, i), 2, 8);
    assert(s == lane_sum(dt, 2, 8));
    assert forall|j: nat| j < 8 implies #[trigger] dt(j) < pow2(2) by {
        lemma_bit_of_bound(na, j);
        lemma_bit_of_bound(nb, j);
        lemma_bit_of_bound(nc, j);
        lemma2_to64();
    }
    lemma_lane_sum_bound(dt, 2, 8);
    let x: u64 = a ^ b ^ c;
    let y: u64 = (a & b) | (a & c) | (b & c);
    bv_byte_bounds(a, b, c);
    assert forall|j: nat| j < 8 implies #[trigger] bit_of(s, 2 * j) == bit_of(x as nat, j) by {
        lemma_lane_sum_read(dt, 2, 8, j);
        lemma_lane2_bits(s, j);
        bv_bit_xor3(a, b, c, j as u64);
        lemma_u64_bit_shift(a, j as u64);
        lemma_u64_bit_shift(b, j as u64);
        lemma_u64_bit_shift(c, j as u64);
        lemma_u64_bit_shift(x, j as u64);
    }
    assert forall|j: nat| j < 8 implies #[trigger] bit_of(s, 2 * j + 1) == bit_of(y as nat, j) by {
        lemma_lane_sum_read(dt, 2, 8, j);
        lemma_lane2_bits(s, j);
        bv_bit_maj3(a, b, c, j as u64);
        lemma_u64_bit_shift(a, j as u64);
        lemma_u64_bit_shift(b, j as u64);
        lemma_u64_bit_shift(c, j as u64);
        lemma_u64_bit_shift(y, j as u64);
    }
    lemma_byte_from_bits(x as nat, |j: nat| bit_of(s, 2 * j));
    lemma_byte_from_bits(y as nat, |j: nat| bit_of(s, 2 * j + 1));
}

/// The sum of two spread bytes: packed odd bits give AND, packed even bits XOR.
pub proof fn lemma_spread2_sum(a: u64, b: u64)
    requires
        a < 256,
        b < 256,
    ensures
        spread8(a as nat) + spread8(b as nat) < pow2(16),
        odd_byte(spread8(a as nat) + spread8(b as nat)) == (a & b) as nat,
        even_byte(spread8(a as nat) + spread8(b as nat)) == (a ^ b) as nat,
{
    lemma_spread3_sum(a, b, 0);
    crate::spread::lemma_spread8_zero();
    assert(a ^ b ^ 0 == a ^ b) by (bit_vector);
    assert(((a & b) | (a & 0) | (b & 0)) == (a & b)) by (bit_vector);
}

/// A spread value reads back its source byte on the even positions and
/// nothing on the odd ones.
pub proof fn lemma_spread_form(e: u64)
    requires
        e < 256,
    ensures
        even_byte(spread8(e as nat)) == e as nat,
        odd_byte(spread8(e as nat)) == 0,
{
    crate::spread::lemma_spread8_zero();
    crate::spread::lemma_interleave(e as nat, 0);
}

/// The two operands of the choose combination are disjoint bytes.
pub proof fn lemma_ch_byte_parts(u: u64, v: u64, w: u64)
    requires
        u < 256,
        v < 256,
        w < 256,
    ensures
        u & v < 256,
        ((u ^ 0xFF) & w) < 256,
        ((u & v) & ((u ^ 0xFF) & w)) == 0,
        ((u & v) | ((u ^ 0xFF) & w)) < 256,
{
    bv_byte_bounds(u, v, w);
}

/// Complementing in the spread domain: a spread byte and the spread of its
/// complement add up to `spread8(0xFF)`.
pub proof fn lemma_complement_spread(a: u64)
    requires
        a < 256,
    ensures
        spread8(a as nat) + spread8((a ^ 0xFF) as nat) == SPREAD_ONES as nat,
        spread8(a as nat) <= SPREAD_ONES as nat,
        a ^ 0xFF < 256,
{
    let na = a as nat;
    let nn = (a ^ 0xFF) as nat;
    let dt = |j: nat| bit_of(na, j) + bit_of(nn, j);
    lemma_lane_sum_add(dt, |i: nat| bit_of(na, i), |i: nat| bit_of(nn, i), 2, 8);
    assert forall|j: nat| j < 8 implies #[trigger] dt(j) == 1nat by {
        bv_bit_not(a, j as u64);
        lemma_u64_bit_shift(a, j as u64);
        lemma_u64_bit_shift(a ^ 0xFF, j as u64);
    }
    lemma_lane_sum_congruence(dt, |i: nat| 1nat, 2, 8);
    lemma_spread_ones(8);
    lemma2_to64();
    assert(a ^ 0xFF < 256) by (bit_vector)
        requires
            a < 256,
    ;
    lemma_spread8_bound(na);
}

/// Two disjoint bytes in spread form: the packed even bits of the sum give OR.
pub proof fn lemma_spread_disjoint_or(u: u64, v: u64)
    requires
        u < 256,
        v < 256,
        u & v == 0,
    ensures
        spread8(u as nat) + spread8(v as nat) < pow2(16),
        even_byte(spread8(u as nat) + spread8(v as nat)) == (u | v) as nat,
{
    let nu = u as nat;
    let nv = v as nat;
    let s: nat = spread8(nu) + spread8(nv);
    let dt = |j: nat| bit_of(nu, j) + bit_of(nv, j);
    lemma_lane_sum_add(dt, |i: nat| bit_of(nu, i), |i: nat| bit_of(nv, i), 2, 8);
    assert forall|j: nat| j < 8 implies #[trigger] dt(j) < pow2(2) by {
        lemma_bit_of_bound(nu, j);
        lemma_bit_of_bound(nv, j);
        lemma2_to64();
    }
    lemma_lane_sum_bound(dt, 2, 8);
    let w: u64 = u | v;
    assert(u | v < 256) by (bit_vector)
        requires
            u < 256,
            v < 256,
    ;
    assert forall|j: nat| j < 8 implies #[trigger] bit_of(s, 2 * j) == bit_of(w as nat, j) by {
        lemma_lane_sum_read(dt, 2, 8, j);
        lemma_lane2_bits(s, j);
        bv_bit_or_disjoint(u, v, j as u64);
        lemma_u64_bit_shift(u, j as u64);
        lemma_u64_bit_shift(v, j as u64);
        lemma_u64_bit_shift(w, j as u64);
        lemma_bit_of_bound(nu, j);
        lemma_bit_of_bound(nv, j);
        // the lane value is at most 1, so its parity is the lane itself
        vstd::arithmetic::div_mod::lemma_small_mod(dt(j), 2);
    }
    lemma_byte_from_bits(w as nat, |j: nat| bit_of(s, 2 * j));
}

proof fn bv_bit_ch8(u: u64, v: u64, w: u64, j: u64)
    by (bit_vector)
    requires
        j < 8,
        u < 256,
    ensures
        (((u & v) | ((u ^ 0xFF) & w)) >> j) & 1 == ((u >> j) & 1) * ((v >> j) & 1) + (1 - ((u >> j)
            & 1)) * ((w >> j) & 1),
{
}

proof fn bv_bit_ch16(a: u64, b: u64, c: u64, j: u64)
    by (bit_vector)
    requires
        j < 16,
        a < 0x10000,
    ensures
        (((a & b) | ((a ^ 0xFFFF) & c)) >> j) & 1 == ((a >> j) & 1) * ((b >> j) & 1) + (1 - ((a
            >> j) & 1)) * ((c >> j) & 1),
{
}

proof fn bv_u16_bounds(a: u64, b: u64, c: u64)
    by (bit_vector)
    requires
        a < 0x10000,
        b < 0x10000,
        c < 0x10000,
    ensures
        a ^ b ^ c < 0x10000,
        ((a & b) | (a & c) | (b & c)) < 0x10000,
        ((a & b) | ((a ^ 0xFFFF) & c)) < 0x10000,
{
}

/// Three-way XOR of 16-bit words distributes over the even/odd packed bytes.
pub proof fn lemma_xor3_bytes16(a: u64, b: u64, c: u64)
    requires
        a < 0x10000,
        b < 0x10000,
        c < 0x10000,
    ensures
        a ^ b ^ c < 0x10000,
        even_byte((a ^ b ^ c) as nat) == ((even_byte(a as nat) as u64) ^ (even_byte(
            b as nat,
        ) as u64) ^ (even_byte(c as nat) as u64)) as nat,
        odd_byte((a ^ b ^ c) as nat) == ((odd_byte(a as nat) as u64) ^ (odd_byte(
            b as nat,
        ) as u64) ^ (odd_byte(c as nat) as u64)) as nat,
{
    bv_u16_bounds(a, b, c);
    let x: u64 = a ^ b ^ c;
    lemma_packed_byte_bound(a as nat);
    lemma_packed_byte_bound(b as nat);
    lemma_packed_byte_bound(c as nat);
    lemma_packed_byte_bound(x as nat);
    let ea: u64 = even_byte(a as nat) as u64;
    let eb: u64 = even_byte(b as nat) as u64;
    let ec: u64 = even_byte(c as nat) as u64;
    let oa: u64 = odd_byte(a as nat) as u64;
    let ob: u64 = odd_byte(b as nat) as u64;
    let oc: u64 = odd_byte(c as nat) as u64;
    bv_byte_bounds(ea, eb, ec);
    bv_byte_bounds(oa, ob, oc);
    assert forall|j: nat| j < 8 implies #[trigger] bit_of(even_byte(x as nat), j) == bit_of(
        (ea ^ eb ^ ec) as nat,
        j,
    ) by {
        lemma_packed_byte_bits(x as nat, j);
        lemma_packed_byte_bits(a as nat, j);
        lemma_packed_byte_bits(b as nat, j);
        lemma_packed_byte_bits(c as nat, j);
        bv_bit_xor3(a, b, c, (2 * j) as u64);
        bv_bit_xor3(ea, eb, ec, j as u64);
        lemma_u64_bit_shift(a, (2 * j) as u64);
        lemma_u64_bit_shift(b, (2 * j) as u64);
        lemma_u64_bit_shift(c, (2 * j) as u64);
        lemma_u64_bit_shift(x, (2 * j) as u64);
        lemma_u64_bit_shift(ea, j as u64);
        lemma_u64_bit_shift(eb, j as u64);
        lemma_u64_bit_shift(ec, j as u64);
        lemma_u64_bit_shift(ea ^ eb ^ ec, j as u64);
    }
    lemma_byte_ext(even_byte(x as nat), (ea ^ eb ^ ec) as nat);
    assert forall|j: nat| j < 8 implies #[trigger] bit_of(odd_byte(x as nat), j) == bit_of(
        (oa ^ ob ^ oc) as nat,
        j,
    ) by {
        lemma_packed_byte_bits(x as nat, j);
        lemma_packed_byte_bits(a as nat, j);
        lemma_packed_byte_bits(b as nat, j);
        lemma_packed_byte_bits(c as nat, j);
        bv_bit_xor3(a, b, c, (2 * j + 1) as u64);
        bv_bit_xor3(oa, ob, oc, j as u64);
        lemma_u64_bit_shift(a, (2 * j + 1) as u64);
        lemma_u64_bit_shift(b, (2 * j + 1) as u64);
        lemma_u64_bit_shift(c, (2 * j + 1) as u64);
        lemma_u64_bit_shift(x, (2 * j + 1) as u64);
        lemma_u64_bit_shift(oa, j as u64);
        lemma_u64_bit_shift(ob, j as u64);
        lemma_u64_bit_shift(oc, j as u64);
        lemma_u64_bit_shift(oa ^ ob ^ oc, j as u64);
    }
    lemma_byte_ext(odd_byte(x as nat), (oa ^ ob ^ oc) as nat);
}

/// Majority of 16-bit words distributes over the even/odd packed bytes.
pub proof fn lemma_maj3_bytes16(a: u64, b: u64, c: u64)
    requires
        a < 0x10000,
        b < 0x10000,
        c < 0x10000,
    ensures
        ((a & b) | (a & c) | (b & c)) < 0x10000,
        even_byte((((a & b) | (a & c) | (b & c))) as nat) == (((even_byte(a as nat) as u64) & (
        even_byte(b as nat) as u64)) | ((even_byte(a as nat) as u64) & (even_byte(
            c as nat,
        ) as u64)) | ((even_byte(b as nat) as u64) & (even_byte(c as nat) as u64))) as nat,
        odd_byte((((a & b) | (a & c) | (b & c))) as nat) == (((odd_byte(a as nat) as u64) & (
        odd_byte(b as nat) as u64)) | ((odd_byte(a as nat) as u64) & (odd_byte(
            c as nat,
        ) as u64)) | ((odd_byte(b as nat) as u64) & (odd_byte(c as nat) as u64))) as nat,
{
    bv_u16_bounds(a, b, c);
    let x: u64 = (a & b) | (a & c) | (b & c);
    lemma_packed_byte_bound(a as nat);
    lemma_packed_byte_bound(b as nat);
    lemma_packed_byte_bound(c as nat);
    lemma_packed_byte_bound(x as nat);
    let ea: u64 = even_byte(a as nat) as u64;
    let eb: u64 = even_byte(b as nat) as u64;
    let ec: u64 = even_byte(c as nat) as u64;
    let oa: u64 = odd_byte(a as nat) as u64;
    let ob: u64 = odd_byte(b as nat) as u64;
    let oc: u64 = odd_byte(c as nat) as u64;
    bv_byte_bounds(ea, eb, ec);
    bv_byte_bounds(oa, ob, oc);
    assert forall|j: nat| j < 8 implies #[trigger] bit_of(even_byte(x as nat), j) == bit_of(
        ((ea & eb) | (ea & ec) | (eb & ec)) as nat,
        j,
    ) by {
        lemma_packed_byte_bits(x as nat, j);
        lemma_packed_byte_bits(a as nat, j);
        lemma_packed_byte_bits(b as nat, j);
        lemma_packed_byte_bits(c as nat, j);
        bv_bit_maj3(a, b, c, (2 * j) as u64);
        bv_bit_maj3(ea, eb, ec, j as u64);
        lemma_u64_bit_shift(a, (2 * j) as u64);
        lemma_u64_bit_shift(b, (2 * j) as u64);
        lemma_u64_bit_shift(c, (2 * j) as u64);
        lemma_u64_bit_shift(x, (2 * j) as u64);
        lemma_u64_bit_shift(ea, j as u64);
        lemma_u64_bit_shift(eb, j as u64);
        lemma_u64_bit_shift(ec, j as u64);
        lemma_u64_bit_shift((ea & eb) | (ea & ec) | (eb & ec), j as u64);
    }
    lemma_byte_ext(even_byte(x as nat), ((ea & eb) | (ea & ec) | (eb & ec)) as nat);
    assert forall|j: nat| j < 8 implies #[trigger] bit_of(odd_byte(x as nat), j) == bit_of(
        ((oa & ob) | (oa & oc) | (ob & oc)) as nat,
        j,
    ) by {
        lemma_packed_byte_bits(x as nat, j);
        lemma_packed_byte_bits(a as nat, j);
        lemma_packed_byte_bits(b as nat, j);
        lemma_packed_byte_bits(c as nat, j);
        bv_bit_maj3(a, b, c, (2 * j + 1) as u64);
        bv_bit_maj3(oa, ob, oc, j as u64);
        lemma_u64_bit_shift(a, (2 * j + 1) as u64);
        lemma_u64_bit_shift(b, (2 * j + 1) as u64);
        lemma_u64_bit_shift(c, (2 * j + 1) as u64);
        lemma_u64_bit_shift(x, (2 * j + 1) as u64);
        lemma_u64_bit_shift(oa, j as u64);
        lemma_u64_bit_shift(ob, j as u64);
        lemma_u64_bit_shift(oc, j as u64);
        lemma_u64_bit_shift((oa & ob) | (oa & oc) | (ob & oc), j as u64);
    }
    lemma_byte_ext(odd_byte(x as nat), ((oa & ob) | (oa & oc) | (ob & oc)) as nat);
}

/// Choose on 16-bit words distributes over the even/odd packed bytes.
pub proof fn lemma_ch_bytes16(a: u64, b: u64, c: u64)
    requires
        a < 0x10000,
        b < 0x10000,
        c < 0x10000,
    ensures
        ((a & b) | ((a ^ 0xFFFF) & c)) < 0x10000,
        even_byte((((a & b) | ((a ^ 0xFFFF) & c))) as nat) == (((even_byte(a as nat) as u64) & (
        even_byte(b as nat) as u64)) | (((even_byte(a as nat) as u64) ^ 0xFF) & (even_byte(
            c as nat,
        ) as u64))) as nat,
        odd_byte((((a & b) | ((a ^ 0xFFFF) & c))) as nat) == (((odd_byte(a as nat) as u64) & (
        odd_byte(b as nat) as u64)) | (((odd_byte(a as nat) as u64) ^ 0xFF) & (odd_byte(
            c as nat,
        ) as u64))) as nat,
{
    bv_u16_bounds(a, b, c);
    let x: u64 = (a & b) | ((a ^ 0xFFFF) & c);
    lemma_packed_byte_bound(a as nat);
    lemma_packed_byte_bound(b as nat);
    lemma_packed_byte_bound(c as nat);
    lemma_packed_byte_bound(x as nat);
    let ea: u64 = even_byte(a as nat) as u64;
    let eb: u64 = even_byte(b as nat) as u64;
    let ec: u64 = even_byte(c as nat) as u64;
    let oa: u64 = odd_byte(a as nat) as u64;
    let ob: u64 = odd_byte(b as nat) as u64;
    let oc: u64 = odd_byte(c as nat) as u64;
    bv_byte_bounds(ea, eb, ec);
    bv_byte_bounds(oa, ob, oc);
    assert forall|j: nat| j < 8 implies #[trigger] bit_of(even_byte(x as nat), j) == bit_of(
        ((ea & eb) | ((ea ^ 0xFF) & ec)) as nat,
        j,
    ) by {
        lemma_packed_byte_bits(x as nat, j);
        lemma_packed_byte_bits(a as nat, j);
        lemma_packed_byte_bits(b as nat, j);
        lemma_packed_byte_bits(c as nat, j);
        bv_bit_ch16(a, b, c, (2 * j) as u64);
        bv_bit_ch8(ea, eb, ec, j as u64);
        lemma_u64_bit_shift(a, (2 * j) as u64);
        lemma_u64_bit_shift(b, (2 * j) as u64);
        lemma_u64_bit_shift(c, (2 * j) as u64);
        lemma_u64_bit_shift(x, (2 * j) as u64);
        lemma_u64_bit_shift(ea, j as u64);
        lemma_u64_bit_shift(eb, j as u64);
        lemma_u64_bit_shift(ec, j as u64);
        lemma_u64_bit_shift((ea & eb) | ((ea ^ 0xFF) & ec), j as u64);
    }
    lemma_byte_ext(even_byte(x as nat), ((ea & eb) | ((ea ^ 0xFF) & ec)) as nat);
    assert forall|j: nat| j < 8 implies #[trigger] bit_of(odd_byte(x as nat), j) == bit_of(
        ((oa & ob) | ((oa ^ 0xFF) & oc)) as nat,
        j,
    ) by {
        lemma_packed_byte_bits(x as nat, j);
        lemma_packed_byte_bits(a as nat, j);
        lemma_packed_byte_bits(b as nat, j);
        lemma_packed_byte_bits(c as nat, j);
        bv_bit_ch16(a, b, c, (2 * j + 1) as u64);
        bv_bit_ch8(oa, ob, oc, j as u64);
        lemma_u64_bit_shift(a, (2 * j + 1) as u64);
        lemma_u64_bit_shift(b, (2 * j + 1) as u64);
        lemma_u64_bit_shift(c, (2 * j + 1) as u64);
        lemma_u64_bit_shift(x, (2 * j + 1) as u64);
        lemma_u64_bit_shift(oa, j as u64);
        lemma_u64_bit_shift(ob, j as u64);
        lemma_u64_bit_shift(oc, j as u64);
        lemma_u64_bit_shift((oa & ob) | ((oa ^ 0xFF) & oc), j as u64);
    }
    lemma_byte_ext(odd_byte(x as nat), ((oa & ob) | ((oa ^ 0xFF) & oc)) as nat);
}

/// A 32-bit three-way XOR is the XOR of the 16-bit halves, recombined.
pub proof fn lemma_xor3_u32_combine(a: u64, b: u64, c: u64)
    requires
        a < 0x1_0000_0000,
        b < 0x1_0000_0000,
        c < 0x1_0000_0000,
    ensures
        a ^ b ^ c < 0x1_0000_0000,
        (a ^ b ^ c) as nat == ((a % 0x10000) ^ (b % 0x10000) ^ (c % 0x10000)) as nat + ((a
            / 0x10000) ^ (b / 0x10000) ^ (c / 0x10000)) as nat * pow2(16),
        a % 0x10000 < 0x10000 && a / 0x10000 < 0x10000,
        b % 0x10000 < 0x10000 && b / 0x10000 < 0x10000,
        c % 0x10000 < 0x10000 && c / 0x10000 < 0x10000,
{
    lemma2_to64();
    assert(a ^ b ^ c < 0x1_0000_0000 && (a ^ b ^ c) == ((a % 0x10000) ^ (b % 0x10000) ^ (c
        % 0x10000)) + ((a / 0x10000) ^ (b / 0x10000) ^ (c / 0x10000)) * 0x10000 && a % 0x10000
        < 0x10000 && a / 0x10000 < 0x10000 && b % 0x10000 < 0x10000 && b / 0x10000 < 0x10000 && c
        % 0x10000 < 0x10000 && c / 0x10000 < 0x10000) by (bit_vector)
        requires
            a < 0x1_0000_0000,
            b < 0x1_0000_0000,
            c < 0x1_0000_0000,
    ;
}

/// A 32-bit majority is the majority of the 16-bit halves, recombined.
pub proof fn lemma_maj3_u32_combine(a: u64, b: u64, c: u64)
    requires
        a < 0x1_0000_0000,
        b < 0x1_0000_0000,
        c < 0x1_0000_0000,
    ensures
        ((a & b) | (a & c) | (b & c)) < 0x1_0000_0000,
        ((a & b) | (a & c) | (b & c)) as nat == (((a % 0x10000) & (b % 0x10000)) | ((a % 0x10000)
            & (c % 0x10000)) | ((b % 0x10000) & (c % 0x10000))) as nat + (((a / 0x10000) & (b
            / 0x10000)) | ((a / 0x10000) & (c / 0x10000)) | ((b / 0x10000) & (c
            / 0x10000))) as nat * pow2(16),
{
    lemma2_to64();
    assert(((a & b) | (a & c) | (b & c)) < 0x1_0000_0000 && ((a & b) | (a & c) | (b & c)) == (((a
        % 0x10000) & (b % 0x10000)) | ((a % 0x10000) & (c % 0x10000)) | ((b % 0x10000) & (c
        % 0x10000))) + (((a / 0x10000) & (b / 0x10000)) | ((a / 0x10000) & (c / 0x10000)) | ((b
        / 0x10000) & (c / 0x10000))) * 0x10000) by (bit_vector)
        requires
            a < 0x1_0000_0000,
            b < 0x1_0000_0000,
            c < 0x1_0000_0000,
    ;
}

/// A 32-bit choose is the choose of the 16-bit halves, recombined.
pub proof fn lemma_ch_u32_combine(a: u64, b: u64, c: u64)
    requires
        a < 0x1_0000_0000,
        b < 0x1_0000_0000,
        c < 0x1_0000_0000,
    ensures
        ((a & b) | ((a ^ 0xFFFF_FFFF) & c)) < 0x1_0000_0000,
        ((a & b) | ((a ^ 0xFFFF_FFFF) & c)) as nat == (((a % 0x10000) & (b % 0x10000)) | (((a
            % 0x10000) ^ 0xFFFF) & (c % 0x10000))) as nat + (((a / 0x10000) & (b / 0x10000)) | (((
        a / 0x10000) ^ 0xFFFF) & (c / 0x10000))) as nat * pow2(16),
{
    lemma2_to64();
    assert(((a & b) | ((a ^ 0xFFFF_FFFF) & c)) < 0x1_0000_0000 && ((a & b) | ((a ^ 0xFFFF_FFFF)
        & c)) == (((a % 0x10000) & (b % 0x10000)) | (((a % 0x10000) ^ 0xFFFF) & (c % 0x10000)))
        + (((a / 0x10000) & (b / 0x10000)) | (((a / 0x10000) ^ 0xFFFF) & (c / 0x10000)))
        * 0x10000) by (bit_vector)
        requires
            a < 0x1_0000_0000,
            b < 0x1_0000_0000,
            c < 0x1_0000_0000,
    ;
}

} // verus!
