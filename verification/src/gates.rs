//! The split gates: each occupies one row of wires, carries one linear
//! constraint, and has a witness-computation routine filling its output wires
//! from its input wire.
//!
//! A gate's constraint alone never bounds the width of its outputs: the
//! identity `x = x0 + x1·2^K1 + …` also holds of witnesses that smuggle bits
//! between slices.  Callers close that gap with explicit range checks (as the
//! four-part split gadget does) or with lookup-table membership (as the
//! spread split does); the uniqueness lemma here states exactly what the
//! constraint pins once the range conditions hold.

use vstd::prelude::*;
use crate::bitmath::{
    bit_of, lane_sum, lemma_bit_of_bound, lemma_lane_sum_bound, lemma_lane_sum_congruence,
    lemma_mod_step, lemma_u64_bit_shift, lemma_u64_mask_low, lemma_u64_shift_div,
};
use crate::field::{sub_f, sub_mod, CircuitConfig, ExtensionElem, lemma_sub_f_zero};
use crate::serial::{le_bytes8, lemma_le_bytes8_injective, read_u64_le, write_u64_le};
use crate::spread::{
    even_byte, odd_byte, spread8, lemma_even_odd_split, lemma_packed_byte_bits,
    lemma_packed_byte_bound,
};
use crate::WORD_BOUND;
use vstd::arithmetic::div_mod::{
    lemma_fundamental_div_mod, lemma_fundamental_div_mod_converse_div,
    lemma_fundamental_div_mod_converse_mod, lemma_mod_division_less_than_divisor, lemma_small_mod,
};
use vstd::arithmetic::power2::{
    lemma2_to64, lemma_pow2_adds, lemma_pow2_pos, lemma_pow2_strictly_increases, pow2,
};
use vstd::bits::{lemma_u64_pow2_no_overflow, lemma_u64_shl_is_mul};

verus! {

/// Construction-time misuse, reported loudly instead of silently building an
/// under-constrained circuit.
#[derive(Clone, Copy, Debug, PartialEq, Eq, Structural)]
pub enum CircuitError {
    /// Bit boundaries handed to a split gate do not satisfy `0 < K1 < K2 < K3 < 32`.
    InvalidBitBoundaries,
    /// A lookup names a table index that was never registered.
    UnregisteredTable,
    /// A serialized description ends before this gate's parameters do.
    ExhaustedBuffer,
}

/// What the four-part split generator writes: the four LSB-first slices of
/// `x` at the boundaries `K1`, `K2`, `K3`.
pub open spec fn split4_outputs(x: u64, k1: nat, k2: nat, k3: nat) -> Seq<u64> {
    seq![
        (x as nat % pow2(k1)) as u64,
        ((x as nat / pow2(k1)) % pow2((k2 - k1) as nat)) as u64,
        ((x as nat / pow2(k2)) % pow2((k3 - k2) as nat)) as u64,
        ((x as nat / pow2(k3)) % pow2((32 - k3) as nat)) as u64,
    ]
}

/// What the 16-bit split generator writes: low and high half of `x`.
pub open spec fn u16_outputs(x: u64) -> Seq<u64> {
    seq![(x as nat % pow2(16)) as u64, (x as nat / pow2(16)) as u64]
}

/// What the spread split generator writes: the even and odd bit streams of
/// the low 16 bits of `x`, first in spread form, then packed for lookup.
pub open spec fn u8_spread_outputs(x: u64) -> Seq<u64> {
    seq![
        spread8(even_byte(x as nat)) as u64,
        spread8(odd_byte(x as nat)) as u64,
        even_byte(x as nat) as u64,
        odd_byte(x as nat) as u64,
    ]
}

/// The spread table certifies the split's round trip: looking the packed
/// byte outputs of a spread split up in the table returns exactly its spread
/// outputs.
pub proof fn lemma_table_certifies_split(t: Seq<u64>, x: u64)
    requires
        crate::spread::is_spread_table(t),
    ensures
        t[u8_spread_outputs(x)[2] as int] == u8_spread_outputs(x)[0],
        t[u8_spread_outputs(x)[3] as int] == u8_spread_outputs(x)[1],
{
    lemma_packed_byte_bound(x as nat);
    crate::spread::lemma_spread8_bound(even_byte(x as nat));
    crate::spread::lemma_spread8_bound(odd_byte(x as nat));
}

/// The slices of a 32-bit word rebuild it: the sum identity the four-part
/// constraint asserts, proved of the canonical slices.
pub proof fn lemma_split4_reconstruct(x: nat, k1: nat, k2: nat, k3: nat)
    requires
        0 < k1 < k2 < k3 < 32,
        x < pow2(32),
    ensures
        x % pow2(k1) + ((x / pow2(k1)) % pow2((k2 - k1) as nat)) * pow2(k1) + ((x / pow2(k2))
            % pow2((k3 - k2) as nat)) * pow2(k2) + ((x / pow2(k3)) % pow2((32 - k3) as nat))
            * pow2(k3) == x,
{
    lemma_mod_step(x, k1, (k2 - k1) as nat);
    lemma_mod_step(x, k2, (k3 - k2) as nat);
    lemma_mod_step(x, k3, (32 - k3) as nat);
    lemma_small_mod(x, pow2(32));
}

/// The constraint pins a unique witness once every slice is range-checked:
/// any in-range slices that satisfy the sum identity are the canonical ones.
pub proof fn lemma_split4_unique(x: nat, y0: nat, y1: nat, y2: nat, y3: nat, k1: nat, k2: nat, k3: nat)
    requires
        0 < k1 < k2 < k3 < 32,
        x < pow2(32),
        y0 < pow2(k1),
        y1 < pow2((k2 - k1) as nat),
        y2 < pow2((k3 - k2) as nat),
        y3 < pow2((32 - k3) as nat),
        y0 + y1 * pow2(k1) + y2 * pow2(k2) + y3 * pow2(k3) == x,
    ensures
        y0 == x % pow2(k1),
        y1 == (x / pow2(k1)) % pow2((k2 - k1) as nat),
        y2 == (x / pow2(k2)) % pow2((k3 - k2) as nat),
        y3 == (x / pow2(k3)) % pow2((32 - k3) as nat),
{
    let w1: nat = (k2 - k1) as nat;
    let w2: nat = (k3 - k2) as nat;
    let w3: nat = (32 - k3) as nat;
    lemma_pow2_pos(k1);
    lemma_pow2_pos(k2);
    lemma_pow2_pos(k3);
    lemma_pow2_pos(w1);
    lemma_pow2_pos(w2);
    lemma_pow2_pos(w3);
    lemma_pow2_adds(k1, w1);
    lemma_pow2_adds(k1, (k3 - k1) as nat);
    lemma_pow2_adds(w1, w2);
    lemma_pow2_adds(k2, w2);
    let r1: nat = y1 + y2 * pow2(w1) + y3 * pow2((k3 - k1) as nat);
    assert(x == r1 * pow2(k1) + y0) by (nonlinear_arith)
        requires
            x == y0 + y1 * pow2(k1) + y2 * pow2(k2) + y3 * pow2(k3),
            r1 == y1 + y2 * pow2(w1) + y3 * pow2((k3 - k1) as nat),
            pow2(k2) == pow2(k1) * pow2(w1),
            pow2(k3) == pow2(k1) * pow2((k3 - k1) as nat),
    ;
    lemma_fundamental_div_mod_converse_div(x as int, pow2(k1) as int, r1 as int, y0 as int);
    lemma_fundamental_div_mod_converse_mod(x as int, pow2(k1) as int, r1 as int, y0 as int);
    let r2: nat = y2 + y3 * pow2(w2);
    assert(r1 == r2 * pow2(w1) + y1) by (nonlinear_arith)
        requires
            r1 == y1 + y2 * pow2(w1) + y3 * pow2((k3 - k1) as nat),
            r2 == y2 + y3 * pow2(w2),
            pow2((k3 - k1) as nat) == pow2(w1) * pow2(w2),
    ;
    lemma_fundamental_div_mod_converse_div(r1 as int, pow2(w1) as int, r2 as int, y1 as int);
    lemma_fundamental_div_mod_converse_mod(r1 as int, pow2(w1) as int, r2 as int, y1 as int);
    assert(r2 == y3 * pow2(w2) + y2);
    lemma_fundamental_div_mod_converse_div(r2 as int, pow2(w2) as int, y3 as int, y2 as int);
    lemma_fundamental_div_mod_converse_mod(r2 as int, pow2(w2) as int, y3 as int, y2 as int);
    // x / 2^k2 == r2 and x / 2^k3 == y3
    vstd::arithmetic::div_mod::lemma_div_denominator(x as int, pow2(k1) as int, pow2(w1) as int);
    vstd::arithmetic::div_mod::lemma_div_denominator(x as int, pow2(k2) as int, pow2(w2) as int);
    lemma_small_mod(y3, pow2(w3));
}

/// In-range slices sum to less than `2^32`.
pub proof fn lemma_split4_sum_bound(y0: nat, y1: nat, y2: nat, y3: nat, k1: nat, k2: nat, k3: nat)
    requires
        0 < k1 < k2 < k3 < 32,
        y0 < pow2(k1),
        y1 < pow2((k2 - k1) as nat),
        y2 < pow2((k3 - k2) as nat),
        y3 < pow2((32 - k3) as nat),
    ensures
        y0 + y1 * pow2(k1) + y2 * pow2(k2) + y3 * pow2(k3) < pow2(32),
{
    lemma_pow2_adds(k1, (k2 - k1) as nat);
    lemma_pow2_adds(k2, (k3 - k2) as nat);
    lemma_pow2_adds(k3, (32 - k3) as nat);
    lemma_pow2_pos(k1);
    lemma_pow2_pos(k2);
    lemma_pow2_pos(k3);
    assert(y1 * pow2(k1) <= pow2(k2) - pow2(k1)) by (nonlinear_arith)
        requires
            y1 < pow2((k2 - k1) as nat),
            pow2(k2) == pow2(k1) * pow2((k2 - k1) as nat),
            pow2(k1) > 0,
    ;
    assert(y2 * pow2(k2) <= pow2(k3) - pow2(k2)) by (nonlinear_arith)
        requires
            y2 < pow2((k3 - k2) as nat),
            pow2(k3) == pow2(k2) * pow2((k3 - k2) as nat),
            pow2(k2) > 0,
    ;
    assert(y3 * pow2(k3) <= pow2(32) - pow2(k3)) by (nonlinear_arith)
        requires
            y3 < pow2((32 - k3) as nat),
            pow2(32) == pow2(k3) * pow2((32 - k3) as nat),
            pow2(k3) > 0,
    ;
}

/// Bytes that parse as three boundary words pin the one gate serializing to them.
proof fn lemma_deserialize_match(src: Seq<u8>, pos: usize, g: Split4PartsGate, v1: u64, v2: u64, v3: u64)
    requires
        pos + 24 <= src.len(),
        src.subrange(pos as int, pos as int + 24) == g.serialized(),
        le_bytes8(v1) == src.subrange(pos as int, pos as int + 8),
        le_bytes8(v2) == src.subrange(pos as int + 8, pos as int + 16),
        le_bytes8(v3) == src.subrange(pos as int + 16, pos as int + 24),
        g.k1 < 32 && g.k2 < 32 && g.k3 < 32,
    ensures
        v1 == g.k1 && v2 == g.k2 && v3 == g.k3,
{
    assert(le_bytes8(g.k1 as u64).len() == 8);
    assert(le_bytes8(g.k2 as u64).len() == 8);
    assert(le_bytes8(g.k3 as u64).len() == 8);
    assert forall|i: int| 0 <= i < 8 implies src[pos + i] == #[trigger] le_bytes8(
        g.k1 as u64,
    )[i] by {
        assert(src.subrange(pos as int, pos as int + 24)[i] == g.serialized()[i]);
    }
    assert forall|i: int| 0 <= i < 8 implies src[pos + 8 + i] == #[trigger] le_bytes8(
        g.k2 as u64,
    )[i] by {
        assert(src.subrange(pos as int, pos as int + 24)[8 + i] == g.serialized()[8 + i]);
    }
    assert forall|i: int| 0 <= i < 8 implies src[pos + 16 + i] == #[trigger] le_bytes8(
        g.k3 as u64,
    )[i] by {
        assert(src.subrange(pos as int, pos as int + 24)[16 + i] == g.serialized()[16 + i]);
    }
    assert(src.subrange(pos as int, pos as int + 8) =~= le_bytes8(g.k1 as u64));
    assert(src.subrange(pos as int + 8, pos as int + 16) =~= le_bytes8(g.k2 as u64));
    assert(src.subrange(pos as int + 16, pos as int + 24) =~= le_bytes8(g.k3 as u64));
    lemma_le_bytes8_injective(v1, g.k1 as u64);
    lemma_le_bytes8_injective(v2, g.k2 as u64);
    lemma_le_bytes8_injective(v3, g.k3 as u64);
}

/// Once every slice is range-checked, the field constraint pins the unique
/// witness: any in-range assignment satisfying it is exactly what the
/// generator writes.  Without the range checks a witness can redistribute
/// bits across slices while the identity still holds.
pub proof fn lemma_split4_constraint_pins_witness(
    gate: Split4PartsGate,
    x: u64,
    y0: u64,
    y1: u64,
    y2: u64,
    y3: u64,
    m: u64,
)
    requires
        gate.wf(),
        m > 0xFFFF_FFFF,
        x < WORD_BOUND,
        gate.constraint_holds(x, y0, y1, y2, y3, m),
        (y0 as nat) < pow2(gate.k1 as nat),
        (y1 as nat) < pow2((gate.k2 - gate.k1) as nat),
        (y2 as nat) < pow2((gate.k3 - gate.k2) as nat),
        (y3 as nat) < pow2((32 - gate.k3) as nat),
    ensures
        seq![y0, y1, y2, y3] == split4_outputs(x, gate.k1 as nat, gate.k2 as nat, gate.k3 as nat),
{
    let k1 = gate.k1 as nat;
    let k2 = gate.k2 as nat;
    let k3 = gate.k3 as nat;
    lemma_split4_sum_bound(y0 as nat, y1 as nat, y2 as nat, y3 as nat, k1, k2, k3);
    lemma2_to64();
    lemma_small_mod(
        (y0 as nat + y1 as nat * pow2(k1) + y2 as nat * pow2(k2) + y3 as nat * pow2(k3)) as nat,
        m as nat,
    );
    lemma_split4_unique(x as nat, y0 as nat, y1 as nat, y2 as nat, y3 as nat, k1, k2, k3);
    lemma_pow2_pos(k1);
    lemma_pow2_pos((k2 - k1) as nat);
    lemma_pow2_pos((k3 - k2) as nat);
    lemma_pow2_pos((32 - k3) as nat);
    lemma_pow2_strictly_increases(k1, 32);
    lemma_pow2_strictly_increases((k2 - k1) as nat, 32);
    lemma_pow2_strictly_increases((k3 - k2) as nat, 32);
    lemma_pow2_strictly_increases((32 - k3) as nat, 32);
    assert(seq![y0, y1, y2, y3] =~= split4_outputs(x, k1, k2, k3));
}

/// Splits a 32-bit value into four parts at the bit boundaries `K1 < K2 < K3`:
/// five wires (input plus four outputs) and the single degree-1 constraint
/// `x = x0 + x1·2^K1 + x2·2^K2 + x3·2^K3`.
#[derive(Clone, Copy, Debug, PartialEq, Eq, Structural)]
pub struct Split4PartsGate {
    pub k1: usize,
    pub k2: usize,
    pub k3: usize,
}

impl Split4PartsGate {
    /// Valid bit boundaries.
    pub open spec fn wf(self) -> bool {
        0 < self.k1 < self.k2 < self.k3 < 32
    }

    /// Builds this gate; invalid boundaries are rejected at construction time.
    /// The configuration does not influence this gate's layout.
    pub fn new_from_config(k1: usize, k2: usize, k3: usize, _config: &CircuitConfig) -> (r: Result<
        Split4PartsGate,
        CircuitError,
    >)
        ensures
            r is Ok <==> 0 < k1 < k2 < k3 < 32,
            r is Ok ==> r->Ok_0 == (Split4PartsGate { k1, k2, k3 }) && r->Ok_0.wf(),
            r is Err ==> r->Err_0 == CircuitError::InvalidBitBoundaries,
    {
        if 0 < k1 && k1 < k2 && k2 < k3 && k3 < 32 {
            Ok(Split4PartsGate { k1, k2, k3 })
        } else {
            Err(CircuitError::InvalidBitBoundaries)
        }
    }

    /// Input wire plus four output wires.
    pub fn num_wires(&self) -> (n: usize)
        ensures
            n == 5,
    {
        5
    }

    pub fn num_constants(&self) -> (n: usize)
        ensures
            n == 0,
    {
        0
    }

    /// Only linear constraints.
    pub fn degree(&self) -> (n: usize)
        ensures
            n == 1,
    {
        1
    }

    pub fn num_constraints(&self) -> (n: usize)
        ensures
            n == 1,
    {
        1
    }

    /// Witness computation: shift and mask the canonical integer at the
    /// declared boundaries.  On a 32-bit input the slices rebuild it exactly,
    /// each within its declared range.
    pub fn generate(&self, x: u64) -> (outs: Vec<u64>)
        requires
            self.wf(),
        ensures
            outs@ == split4_outputs(x, self.k1 as nat, self.k2 as nat, self.k3 as nat),
            outs@.len() == 4,
            (outs@[0] as nat) < pow2(self.k1 as nat),
            (outs@[1] as nat) < pow2((self.k2 - self.k1) as nat),
            (outs@[2] as nat) < pow2((self.k3 - self.k2) as nat),
            (outs@[3] as nat) < pow2((32 - self.k3) as nat),
            x < WORD_BOUND ==> outs@[0] as nat + outs@[1] as nat * pow2(self.k1 as nat)
                + outs@[2] as nat * pow2(self.k2 as nat) + outs@[3] as nat * pow2(self.k3 as nat)
                == x as nat,
    {
        let k1: u64 = self.k1 as u64;
        let k2: u64 = self.k2 as u64;
        let k3: u64 = self.k3 as u64;
        proof {
            lemma_u64_pow2_no_overflow(k1 as nat);
            lemma_u64_pow2_no_overflow((k2 - k1) as nat);
            lemma_u64_pow2_no_overflow((k3 - k2) as nat);
            lemma_u64_pow2_no_overflow((32 - k3) as nat);
            lemma_u64_shl_is_mul(1u64, k1);
            lemma_u64_shl_is_mul(1u64, (k2 - k1) as u64);
            lemma_u64_shl_is_mul(1u64, (k3 - k2) as u64);
            lemma_u64_shl_is_mul(1u64, (32 - k3) as u64);
            lemma_pow2_pos(k1 as nat);
            lemma_pow2_pos((k2 - k1) as nat);
            lemma_pow2_pos((k3 - k2) as nat);
            lemma_pow2_pos((32 - k3) as nat);
            lemma_u64_mask_low(x, k1);
            lemma_u64_shift_div(x, k1);
            lemma_u64_mask_low(x >> k1, (k2 - k1) as u64);
            lemma_u64_shift_div(x, k2);
            lemma_u64_mask_low(x >> k2, (k3 - k2) as u64);
            lemma_u64_shift_div(x, k3);
            lemma_u64_mask_low(x >> k3, (32 - k3) as u64);
        }
        let x0: u64 = x & ((1u64 << k1) - 1);
        let x1: u64 = (x >> k1) & ((1u64 << (k2 - k1)) - 1);
        let x2: u64 = (x >> k2) & ((1u64 << (k3 - k2)) - 1);
        let x3: u64 = (x >> k3) & ((1u64 << (32 - k3)) - 1);
        proof {
            if x < WORD_BOUND {
                lemma2_to64();
                lemma_split4_reconstruct(x as nat, self.k1 as nat, self.k2 as nat, self.k3 as nat);
            }
        }
        let mut outs: Vec<u64> = Vec::new();
        outs.push(x0);
        outs.push(x1);
        outs.push(x2);
        outs.push(x3);
        proof {
            assert(outs@ =~= split4_outputs(x, self.k1 as nat, self.k2 as nat, self.k3 as nat));
        }
        outs
    }

    /// The recomposition identity over the field, on canonical wire values.
    pub open spec fn constraint_holds(self, x: u64, x0: u64, x1: u64, x2: u64, x3: u64, m: u64) -> bool {
        (x0 as nat + x1 as nat * pow2(self.k1 as nat) + x2 as nat * pow2(self.k2 as nat)
            + x3 as nat * pow2(self.k3 as nat)) % m as nat == x as nat
    }

    /// Evaluates the single constraint `x − (x0 + x1·2^K1 + x2·2^K2 + x3·2^K3)`
    /// on wire values `[x, x0, x1, x2, x3]`; zero exactly when the identity
    /// holds over the field.
    pub fn eval_unfiltered(&self, wires: &Vec<u64>, m: u64) -> (cs: Vec<u64>)
        requires
            self.wf(),
            wires@.len() == 5,
            forall|i: int| 0 <= i < 5 ==> #[trigger] wires@[i] < m,
            m > 0xFFFF_FFFF,
        ensures
            cs@.len() == 1,
            cs@[0] as nat == sub_f(
                wires@[0] as nat,
                (wires@[1] as nat + wires@[2] as nat * pow2(self.k1 as nat) + wires@[3] as nat
                    * pow2(self.k2 as nat) + wires@[4] as nat * pow2(self.k3 as nat)) % m as nat,
                m as nat,
            ),
            cs@[0] == 0 <==> self.constraint_holds(
                wires@[0],
                wires@[1],
                wires@[2],
                wires@[3],
                wires@[4],
                m,
            ),
    {
        let x: u64 = wires[0];
        let x0: u64 = wires[1];
        let x1: u64 = wires[2];
        let x2: u64 = wires[3];
        let x3: u64 = wires[4];
        let p1: u64 = 1u64 << (self.k1 as u64);
        let p2: u64 = 1u64 << (self.k2 as u64);
        let p3: u64 = 1u64 << (self.k3 as u64);
        proof {
            lemma_u64_pow2_no_overflow(self.k1 as nat);
            lemma_u64_pow2_no_overflow(self.k2 as nat);
            lemma_u64_pow2_no_overflow(self.k3 as nat);
            lemma_u64_shl_is_mul(1u64, self.k1 as u64);
            lemma_u64_shl_is_mul(1u64, self.k2 as u64);
            lemma_u64_shl_is_mul(1u64, self.k3 as u64);
            lemma_pow2_strictly_increases(self.k1 as nat, 32);
            lemma_pow2_strictly_increases(self.k2 as nat, 32);
            lemma_pow2_strictly_increases(self.k3 as nat, 32);
            lemma2_to64();
            assert(x1 as nat * p1 as nat <= 0xFFFF_FFFF_FFFF_FFFFnat * 0x1_0000_0000)
                by (nonlinear_arith)
                requires
                    x1 <= 0xFFFF_FFFF_FFFF_FFFFu64,
                    p1 <= 0x1_0000_0000u64,
            ;
            assert(x2 as nat * p2 as nat <= 0xFFFF_FFFF_FFFF_FFFFnat * 0x1_0000_0000)
                by (nonlinear_arith)
                requires
                    x2 <= 0xFFFF_FFFF_FFFF_FFFFu64,
                    p2 <= 0x1_0000_0000u64,
            ;
            assert(x3 as nat * p3 as nat <= 0xFFFF_FFFF_FFFF_FFFFnat * 0x1_0000_0000)
                by (nonlinear_arith)
                requires
                    x3 <= 0xFFFF_FFFF_FFFF_FFFFu64,
                    p3 <= 0x1_0000_0000u64,
            ;
        }
        let t: u128 = x0 as u128 + x1 as u128 * p1 as u128 + x2 as u128 * p2 as u128 + x3 as u128
            * p3 as u128;
        let s: u64 = (t % (m as u128)) as u64;
        let r: u64 = sub_mod(x, s, m);
        proof {
            lemma_mod_division_less_than_divisor(t as int, m as int);
            lemma_sub_f_zero(x as nat, s as nat, m as nat);
        }
        let mut cs: Vec<u64> = Vec::new();
        cs.push(r);
        cs
    }

    /// The serialized form of this gate's fixed parameters: the three bit
    /// boundaries, little-endian.
    pub open spec fn serialized(self) -> Seq<u8> {
        le_bytes8(self.k1 as u64) + le_bytes8(self.k2 as u64) + le_bytes8(self.k3 as u64)
    }

    /// Appends the fixed parameters to a serialized circuit description.
    pub fn serialize(&self, dst: &mut Vec<u8>)
        ensures
            final(dst)@ == old(dst)@ + self.serialized(),
    {
        write_u64_le(dst, self.k1 as u64);
        write_u64_le(dst, self.k2 as u64);
        write_u64_le(dst, self.k3 as u64);
        proof {
            assert(dst@ =~= old(dst)@ + self.serialized());
        }
    }

    /// Reads the fixed parameters back, validating the boundaries as
    /// `new_from_config` would: what `serialize` wrote deserializes to the
    /// same gate, byte-identically.
    pub fn deserialize(src: &Vec<u8>, pos: usize) -> (r: Result<
        (Split4PartsGate, usize),
        CircuitError,
    >)
        ensures
            forall|g: Split4PartsGate|
                g.wf() && pos + 24 <= src@.len() && src@.subrange(pos as int, pos as int + 24)
                    == #[trigger] g.serialized() ==> r == Ok::<(Split4PartsGate, usize), CircuitError>(
                    (g, (pos + 24) as usize),
                ),
            pos + 24 > src@.len() ==> r == Err::<(Split4PartsGate, usize), CircuitError>(
                CircuitError::ExhaustedBuffer,
            ),
            r matches Ok(t) ==> t.0.wf() && t.1 == pos + 24,
    {
        let r1 = match read_u64_le(src, pos) {
            Some(t) => t,
            None => {
                return Err(CircuitError::ExhaustedBuffer);
            },
        };
        let r2 = match read_u64_le(src, r1.1) {
            Some(t) => t,
            None => {
                return Err(CircuitError::ExhaustedBuffer);
            },
        };
        let r3 = match read_u64_le(src, r2.1) {
            Some(t) => t,
            None => {
                return Err(CircuitError::ExhaustedBuffer);
            },
        };
        if !(0 < r1.0 && r1.0 < r2.0 && r2.0 < r3.0 && r3.0 < 32) {
            proof {
                assert forall|g: Split4PartsGate|
                    g.wf() && pos + 24 <= src@.len() && src@.subrange(
                        pos as int,
                        pos as int + 24,
                    ) == #[trigger] g.serialized() implies false by {
                    lemma_deserialize_match(src@, pos, g, r1.0, r2.0, r3.0);
                }
            }
            return Err(CircuitError::InvalidBitBoundaries);
        }
        let gate = Split4PartsGate { k1: r1.0 as usize, k2: r2.0 as usize, k3: r3.0 as usize };
        proof {
            assert forall|g: Split4PartsGate|
                g.wf() && pos + 24 <= src@.len() && src@.subrange(pos as int, pos as int + 24)
                    == #[trigger] g.serialized() implies g == gate by {
                lemma_deserialize_match(src@, pos, g, r1.0, r2.0, r3.0);
            }
        }
        Ok((gate, r3.1))
    }

    /// Evaluates the same constraint over degree-D extension elements,
    /// componentwise: the extension is only used to replay the identity at
    /// the soundness level the verifier needs.
    pub fn eval_unfiltered_ext(&self, wires: &Vec<ExtensionElem>, m: u64) -> (cs: Vec<
        ExtensionElem,
    >)
        requires
            self.wf(),
            wires@.len() == 5,
            m > 0xFFFF_FFFF,
            forall|i: int| 0 <= i < 5 ==> (#[trigger] wires@[i]@).len() == wires@[0]@.len(),
            forall|i: int, d: int|
                0 <= i < 5 && 0 <= d < wires@[i]@.len() ==> #[trigger] wires@[i]@[d] < m,
        ensures
            cs@.len() == 1,
            cs@[0]@.len() == wires@[0]@.len(),
            forall|d: int|
                0 <= d < wires@[0]@.len() ==> (#[trigger] cs@[0]@[d] == 0 <==> self.constraint_holds(
                    wires@[0]@[d],
                    wires@[1]@[d],
                    wires@[2]@[d],
                    wires@[3]@[d],
                    wires@[4]@[d],
                    m,
                )),
    {
        let dd = wires[0].coeffs.len();
        let mut coeffs: Vec<u64> = Vec::new();
        let mut d: usize = 0;
        while d < dd
            invariant
                self.wf(),
                wires@.len() == 5,
                m > 0xFFFF_FFFF,
                forall|i: int| 0 <= i < 5 ==> (#[trigger] wires@[i]@).len() == wires@[0]@.len(),
                forall|i: int, dk: int|
                    0 <= i < 5 && 0 <= dk < wires@[i]@.len() ==> #[trigger] wires@[i]@[dk] < m,
                dd == wires@[0]@.len(),
                d <= dd,
                coeffs@.len() == d,
                forall|k: int| 0 <= k < d ==> (#[trigger] coeffs@[k] == 0 <==> self.constraint_holds(
                    wires@[0]@[k],
                    wires@[1]@[k],
                    wires@[2]@[k],
                    wires@[3]@[k],
                    wires@[4]@[k],
                    m,
                )),
            decreases dd - d,
        {
            let mut comp: Vec<u64> = Vec::new();
            proof {
                assert(wires@[0]@.len() == dd);
                assert(wires@[1]@.len() == dd);
                assert(wires@[2]@.len() == dd);
                assert(wires@[3]@.len() == dd);
                assert(wires@[4]@.len() == dd);
            }
            comp.push(wires[0].coeffs[d]);
            comp.push(wires[1].coeffs[d]);
            comp.push(wires[2].coeffs[d]);
            comp.push(wires[3].coeffs[d]);
            comp.push(wires[4].coeffs[d]);
            let c = self.eval_unfiltered(&comp, m);
            coeffs.push(c[0]);
            d = d + 1;
        }
        let mut cs: Vec<ExtensionElem> = Vec::new();
        cs.push(ExtensionElem { coeffs });
        cs
    }
}

/// Splits a value into 16-bit low and high halves: three wires and the
/// single degree-1 constraint `x = lo + hi·2^16`.  Neither half is
/// range-checked by this gate itself.
#[derive(Clone, Copy, Debug, PartialEq, Eq, Structural)]
pub struct SplitU16Gate {
}

impl SplitU16Gate {
    /// Builds this gate.  The configuration does not influence its layout.
    pub fn new_from_config(_config: &CircuitConfig) -> (r: SplitU16Gate)
    {
        SplitU16Gate {  }
    }

    /// Input wire plus two output wires.
    pub fn num_wires(&self) -> (n: usize)
        ensures
            n == 3,
    {
        3
    }

    pub fn num_constants(&self) -> (n: usize)
        ensures
            n == 0,
    {
        0
    }

    pub fn degree(&self) -> (n: usize)
        ensures
            n == 1,
    {
        1
    }

    pub fn num_constraints(&self) -> (n: usize)
        ensures
            n == 1,
    {
        1
    }

    /// Witness computation: low half is `x mod 2^16`, high half `x div 2^16`;
    /// they recombine to `x`, and on a 32-bit input both fit in 16 bits.
    pub fn generate(&self, x: u64) -> (outs: Vec<u64>)
        ensures
            outs@ == u16_outputs(x),
            outs@.len() == 2,
            outs@[0] as nat == x as nat % pow2(16),
            outs@[1] as nat == x as nat / pow2(16),
            outs@[0] as nat + outs@[1] as nat * pow2(16) == x as nat,
            outs@[0] < 0x10000,
            x < WORD_BOUND ==> outs@[1] < 0x10000,
    {
        let lo: u64 = x & 0xFFFF;
        let hi: u64 = x >> 16;
        proof {
            lemma_u64_mask_low(x, 16);
            lemma_u64_shift_div(x, 16);
            lemma2_to64();
            lemma_pow2_pos(16);
            lemma_fundamental_div_mod(x as int, pow2(16) as int);
            assert(x < 0x1_0000_0000 ==> x >> 16 < 0x10000) by (bit_vector);
        }
        let mut outs: Vec<u64> = Vec::new();
        outs.push(lo);
        outs.push(hi);
        proof {
            assert(outs@ =~= u16_outputs(x));
        }
        outs
    }

    /// The recombination identity over the field, on canonical wire values.
    pub open spec fn constraint_holds(self, x: u64, lo: u64, hi: u64, m: u64) -> bool {
        (lo as nat + hi as nat * pow2(16)) % m as nat == x as nat
    }

    /// Evaluates `x − (lo + hi·2^16)` on wire values `[x, lo, hi]`.
    pub fn eval_unfiltered(&self, wires: &Vec<u64>, m: u64) -> (cs: Vec<u64>)
        requires
            wires@.len() == 3,
            forall|i: int| 0 <= i < 3 ==> #[trigger] wires@[i] < m,
            m > 0xFFFF_FFFF,
        ensures
            cs@.len() == 1,
            cs@[0] as nat == sub_f(
                wires@[0] as nat,
                (wires@[1] as nat + wires@[2] as nat * pow2(16)) % m as nat,
                m as nat,
            ),
            cs@[0] == 0 <==> self.constraint_holds(wires@[0], wires@[1], wires@[2], m),
    {
        let x: u64 = wires[0];
        let lo: u64 = wires[1];
        let hi: u64 = wires[2];
        proof {
            lemma2_to64();
            assert(hi as nat * 0x10000nat <= 0xFFFF_FFFF_FFFF_FFFFnat * 0x10000)
                by (nonlinear_arith)
                requires
                    hi <= 0xFFFF_FFFF_FFFF_FFFFu64,
            ;
        }
        let t: u128 = lo as u128 + hi as u128 * 0x10000u128;
        let s: u64 = (t % (m as u128)) as u64;
        let r: u64 = sub_mod(x, s, m);
        proof {
            lemma_mod_division_less_than_divisor(t as int, m as int);
            lemma_sub_f_zero(x as nat, s as nat, m as nat);
        }
        let mut cs: Vec<u64> = Vec::new();
        cs.push(r);
        cs
    }

    /// This gate carries no fixed parameters; its serialized form is empty.
    pub fn serialize(&self, dst: &mut Vec<u8>)
        ensures
            final(dst)@ == old(dst)@,
    {
    }

    /// Nothing to read back: deserialization yields this gate unchanged.
    pub fn deserialize(_src: &Vec<u8>, pos: usize) -> (r: (SplitU16Gate, usize))
        ensures
            r == (SplitU16Gate {  }, pos),
    {
        (SplitU16Gate {  }, pos)
    }

    /// Evaluates the same constraint over degree-D extension elements,
    /// componentwise: the extension is only used to replay the identity at
    /// the soundness level the verifier needs.
    pub fn eval_unfiltered_ext(&self, wires: &Vec<ExtensionElem>, m: u64) -> (cs: Vec<
        ExtensionElem,
    >)
        requires
            wires@.len() == 3,
            m > 0xFFFF_FFFF,
            forall|i: int| 0 <= i < 3 ==> (#[trigger] wires@[i]@).len() == wires@[0]@.len(),
            forall|i: int, d: int|
                0 <= i < 3 && 0 <= d < wires@[i]@.len() ==> #[trigger] wires@[i]@[d] < m,
        ensures
            cs@.len() == 1,
            cs@[0]@.len() == wires@[0]@.len(),
            forall|d: int|
                0 <= d < wires@[0]@.len() ==> (#[trigger] cs@[0]@[d] == 0 <==> self.constraint_holds(
                    wires@[0]@[d],
                    wires@[1]@[d],
                    wires@[2]@[d],
                    m,
                )),
    {
        let dd = wires[0].coeffs.len();
        let mut coeffs: Vec<u64> = Vec::new();
        let mut d: usize = 0;
        while d < dd
            invariant
                wires@.len() == 3,
                m > 0xFFFF_FFFF,
                forall|i: int| 0 <= i < 3 ==> (#[trigger] wires@[i]@).len() == wires@[0]@.len(),
                forall|i: int, dk: int|
                    0 <= i < 3 && 0 <= dk < wires@[i]@.len() ==> #[trigger] wires@[i]@[dk] < m,
                dd == wires@[0]@.len(),
                d <= dd,
                coeffs@.len() == d,
                forall|k: int| 0 <= k < d ==> (#[trigger] coeffs@[k] == 0 <==> self.constraint_holds(
                    wires@[0]@[k],
                    wires@[1]@[k],
                    wires@[2]@[k],
                    m,
                )),
            decreases dd - d,
        {
            let mut comp: Vec<u64> = Vec::new();
            proof {
                assert(wires@[0]@.len() == dd);
                assert(wires@[1]@.len() == dd);
                assert(wires@[2]@.len() == dd);
            }
            comp.push(wires[0].coeffs[d]);
            comp.push(wires[1].coeffs[d]);
            comp.push(wires[2].coeffs[d]);
            let c = self.eval_unfiltered(&comp, m);
            coeffs.push(c[0]);
            d = d + 1;
        }
        let mut cs: Vec<ExtensionElem> = Vec::new();
        cs.push(ExtensionElem { coeffs });
        cs
    }
}

/// De-interleaves the low 16 bits of a value into its even and odd bit
/// streams: five wires (input, spread even, spread odd, packed even, packed
/// odd) and the single degree-1 constraint `x = even + 2·odd`.  The spread
/// shape of `even` and `odd` is not asserted by the constraint; the builder
/// binds the packed outputs to them through the spread lookup table.
#[derive(Clone, Copy, Debug, PartialEq, Eq, Structural)]
pub struct SplitU8SpreadGate {
    pub table_idx: usize,
}

impl SplitU8SpreadGate {
    /// Builds this gate against a registered table index.  The configuration
    /// does not influence its layout.
    pub fn new_from_config(table_idx: usize, _config: &CircuitConfig) -> (r: SplitU8SpreadGate)
        ensures
            r == (SplitU8SpreadGate { table_idx }),
    {
        SplitU8SpreadGate { table_idx }
    }

    /// Input wire plus four output wires.
    pub fn num_wires(&self) -> (n: usize)
        ensures
            n == 5,
    {
        5
    }

    pub fn num_constants(&self) -> (n: usize)
        ensures
            n == 0,
    {
        0
    }

    pub fn degree(&self) -> (n: usize)
        ensures
            n == 1,
    {
        1
    }

    pub fn num_constraints(&self) -> (n: usize)
        ensures
            n == 1,
    {
        1
    }

    /// Witness computation: for each of the eight 2-bit lanes of `x`, route
    /// bit `2i` into `even` and bit `2i+1` into `odd` at the same stride, and
    /// pack the same bits one-per-position into `even_u8` / `odd_u8`.  On a
    /// 16-bit input, `x = even + 2·odd`.
    pub fn generate(&self, x: u64) -> (outs: Vec<u64>)
        ensures
            outs@ == u8_spread_outputs(x),
            outs@.len() == 4,
            outs@[2] < 256,
            outs@[3] < 256,
            outs@[0] as nat == spread8(outs@[2] as nat),
            outs@[1] as nat == spread8(outs@[3] as nat),
            x < 0x10000 ==> x as nat == outs@[0] as nat + 2 * outs@[1] as nat,
    {
        let mut even: u64 = 0;
        let mut odd: u64 = 0;
        let mut even_u8: u64 = 0;
        let mut odd_u8: u64 = 0;
        let mut i: u64 = 0;
        while i < 8
            invariant
                i <= 8,
                even as nat == lane_sum(|j: nat| bit_of(x as nat, 2 * j), 2, i as nat),
                odd as nat == lane_sum(|j: nat| bit_of(x as nat, 2 * j + 1), 2, i as nat),
                even_u8 as nat == lane_sum(|j: nat| bit_of(x as nat, 2 * j), 1, i as nat),
                odd_u8 as nat == lane_sum(|j: nat| bit_of(x as nat, 2 * j + 1), 1, i as nat),
            decreases 8 - i,
        {
            let bit_even: u64 = (x >> (2 * i)) & 1;
            let bit_odd: u64 = (x >> (2 * i + 1)) & 1;
            proof {
                lemma_u64_bit_shift(x, (2 * i) as u64);
                lemma_u64_bit_shift(x, (2 * i + 1) as u64);
                lemma2_to64();
                lemma_pow2_strictly_increases(2 * (i as nat), 15);
                lemma_pow2_strictly_increases(i as nat, 15);
                assert(bit_even as nat * pow2(2 * (i as nat)) <= pow2(2 * (i as nat))
                    && bit_odd as nat * pow2(2 * (i as nat)) <= pow2(2 * (i as nat))
                    && bit_even as nat * pow2(i as nat) <= pow2(i as nat) && bit_odd as nat * pow2(
                    i as nat,
                ) <= pow2(i as nat)) by (nonlinear_arith)
                    requires
                        bit_even < 2,
                        bit_odd < 2,
            ;
                lemma_u64_shl_is_mul(bit_even, (2 * i) as u64);
                lemma_u64_shl_is_mul(bit_odd, (2 * i) as u64);
                lemma_u64_shl_is_mul(bit_even, i);
                lemma_u64_shl_is_mul(bit_odd, i);
                assert forall|j: nat| j < 8 implies #[trigger] bit_of(x as nat, 2 * j) < pow2(2)
                    && bit_of(x as nat, 2 * j) < pow2(1) by {
                    lemma_bit_of_bound(x as nat, 2 * j);
                    lemma2_to64();
                }
                assert forall|j: nat| j < 8 implies #[trigger] bit_of(x as nat, 2 * j + 1) < pow2(
                    2,
                ) && bit_of(x as nat, 2 * j + 1) < pow2(1) by {
                    lemma_bit_of_bound(x as nat, 2 * j + 1);
                    lemma2_to64();
                }
                lemma_lane_sum_bound(|j: nat| bit_of(x as nat, 2 * j), 2, i as nat);
                lemma_lane_sum_bound(|j: nat| bit_of(x as nat, 2 * j + 1), 2, i as nat);
                lemma_lane_sum_bound(|j: nat| bit_of(x as nat, 2 * j), 1, i as nat);
                lemma_lane_sum_bound(|j: nat| bit_of(x as nat, 2 * j + 1), 1, i as nat);
                lemma_pow2_strictly_increases(2 * (i as nat), 17);
                lemma_pow2_strictly_increases(i as nat, 9);
            }
            even = even + (bit_even << (2 * i));
            odd = odd + (bit_odd << (2 * i));
            even_u8 = even_u8 + (bit_even << i);
            odd_u8 = odd_u8 + (bit_odd << i);
            i = i + 1;
        }
        proof {
            lemma_packed_byte_bound(x as nat);
            assert forall|j: nat| j < 8 implies #[trigger] bit_of(even_byte(x as nat), j) == bit_of(
                x as nat,
                2 * j,
            ) by {
                lemma_packed_byte_bits(x as nat, j);
            }
            assert forall|j: nat| j < 8 implies #[trigger] bit_of(odd_byte(x as nat), j) == bit_of(
                x as nat,
                2 * j + 1,
            ) by {
                lemma_packed_byte_bits(x as nat, j);
            }
            lemma_lane_sum_congruence(
                |j: nat| bit_of(x as nat, 2 * j),
                |j: nat| bit_of(even_byte(x as nat), j),
                2,
                8,
            );
            lemma_lane_sum_congruence(
                |j: nat| bit_of(x as nat, 2 * j + 1),
                |j: nat| bit_of(odd_byte(x as nat), j),
                2,
                8,
            );
            if x < 0x10000 {
                lemma2_to64();
                lemma_even_odd_split(x as nat);
            }
        }
        let mut outs: Vec<u64> = Vec::new();
        outs.push(even);
        outs.push(odd);
        outs.push(even_u8);
        outs.push(odd_u8);
        proof {
            assert(outs@ =~= u8_spread_outputs(x));
        }
        outs
    }

    /// The recombination identity over the field, on canonical wire values.
    pub open spec fn constraint_holds(self, x: u64, even: u64, odd: u64, m: u64) -> bool {
        (even as nat + 2 * odd as nat) % m as nat == x as nat
    }

    /// Evaluates `x − (even + 2·odd)` on wire values
    /// `[x, even, odd, even_u8, odd_u8]`; the packed wires carry no
    /// polynomial constraint of their own.
    pub fn eval_unfiltered(&self, wires: &Vec<u64>, m: u64) -> (cs: Vec<u64>)
        requires
            wires@.len() == 5,
            forall|i: int| 0 <= i < 5 ==> #[trigger] wires@[i] < m,
            m > 0xFFFF_FFFF,
        ensures
            cs@.len() == 1,
            cs@[0] as nat == sub_f(
                wires@[0] as nat,
                (wires@[1] as nat + 2 * wires@[2] as nat) % m as nat,
                m as nat,
            ),
            cs@[0] == 0 <==> self.constraint_holds(wires@[0], wires@[1], wires@[2], m),
    {
        let x: u64 = wires[0];
        let even: u64 = wires[1];
        let odd: u64 = wires[2];
        let t: u128 = even as u128 + 2u128 * odd as u128;
        let s: u64 = (t % (m as u128)) as u64;
        let r: u64 = sub_mod(x, s, m);
        proof {
            lemma_mod_division_less_than_divisor(t as int, m as int);
            lemma_sub_f_zero(x as nat, s as nat, m as nat);
        }
        let mut cs: Vec<u64> = Vec::new();
        cs.push(r);
        cs
    }

    /// The serialized form of this gate's fixed parameters: its table index,
    /// little-endian.
    pub open spec fn serialized(self) -> Seq<u8> {
        le_bytes8(self.table_idx as u64)
    }

    /// Appends the fixed parameters to a serialized circuit description.
    pub fn serialize(&self, dst: &mut Vec<u8>)
        ensures
            final(dst)@ == old(dst)@ + self.serialized(),
    {
        write_u64_le(dst, self.table_idx as u64);
    }

    /// Reads the fixed parameters back: what `serialize` wrote deserializes
    /// to the same gate.
    pub fn deserialize(src: &Vec<u8>, pos: usize) -> (r: Result<
        (SplitU8SpreadGate, usize),
        CircuitError,
    >)
        ensures
            forall|g: SplitU8SpreadGate|
                pos + 8 <= src@.len() && src@.subrange(pos as int, pos as int + 8)
                    == #[trigger] g.serialized() ==> r == Ok::<(SplitU8SpreadGate, usize), CircuitError>(
                    (g, (pos + 8) as usize),
                ),
            pos + 8 > src@.len() ==> r == Err::<(SplitU8SpreadGate, usize), CircuitError>(
                CircuitError::ExhaustedBuffer,
            ),
            r matches Ok(t) ==> t.1 == pos + 8,
    {
        let r1 = match read_u64_le(src, pos) {
            Some(t) => t,
            None => {
                return Err(CircuitError::ExhaustedBuffer);
            },
        };
        if r1.0 > usize::MAX as u64 {
            proof {
                assert forall|g: SplitU8SpreadGate|
                    pos + 8 <= src@.len() && src@.subrange(pos as int, pos as int + 8)
                        == #[trigger] g.serialized() implies false by {
                    lemma_le_bytes8_injective(r1.0, g.table_idx as u64);
                }
            }
            return Err(CircuitError::UnregisteredTable);
        }
        let gate = SplitU8SpreadGate { table_idx: r1.0 as usize };
        proof {
            assert forall|g: SplitU8SpreadGate|
                pos + 8 <= src@.len() && src@.subrange(pos as int, pos as int + 8)
                    == #[trigger] g.serialized() implies g == gate by {
                lemma_le_bytes8_injective(r1.0, g.table_idx as u64);
            }
        }
        Ok((gate, r1.1))
    }

    /// Evaluates the same constraint over degree-D extension elements,
    /// componentwise: the extension is only used to replay the identity at
    /// the soundness level the verifier needs.
    pub fn eval_unfiltered_ext(&self, wires: &Vec<ExtensionElem>, m: u64) -> (cs: Vec<
        ExtensionElem,
    >)
        requires
            wires@.len() == 5,
            m > 0xFFFF_FFFF,
            forall|i: int| 0 <= i < 5 ==> (#[trigger] wires@[i]@).len() == wires@[0]@.len(),
            forall|i: int, d: int|
                0 <= i < 5 && 0 <= d < wires@[i]@.len() ==> #[trigger] wires@[i]@[d] < m,
        ensures
            cs@.len() == 1,
            cs@[0]@.len() == wires@[0]@.len(),
            forall|d: int|
                0 <= d < wires@[0]@.len() ==> (#[trigger] cs@[0]@[d] == 0 <==> self.constraint_holds(
                    wires@[0]@[d],
                    wires@[1]@[d],
                    wires@[2]@[d],
                    m,
                )),
    {
        let dd = wires[0].coeffs.len();
        let mut coeffs: Vec<u64> = Vec::new();
        let mut d: usize = 0;
        while d < dd
            invariant
                wires@.len() == 5,
                m > 0xFFFF_FFFF,
                forall|i: int| 0 <= i < 5 ==> (#[trigger] wires@[i]@).len() == wires@[0]@.len(),
                forall|i: int, dk: int|
                    0 <= i < 5 && 0 <= dk < wires@[i]@.len() ==> #[trigger] wires@[i]@[dk] < m,
                dd == wires@[0]@.len(),
                d <= dd,
                coeffs@.len() == d,
                forall|k: int| 0 <= k < d ==> (#[trigger] coeffs@[k] == 0 <==> self.constraint_holds(
                    wires@[0]@[k],
                    wires@[1]@[k],
                    wires@[2]@[k],
                    m,
                )),
            decreases dd - d,
        {
            let mut comp: Vec<u64> = Vec::new();
            proof {
                assert(wires@[0]@.len() == dd);
                assert(wires@[1]@.len() == dd);
                assert(wires@[2]@.len() == dd);
                assert(wires@[3]@.len() == dd);
                assert(wires@[4]@.len() == dd);
            }
            comp.push(wires[0].coeffs[d]);
            comp.push(wires[1].coeffs[d]);
            comp.push(wires[2].coeffs[d]);
            comp.push(wires[3].coeffs[d]);
            comp.push(wires[4].coeffs[d]);
            let c = self.eval_unfiltered(&comp, m);
            coeffs.push(c[0]);
            d = d + 1;
        }
        let mut cs: Vec<ExtensionElem> = Vec::new();
        cs.push(ExtensionElem { coeffs });
        cs
    }
}

/// The lookup table is the linchpin: once both packed wires are certified
/// table rows, the single recombination constraint pins the whole spread
/// split.  The input is forced below `2^16` and every output wire equals
/// what the generator writes — no per-bit constraint needed.
pub proof fn lemma_u8_spread_constraints_pin_witness(
    x: u64,
    even: u64,
    odd: u64,
    even_u8: u64,
    odd_u8: u64,
    t: Seq<u64>,
    m: u64,
)
    requires
        m > 0xFFFF_FFFF,
        x < m,
        crate::spread::is_spread_table(t),
        even_u8 < 256,
        t[even_u8 as int] == even,
        odd_u8 < 256,
        t[odd_u8 as int] == odd,
        (even as nat + 2 * odd as nat) % m as nat == x as nat,
    ensures
        x < 0x10000,
        even_u8 as nat == even_byte(x as nat),
        odd_u8 as nat == odd_byte(x as nat),
        even as nat == spread8(even_byte(x as nat)),
        odd as nat == spread8(odd_byte(x as nat)),
{
    crate::spread::lemma_spread8_bound(even_u8 as nat);
    crate::spread::lemma_spread8_bound(odd_u8 as nat);
    lemma2_to64();
    lemma_small_mod((even as nat + 2 * odd as nat) as nat, m as nat);
    crate::spread::lemma_interleave(even_u8 as nat, odd_u8 as nat);
}

/// What the nibble split generator writes: the eight 4-bit slices of `x`,
/// LSB first.
pub open spec fn nibble_outputs(x: u64) -> Seq<u64> {
    seq![
        (x as nat % pow2(4)) as u64,
        ((x as nat / pow2(4)) % pow2(4)) as u64,
        ((x as nat / pow2(8)) % pow2(4)) as u64,
        ((x as nat / pow2(12)) % pow2(4)) as u64,
        ((x as nat / pow2(16)) % pow2(4)) as u64,
        ((x as nat / pow2(20)) % pow2(4)) as u64,
        ((x as nat / pow2(24)) % pow2(4)) as u64,
        ((x as nat / pow2(28)) % pow2(4)) as u64,
    ]
}

/// The eight nibbles of a 32-bit word rebuild it.
pub proof fn lemma_nibble_reconstruct(x: nat)
    requires
        x < pow2(32),
    ensures
        x % pow2(4) + ((x / pow2(4)) % pow2(4)) * pow2(4) + ((x / pow2(8)) % pow2(4)) * pow2(8) + (
        (x / pow2(12)) % pow2(4)) * pow2(12) + ((x / pow2(16)) % pow2(4)) * pow2(16) + ((x / pow2(
            20,
        )) % pow2(4)) * pow2(20) + ((x / pow2(24)) % pow2(4)) * pow2(24) + ((x / pow2(28)) % pow2(
            4,
        )) * pow2(28) == x,
{
    lemma_mod_step(x, 4, 4);
    lemma_mod_step(x, 8, 4);
    lemma_mod_step(x, 12, 4);
    lemma_mod_step(x, 16, 4);
    lemma_mod_step(x, 20, 4);
    lemma_mod_step(x, 24, 4);
    lemma_mod_step(x, 28, 4);
    lemma_small_mod(x, pow2(32));
}

/// Splits a 32-bit value into eight 4-bit nibbles: nine wires and the single
/// degree-1 constraint `x = Σ_{i<8} n_i·2^{4i}`.  As with the four-part
/// split, per-nibble width is not enforced by the identity; the caller must
/// range-check each output.
#[derive(Clone, Copy, Debug, PartialEq, Eq, Structural)]
pub struct NibbleSplitGate {
}

impl NibbleSplitGate {
    /// Builds this gate.  The configuration does not influence its layout.
    pub fn new_from_config(_config: &CircuitConfig) -> (r: NibbleSplitGate)
    {
        NibbleSplitGate {  }
    }

    /// Input wire plus eight output wires.
    pub fn num_wires(&self) -> (n: usize)
        ensures
            n == 9,
    {
        9
    }

    pub fn num_constants(&self) -> (n: usize)
        ensures
            n == 0,
    {
        0
    }

    pub fn degree(&self) -> (n: usize)
        ensures
            n == 1,
    {
        1
    }

    pub fn num_constraints(&self) -> (n: usize)
        ensures
            n == 1,
    {
        1
    }

    /// Witness computation: mask out each nibble.  Every output is below 16,
    /// and on a 32-bit input the nibbles rebuild it.
    pub fn generate(&self, x: u64) -> (outs: Vec<u64>)
        ensures
            outs@ == nibble_outputs(x),
            outs@.len() == 8,
            forall|i: int| 0 <= i < 8 ==> #[trigger] outs@[i] < 16,
            x < WORD_BOUND ==> outs@[0] as nat + outs@[1] as nat * pow2(4) + outs@[2] as nat
                * pow2(8) + outs@[3] as nat * pow2(12) + outs@[4] as nat * pow2(16)
                + outs@[5] as nat * pow2(20) + outs@[6] as nat * pow2(24) + outs@[7] as nat * pow2(
                28,
            ) == x as nat,
    {
        proof {
            lemma_u64_mask_low(x, 4);
            lemma_u64_shift_div(x, 4);
            lemma_u64_mask_low(x >> 4, 4);
            lemma_u64_shift_div(x, 8);
            lemma_u64_mask_low(x >> 8, 4);
            lemma_u64_shift_div(x, 12);
            lemma_u64_mask_low(x >> 12, 4);
            lemma_u64_shift_div(x, 16);
            lemma_u64_mask_low(x >> 16, 4);
            lemma_u64_shift_div(x, 20);
            lemma_u64_mask_low(x >> 20, 4);
            lemma_u64_shift_div(x, 24);
            lemma_u64_mask_low(x >> 24, 4);
            lemma_u64_shift_div(x, 28);
            lemma_u64_mask_low(x >> 28, 4);
            lemma2_to64();
            if x < WORD_BOUND {
                lemma_nibble_reconstruct(x as nat);
            }
        }
        let mut outs: Vec<u64> = Vec::new();
        outs.push(x & 0xF);
        outs.push((x >> 4) & 0xF);
        outs.push((x >> 8) & 0xF);
        outs.push((x >> 12) & 0xF);
        outs.push((x >> 16) & 0xF);
        outs.push((x >> 20) & 0xF);
        outs.push((x >> 24) & 0xF);
        outs.push((x >> 28) & 0xF);
        proof {
            assert(outs@ =~= nibble_outputs(x));
        }
        outs
    }

    /// The recomposition identity over the field, on canonical wire values.
    pub open spec fn constraint_holds(self, x: u64, n: Seq<u64>, m: u64) -> bool {
        (n[0] as nat + n[1] as nat * pow2(4) + n[2] as nat * pow2(8) + n[3] as nat * pow2(12)
            + n[4] as nat * pow2(16) + n[5] as nat * pow2(20) + n[6] as nat * pow2(24)
            + n[7] as nat * pow2(28)) % m as nat == x as nat
    }

    /// Evaluates `x − Σ n_i·2^{4i}` on wire values `[x, n0, …, n7]`.
    pub fn eval_unfiltered(&self, wires: &Vec<u64>, m: u64) -> (cs: Vec<u64>)
        requires
            wires@.len() == 9,
            forall|i: int| 0 <= i < 9 ==> #[trigger] wires@[i] < m,
            m > 0xFFFF_FFFF,
        ensures
            cs@.len() == 1,
            cs@[0] as nat == sub_f(
                wires@[0] as nat,
                (wires@[1] as nat + wires@[2] as nat * pow2(4) + wires@[3] as nat * pow2(8)
                    + wires@[4] as nat * pow2(12) + wires@[5] as nat * pow2(16) + wires@[6] as nat
                    * pow2(20) + wires@[7] as nat * pow2(24) + wires@[8] as nat * pow2(28))
                    % m as nat,
                m as nat,
            ),
            cs@[0] == 0 <==> self.constraint_holds(wires@[0], wires@.subrange(1, 9), m),
    {
        let x: u64 = wires[0];
        let t: u128 = wires[1] as u128 + wires[2] as u128 * 0x10 + wires[3] as u128 * 0x100
            + wires[4] as u128 * 0x1000 + wires[5] as u128 * 0x10000 + wires[6] as u128 * 0x100000
            + wires[7] as u128 * 0x1000000 + wires[8] as u128 * 0x10000000;
        let s: u64 = (t % (m as u128)) as u64;
        let r: u64 = sub_mod(x, s, m);
        proof {
            lemma2_to64();
            lemma_mod_division_less_than_divisor(t as int, m as int);
            lemma_sub_f_zero(x as nat, s as nat, m as nat);
            assert(wires@.subrange(1, 9)[0] == wires@[1]);
            assert(wires@.subrange(1, 9)[1] == wires@[2]);
            assert(wires@.subrange(1, 9)[2] == wires@[3]);
            assert(wires@.subrange(1, 9)[3] == wires@[4]);
            assert(wires@.subrange(1, 9)[4] == wires@[5]);
            assert(wires@.subrange(1, 9)[5] == wires@[6]);
            assert(wires@.subrange(1, 9)[6] == wires@[7]);
            assert(wires@.subrange(1, 9)[7] == wires@[8]);
        }
        let mut cs: Vec<u64> = Vec::new();
        cs.push(r);
        cs
    }

    /// This gate carries no fixed parameters; its serialized form is empty.
    pub fn serialize(&self, dst: &mut Vec<u8>)
        ensures
            final(dst)@ == old(dst)@,
    {
    }

    /// Nothing to read back: deserialization yields this gate unchanged.
    pub fn deserialize(_src: &Vec<u8>, pos: usize) -> (r: (NibbleSplitGate, usize))
        ensures
            r == (NibbleSplitGate {  }, pos),
    {
        (NibbleSplitGate {  }, pos)
    }

    /// Evaluates the same constraint over degree-D extension elements,
    /// componentwise: the extension is only used to replay the identity at
    /// the soundness level the verifier needs.
    pub fn eval_unfiltered_ext(&self, wires: &Vec<ExtensionElem>, m: u64) -> (cs: Vec<
        ExtensionElem,
    >)
        requires
            wires@.len() == 9,
            m > 0xFFFF_FFFF,
            forall|i: int| 0 <= i < 9 ==> (#[trigger] wires@[i]@).len() == wires@[0]@.len(),
            forall|i: int, d: int|
                0 <= i < 9 && 0 <= d < wires@[i]@.len() ==> #[trigger] wires@[i]@[d] < m,
        ensures
            cs@.len() == 1,
            cs@[0]@.len() == wires@[0]@.len(),
            forall|d: int|
                0 <= d < wires@[0]@.len() ==> (#[trigger] cs@[0]@[d] == 0 <==> self.constraint_holds(
                    wires@[0]@[d],
                    Seq::new(8, |j: int| wires@[j + 1]@[d]),
                    m,
                )),
    {
        let dd = wires[0].coeffs.len();
        let mut coeffs: Vec<u64> = Vec::new();
        let mut d: usize = 0;
        while d < dd
            invariant
                wires@.len() == 9,
                m > 0xFFFF_FFFF,
                forall|i: int| 0 <= i < 9 ==> (#[trigger] wires@[i]@).len() == wires@[0]@.len(),
                forall|i: int, dk: int|
                    0 <= i < 9 && 0 <= dk < wires@[i]@.len() ==> #[trigger] wires@[i]@[dk] < m,
                dd == wires@[0]@.len(),
                d <= dd,
                coeffs@.len() == d,
                forall|k: int| 0 <= k < d ==> (#[trigger] coeffs@[k] == 0 <==> self.constraint_holds(
                    wires@[0]@[k],
                    Seq::new(8, |j: int| wires@[j + 1]@[k]),
                    m,
                )),
            decreases dd - d,
        {
            let mut comp: Vec<u64> = Vec::new();
            proof {
                assert(wires@[0]@.len() == dd);
                assert(wires@[1]@.len() == dd);
                assert(wires@[2]@.len() == dd);
                assert(wires@[3]@.len() == dd);
                assert(wires@[4]@.len() == dd);
                assert(wires@[5]@.len() == dd);
                assert(wires@[6]@.len() == dd);
                assert(wires@[7]@.len() == dd);
                assert(wires@[8]@.len() == dd);
            }
            comp.push(wires[0].coeffs[d]);
            comp.push(wires[1].coeffs[d]);
            comp.push(wires[2].coeffs[d]);
            comp.push(wires[3].coeffs[d]);
            comp.push(wires[4].coeffs[d]);
            comp.push(wires[5].coeffs[d]);
            comp.push(wires[6].coeffs[d]);
            comp.push(wires[7].coeffs[d]);
            comp.push(wires[8].coeffs[d]);
            let c = self.eval_unfiltered(&comp, m);
            proof {
                assert(comp@.subrange(1, 9) =~= Seq::new(8, |j: int| wires@[j + 1]@[d as int]));
            }
            coeffs.push(c[0]);
            d = d + 1;
        }
        let mut cs: Vec<ExtensionElem> = Vec::new();
        cs.push(ExtensionElem { coeffs });
        cs
    }
}

} // verus!
