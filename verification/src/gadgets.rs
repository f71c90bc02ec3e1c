//! Split gadgets and the three-operand bitwise gadgets built from them.
//!
//! A gadget appends gate instances in sequence, wiring each gate's outputs as
//! the next gate's inputs, and returns a handle to the final result.  The
//! contracts here state, for every choice of circuit inputs, what value the
//! returned wire takes in the generated witness: the four-part and 16-bit
//! splits recompose their input, and XOR3 / MAJ3 / CH3 compute the bitwise
//! functions on 32-bit words, provided the named lookup table is the spread
//! table.

use vstd::prelude::*;
use crate::circuit::{
    lemma_extends_trans, lemma_wval_extends, row_outputs, wire_value, CircuitView, Row,
    U32SplitCircuitBuilder, Wire,
};
use crate::gates::{
    nibble_outputs, split4_outputs, u16_outputs, NibbleSplitGate, Split4PartsGate, SplitU16Gate,
    SplitU8SpreadGate, lemma_split4_reconstruct,
};
use crate::mixing::{
    lemma_ch_bytes16, lemma_ch_byte_parts, lemma_ch_u32_combine, lemma_complement_spread,
    lemma_maj3_bytes16, lemma_maj3_u32_combine, lemma_spread2_sum, lemma_spread3_sum,
    lemma_spread_disjoint_or, lemma_spread_form, lemma_xor3_bytes16, lemma_xor3_u32_combine,
};
use crate::spread::{
    even_byte, is_spread_table, odd_byte, spread8, lemma_even_odd_split, lemma_packed_byte_bound,
    lemma_spread8_bound, SPREAD_ONES,
};
use crate::WORD_BOUND;
use vstd::arithmetic::div_mod::{
    lemma_fundamental_div_mod, lemma_mod_division_less_than_divisor, lemma_multiply_divide_lt,
    lemma_small_mod,
};
use vstd::arithmetic::power2::{lemma2_to64, lemma_pow2_adds, lemma_pow2_pos, lemma_pow2_strictly_increases, pow2};

verus! {

impl U32SplitCircuitBuilder {
    /// Appends a four-part split of `input` at boundaries `K1 < K2 < K3` and
    /// range-checks every slice to its declared width, so the constraint
    /// pins the unique decomposition.  Returns the slice wires, LSB first.
    pub fn add_u32_split(&mut self, input: Wire, k1: usize, k2: usize, k3: usize) -> (r: (
        Wire,
        Wire,
        Wire,
        Wire,
    ))
        requires
            old(self)@.wf(),
            old(self)@.valid_wire(input),
            old(self)@.rows.len() < 0xFFFF_FF00,
            0 < k1 < k2 < k3 < 32,
        ensures
            final(self)@.wf(),
            final(self)@.extends(old(self)@),
            final(self)@.valid_wire(r.0),
            final(self)@.valid_wire(r.1),
            final(self)@.valid_wire(r.2),
            final(self)@.valid_wire(r.3),
            final(self)@.rows == old(self)@.rows.push(
                Row::Split4 { gate: Split4PartsGate { k1, k2, k3 }, input },
            ),
            final(self)@.connects == old(self)@.connects,
            forall|inp: Seq<u64>|
                #[trigger] final(self)@.wval(inp, r.0) as nat == final(self)@.wval(
                    inp,
                    input,
                ) as nat % pow2(k1 as nat),
            forall|inp: Seq<u64>|
                #[trigger] final(self)@.wval(inp, r.1) as nat == (final(self)@.wval(
                    inp,
                    input,
                ) as nat / pow2(k1 as nat)) % pow2((k2 - k1) as nat),
            forall|inp: Seq<u64>|
                #[trigger] final(self)@.wval(inp, r.2) as nat == (final(self)@.wval(
                    inp,
                    input,
                ) as nat / pow2(k2 as nat)) % pow2((k3 - k2) as nat),
            forall|inp: Seq<u64>|
                #[trigger] final(self)@.wval(inp, r.3) as nat == (final(self)@.wval(
                    inp,
                    input,
                ) as nat / pow2(k3 as nat)) % pow2((32 - k3) as nat),
            forall|inp: Seq<u64>|
                final(self)@.wval(inp, input) < WORD_BOUND ==> #[trigger] final(self)@.wval(
                    inp,
                    r.0,
                ) as nat + final(self)@.wval(inp, r.1) as nat * pow2(k1 as nat) + final(self)@.wval(
                    inp,
                    r.2,
                ) as nat * pow2(k2 as nat) + final(self)@.wval(inp, r.3) as nat
                    * pow2(k3 as nat) == final(self)@.wval(inp, input) as nat,
            forall|inp: Seq<u64>, w2: Wire|
                old(self)@.valid_wire(w2) ==> #[trigger] final(self)@.wval(inp, w2) == old(self)@.wval(inp, w2),
    {
        let gate = Split4PartsGate { k1, k2, k3 };
        let idx = self.push_row(Row::Split4 { gate, input });
        let x0 = Wire::Cell { row: idx, col: 0 };
        let x1 = Wire::Cell { row: idx, col: 1 };
        let x2 = Wire::Cell { row: idx, col: 2 };
        let x3 = Wire::Cell { row: idx, col: 3 };
        let ghost g0 = old(self)@;
        let ghost g1 = self@;
        self.range_check(x0, k1);
        self.range_check(x1, k2 - k1);
        self.range_check(x2, k3 - k2);
        self.range_check(x3, 32 - k3);
        proof {
            assert(self@.rows == g1.rows && self@.tables == g1.tables && self@.modulus
                == g1.modulus && self@.n_inputs == g1.n_inputs);
            lemma_pow2_strictly_increases(k1 as nat, 32);
            lemma_pow2_strictly_increases((k2 - k1) as nat, 32);
            lemma_pow2_strictly_increases((k3 - k2) as nat, 32);
            lemma_pow2_strictly_increases((32 - k3) as nat, 32);
            lemma_pow2_pos(k1 as nat);
            lemma_pow2_pos(k2 as nat);
            lemma_pow2_pos(k3 as nat);
            lemma_pow2_pos((k2 - k1) as nat);
            lemma_pow2_pos((k3 - k2) as nat);
            lemma_pow2_pos((32 - k3) as nat);
            lemma2_to64();
            assert forall|inp: Seq<u64>, w2: Wire|
                g0.valid_wire(w2) implies #[trigger] self@.wval(inp, w2) == g0.wval(inp, w2) by {
                assert(self@.wval(inp, w2) == g1.wval(inp, w2));
            }
            assert forall|inp: Seq<u64>|
                #[trigger] self@.wval(inp, x0) as nat == self@.wval(inp, input) as nat % pow2(
                    k1 as nat,
                ) by {
                lemma_split4_cell(g0, g1, gate, input, idx, inp, 0);
                assert(self@.wval(inp, x0) == g1.wval(inp, x0));
                lemma_mod_division_less_than_divisor(
                    g0.wval(inp, input) as int,
                    pow2(k1 as nat) as int,
                );
            }
            assert forall|inp: Seq<u64>|
                #[trigger] self@.wval(inp, x1) as nat == (self@.wval(inp, input) as nat / pow2(
                    k1 as nat,
                )) % pow2((k2 - k1) as nat) by {
                lemma_split4_cell(g0, g1, gate, input, idx, inp, 1);
                assert(self@.wval(inp, x1) == g1.wval(inp, x1));
                lemma_mod_division_less_than_divisor(
                    (g0.wval(inp, input) as nat / pow2(k1 as nat)) as int,
                    pow2((k2 - k1) as nat) as int,
                );
            }
            assert forall|inp: Seq<u64>|
                #[trigger] self@.wval(inp, x2) as nat == (self@.wval(inp, input) as nat / pow2(
                    k2 as nat,
                )) % pow2((k3 - k2) as nat) by {
                lemma_split4_cell(g0, g1, gate, input, idx, inp, 2);
                assert(self@.wval(inp, x2) == g1.wval(inp, x2));
                lemma_mod_division_less_than_divisor(
                    (g0.wval(inp, input) as nat / pow2(k2 as nat)) as int,
                    pow2((k3 - k2) as nat) as int,
                );
            }
            assert forall|inp: Seq<u64>|
                #[trigger] self@.wval(inp, x3) as nat == (self@.wval(inp, input) as nat / pow2(
                    k3 as nat,
                )) % pow2((32 - k3) as nat) by {
                lemma_split4_cell(g0, g1, gate, input, idx, inp, 3);
                assert(self@.wval(inp, x3) == g1.wval(inp, x3));
                lemma_mod_division_less_than_divisor(
                    (g0.wval(inp, input) as nat / pow2(k3 as nat)) as int,
                    pow2((32 - k3) as nat) as int,
                );
            }
            assert forall|inp: Seq<u64>|
                self@.wval(inp, input) < WORD_BOUND implies #[trigger] self@.wval(
                inp,
                x0,
            ) as nat + self@.wval(inp, x1) as nat * pow2(k1 as nat) + self@.wval(inp, x2) as nat
                * pow2(k2 as nat) + self@.wval(inp, x3) as nat * pow2(k3 as nat) == self@.wval(
                inp,
                input,
            ) as nat by {
                lemma_split4_reconstruct(
                    self@.wval(inp, input) as nat,
                    k1 as nat,
                    k2 as nat,
                    k3 as nat,
                );
            }
        }
        (x0, x1, x2, x3)
    }

    /// Appends a 16-bit split of `input`: low half `x mod 2^16`, high half
    /// `x div 2^16`, recombining to `x`.  The halves are not range-checked
    /// here; this library's own use bounds them through downstream lookups.
    pub fn add_u32_split_u16(&mut self, input: Wire) -> (r: (Wire, Wire))
        requires
            old(self)@.wf(),
            old(self)@.valid_wire(input),
            old(self)@.rows.len() < 0xFFFF_FF00,
        ensures
            final(self)@.wf(),
            final(self)@.extends(old(self)@),
            final(self)@.valid_wire(r.0),
            final(self)@.valid_wire(r.1),
            final(self)@.rows == old(self)@.rows.push(
                Row::SplitU16 { gate: SplitU16Gate {  }, input },
            ),
            final(self)@.connects == old(self)@.connects,
            forall|inp: Seq<u64>|
                #[trigger] final(self)@.wval(inp, r.0) as nat == final(self)@.wval(
                    inp,
                    input,
                ) as nat % pow2(16) && final(self)@.wval(inp, r.0) < 0x10000,
            forall|inp: Seq<u64>|
                #[trigger] final(self)@.wval(inp, r.1) as nat == final(self)@.wval(
                    inp,
                    input,
                ) as nat / pow2(16),
            forall|inp: Seq<u64>|
                #[trigger] final(self)@.wval(inp, r.0) as nat + final(self)@.wval(inp, r.1) as nat
                    * pow2(16) == final(self)@.wval(inp, input) as nat,
            forall|inp: Seq<u64>|
                final(self)@.wval(inp, input) < WORD_BOUND ==> #[trigger] final(self)@.wval(
                    inp,
                    r.1,
                ) < 0x10000,
            forall|inp: Seq<u64>, w2: Wire|
                old(self)@.valid_wire(w2) ==> #[trigger] final(self)@.wval(inp, w2) == old(self)@.wval(inp, w2),
    {
        let ghost g0 = old(self)@;
        let gate = SplitU16Gate {};
        let idx = self.push_row(Row::SplitU16 { gate, input });
        let lo = Wire::Cell { row: idx, col: 0 };
        let hi = Wire::Cell { row: idx, col: 1 };
        proof {
            lemma2_to64();
            lemma_pow2_pos(16);
            assert forall|inp: Seq<u64>|
                #[trigger] self@.wval(inp, lo) as nat == self@.wval(inp, input) as nat % pow2(16)
                    && self@.wval(inp, lo) < 0x10000 by {
                lemma_u16_cell(g0, self@, gate, input, idx, inp);
                lemma_mod_division_less_than_divisor(g0.wval(inp, input) as int, pow2(16) as int);
            }
            assert forall|inp: Seq<u64>|
                #[trigger] self@.wval(inp, hi) as nat == self@.wval(inp, input) as nat / pow2(
                    16,
                ) by {
                lemma_u16_cell(g0, self@, gate, input, idx, inp);
            }
            assert forall|inp: Seq<u64>|
                #[trigger] self@.wval(inp, lo) as nat + self@.wval(inp, hi) as nat * pow2(16)
                    == self@.wval(inp, input) as nat by {
                lemma_u16_cell(g0, self@, gate, input, idx, inp);
                lemma_mod_division_less_than_divisor(g0.wval(inp, input) as int, pow2(16) as int);
                lemma_fundamental_div_mod(g0.wval(inp, input) as int, pow2(16) as int);
            }
            assert forall|inp: Seq<u64>|
                self@.wval(inp, input) < WORD_BOUND implies #[trigger] self@.wval(inp, hi)
                    < 0x10000 by {
                lemma_u16_cell(g0, self@, gate, input, idx, inp);
                lemma_pow2_adds(16, 16);
                lemma_multiply_divide_lt(g0.wval(inp, input) as int, pow2(16) as int, pow2(16) as int);
            }
        }
        (lo, hi)
    }

    /// Appends a nibble split of `input`: its eight 4-bit slices, LSB first.
    /// As with the four-part split, per-nibble width is not enforced by the
    /// identity; callers that need it add range checks.
    pub fn add_u32_split_nibbles(&mut self, input: Wire) -> (r: Vec<Wire>)
        requires
            old(self)@.wf(),
            old(self)@.valid_wire(input),
            old(self)@.rows.len() < 0xFFFF_FF00,
        ensures
            final(self)@.wf(),
            final(self)@.extends(old(self)@),
            final(self)@.rows == old(self)@.rows.push(
                Row::Nibble { gate: NibbleSplitGate {  }, input },
            ),
            r@.len() == 8,
            forall|i: int|
                0 <= i < 8 ==> #[trigger] r@[i] == (Wire::Cell {
                    row: old(self)@.rows.len() as usize,
                    col: i as usize,
                }) && final(self)@.valid_wire(r@[i]),
            forall|inp: Seq<u64>, i: int|
                0 <= i < 8 ==> #[trigger] final(self)@.wval(inp, r@[i]) == nibble_outputs(
                    final(self)@.wval(inp, input),
                )[i],
            forall|inp: Seq<u64>, w2: Wire|
                old(self)@.valid_wire(w2) ==> #[trigger] final(self)@.wval(inp, w2) == old(self)@.wval(inp, w2),
    {
        let ghost g0 = old(self)@;
        let gate = NibbleSplitGate {};
        let idx = self.push_row(Row::Nibble { gate, input });
        let mut r: Vec<Wire> = Vec::new();
        let mut col: usize = 0;
        while col < 8
            invariant
                col <= 8,
                r@.len() == col,
                forall|i: int|
                    0 <= i < col ==> #[trigger] r@[i] == (Wire::Cell { row: idx, col: i as usize }),
            decreases 8 - col,
        {
            r.push(Wire::Cell { row: idx, col });
            col = col + 1;
        }
        proof {
            assert forall|inp: Seq<u64>, i: int|
                0 <= i < 8 implies #[trigger] self@.wval(inp, r@[i]) == nibble_outputs(
                self@.wval(inp, input),
            )[i] by {
                let w = Wire::Cell { row: idx, col: i as usize };
                assert(r@[i] == w);
                assert(self@.wval(inp, w) == row_outputs(
                    Row::Nibble { gate, input },
                    g0.tables,
                    g0.modulus,
                    inp,
                    g0.witness_of(inp),
                )[i]);
                assert(wire_value(input, inp, g0.witness_of(inp)) == g0.wval(inp, input));
            }
        }
        r
    }

    /// Appends a spread split of `input`: the even and odd bit streams of its
    /// low 16 bits, in spread form, with the packed bytes bound to them
    /// through the named lookup table.  The `x = even + 2·odd` constraint
    /// only recombines the streams; their spread shape is certified by the
    /// two table lookups.
    pub fn add_u32_split_u8_spread(&mut self, input: Wire, table_idx: usize) -> (r: (Wire, Wire))
        requires
            old(self)@.wf(),
            old(self)@.valid_wire(input),
            old(self)@.rows.len() < 0xFFFF_FF00,
            table_idx < old(self)@.tables.len(),
        ensures
            final(self)@.wf(),
            final(self)@.extends(old(self)@),
            final(self)@.valid_wire(r.0),
            final(self)@.valid_wire(r.1),
            final(self)@.rows.len() == old(self)@.rows.len() + 3,
            final(self)@.rows == old(self)@.rows + seq![
                Row::U8Spread { gate: SplitU8SpreadGate { table_idx }, input },
                Row::Lookup {
                    input: Wire::Cell { row: old(self)@.rows.len() as usize, col: 2 },
                    table_idx,
                },
                Row::Lookup {
                    input: Wire::Cell { row: old(self)@.rows.len() as usize, col: 3 },
                    table_idx,
                },
            ],
            final(self)@.connects == old(self)@.connects + seq![
                (
                    Wire::Cell { row: (old(self)@.rows.len() + 1) as usize, col: 0 },
                    Wire::Cell { row: old(self)@.rows.len() as usize, col: 0 },
                ),
                (
                    Wire::Cell { row: (old(self)@.rows.len() + 2) as usize, col: 0 },
                    Wire::Cell { row: old(self)@.rows.len() as usize, col: 1 },
                ),
            ],
            r.0 == (Wire::Cell { row: old(self)@.rows.len() as usize, col: 0 }),
            r.1 == (Wire::Cell { row: old(self)@.rows.len() as usize, col: 1 }),
            forall|inp: Seq<u64>|
                #[trigger] final(self)@.wval(inp, r.0) as nat == spread8(
                    even_byte(final(self)@.wval(inp, input) as nat),
                ) && final(self)@.wval(inp, r.0) <= SPREAD_ONES,
            forall|inp: Seq<u64>|
                #[trigger] final(self)@.wval(inp, r.1) as nat == spread8(
                    odd_byte(final(self)@.wval(inp, input) as nat),
                ) && final(self)@.wval(inp, r.1) <= SPREAD_ONES,
            forall|inp: Seq<u64>, w2: Wire|
                old(self)@.valid_wire(w2) ==> #[trigger] final(self)@.wval(inp, w2) == old(self)@.wval(inp, w2),
    {
        let ghost g0 = old(self)@;
        let gate = SplitU8SpreadGate { table_idx };
        let idx = self.push_row(Row::U8Spread { gate, input });
        let even = Wire::Cell { row: idx, col: 0 };
        let odd = Wire::Cell { row: idx, col: 1 };
        let even_u8 = Wire::Cell { row: idx, col: 2 };
        let odd_u8 = Wire::Cell { row: idx, col: 3 };
        let ghost g1 = self@;
        let even_lookup = self.add_lookup_from_index(even_u8, table_idx);
        let ghost g2 = self@;
        let odd_lookup = self.add_lookup_from_index(odd_u8, table_idx);
        let ghost g3 = self@;
        self.connect(even_lookup, even);
        self.connect(odd_lookup, odd);
        proof {
            assert(self@.rows == g3.rows && self@.tables == g3.tables && self@.modulus
                == g3.modulus && self@.n_inputs == g3.n_inputs);
            assert(g1.valid_wire(even) && g1.valid_wire(odd));
            assert(self@.rows =~= g0.rows + seq![
                Row::U8Spread { gate, input },
                Row::Lookup { input: even_u8, table_idx },
                Row::Lookup { input: odd_u8, table_idx },
            ]);
            assert(self@.connects =~= g0.connects + seq![
                (even_lookup, even),
                (odd_lookup, odd),
            ]);
            assert forall|inp: Seq<u64>, w2: Wire|
                g0.valid_wire(w2) implies #[trigger] self@.wval(inp, w2) == g0.wval(inp, w2) by {
                assert(g2.wval(inp, w2) == g1.wval(inp, w2));
                assert(g3.wval(inp, w2) == g2.wval(inp, w2));
                assert(self@.wval(inp, w2) == g3.wval(inp, w2));
            }
            assert forall|inp: Seq<u64>|
                #[trigger] self@.wval(inp, even) as nat == spread8(
                    even_byte(self@.wval(inp, input) as nat),
                ) && self@.wval(inp, even) <= SPREAD_ONES by {
                lemma_u8_spread_cells(g0, g1, gate, input, idx, inp);
                assert(g2.wval(inp, even) == g1.wval(inp, even));
                assert(g2.valid_wire(even));
                assert(g3.wval(inp, even) == g2.wval(inp, even));
                assert(self@.wval(inp, even) == g3.wval(inp, even));
                assert(self@.wval(inp, input) == g0.wval(inp, input));
                lemma_spread8_bound(even_byte(g0.wval(inp, input) as nat));
            }
            assert forall|inp: Seq<u64>|
                #[trigger] self@.wval(inp, odd) as nat == spread8(
                    odd_byte(self@.wval(inp, input) as nat),
                ) && self@.wval(inp, odd) <= SPREAD_ONES by {
                lemma_u8_spread_cells(g0, g1, gate, input, idx, inp);
                assert(g2.wval(inp, odd) == g1.wval(inp, odd));
                assert(g2.valid_wire(odd));
                assert(g3.wval(inp, odd) == g2.wval(inp, odd));
                assert(self@.wval(inp, odd) == g3.wval(inp, odd));
                assert(self@.wval(inp, input) == g0.wval(inp, input));
                lemma_spread8_bound(odd_byte(g0.wval(inp, input) as nat));
            }
        }
        (even, odd)
    }
}

/// The cell values a freshly pushed four-part split row takes.
proof fn lemma_split4_cell(
    g0: CircuitView,
    g1: CircuitView,
    gate: Split4PartsGate,
    input: Wire,
    idx: usize,
    inp: Seq<u64>,
    col: usize,
)
    requires
        g1.rows == g0.rows.push(Row::Split4 { gate, input }),
        g1.tables == g0.tables,
        g1.modulus == g0.modulus,
        g1.n_inputs == g0.n_inputs,
        idx == g0.rows.len(),
        col < 4,
        forall|i: Seq<u64>, c: usize|
            c < 4 ==> #[trigger] g1.wval(i, Wire::Cell { row: idx, col: c }) == row_outputs(
                Row::Split4 { gate, input },
                g0.tables,
                g0.modulus,
                i,
                g0.witness_of(i),
            )[c as int],
        forall|i: Seq<u64>, w: Wire|
            g0.valid_wire(w) ==> #[trigger] g1.wval(i, w) == g0.wval(i, w),
    ensures
        g1.wval(inp, Wire::Cell { row: idx, col }) == split4_outputs(
            g0.wval(inp, input),
            gate.k1 as nat,
            gate.k2 as nat,
            gate.k3 as nat,
        )[col as int],
{
    assert(g1.wval(inp, Wire::Cell { row: idx, col }) == row_outputs(
        Row::Split4 { gate, input },
        g0.tables,
        g0.modulus,
        inp,
        g0.witness_of(inp),
    )[col as int]);
    assert(wire_value(input, inp, g0.witness_of(inp)) == g0.wval(inp, input));
}

/// The cell values a freshly pushed 16-bit split row takes, transported to
/// any circuit with the same rows.
proof fn lemma_u16_cell(
    g0: CircuitView,
    g1: CircuitView,
    gate: SplitU16Gate,
    input: Wire,
    idx: usize,
    inp: Seq<u64>,
)
    requires
        g1.rows == g0.rows.push(Row::SplitU16 { gate, input }),
        g1.tables == g0.tables,
        g1.modulus == g0.modulus,
        g1.n_inputs == g0.n_inputs,
        idx == g0.rows.len(),
        forall|i: Seq<u64>, c: usize|
            c < 2 ==> #[trigger] g1.wval(i, Wire::Cell { row: idx, col: c }) == row_outputs(
                Row::SplitU16 { gate, input },
                g0.tables,
                g0.modulus,
                i,
                g0.witness_of(i),
            )[c as int],
        forall|i: Seq<u64>, w: Wire|
            g0.valid_wire(w) ==> #[trigger] g1.wval(i, w) == g0.wval(i, w),
    ensures
        g1.wval(inp, Wire::Cell { row: idx, col: 0 }) == u16_outputs(g0.wval(inp, input))[0],
        g1.wval(inp, Wire::Cell { row: idx, col: 1 }) == u16_outputs(g0.wval(inp, input))[1],
{
    assert(g1.wval(inp, Wire::Cell { row: idx, col: 0 }) == row_outputs(
        Row::SplitU16 { gate, input },
        g0.tables,
        g0.modulus,
        inp,
        g0.witness_of(inp),
    )[0]);
    assert(g1.wval(inp, Wire::Cell { row: idx, col: 1 }) == row_outputs(
        Row::SplitU16 { gate, input },
        g0.tables,
        g0.modulus,
        inp,
        g0.witness_of(inp),
    )[1]);
    assert(wire_value(input, inp, g0.witness_of(inp)) == g0.wval(inp, input));
}

/// The cell values a freshly pushed spread split row takes.
proof fn lemma_u8_spread_cells(
    g0: CircuitView,
    g1: CircuitView,
    gate: SplitU8SpreadGate,
    input: Wire,
    idx: usize,
    inp: Seq<u64>,
)
    requires
        g1.rows == g0.rows.push(Row::U8Spread { gate, input }),
        g1.tables == g0.tables,
        g1.modulus == g0.modulus,
        g1.n_inputs == g0.n_inputs,
        idx == g0.rows.len(),
        forall|i: Seq<u64>, c: usize|
            c < 4 ==> #[trigger] g1.wval(i, Wire::Cell { row: idx, col: c }) == row_outputs(
                Row::U8Spread { gate, input },
                g0.tables,
                g0.modulus,
                i,
                g0.witness_of(i),
            )[c as int],
        forall|i: Seq<u64>, w: Wire|
            g0.valid_wire(w) ==> #[trigger] g1.wval(i, w) == g0.wval(i, w),
    ensures
        g1.wval(inp, Wire::Cell { row: idx, col: 0 }) as nat == spread8(
            even_byte(g0.wval(inp, input) as nat),
        ),
        g1.wval(inp, Wire::Cell { row: idx, col: 1 }) as nat == spread8(
            odd_byte(g0.wval(inp, input) as nat),
        ),
{
    assert(g1.wval(inp, Wire::Cell { row: idx, col: 0 }) == row_outputs(
        Row::U8Spread { gate, input },
        g0.tables,
        g0.modulus,
        inp,
        g0.witness_of(inp),
    )[0]);
    assert(g1.wval(inp, Wire::Cell { row: idx, col: 1 }) == row_outputs(
        Row::U8Spread { gate, input },
        g0.tables,
        g0.modulus,
        inp,
        g0.witness_of(inp),
    )[1]);
    assert(wire_value(input, inp, g0.witness_of(inp)) == g0.wval(inp, input));
    lemma_spread8_bound(even_byte(g0.wval(inp, input) as nat));
    lemma_spread8_bound(odd_byte(g0.wval(inp, input) as nat));
}

/// Per-half XOR pipeline on three 16-bit operands: decompose each into
/// spread bit streams, add the streams, and read the parity of each lane
/// back through one more spread split.
#[verifier::rlimit(100)]
fn xor3_u16_by_spread(
    builder: &mut U32SplitCircuitBuilder,
    a: Wire,
    b: Wire,
    c: Wire,
    table_idx: usize,
) -> (res: Wire)
    requires
        old(builder)@.wf(),
        old(builder)@.valid_wire(a),
        old(builder)@.valid_wire(b),
        old(builder)@.valid_wire(c),
        old(builder)@.rows.len() < 0xFFFF_0000,
        table_idx < old(builder)@.tables.len(),
    ensures
        final(builder)@.wf(),
        final(builder)@.extends(old(builder)@),
        final(builder)@.valid_wire(res),
        final(builder)@.rows.len() <= old(builder)@.rows.len() + 32,
        forall|inp: Seq<u64>, w2: Wire|
            old(builder)@.valid_wire(w2) ==> #[trigger] final(builder)@.wval(inp, w2) == old(builder)@.wval(inp, w2),
        forall|inp: Seq<u64>|
            (final(builder)@.wval(inp, a) < 0x10000 && final(builder)@.wval(inp, b) < 0x10000
                && final(builder)@.wval(inp, c) < 0x10000) ==> #[trigger] final(builder)@.wval(
                inp,
                res,
            ) == (final(builder)@.wval(inp, a) ^ final(builder)@.wval(inp, b) ^ final(builder)@.wval(inp, c)) && final(builder)@.wval(inp, res) < 0x10000,
{
    let ghost g0 = builder@;
    let (a_even, a_odd) = builder.add_u32_split_u8_spread(a, table_idx);
    let ghost g1 = builder@;
    let (b_even, b_odd) = builder.add_u32_split_u8_spread(b, table_idx);
    let ghost g2 = builder@;
    let (c_even, c_odd) = builder.add_u32_split_u8_spread(c, table_idx);
    let ghost g3 = builder@;
    let even = builder.add_many3(a_even, b_even, c_even);
    let ghost g4 = builder@;
    let odd = builder.add_many3(a_odd, b_odd, c_odd);
    let ghost g5 = builder@;
    let (even_even, _even_odd) = builder.add_u32_split_u8_spread(even, table_idx);
    let ghost g6 = builder@;
    let (odd_even, _odd_odd) = builder.add_u32_split_u8_spread(odd, table_idx);
    let ghost g7 = builder@;
    let res = builder.add_many3(odd_even, odd_even, even_even);
    proof {
        let g8 = builder@;
        lemma_extends_trans(g0, g1, g2);
        lemma_extends_trans(g0, g2, g3);
        lemma_extends_trans(g1, g2, g3);
        lemma_extends_trans(g1, g3, g4);
        lemma_extends_trans(g2, g3, g4);
        lemma_extends_trans(g1, g4, g5);
        lemma_extends_trans(g2, g4, g5);
        lemma_extends_trans(g3, g4, g5);
        lemma_extends_trans(g4, g5, g6);
        lemma_extends_trans(g5, g6, g7);
        lemma_extends_trans(g6, g7, g8);
        lemma_extends_trans(g5, g6, g8);
        lemma_extends_trans(g4, g5, g8);
        lemma_extends_trans(g3, g4, g8);
        lemma_extends_trans(g2, g3, g8);
        lemma_extends_trans(g1, g2, g8);
        lemma_extends_trans(g0, g1, g8);
        assert forall|inp: Seq<u64>, w2: Wire|
            g0.valid_wire(w2) implies #[trigger] g8.wval(inp, w2) == g0.wval(inp, w2) by {
            lemma_wval_extends(g0, g8, inp, w2);
        }
        assert forall|inp: Seq<u64>|
            (g8.wval(inp, a) < 0x10000 && g8.wval(inp, b) < 0x10000 && g8.wval(inp, c) < 0x10000)
                implies #[trigger] g8.wval(inp, res) == (g8.wval(inp, a) ^ g8.wval(inp, b)
                ^ g8.wval(inp, c)) && g8.wval(inp, res) < 0x10000 by {
            lemma_wval_extends(g0, g8, inp, a);
            lemma_wval_extends(g0, g8, inp, b);
            lemma_wval_extends(g0, g8, inp, c);
            lemma_wval_extends(g0, g1, inp, a);
            lemma_wval_extends(g0, g2, inp, b);
            lemma_wval_extends(g0, g3, inp, c);
            lemma_wval_extends(g1, g4, inp, a_even);
            lemma_wval_extends(g2, g4, inp, b_even);
            lemma_wval_extends(g3, g4, inp, c_even);
            lemma_wval_extends(g1, g5, inp, a_odd);
            lemma_wval_extends(g2, g5, inp, b_odd);
            lemma_wval_extends(g3, g5, inp, c_odd);
            lemma_wval_extends(g1, g8, inp, a_even);
            lemma_wval_extends(g2, g8, inp, b_even);
            lemma_wval_extends(g3, g8, inp, c_even);
            lemma_wval_extends(g1, g8, inp, a_odd);
            lemma_wval_extends(g2, g8, inp, b_odd);
            lemma_wval_extends(g3, g8, inp, c_odd);
            lemma_wval_extends(g4, g6, inp, even);
            lemma_wval_extends(g5, g7, inp, odd);
            lemma_wval_extends(g4, g8, inp, even);
            lemma_wval_extends(g5, g8, inp, odd);
            lemma_wval_extends(g6, g8, inp, even_even);
            lemma_wval_extends(g7, g8, inp, odd_even);
            let m: u64 = g8.modulus;
            let va = g8.wval(inp, a);
            let vb = g8.wval(inp, b);
            let vc = g8.wval(inp, c);
            lemma_packed_byte_bound(va as nat);
            lemma_packed_byte_bound(vb as nat);
            lemma_packed_byte_bound(vc as nat);
            let ea: u64 = even_byte(va as nat) as u64;
            let eb: u64 = even_byte(vb as nat) as u64;
            let ec: u64 = even_byte(vc as nat) as u64;
            let oa: u64 = odd_byte(va as nat) as u64;
            let ob: u64 = odd_byte(vb as nat) as u64;
            let oc: u64 = odd_byte(vc as nat) as u64;
            lemma_spread8_bound(ea as nat);
            lemma_spread8_bound(eb as nat);
            lemma_spread8_bound(ec as nat);
            lemma_spread8_bound(oa as nat);
            lemma_spread8_bound(ob as nat);
            lemma_spread8_bound(oc as nat);
            // the two lane sums are exact: no reduction occurs
            assert(g8.wval(inp, even) as nat == spread8(ea as nat) + spread8(eb as nat) + spread8(
                ec as nat,
            )) by {
                lemma_small_mod(
                    (spread8(ea as nat) + spread8(eb as nat) + spread8(ec as nat)) as nat,
                    m as nat,
                );
            }
            assert(g8.wval(inp, odd) as nat == spread8(oa as nat) + spread8(ob as nat) + spread8(
                oc as nat,
            )) by {
                lemma_small_mod(
                    (spread8(oa as nat) + spread8(ob as nat) + spread8(oc as nat)) as nat,
                    m as nat,
                );
            }
            lemma_spread3_sum(ea, eb, ec);
            lemma_spread3_sum(oa, ob, oc);
            assert(g8.wval(inp, even_even) as nat == spread8((ea ^ eb ^ ec) as nat));
            assert(g8.wval(inp, odd_even) as nat == spread8((oa ^ ob ^ oc) as nat));
            lemma_spread8_bound((ea ^ eb ^ ec) as nat);
            lemma_spread8_bound((oa ^ ob ^ oc) as nat);
            assert(g8.wval(inp, res) as nat == spread8((ea ^ eb ^ ec) as nat) + 2 * spread8(
                (oa ^ ob ^ oc) as nat,
            )) by {
                lemma_small_mod(
                    (spread8((ea ^ eb ^ ec) as nat) + 2 * spread8((oa ^ ob ^ oc) as nat)) as nat,
                    m as nat,
                );
            }
            lemma_xor3_bytes16(va, vb, vc);
            lemma2_to64();
            lemma_even_odd_split((va ^ vb ^ vc) as nat);
        }
    }
    res
}

/// Three-operand XOR of 32-bit words: split each operand into 16-bit halves,
/// run each half through the spread pipeline, and recombine as
/// `hi·2^16 + lo`.  On 32-bit operands the result wire carries their
/// bitwise XOR.
pub fn xor3_u32_by_spread(
    builder: &mut U32SplitCircuitBuilder,
    a: Wire,
    b: Wire,
    c: Wire,
    table_idx: usize,
) -> (res: Wire)
    requires
        old(builder)@.wf(),
        old(builder)@.valid_wire(a),
        old(builder)@.valid_wire(b),
        old(builder)@.valid_wire(c),
        old(builder)@.rows.len() < 0xFFF0_0000,
        table_idx < old(builder)@.tables.len(),
    ensures
        final(builder)@.wf(),
        final(builder)@.extends(old(builder)@),
        final(builder)@.valid_wire(res),
        forall|inp: Seq<u64>, w2: Wire|
            old(builder)@.valid_wire(w2) ==> #[trigger] final(builder)@.wval(inp, w2) == old(builder)@.wval(inp, w2),
        forall|inp: Seq<u64>|
            (final(builder)@.wval(inp, a) < WORD_BOUND && final(builder)@.wval(inp, b) < WORD_BOUND
                && final(builder)@.wval(inp, c) < WORD_BOUND) ==> #[trigger] final(builder)@.wval(
                inp,
                res,
            ) == (final(builder)@.wval(inp, a) ^ final(builder)@.wval(inp, b) ^ final(builder)@.wval(inp, c)) && final(builder)@.wval(inp, res) < WORD_BOUND,
{
    let ghost g0 = builder@;
    let (a_lo, a_hi) = builder.add_u32_split_u16(a);
    let ghost g1 = builder@;
    let (b_lo, b_hi) = builder.add_u32_split_u16(b);
    let ghost g2 = builder@;
    let (c_lo, c_hi) = builder.add_u32_split_u16(c);
    let ghost g3 = builder@;
    let res_lo = xor3_u16_by_spread(builder, a_lo, b_lo, c_lo, table_idx);
    let ghost g4 = builder@;
    let res_hi = xor3_u16_by_spread(builder, a_hi, b_hi, c_hi, table_idx);
    let ghost g5 = builder@;
    let po16 = builder.constant(0x10000);
    let ghost g6 = builder@;
    let res = builder.mul_add(res_hi, po16, res_lo);
    proof {
        let g7 = builder@;
        lemma_extends_trans(g0, g1, g2);
        lemma_extends_trans(g0, g2, g3);
        lemma_extends_trans(g1, g2, g3);
        lemma_extends_trans(g1, g3, g4);
        lemma_extends_trans(g2, g3, g4);
        lemma_extends_trans(g3, g4, g5);
        lemma_extends_trans(g2, g3, g5);
        lemma_extends_trans(g1, g2, g5);
        lemma_extends_trans(g5, g6, g7);
        lemma_extends_trans(g4, g5, g7);
        lemma_extends_trans(g3, g4, g7);
        lemma_extends_trans(g2, g3, g7);
        lemma_extends_trans(g1, g2, g7);
        lemma_extends_trans(g0, g1, g7);
        assert forall|inp: Seq<u64>, w2: Wire|
            g0.valid_wire(w2) implies #[trigger] g7.wval(inp, w2) == g0.wval(inp, w2) by {
            lemma_wval_extends(g0, g7, inp, w2);
        }
        assert forall|inp: Seq<u64>|
            (g7.wval(inp, a) < WORD_BOUND && g7.wval(inp, b) < WORD_BOUND && g7.wval(inp, c)
                < WORD_BOUND) implies #[trigger] g7.wval(inp, res) == (g7.wval(inp, a) ^ g7.wval(
                inp,
                b,
            ) ^ g7.wval(inp, c)) && g7.wval(inp, res) < WORD_BOUND by {
            lemma_wval_extends(g0, g7, inp, a);
            lemma_wval_extends(g0, g7, inp, b);
            lemma_wval_extends(g0, g7, inp, c);
            lemma_wval_extends(g0, g1, inp, a);
            lemma_wval_extends(g1, g2, inp, b);
            lemma_wval_extends(g0, g2, inp, b);
            lemma_wval_extends(g0, g3, inp, c);
            lemma_wval_extends(g1, g3, inp, a_lo);
            lemma_wval_extends(g1, g3, inp, a_hi);
            lemma_wval_extends(g2, g3, inp, b_lo);
            lemma_wval_extends(g2, g3, inp, b_hi);
            lemma_wval_extends(g1, g4, inp, a_hi);
            lemma_wval_extends(g2, g4, inp, b_hi);
            lemma_wval_extends(g3, g4, inp, c_hi);
            lemma_wval_extends(g1, g7, inp, a_lo);
            lemma_wval_extends(g1, g7, inp, a_hi);
            lemma_wval_extends(g2, g7, inp, b_lo);
            lemma_wval_extends(g2, g7, inp, b_hi);
            lemma_wval_extends(g3, g7, inp, c_lo);
            lemma_wval_extends(g3, g7, inp, c_hi);
            lemma_wval_extends(g4, g7, inp, res_lo);
            lemma_wval_extends(g4, g5, inp, res_lo);
            lemma_wval_extends(g5, g7, inp, res_hi);
            let m: u64 = g7.modulus;
            let va = g7.wval(inp, a);
            let vb = g7.wval(inp, b);
            let vc = g7.wval(inp, c);
            lemma2_to64();
            lemma_xor3_u32_combine(va, vb, vc);
            assert(g7.wval(inp, a_lo) == va % 0x10000 && g7.wval(inp, a_hi) == va / 0x10000);
            assert(g7.wval(inp, b_lo) == vb % 0x10000 && g7.wval(inp, b_hi) == vb / 0x10000);
            assert(g7.wval(inp, c_lo) == vc % 0x10000 && g7.wval(inp, c_hi) == vc / 0x10000);
            assert(g7.wval(inp, res_lo) == ((va % 0x10000) ^ (vb % 0x10000) ^ (vc % 0x10000)));
            assert(g7.wval(inp, res_hi) == ((va / 0x10000) ^ (vb / 0x10000) ^ (vc / 0x10000)));
            assert(g7.wval(inp, po16) == 0x10000);
            assert(g7.wval(inp, res) as nat == (g7.wval(inp, res_hi) as nat * 0x10000
                + g7.wval(inp, res_lo) as nat) % m as nat);
            lemma_small_mod(
                (g7.wval(inp, res_hi) as nat * 0x10000 + g7.wval(inp, res_lo) as nat) as nat,
                m as nat,
            );
        }
    }
    res
}

/// Per-half majority pipeline: identical wiring to the XOR pipeline, but
/// reading each lane's carry instead of its parity.
#[verifier::rlimit(100)]
fn maj_u16_by_spread(
    builder: &mut U32SplitCircuitBuilder,
    a: Wire,
    b: Wire,
    c: Wire,
    table_idx: usize,
) -> (res: Wire)
    requires
        old(builder)@.wf(),
        old(builder)@.valid_wire(a),
        old(builder)@.valid_wire(b),
        old(builder)@.valid_wire(c),
        old(builder)@.rows.len() < 0xFFFF_0000,
        table_idx < old(builder)@.tables.len(),
    ensures
        final(builder)@.wf(),
        final(builder)@.extends(old(builder)@),
        final(builder)@.valid_wire(res),
        final(builder)@.rows.len() <= old(builder)@.rows.len() + 32,
        forall|inp: Seq<u64>, w2: Wire|
            old(builder)@.valid_wire(w2) ==> #[trigger] final(builder)@.wval(inp, w2) == old(builder)@.wval(inp, w2),
        forall|inp: Seq<u64>|
            (final(builder)@.wval(inp, a) < 0x10000 && final(builder)@.wval(inp, b) < 0x10000
                && final(builder)@.wval(inp, c) < 0x10000) ==> #[trigger] final(builder)@.wval(
                inp,
                res,
            ) == ((final(builder)@.wval(inp, a) & final(builder)@.wval(inp, b)) | (final(builder)@.wval(
                inp,
                a,
            ) & final(builder)@.wval(inp, c)) | (final(builder)@.wval(inp, b) & final(builder)@.wval(
                inp,
                c,
            ))) && final(builder)@.wval(inp, res) < 0x10000,
{
    let ghost g0 = builder@;
    let (a_even, a_odd) = builder.add_u32_split_u8_spread(a, table_idx);
    let ghost g1 = builder@;
    let (b_even, b_odd) = builder.add_u32_split_u8_spread(b, table_idx);
    let ghost g2 = builder@;
    let (c_even, c_odd) = builder.add_u32_split_u8_spread(c, table_idx);
    let ghost g3 = builder@;
    let even = builder.add_many3(a_even, b_even, c_even);
    let ghost g4 = builder@;
    let odd = builder.add_many3(a_odd, b_odd, c_odd);
    let ghost g5 = builder@;
    let (_even_even, even_odd) = builder.add_u32_split_u8_spread(even, table_idx);
    let ghost g6 = builder@;
    let (_odd_even, odd_odd) = builder.add_u32_split_u8_spread(odd, table_idx);
    let ghost g7 = builder@;
    let res = builder.add_many3(odd_odd, odd_odd, even_odd);
    proof {
        let g8 = builder@;
        lemma_extends_trans(g0, g1, g2);
        lemma_extends_trans(g0, g2, g3);
        lemma_extends_trans(g1, g2, g3);
        lemma_extends_trans(g1, g3, g4);
        lemma_extends_trans(g2, g3, g4);
        lemma_extends_trans(g1, g4, g5);
        lemma_extends_trans(g2, g4, g5);
        lemma_extends_trans(g3, g4, g5);
        lemma_extends_trans(g4, g5, g6);
        lemma_extends_trans(g5, g6, g7);
        lemma_extends_trans(g6, g7, g8);
        lemma_extends_trans(g5, g6, g8);
        lemma_extends_trans(g4, g5, g8);
        lemma_extends_trans(g3, g4, g8);
        lemma_extends_trans(g2, g3, g8);
        lemma_extends_trans(g1, g2, g8);
        lemma_extends_trans(g0, g1, g8);
        assert forall|inp: Seq<u64>, w2: Wire|
            g0.valid_wire(w2) implies #[trigger] g8.wval(inp, w2) == g0.wval(inp, w2) by {
            lemma_wval_extends(g0, g8, inp, w2);
        }
        assert forall|inp: Seq<u64>|
            (g8.wval(inp, a) < 0x10000 && g8.wval(inp, b) < 0x10000 && g8.wval(inp, c) < 0x10000)
                implies #[trigger] g8.wval(inp, res) == ((g8.wval(inp, a) & g8.wval(inp, b)) | (
            g8.wval(inp, a) & g8.wval(inp, c)) | (g8.wval(inp, b) & g8.wval(inp, c)))
                && g8.wval(inp, res) < 0x10000 by {
            lemma_wval_extends(g0, g8, inp, a);
            lemma_wval_extends(g0, g8, inp, b);
            lemma_wval_extends(g0, g8, inp, c);
            lemma_wval_extends(g0, g1, inp, a);
            lemma_wval_extends(g0, g2, inp, b);
            lemma_wval_extends(g0, g3, inp, c);
            lemma_wval_extends(g1, g4, inp, a_even);
            lemma_wval_extends(g2, g4, inp, b_even);
            lemma_wval_extends(g3, g4, inp, c_even);
            lemma_wval_extends(g1, g5, inp, a_odd);
            lemma_wval_extends(g2, g5, inp, b_odd);
            lemma_wval_extends(g3, g5, inp, c_odd);
            lemma_wval_extends(g1, g8, inp, a_even);
            lemma_wval_extends(g2, g8, inp, b_even);
            lemma_wval_extends(g3, g8, inp, c_even);
            lemma_wval_extends(g1, g8, inp, a_odd);
            lemma_wval_extends(g2, g8, inp, b_odd);
            lemma_wval_extends(g3, g8, inp, c_odd);
            lemma_wval_extends(g4, g6, inp, even);
            lemma_wval_extends(g5, g7, inp, odd);
            lemma_wval_extends(g4, g8, inp, even);
            lemma_wval_extends(g5, g8, inp, odd);
            lemma_wval_extends(g6, g8, inp, even_odd);
            lemma_wval_extends(g7, g8, inp, odd_odd);
            let m: u64 = g8.modulus;
            let va = g8.wval(inp, a);
            let vb = g8.wval(inp, b);
            let vc = g8.wval(inp, c);
            lemma_packed_byte_bound(va as nat);
            lemma_packed_byte_bound(vb as nat);
            lemma_packed_byte_bound(vc as nat);
            let ea: u64 = even_byte(va as nat) as u64;
            let eb: u64 = even_byte(vb as nat) as u64;
            let ec: u64 = even_byte(vc as nat) as u64;
            let oa: u64 = odd_byte(va as nat) as u64;
            let ob: u64 = odd_byte(vb as nat) as u64;
            let oc: u64 = odd_byte(vc as nat) as u64;
            lemma_spread8_bound(ea as nat);
            lemma_spread8_bound(eb as nat);
            lemma_spread8_bound(ec as nat);
            lemma_spread8_bound(oa as nat);
            lemma_spread8_bound(ob as nat);
            lemma_spread8_bound(oc as nat);
            assert(g8.wval(inp, even) as nat == spread8(ea as nat) + spread8(eb as nat) + spread8(
                ec as nat,
            )) by {
                lemma_small_mod(
                    (spread8(ea as nat) + spread8(eb as nat) + spread8(ec as nat)) as nat,
                    m as nat,
                );
            }
            assert(g8.wval(inp, odd) as nat == spread8(oa as nat) + spread8(ob as nat) + spread8(
                oc as nat,
            )) by {
                lemma_small_mod(
                    (spread8(oa as nat) + spread8(ob as nat) + spread8(oc as nat)) as nat,
                    m as nat,
                );
            }
            lemma_spread3_sum(ea, eb, ec);
            lemma_spread3_sum(oa, ob, oc);
            let me: u64 = (ea & eb) | (ea & ec) | (eb & ec);
            let mo: u64 = (oa & ob) | (oa & oc) | (ob & oc);
            assert(g8.wval(inp, even_odd) as nat == spread8(me as nat));
            assert(g8.wval(inp, odd_odd) as nat == spread8(mo as nat));
            lemma_spread8_bound(me as nat);
            lemma_spread8_bound(mo as nat);
            assert(g8.wval(inp, res) as nat == spread8(me as nat) + 2 * spread8(mo as nat)) by {
                lemma_small_mod((spread8(me as nat) + 2 * spread8(mo as nat)) as nat, m as nat);
            }
            lemma_maj3_bytes16(va, vb, vc);
            lemma2_to64();
            lemma_even_odd_split(((va & vb) | (va & vc) | (vb & vc)) as nat);
        }
    }
    res
}

/// Three-operand majority of 32-bit words, by halves through the spread
/// pipeline.
pub fn maj_u32_by_spread(
    builder: &mut U32SplitCircuitBuilder,
    a: Wire,
    b: Wire,
    c: Wire,
    table_idx: usize,
) -> (res: Wire)
    requires
        old(builder)@.wf(),
        old(builder)@.valid_wire(a),
        old(builder)@.valid_wire(b),
        old(builder)@.valid_wire(c),
        old(builder)@.rows.len() < 0xFFF0_0000,
        table_idx < old(builder)@.tables.len(),
    ensures
        final(builder)@.wf(),
        final(builder)@.extends(old(builder)@),
        final(builder)@.valid_wire(res),
        forall|inp: Seq<u64>, w2: Wire|
            old(builder)@.valid_wire(w2) ==> #[trigger] final(builder)@.wval(inp, w2) == old(builder)@.wval(inp, w2),
        forall|inp: Seq<u64>|
            (final(builder)@.wval(inp, a) < WORD_BOUND && final(builder)@.wval(inp, b) < WORD_BOUND
                && final(builder)@.wval(inp, c) < WORD_BOUND) ==> #[trigger] final(builder)@.wval(
                inp,
                res,
            ) == ((final(builder)@.wval(inp, a) & final(builder)@.wval(inp, b)) | (final(builder)@.wval(
                inp,
                a,
            ) & final(builder)@.wval(inp, c)) | (final(builder)@.wval(inp, b) & final(builder)@.wval(
                inp,
                c,
            ))) && final(builder)@.wval(inp, res) < WORD_BOUND,
{
    let ghost g0 = builder@;
    let (a_lo, a_hi) = builder.add_u32_split_u16(a);
    let ghost g1 = builder@;
    let (b_lo, b_hi) = builder.add_u32_split_u16(b);
    let ghost g2 = builder@;
    let (c_lo, c_hi) = builder.add_u32_split_u16(c);
    let ghost g3 = builder@;
    let res_lo = maj_u16_by_spread(builder, a_lo, b_lo, c_lo, table_idx);
    let ghost g4 = builder@;
    let res_hi = maj_u16_by_spread(builder, a_hi, b_hi, c_hi, table_idx);
    let ghost g5 = builder@;
    let po16 = builder.constant(0x10000);
    let ghost g6 = builder@;
    let res = builder.mul_add(res_hi, po16, res_lo);
    proof {
        let g7 = builder@;
        lemma_extends_trans(g0, g1, g2);
        lemma_extends_trans(g0, g2, g3);
        lemma_extends_trans(g1, g2, g3);
        lemma_extends_trans(g1, g3, g4);
        lemma_extends_trans(g2, g3, g4);
        lemma_extends_trans(g3, g4, g5);
        lemma_extends_trans(g2, g3, g5);
        lemma_extends_trans(g1, g2, g5);
        lemma_extends_trans(g5, g6, g7);
        lemma_extends_trans(g4, g5, g7);
        lemma_extends_trans(g3, g4, g7);
        lemma_extends_trans(g2, g3, g7);
        lemma_extends_trans(g1, g2, g7);
        lemma_extends_trans(g0, g1, g7);
        assert forall|inp: Seq<u64>, w2: Wire|
            g0.valid_wire(w2) implies #[trigger] g7.wval(inp, w2) == g0.wval(inp, w2) by {
            lemma_wval_extends(g0, g7, inp, w2);
        }
        assert forall|inp: Seq<u64>|
            (g7.wval(inp, a) < WORD_BOUND && g7.wval(inp, b) < WORD_BOUND && g7.wval(inp, c)
                < WORD_BOUND) implies #[trigger] g7.wval(inp, res) == ((g7.wval(inp, a) & g7.wval(
                inp,
                b,
            )) | (g7.wval(inp, a) & g7.wval(inp, c)) | (g7.wval(inp, b) & g7.wval(inp, c)))
                && g7.wval(inp, res) < WORD_BOUND by {
            lemma_wval_extends(g0, g7, inp, a);
            lemma_wval_extends(g0, g7, inp, b);
            lemma_wval_extends(g0, g7, inp, c);
            lemma_wval_extends(g0, g1, inp, a);
            lemma_wval_extends(g0, g2, inp, b);
            lemma_wval_extends(g0, g3, inp, c);
            lemma_wval_extends(g1, g3, inp, a_lo);
            lemma_wval_extends(g1, g3, inp, a_hi);
            lemma_wval_extends(g2, g3, inp, b_lo);
            lemma_wval_extends(g2, g3, inp, b_hi);
            lemma_wval_extends(g1, g4, inp, a_hi);
            lemma_wval_extends(g2, g4, inp, b_hi);
            lemma_wval_extends(g3, g4, inp, c_hi);
            lemma_wval_extends(g1, g7, inp, a_lo);
            lemma_wval_extends(g1, g7, inp, a_hi);
            lemma_wval_extends(g2, g7, inp, b_lo);
            lemma_wval_extends(g2, g7, inp, b_hi);
            lemma_wval_extends(g3, g7, inp, c_lo);
            lemma_wval_extends(g3, g7, inp, c_hi);
            lemma_wval_extends(g4, g7, inp, res_lo);
            lemma_wval_extends(g4, g5, inp, res_lo);
            lemma_wval_extends(g5, g7, inp, res_hi);
            let m: u64 = g7.modulus;
            let va = g7.wval(inp, a);
            let vb = g7.wval(inp, b);
            let vc = g7.wval(inp, c);
            lemma2_to64();
            lemma_maj3_u32_combine(va, vb, vc);
            assert(g7.wval(inp, a_lo) == va % 0x10000 && g7.wval(inp, a_hi) == va / 0x10000);
            assert(g7.wval(inp, b_lo) == vb % 0x10000 && g7.wval(inp, b_hi) == vb / 0x10000);
            assert(g7.wval(inp, c_lo) == vc % 0x10000 && g7.wval(inp, c_hi) == vc / 0x10000);
            assert(va % 0x10000 < 0x10000 && vb % 0x10000 < 0x10000 && vc % 0x10000 < 0x10000
                && va / 0x10000 < 0x10000 && vb / 0x10000 < 0x10000 && vc / 0x10000 < 0x10000);
            assert(g7.wval(inp, res_lo) == (((va % 0x10000) & (vb % 0x10000)) | ((va % 0x10000) & (
            vc % 0x10000)) | ((vb % 0x10000) & (vc % 0x10000))));
            assert(g7.wval(inp, res_hi) == (((va / 0x10000) & (vb / 0x10000)) | ((va / 0x10000) & (
            vc / 0x10000)) | ((vb / 0x10000) & (vc / 0x10000))));
            assert(g7.wval(inp, po16) == 0x10000);
            assert(g7.wval(inp, res) as nat == (g7.wval(inp, res_hi) as nat * 0x10000 + g7.wval(
                inp,
                res_lo,
            ) as nat) % m as nat);
            lemma_small_mod(
                (g7.wval(inp, res_hi) as nat * 0x10000 + g7.wval(inp, res_lo) as nat) as nat,
                m as nat,
            );
        }
    }
    res
}

/// A value that carries one information bit per 2-bit lane, on the even
/// positions, with every odd position clear.
pub open spec fn is_spread_form(v: u64) -> bool {
    v as nat == spread8(even_byte(v as nat))
}

/// Choose on three spread-form operands: `a ? b : c` per lane, computed as
/// the carries of `a+b` and of `(spread8(0xFF)−a)+c`, whose sum is read back
/// through one more spread split.  The result is again in spread form.
#[verifier::rlimit(100)]
fn ch_u8_spread(
    builder: &mut U32SplitCircuitBuilder,
    a: Wire,
    b: Wire,
    c: Wire,
    table_idx: usize,
) -> (res: Wire)
    requires
        old(builder)@.wf(),
        old(builder)@.valid_wire(a),
        old(builder)@.valid_wire(b),
        old(builder)@.valid_wire(c),
        old(builder)@.rows.len() < 0xFFFF_0000,
        table_idx < old(builder)@.tables.len(),
    ensures
        final(builder)@.wf(),
        final(builder)@.extends(old(builder)@),
        final(builder)@.valid_wire(res),
        final(builder)@.rows.len() <= old(builder)@.rows.len() + 16,
        forall|inp: Seq<u64>, w2: Wire|
            old(builder)@.valid_wire(w2) ==> #[trigger] final(builder)@.wval(inp, w2) == old(builder)@.wval(inp, w2),
        forall|inp: Seq<u64>|
            (is_spread_form(final(builder)@.wval(inp, a)) && is_spread_form(
                final(builder)@.wval(inp, b),
            ) && is_spread_form(final(builder)@.wval(inp, c))) ==> #[trigger] final(builder)@.wval(
                inp,
                res,
            ) as nat == spread8(
                (((even_byte(final(builder)@.wval(inp, a) as nat) as u64) & (even_byte(
                    final(builder)@.wval(inp, b) as nat,
                ) as u64)) | (((even_byte(final(builder)@.wval(inp, a) as nat) as u64) ^ 0xFF) & (
                even_byte(final(builder)@.wval(inp, c) as nat) as u64))) as nat,
            ),
{
    let ghost g0 = builder@;
    let spread_full = builder.constant(SPREAD_ONES);
    let ghost g1 = builder@;
    let not_a = builder.sub(spread_full, a);
    let ghost g2 = builder@;
    let a_plus_b = builder.add(a, b);
    let ghost g3 = builder@;
    let not_a_plus_c = builder.add(not_a, c);
    let ghost g4 = builder@;
    let (_ab_even, a_plus_b_odd) = builder.add_u32_split_u8_spread(a_plus_b, table_idx);
    let ghost g5 = builder@;
    let (_nac_even, not_a_plus_c_odd) = builder.add_u32_split_u8_spread(not_a_plus_c, table_idx);
    let ghost g6 = builder@;
    let odd_sum = builder.add(a_plus_b_odd, not_a_plus_c_odd);
    let ghost g7 = builder@;
    let (odd_sum_even, _os_odd) = builder.add_u32_split_u8_spread(odd_sum, table_idx);
    proof {
        let g8 = builder@;
        lemma_extends_trans(g0, g1, g2);
        lemma_extends_trans(g0, g2, g3);
        lemma_extends_trans(g1, g2, g3);
        lemma_extends_trans(g2, g3, g4);
        lemma_extends_trans(g1, g3, g4);
        lemma_extends_trans(g3, g4, g5);
        lemma_extends_trans(g2, g4, g5);
        lemma_extends_trans(g4, g5, g6);
        lemma_extends_trans(g3, g5, g6);
        lemma_extends_trans(g5, g6, g7);
        lemma_extends_trans(g6, g7, g8);
        lemma_extends_trans(g5, g6, g8);
        lemma_extends_trans(g4, g5, g8);
        lemma_extends_trans(g3, g4, g8);
        lemma_extends_trans(g2, g3, g8);
        lemma_extends_trans(g1, g2, g8);
        lemma_extends_trans(g0, g1, g8);
        assert forall|inp: Seq<u64>, w2: Wire|
            g0.valid_wire(w2) implies #[trigger] g8.wval(inp, w2) == g0.wval(inp, w2) by {
            lemma_wval_extends(g0, g8, inp, w2);
        }
        assert forall|inp: Seq<u64>|
            (is_spread_form(g8.wval(inp, a)) && is_spread_form(g8.wval(inp, b)) && is_spread_form(
                g8.wval(inp, c),
            )) implies #[trigger] g8.wval(inp, odd_sum_even) as nat == spread8(
            (((even_byte(g8.wval(inp, a) as nat) as u64) & (even_byte(
                g8.wval(inp, b) as nat,
            ) as u64)) | (((even_byte(g8.wval(inp, a) as nat) as u64) ^ 0xFF) & (even_byte(
                g8.wval(inp, c) as nat,
            ) as u64))) as nat,
        ) by {
            lemma_wval_extends(g0, g8, inp, a);
            lemma_wval_extends(g0, g8, inp, b);
            lemma_wval_extends(g0, g8, inp, c);
            lemma_wval_extends(g0, g2, inp, a);
            lemma_wval_extends(g0, g3, inp, a);
            lemma_wval_extends(g0, g3, inp, b);
            lemma_wval_extends(g0, g4, inp, c);
            lemma_wval_extends(g1, g2, inp, spread_full);
            lemma_wval_extends(g2, g4, inp, not_a);
            lemma_wval_extends(g3, g5, inp, a_plus_b);
            lemma_wval_extends(g4, g6, inp, not_a_plus_c);
            lemma_wval_extends(g5, g7, inp, a_plus_b_odd);
            lemma_wval_extends(g6, g7, inp, not_a_plus_c_odd);
            lemma_wval_extends(g7, g8, inp, odd_sum);
            lemma_wval_extends(g5, g8, inp, a_plus_b_odd);
            lemma_wval_extends(g6, g8, inp, not_a_plus_c_odd);
            lemma_wval_extends(g2, g8, inp, not_a);
            lemma_wval_extends(g3, g8, inp, a_plus_b);
            lemma_wval_extends(g4, g8, inp, not_a_plus_c);
            lemma_wval_extends(g1, g8, inp, spread_full);
            let m: u64 = g8.modulus;
            let sa = g8.wval(inp, a);
            let sb = g8.wval(inp, b);
            let sc = g8.wval(inp, c);
            lemma_packed_byte_bound(sa as nat);
            lemma_packed_byte_bound(sb as nat);
            lemma_packed_byte_bound(sc as nat);
            let u: u64 = even_byte(sa as nat) as u64;
            let v: u64 = even_byte(sb as nat) as u64;
            let w0: u64 = even_byte(sc as nat) as u64;
            // the operands are the spreads of their bytes
            assert(sa as nat == spread8(u as nat));
            assert(sb as nat == spread8(v as nat));
            assert(sc as nat == spread8(w0 as nat));
            lemma_spread8_bound(u as nat);
            lemma_spread8_bound(v as nat);
            lemma_spread8_bound(w0 as nat);
            lemma_complement_spread(u);
            lemma_ch_byte_parts(u, v, w0);
            // not_a holds the spread complement
            assert(g8.wval(inp, not_a) as nat == spread8((u ^ 0xFF) as nat)) by {
                crate::field::lemma_sub_f_exact(SPREAD_ONES as nat, sa as nat, m as nat);
            }
            lemma_spread8_bound((u ^ 0xFF) as nat);
            // the two partial sums are exact
            assert(g8.wval(inp, a_plus_b) as nat == spread8(u as nat) + spread8(v as nat)) by {
                lemma_small_mod((spread8(u as nat) + spread8(v as nat)) as nat, m as nat);
            }
            assert(g8.wval(inp, not_a_plus_c) as nat == spread8((u ^ 0xFF) as nat) + spread8(
                w0 as nat,
            )) by {
                lemma_small_mod(
                    (spread8((u ^ 0xFF) as nat) + spread8(w0 as nat)) as nat,
                    m as nat,
                );
            }
            // their carries are the two conjunctions
            lemma_spread2_sum(u, v);
            lemma_spread2_sum(u ^ 0xFF, w0);
            assert(g8.wval(inp, a_plus_b_odd) as nat == spread8((u & v) as nat));
            assert(g8.wval(inp, not_a_plus_c_odd) as nat == spread8(((u ^ 0xFF) & w0) as nat));
            lemma_spread8_bound((u & v) as nat);
            lemma_spread8_bound(((u ^ 0xFF) & w0) as nat);
            assert(g8.wval(inp, odd_sum) as nat == spread8((u & v) as nat) + spread8(
                ((u ^ 0xFF) & w0) as nat,
            )) by {
                lemma_small_mod(
                    (spread8((u & v) as nat) + spread8(((u ^ 0xFF) & w0) as nat)) as nat,
                    m as nat,
                );
            }
            // the conjunctions are disjoint, so the parity byte is their union
            lemma_spread_disjoint_or(u & v, (u ^ 0xFF) & w0);
        }
    }
    odd_sum_even
}

/// Per-half choose pipeline: decompose each operand into spread bit streams
/// and run choose on the even and odd streams independently.
#[verifier::rlimit(100)]
fn ch_u16_by_spread(
    builder: &mut U32SplitCircuitBuilder,
    a: Wire,
    b: Wire,
    c: Wire,
    table_idx: usize,
) -> (res: Wire)
    requires
        old(builder)@.wf(),
        old(builder)@.valid_wire(a),
        old(builder)@.valid_wire(b),
        old(builder)@.valid_wire(c),
        old(builder)@.rows.len() < 0xFFFE_0000,
        table_idx < old(builder)@.tables.len(),
    ensures
        final(builder)@.wf(),
        final(builder)@.extends(old(builder)@),
        final(builder)@.valid_wire(res),
        final(builder)@.rows.len() <= old(builder)@.rows.len() + 48,
        forall|inp: Seq<u64>, w2: Wire|
            old(builder)@.valid_wire(w2) ==> #[trigger] final(builder)@.wval(inp, w2) == old(builder)@.wval(inp, w2),
        forall|inp: Seq<u64>|
            (final(builder)@.wval(inp, a) < 0x10000 && final(builder)@.wval(inp, b) < 0x10000
                && final(builder)@.wval(inp, c) < 0x10000) ==> #[trigger] final(builder)@.wval(
                inp,
                res,
            ) == ((final(builder)@.wval(inp, a) & final(builder)@.wval(inp, b)) | ((final(builder)@.wval(
                inp,
                a,
            ) ^ 0xFFFF) & final(builder)@.wval(inp, c))) && final(builder)@.wval(inp, res)
                < 0x10000,
{
    let ghost g0 = builder@;
    let (a_even, a_odd) = builder.add_u32_split_u8_spread(a, table_idx);
    let ghost g1 = builder@;
    let (b_even, b_odd) = builder.add_u32_split_u8_spread(b, table_idx);
    let ghost g2 = builder@;
    let (c_even, c_odd) = builder.add_u32_split_u8_spread(c, table_idx);
    let ghost g3 = builder@;
    let res_even = ch_u8_spread(builder, a_even, b_even, c_even, table_idx);
    let ghost g4 = builder@;
    let res_odd = ch_u8_spread(builder, a_odd, b_odd, c_odd, table_idx);
    let ghost g5 = builder@;
    let res = builder.add_many3(res_odd, res_odd, res_even);
    proof {
        let g6 = builder@;
        lemma_extends_trans(g0, g1, g2);
        lemma_extends_trans(g0, g2, g3);
        lemma_extends_trans(g1, g2, g3);
        lemma_extends_trans(g1, g3, g4);
        lemma_extends_trans(g2, g3, g4);
        lemma_extends_trans(g1, g4, g5);
        lemma_extends_trans(g2, g4, g5);
        lemma_extends_trans(g3, g4, g5);
        lemma_extends_trans(g4, g5, g6);
        lemma_extends_trans(g3, g4, g6);
        lemma_extends_trans(g2, g3, g6);
        lemma_extends_trans(g1, g2, g6);
        lemma_extends_trans(g0, g1, g6);
        assert forall|inp: Seq<u64>, w2: Wire|
            g0.valid_wire(w2) implies #[trigger] g6.wval(inp, w2) == g0.wval(inp, w2) by {
            lemma_wval_extends(g0, g6, inp, w2);
        }
        assert forall|inp: Seq<u64>|
            (g6.wval(inp, a) < 0x10000 && g6.wval(inp, b) < 0x10000 && g6.wval(inp, c) < 0x10000)
                implies #[trigger] g6.wval(inp, res) == ((g6.wval(inp, a) & g6.wval(inp, b)) | ((
        g6.wval(inp, a) ^ 0xFFFF) & g6.wval(inp, c))) && g6.wval(inp, res) < 0x10000 by {
            lemma_wval_extends(g0, g6, inp, a);
            lemma_wval_extends(g0, g6, inp, b);
            lemma_wval_extends(g0, g6, inp, c);
            lemma_wval_extends(g0, g1, inp, a);
            lemma_wval_extends(g0, g2, inp, b);
            lemma_wval_extends(g0, g3, inp, c);
            lemma_wval_extends(g1, g4, inp, a_even);
            lemma_wval_extends(g2, g4, inp, b_even);
            lemma_wval_extends(g3, g4, inp, c_even);
            lemma_wval_extends(g1, g5, inp, a_odd);
            lemma_wval_extends(g2, g5, inp, b_odd);
            lemma_wval_extends(g3, g5, inp, c_odd);
            lemma_wval_extends(g1, g6, inp, a_even);
            lemma_wval_extends(g2, g6, inp, b_even);
            lemma_wval_extends(g3, g6, inp, c_even);
            lemma_wval_extends(g1, g6, inp, a_odd);
            lemma_wval_extends(g2, g6, inp, b_odd);
            lemma_wval_extends(g3, g6, inp, c_odd);
            lemma_wval_extends(g4, g6, inp, res_even);
            lemma_wval_extends(g4, g5, inp, res_even);
            lemma_wval_extends(g5, g6, inp, res_odd);
            let m: u64 = g6.modulus;
            let va = g6.wval(inp, a);
            let vb = g6.wval(inp, b);
            let vc = g6.wval(inp, c);
            lemma_packed_byte_bound(va as nat);
            lemma_packed_byte_bound(vb as nat);
            lemma_packed_byte_bound(vc as nat);
            let ea: u64 = even_byte(va as nat) as u64;
            let eb: u64 = even_byte(vb as nat) as u64;
            let ec: u64 = even_byte(vc as nat) as u64;
            let oa: u64 = odd_byte(va as nat) as u64;
            let ob: u64 = odd_byte(vb as nat) as u64;
            let oc: u64 = odd_byte(vc as nat) as u64;
            // the stream wires are in spread form and encode the packed bytes
            lemma_spread_form(ea);
            lemma_spread_form(eb);
            lemma_spread_form(ec);
            lemma_spread_form(oa);
            lemma_spread_form(ob);
            lemma_spread_form(oc);
            assert(is_spread_form(g4.wval(inp, a_even)));
            assert(is_spread_form(g4.wval(inp, b_even)));
            assert(is_spread_form(g4.wval(inp, c_even)));
            assert(is_spread_form(g5.wval(inp, a_odd)));
            assert(is_spread_form(g5.wval(inp, b_odd)));
            assert(is_spread_form(g5.wval(inp, c_odd)));
            lemma_ch_byte_parts(ea, eb, ec);
            lemma_ch_byte_parts(oa, ob, oc);
            let che: u64 = (ea & eb) | ((ea ^ 0xFF) & ec);
            let cho: u64 = (oa & ob) | ((oa ^ 0xFF) & oc);
            assert(g6.wval(inp, res_even) as nat == spread8(che as nat));
            assert(g6.wval(inp, res_odd) as nat == spread8(cho as nat));
            lemma_spread8_bound(che as nat);
            lemma_spread8_bound(cho as nat);
            assert(g6.wval(inp, res) as nat == spread8(che as nat) + 2 * spread8(cho as nat)) by {
                lemma_small_mod((spread8(che as nat) + 2 * spread8(cho as nat)) as nat, m as nat);
            }
            lemma_ch_bytes16(va, vb, vc);
            lemma2_to64();
            lemma_even_odd_split(((va & vb) | ((va ^ 0xFFFF) & vc)) as nat);
        }
    }
    res
}

/// Three-operand choose (`a ? b : c` per bit) of 32-bit words, by halves
/// through the spread pipeline.
pub fn ch_u32_by_spread(
    builder: &mut U32SplitCircuitBuilder,
    a: Wire,
    b: Wire,
    c: Wire,
    table_idx: usize,
) -> (res: Wire)
    requires
        old(builder)@.wf(),
        old(builder)@.valid_wire(a),
        old(builder)@.valid_wire(b),
        old(builder)@.valid_wire(c),
        old(builder)@.rows.len() < 0xFFF0_0000,
        table_idx < old(builder)@.tables.len(),
    ensures
        final(builder)@.wf(),
        final(builder)@.extends(old(builder)@),
        final(builder)@.valid_wire(res),
        forall|inp: Seq<u64>, w2: Wire|
            old(builder)@.valid_wire(w2) ==> #[trigger] final(builder)@.wval(inp, w2) == old(builder)@.wval(inp, w2),
        forall|inp: Seq<u64>|
            (final(builder)@.wval(inp, a) < WORD_BOUND && final(builder)@.wval(inp, b) < WORD_BOUND
                && final(builder)@.wval(inp, c) < WORD_BOUND) ==> #[trigger] final(builder)@.wval(
                inp,
                res,
            ) == ((final(builder)@.wval(inp, a) & final(builder)@.wval(inp, b)) | ((final(builder)@.wval(
                inp,
                a,
            ) ^ 0xFFFF_FFFF) & final(builder)@.wval(inp, c))) && final(builder)@.wval(inp, res)
                < WORD_BOUND,
{
    let ghost g0 = builder@;
    let (a_lo, a_hi) = builder.add_u32_split_u16(a);
    let ghost g1 = builder@;
    let (b_lo, b_hi) = builder.add_u32_split_u16(b);
    let ghost g2 = builder@;
    let (c_lo, c_hi) = builder.add_u32_split_u16(c);
    let ghost g3 = builder@;
    let res_lo = ch_u16_by_spread(builder, a_lo, b_lo, c_lo, table_idx);
    let ghost g4 = builder@;
    let res_hi = ch_u16_by_spread(builder, a_hi, b_hi, c_hi, table_idx);
    let ghost g5 = builder@;
    let po16 = builder.constant(0x10000);
    let ghost g6 = builder@;
    let res = builder.mul_add(res_hi, po16, res_lo);
    proof {
        let g7 = builder@;
        lemma_extends_trans(g0, g1, g2);
        lemma_extends_trans(g0, g2, g3);
        lemma_extends_trans(g1, g2, g3);
        lemma_extends_trans(g1, g3, g4);
        lemma_extends_trans(g2, g3, g4);
        lemma_extends_trans(g3, g4, g5);
        lemma_extends_trans(g2, g3, g5);
        lemma_extends_trans(g1, g2, g5);
        lemma_extends_trans(g5, g6, g7);
        lemma_extends_trans(g4, g5, g7);
        lemma_extends_trans(g3, g4, g7);
        lemma_extends_trans(g2, g3, g7);
        lemma_extends_trans(g1, g2, g7);
        lemma_extends_trans(g0, g1, g7);
        assert forall|inp: Seq<u64>, w2: Wire|
            g0.valid_wire(w2) implies #[trigger] g7.wval(inp, w2) == g0.wval(inp, w2) by {
            lemma_wval_extends(g0, g7, inp, w2);
        }
        assert forall|inp: Seq<u64>|
            (g7.wval(inp, a) < WORD_BOUND && g7.wval(inp, b) < WORD_BOUND && g7.wval(inp, c)
                < WORD_BOUND) implies #[trigger] g7.wval(inp, res) == ((g7.wval(inp, a) & g7.wval(
                inp,
                b,
            )) | ((g7.wval(inp, a) ^ 0xFFFF_FFFF) & g7.wval(inp, c))) && g7.wval(inp, res)
                < WORD_BOUND by {
            lemma_wval_extends(g0, g7, inp, a);
            lemma_wval_extends(g0, g7, inp, b);
            lemma_wval_extends(g0, g7, inp, c);
            lemma_wval_extends(g0, g1, inp, a);
            lemma_wval_extends(g0, g2, inp, b);
            lemma_wval_extends(g0, g3, inp, c);
            lemma_wval_extends(g1, g3, inp, a_lo);
            lemma_wval_extends(g1, g3, inp, a_hi);
            lemma_wval_extends(g2, g3, inp, b_lo);
            lemma_wval_extends(g2, g3, inp, b_hi);
            lemma_wval_extends(g1, g4, inp, a_hi);
            lemma_wval_extends(g2, g4, inp, b_hi);
            lemma_wval_extends(g3, g4, inp, c_hi);
            lemma_wval_extends(g1, g7, inp, a_lo);
            lemma_wval_extends(g1, g7, inp, a_hi);
            lemma_wval_extends(g2, g7, inp, b_lo);
            lemma_wval_extends(g2, g7, inp, b_hi);
            lemma_wval_extends(g3, g7, inp, c_lo);
            lemma_wval_extends(g3, g7, inp, c_hi);
            lemma_wval_extends(g4, g7, inp, res_lo);
            lemma_wval_extends(g4, g5, inp, res_lo);
            lemma_wval_extends(g5, g7, inp, res_hi);
            let m: u64 = g7.modulus;
            let va = g7.wval(inp, a);
            let vb = g7.wval(inp, b);
            let vc = g7.wval(inp, c);
            lemma2_to64();
            lemma_ch_u32_combine(va, vb, vc);
            assert(g7.wval(inp, a_lo) == va % 0x10000 && g7.wval(inp, a_hi) == va / 0x10000);
            assert(g7.wval(inp, b_lo) == vb % 0x10000 && g7.wval(inp, b_hi) == vb / 0x10000);
            assert(g7.wval(inp, c_lo) == vc % 0x10000 && g7.wval(inp, c_hi) == vc / 0x10000);
            assert(va % 0x10000 < 0x10000 && vb % 0x10000 < 0x10000 && vc % 0x10000 < 0x10000
                && va / 0x10000 < 0x10000 && vb / 0x10000 < 0x10000 && vc / 0x10000 < 0x10000);
            assert(g7.wval(inp, res_lo) == (((va % 0x10000) & (vb % 0x10000)) | (((va % 0x10000)
                ^ 0xFFFF) & (vc % 0x10000))));
            assert(g7.wval(inp, res_hi) == (((va / 0x10000) & (vb / 0x10000)) | (((va / 0x10000)
                ^ 0xFFFF) & (vc / 0x10000))));
            assert(g7.wval(inp, po16) == 0x10000);
            assert(g7.wval(inp, res) as nat == (g7.wval(inp, res_hi) as nat * 0x10000 + g7.wval(
                inp,
                res_lo,
            ) as nat) % m as nat);
            lemma_small_mod(
                (g7.wval(inp, res_hi) as nat * 0x10000 + g7.wval(inp, res_lo) as nat) as nat,
                m as nat,
            );
        }
    }
    res
}

} // verus!
