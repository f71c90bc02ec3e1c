//! The wire fabric: an append-only arena of gate instances addressed as
//! (row, column), plus equality, range-check and lookup constraints.
//!
//! Gates are appended strictly in call order and only reference wires of
//! earlier rows, so the dependency graph is acyclic by construction and
//! witness generation can fill the rows in order, each exactly once.  The
//! whole witness is a function of the circuit and its input values alone:
//! `witness_of` below is that function, and both the generator and the
//! constraint checker are specified against it.

use vstd::prelude::*;
use crate::field::{add_f, mul_add_f, sub_f, CircuitConfig};
use crate::gates::{
    nibble_outputs, split4_outputs, u16_outputs, u8_spread_outputs, NibbleSplitGate,
    Split4PartsGate, SplitU16Gate, SplitU8SpreadGate,
};
use crate::field::{add_mod, add3_mod, mul_add_mod, sub_mod};
use crate::spread::{lemma_packed_byte_bound, lemma_spread8_bound};
use vstd::arithmetic::div_mod::{
    lemma_div_nonincreasing, lemma_mod_division_less_than_divisor,
};
use vstd::arithmetic::power2::{
    lemma2_to64, lemma_pow2_pos, lemma_pow2_strictly_increases, pow2,
};
use vstd::bits::{lemma_u64_pow2_no_overflow, lemma_u64_shl_is_mul};

verus! {

/// An opaque reference to a value slot: a circuit input, or the value at an
/// output column of a gate-instance row.
#[derive(Clone, Copy, Debug, PartialEq, Eq, Structural)]
pub enum Wire {
    Input(usize),
    Cell { row: usize, col: usize },
}

/// One occupied row: a gate instance with its fixed parameters, holding the
/// wires of earlier rows it reads.
#[derive(Clone, Copy, Debug, PartialEq, Eq, Structural)]
pub enum Row {
    Split4 { gate: Split4PartsGate, input: Wire },
    Nibble { gate: NibbleSplitGate, input: Wire },
    SplitU16 { gate: SplitU16Gate, input: Wire },
    U8Spread { gate: SplitU8SpreadGate, input: Wire },
    Constant { value: u64 },
    Add { a: Wire, b: Wire },
    Sub { a: Wire, b: Wire },
    Add3 { a: Wire, b: Wire, c: Wire },
    MulAdd { a: Wire, b: Wire, c: Wire },
    Lookup { input: Wire, table_idx: usize },
}

/// How many output columns a row has.
pub open spec fn row_arity(r: Row) -> nat {
    match r {
        Row::Split4 { .. } => 4,
        Row::Nibble { .. } => 8,
        Row::SplitU16 { .. } => 2,
        Row::U8Spread { .. } => 4,
        Row::Constant { .. } => 1,
        Row::Add { .. } => 1,
        Row::Sub { .. } => 1,
        Row::Add3 { .. } => 1,
        Row::MulAdd { .. } => 1,
        Row::Lookup { .. } => 1,
    }
}

/// The value a wire holds, given input values and filled rows.  Out-of-range
/// references read zero; well-formed circuits never make one.
pub open spec fn wire_value(w: Wire, inp: Seq<u64>, filled: Seq<Seq<u64>>) -> u64 {
    match w {
        Wire::Input(i) => if i < inp.len() {
            inp[i as int]
        } else {
            0
        },
        Wire::Cell { row, col } => if row < filled.len() && col < filled[row as int].len() {
            filled[row as int][col as int]
        } else {
            0
        },
    }
}

/// Reading a lookup table; out of domain reads zero.
pub open spec fn table_read(tables: Seq<Seq<u64>>, idx: int, v: u64) -> u64 {
    if 0 <= idx < tables.len() && v < tables[idx].len() {
        tables[idx][v as int]
    } else {
        0
    }
}

/// What one generator run writes into its row, as a function of the values
/// the row reads.
pub open spec fn row_outputs(r: Row, tables: Seq<Seq<u64>>, m: u64, inp: Seq<u64>, prev: Seq<Seq<u64>>) -> Seq<
    u64,
> {
    match r {
        Row::Split4 { gate, input } => split4_outputs(
            wire_value(input, inp, prev),
            gate.k1 as nat,
            gate.k2 as nat,
            gate.k3 as nat,
        ),
        Row::Nibble { gate, input } => nibble_outputs(wire_value(input, inp, prev)),
        Row::SplitU16 { gate, input } => u16_outputs(wire_value(input, inp, prev)),
        Row::U8Spread { gate, input } => u8_spread_outputs(wire_value(input, inp, prev)),
        Row::Constant { value } => seq![value],
        Row::Add { a, b } => seq![
            add_f(wire_value(a, inp, prev) as nat, wire_value(b, inp, prev) as nat, m as nat) as u64,
        ],
        Row::Sub { a, b } => seq![
            sub_f(wire_value(a, inp, prev) as nat, wire_value(b, inp, prev) as nat, m as nat) as u64,
        ],
        Row::Add3 { a, b, c } => seq![
            (((wire_value(a, inp, prev) as nat + wire_value(b, inp, prev) as nat + wire_value(
                c,
                inp,
                prev,
            ) as nat)) % m as nat) as u64,
        ],
        Row::MulAdd { a, b, c } => seq![
            mul_add_f(
                wire_value(a, inp, prev) as nat,
                wire_value(b, inp, prev) as nat,
                wire_value(c, inp, prev) as nat,
                m as nat,
            ) as u64,
        ],
        Row::Lookup { input, table_idx } => seq![
            table_read(tables, table_idx as int, wire_value(input, inp, prev)),
        ],
    }
}

/// The first `n` rows of the witness, filled in append order: row `i` is a
/// function of the inputs and the rows before it.
pub open spec fn wit_upto(rows: Seq<Row>, tables: Seq<Seq<u64>>, m: u64, inp: Seq<u64>, n: nat) -> Seq<
    Seq<u64>,
>
    decreases n,
{
    if n == 0 {
        Seq::empty()
    } else {
        let prev = wit_upto(rows, tables, m, inp, (n - 1) as nat);
        prev.push(
            if n - 1 < rows.len() {
                row_outputs(rows[n - 1], tables, m, inp, prev)
            } else {
                Seq::empty()
            },
        )
    }
}

/// The abstract state of a circuit: what the builder accumulates and what
/// `build` freezes.
pub ghost struct CircuitView {
    pub n_inputs: nat,
    pub rows: Seq<Row>,
    pub connects: Seq<(Wire, Wire)>,
    pub range_checks: Seq<(Wire, usize)>,
    pub tables: Seq<Seq<u64>>,
    pub modulus: u64,
}

impl CircuitView {
    /// A wire that only references inputs or rows before `up_to_row`.
    pub open spec fn wire_ok(self, w: Wire, up_to_row: nat) -> bool {
        match w {
            Wire::Input(i) => i < self.n_inputs,
            Wire::Cell { row, col } => row < up_to_row && row < self.rows.len() && col < row_arity(
                self.rows[row as int],
            ),
        }
    }

    /// A wire of the finished circuit.
    pub open spec fn valid_wire(self, w: Wire) -> bool {
        self.wire_ok(w, self.rows.len() as nat)
    }

    /// Row `i` only reads earlier wires, its gate parameters are valid, and
    /// anything it names is registered.
    pub open spec fn row_wf(self, i: int) -> bool {
        match self.rows[i] {
            Row::Split4 { gate, input } => gate.wf() && self.wire_ok(input, i as nat),
            Row::Nibble { gate, input } => self.wire_ok(input, i as nat),
            Row::SplitU16 { gate, input } => self.wire_ok(input, i as nat),
            Row::U8Spread { gate, input } => self.wire_ok(input, i as nat) && gate.table_idx
                < self.tables.len(),
            Row::Constant { value } => value < self.modulus,
            Row::Add { a, b } => self.wire_ok(a, i as nat) && self.wire_ok(b, i as nat),
            Row::Sub { a, b } => self.wire_ok(a, i as nat) && self.wire_ok(b, i as nat),
            Row::Add3 { a, b, c } => self.wire_ok(a, i as nat) && self.wire_ok(b, i as nat)
                && self.wire_ok(c, i as nat),
            Row::MulAdd { a, b, c } => self.wire_ok(a, i as nat) && self.wire_ok(b, i as nat)
                && self.wire_ok(c, i as nat),
            Row::Lookup { input, table_idx } => self.wire_ok(input, i as nat) && table_idx
                < self.tables.len(),
        }
    }

    /// The invariant the builder maintains: a 32-bit word is canonical in the
    /// field, every row reads backwards only, every registered table entry is
    /// canonical, and every recorded constraint names valid wires.
    pub open spec fn wf(self) -> bool {
        &&& self.modulus > 0xFFFF_FFFF
        &&& forall|i: int| 0 <= i < self.rows.len() ==> self.row_wf(i)
        &&& forall|t: int, j: int|
            0 <= t < self.tables.len() && 0 <= j < self.tables[t].len()
                ==> #[trigger] self.tables[t][j] < self.modulus
        &&& forall|i: int|
            0 <= i < self.connects.len() ==> self.valid_wire(#[trigger] self.connects[i].0)
                && self.valid_wire(self.connects[i].1)
        &&& forall|i: int|
            0 <= i < self.range_checks.len() ==> self.valid_wire(
                #[trigger] self.range_checks[i].0,
            ) && self.range_checks[i].1 < 64
    }

    /// Canonical input values, one per declared input wire.
    pub open spec fn inputs_ok(self, inp: Seq<u64>) -> bool {
        &&& inp.len() == self.n_inputs
        &&& forall|i: int| 0 <= i < inp.len() ==> #[trigger] inp[i] < self.modulus
    }

    /// The full witness the generators produce on these inputs.
    pub open spec fn witness_of(self, inp: Seq<u64>) -> Seq<Seq<u64>> {
        wit_upto(self.rows, self.tables, self.modulus, inp, self.rows.len() as nat)
    }

    /// The value a wire holds in the generated witness.
    pub open spec fn wval(self, inp: Seq<u64>, w: Wire) -> u64 {
        wire_value(w, inp, self.witness_of(inp))
    }

    /// The new circuit picks up where the old one stopped: everything already
    /// appended stays, word for word.
    pub open spec fn extends(self, old: CircuitView) -> bool {
        &&& old.rows.is_prefix_of(self.rows)
        &&& old.connects.is_prefix_of(self.connects)
        &&& old.range_checks.is_prefix_of(self.range_checks)
        &&& self.tables == old.tables
        &&& self.modulus == old.modulus
        &&& self.n_inputs == old.n_inputs
    }

    /// Row `i` is a lookup whose input value lies in its table's domain (or
    /// is no lookup at all): the one way generation can fail.
    pub open spec fn lookup_ok(self, inp: Seq<u64>, i: int) -> bool {
        match self.rows[i] {
            Row::Lookup { input, table_idx } => {
                let v = wire_value(input, inp, wit_upto(self.rows, self.tables, self.modulus, inp, i as nat));
                table_idx < self.tables.len() && v < self.tables[table_idx as int].len()
            },
            _ => true,
        }
    }

    /// No lookup among the first `n` rows steps outside its table.
    pub open spec fn gen_ok_upto(self, inp: Seq<u64>, n: nat) -> bool {
        forall|i: int| 0 <= i < n ==> self.lookup_ok(inp, i)
    }

    /// Witness generation runs to completion on these inputs.
    pub open spec fn gen_ok(self, inp: Seq<u64>) -> bool {
        self.gen_ok_upto(inp, self.rows.len() as nat)
    }
}

/// The partial witness has one entry per processed row.
pub proof fn lemma_wit_upto_len(rows: Seq<Row>, tables: Seq<Seq<u64>>, m: u64, inp: Seq<u64>, n: nat)
    ensures
        wit_upto(rows, tables, m, inp, n).len() == n,
    decreases n,
{
    if n > 0 {
        lemma_wit_upto_len(rows, tables, m, inp, (n - 1) as nat);
    }
}

/// The partial witness depends only on the rows before `n`.
pub proof fn lemma_wit_upto_prefix(
    rows1: Seq<Row>,
    rows2: Seq<Row>,
    tables: Seq<Seq<u64>>,
    m: u64,
    inp: Seq<u64>,
    n: nat,
)
    requires
        n <= rows1.len(),
        n <= rows2.len(),
        forall|i: int| 0 <= i < n ==> rows1[i] == rows2[i],
    ensures
        wit_upto(rows1, tables, m, inp, n) == wit_upto(rows2, tables, m, inp, n),
    decreases n,
{
    if n > 0 {
        lemma_wit_upto_prefix(rows1, rows2, tables, m, inp, (n - 1) as nat);
    }
}

/// Row `i` of any longer partial witness is what its generator wrote over the
/// partial witness of its own prefix.
pub proof fn lemma_wit_upto_index(
    rows: Seq<Row>,
    tables: Seq<Seq<u64>>,
    m: u64,
    inp: Seq<u64>,
    n: nat,
    i: int,
)
    requires
        0 <= i < n,
        n <= rows.len(),
    ensures
        wit_upto(rows, tables, m, inp, n)[i] == row_outputs(
            rows[i],
            tables,
            m,
            inp,
            wit_upto(rows, tables, m, inp, i as nat),
        ),
    decreases n,
{
    lemma_wit_upto_len(rows, tables, m, inp, (n - 1) as nat);
    if i < n - 1 {
        lemma_wit_upto_index(rows, tables, m, inp, (n - 1) as nat, i);
    }
}

/// Reading a wire that only references rows before `k` gives the same value
/// in any partial witness of at least `k` rows, and in the full one.
pub proof fn lemma_wire_value_stable(
    c: CircuitView,
    inp: Seq<u64>,
    w: Wire,
    k: nat,
    n1: nat,
    n2: nat,
)
    requires
        c.wire_ok(w, k),
        k <= n1 <= c.rows.len(),
        k <= n2 <= c.rows.len(),
    ensures
        wire_value(w, inp, wit_upto(c.rows, c.tables, c.modulus, inp, n1)) == wire_value(
            w,
            inp,
            wit_upto(c.rows, c.tables, c.modulus, inp, n2),
        ),
{
    lemma_wit_upto_len(c.rows, c.tables, c.modulus, inp, n1);
    lemma_wit_upto_len(c.rows, c.tables, c.modulus, inp, n2);
    match w {
        Wire::Input(_) => {},
        Wire::Cell { row, col } => {
            lemma_wit_upto_index(c.rows, c.tables, c.modulus, inp, n1, row as int);
            lemma_wit_upto_index(c.rows, c.tables, c.modulus, inp, n2, row as int);
        },
    }
}

/// The value of a cell in the generated witness, in terms of its row's
/// generator applied to the values that row reads.
pub proof fn lemma_wval_cell(c: CircuitView, inp: Seq<u64>, w: Wire)
    requires
        c.valid_wire(w),
        w is Cell,
    ensures
        c.wval(inp, w) == row_outputs(
            c.rows[w->Cell_row as int],
            c.tables,
            c.modulus,
            inp,
            wit_upto(c.rows, c.tables, c.modulus, inp, w->Cell_row as nat),
        )[w->Cell_col as int],
{
    lemma_wit_upto_len(c.rows, c.tables, c.modulus, inp, c.rows.len() as nat);
    lemma_wit_upto_index(c.rows, c.tables, c.modulus, inp, c.rows.len() as nat, w->Cell_row as int);
    assert(c.witness_of(inp)[w->Cell_row as int] == row_outputs(
        c.rows[w->Cell_row as int],
        c.tables,
        c.modulus,
        inp,
        wit_upto(c.rows, c.tables, c.modulus, inp, w->Cell_row as nat),
    ));
}

/// A wire already valid in a circuit keeps its value when the circuit is
/// extended with further rows.
pub proof fn lemma_wval_extends(c1: CircuitView, c2: CircuitView, inp: Seq<u64>, w: Wire)
    requires
        c2.extends(c1),
        c1.valid_wire(w),
    ensures
        c2.wval(inp, w) == c1.wval(inp, w),
{
    let n: nat = c1.rows.len() as nat;
    lemma_wit_upto_prefix(c1.rows, c2.rows, c1.tables, c1.modulus, inp, n);
    lemma_wire_value_stable(c2, inp, w, n, n, c2.rows.len() as nat);
    lemma_wire_value_stable(c1, inp, w, n, n, n);
}

/// A wire valid up to `k1` in a circuit stays valid up to any `k2 >= k1` in
/// any extension of it.
pub proof fn lemma_wire_ok_monotone(c1: CircuitView, c2: CircuitView, w: Wire, k1: nat, k2: nat)
    requires
        c1.wire_ok(w, k1),
        k1 <= k2,
        k1 <= c1.rows.len(),
        c1.rows.is_prefix_of(c2.rows),
        c1.n_inputs <= c2.n_inputs,
    ensures
        c2.wire_ok(w, k2),
{
    match w {
        Wire::Input(_) => {},
        Wire::Cell { row, col } => {
            assert(c2.rows[row as int] == c1.rows[row as int]);
        },
    }
}

/// Pushing one well-formed row onto a well-formed circuit keeps it
/// well-formed.
pub proof fn lemma_wf_push_row(c1: CircuitView, c2: CircuitView, r: Row)
    requires
        c1.wf(),
        c2.rows == c1.rows.push(r),
        c2.connects == c1.connects,
        c2.range_checks == c1.range_checks,
        c2.tables == c1.tables,
        c2.modulus == c1.modulus,
        c2.n_inputs == c1.n_inputs,
        c2.row_wf(c1.rows.len() as int),
    ensures
        c2.wf(),
        c2.extends(c1),
{
    assert forall|i: int| 0 <= i < c2.rows.len() implies c2.row_wf(i) by {
        if i < c1.rows.len() {
            assert(c1.row_wf(i));
            assert(c2.rows[i] == c1.rows[i]);
            match c1.rows[i] {
                Row::Split4 { gate, input } => {
                    lemma_wire_ok_monotone(c1, c2, input, i as nat, i as nat);
                },
                Row::Nibble { gate, input } => {
                    lemma_wire_ok_monotone(c1, c2, input, i as nat, i as nat);
                },
                Row::SplitU16 { gate, input } => {
                    lemma_wire_ok_monotone(c1, c2, input, i as nat, i as nat);
                },
                Row::U8Spread { gate, input } => {
                    lemma_wire_ok_monotone(c1, c2, input, i as nat, i as nat);
                },
                Row::Constant { value } => {},
                Row::Add { a, b } => {
                    lemma_wire_ok_monotone(c1, c2, a, i as nat, i as nat);
                    lemma_wire_ok_monotone(c1, c2, b, i as nat, i as nat);
                },
                Row::Sub { a, b } => {
                    lemma_wire_ok_monotone(c1, c2, a, i as nat, i as nat);
                    lemma_wire_ok_monotone(c1, c2, b, i as nat, i as nat);
                },
                Row::Add3 { a, b, c } => {
                    lemma_wire_ok_monotone(c1, c2, a, i as nat, i as nat);
                    lemma_wire_ok_monotone(c1, c2, b, i as nat, i as nat);
                    lemma_wire_ok_monotone(c1, c2, c, i as nat, i as nat);
                },
                Row::MulAdd { a, b, c } => {
                    lemma_wire_ok_monotone(c1, c2, a, i as nat, i as nat);
                    lemma_wire_ok_monotone(c1, c2, b, i as nat, i as nat);
                    lemma_wire_ok_monotone(c1, c2, c, i as nat, i as nat);
                },
                Row::Lookup { input, table_idx } => {
                    lemma_wire_ok_monotone(c1, c2, input, i as nat, i as nat);
                },
            }
        }
    }
    assert forall|i: int|
        0 <= i < c2.connects.len() implies c2.valid_wire(#[trigger] c2.connects[i].0)
        && c2.valid_wire(c2.connects[i].1) by {
        lemma_wire_ok_monotone(c1, c2, c2.connects[i].0, c1.rows.len() as nat, c2.rows.len() as nat);
        lemma_wire_ok_monotone(c1, c2, c2.connects[i].1, c1.rows.len() as nat, c2.rows.len() as nat);
    }
    assert forall|i: int|
        0 <= i < c2.range_checks.len() implies c2.valid_wire(#[trigger] c2.range_checks[i].0)
        && c2.range_checks[i].1 < 64 by {
        lemma_wire_ok_monotone(
            c1,
            c2,
            c2.range_checks[i].0,
            c1.rows.len() as nat,
            c2.rows.len() as nat,
        );
    }
}

/// Extension of circuits is transitive.
pub proof fn lemma_extends_trans(c1: CircuitView, c2: CircuitView, c3: CircuitView)
    requires
        c2.extends(c1),
        c3.extends(c2),
    ensures
        c3.extends(c1),
{
    assert forall|i: int| 0 <= i < c1.rows.len() implies c3.rows[i] == c1.rows[i] by {
        assert(c2.rows[i] == c1.rows[i]);
    }
    assert(c1.rows =~= c3.rows.take(c1.rows.len() as int));
    assert forall|i: int| 0 <= i < c1.connects.len() implies c3.connects[i] == c1.connects[i] by {
        assert(c2.connects[i] == c1.connects[i]);
    }
    assert(c1.connects =~= c3.connects.take(c1.connects.len() as int));
    assert forall|i: int|
        0 <= i < c1.range_checks.len() implies c3.range_checks[i] == c1.range_checks[i] by {
        assert(c2.range_checks[i] == c1.range_checks[i]);
    }
    assert(c1.range_checks =~= c3.range_checks.take(c1.range_checks.len() as int));
}

/// Adding inputs, constraints over existing wires, or tables to a
/// well-formed circuit keeps it well-formed.
pub proof fn lemma_wf_extend(c1: CircuitView, c2: CircuitView)
    requires
        c1.wf(),
        c2.rows == c1.rows,
        c1.tables.is_prefix_of(c2.tables),
        c2.modulus == c1.modulus,
        c1.n_inputs <= c2.n_inputs,
        c1.connects.is_prefix_of(c2.connects),
        c1.range_checks.is_prefix_of(c2.range_checks),
        forall|i: int|
            c1.connects.len() <= i < c2.connects.len() ==> c1.valid_wire(
                #[trigger] c2.connects[i].0,
            ) && c1.valid_wire(c2.connects[i].1),
        forall|i: int|
            c1.range_checks.len() <= i < c2.range_checks.len() ==> c1.valid_wire(
                #[trigger] c2.range_checks[i].0,
            ) && c2.range_checks[i].1 < 64,
        forall|t: int, j: int|
            c1.tables.len() <= t < c2.tables.len() && 0 <= j < c2.tables[t].len()
                ==> #[trigger] c2.tables[t][j] < c2.modulus,
    ensures
        c2.wf(),
{
    assert forall|i: int| 0 <= i < c2.rows.len() implies c2.row_wf(i) by {
        assert(c1.row_wf(i));
        match c1.rows[i] {
            Row::Split4 { gate, input } => {
                lemma_wire_ok_monotone(c1, c2, input, i as nat, i as nat);
            },
            Row::Nibble { gate, input } => {
                lemma_wire_ok_monotone(c1, c2, input, i as nat, i as nat);
            },
            Row::SplitU16 { gate, input } => {
                lemma_wire_ok_monotone(c1, c2, input, i as nat, i as nat);
            },
            Row::U8Spread { gate, input } => {
                lemma_wire_ok_monotone(c1, c2, input, i as nat, i as nat);
            },
            Row::Constant { value } => {},
            Row::Add { a, b } => {
                lemma_wire_ok_monotone(c1, c2, a, i as nat, i as nat);
                lemma_wire_ok_monotone(c1, c2, b, i as nat, i as nat);
            },
            Row::Sub { a, b } => {
                lemma_wire_ok_monotone(c1, c2, a, i as nat, i as nat);
                lemma_wire_ok_monotone(c1, c2, b, i as nat, i as nat);
            },
            Row::Add3 { a, b, c } => {
                lemma_wire_ok_monotone(c1, c2, a, i as nat, i as nat);
                lemma_wire_ok_monotone(c1, c2, b, i as nat, i as nat);
                lemma_wire_ok_monotone(c1, c2, c, i as nat, i as nat);
            },
            Row::MulAdd { a, b, c } => {
                lemma_wire_ok_monotone(c1, c2, a, i as nat, i as nat);
                lemma_wire_ok_monotone(c1, c2, b, i as nat, i as nat);
                lemma_wire_ok_monotone(c1, c2, c, i as nat, i as nat);
            },
            Row::Lookup { input, table_idx } => {
                lemma_wire_ok_monotone(c1, c2, input, i as nat, i as nat);
            },
        }
    }
    assert forall|i: int|
        0 <= i < c2.connects.len() implies c2.valid_wire(#[trigger] c2.connects[i].0)
        && c2.valid_wire(c2.connects[i].1) by {
        if i < c1.connects.len() {
            assert(c1.valid_wire(c1.connects[i].0) && c1.valid_wire(c1.connects[i].1));
        }
        lemma_wire_ok_monotone(c1, c2, c2.connects[i].0, c1.rows.len() as nat, c2.rows.len() as nat);
        lemma_wire_ok_monotone(c1, c2, c2.connects[i].1, c1.rows.len() as nat, c2.rows.len() as nat);
    }
    assert forall|i: int|
        0 <= i < c2.range_checks.len() implies c2.valid_wire(#[trigger] c2.range_checks[i].0)
        && c2.range_checks[i].1 < 64 by {
        if i < c1.range_checks.len() {
            assert(c1.valid_wire(c1.range_checks[i].0) && c1.range_checks[i].1 < 64);
        }
        lemma_wire_ok_monotone(
            c1,
            c2,
            c2.range_checks[i].0,
            c1.rows.len() as nat,
            c2.rows.len() as nat,
        );
    }
    assert forall|t: int, j: int|
        0 <= t < c2.tables.len() && 0 <= j < c2.tables[t].len() implies #[trigger] c2.tables[t][j]
        < c2.modulus by {
        if t < c1.tables.len() {
            assert(c1.tables[t][j] < c1.modulus);
        }
    }
}

/// Accumulates a circuit: gate instances in append order, plus equality,
/// range and lookup constraints, against a chosen field.  Wires are returned
/// as indices; the builder owns every row.
pub struct U32SplitCircuitBuilder {
    n_inputs: usize,
    rows: Vec<Row>,
    connects: Vec<(Wire, Wire)>,
    range_checks: Vec<(Wire, usize)>,
    tables: Vec<Vec<u64>>,
    modulus: u64,
}

/// A finished circuit, frozen by `build`: the same data, now only generating
/// witnesses and checking them.
pub struct CircuitData {
    n_inputs: usize,
    rows: Vec<Row>,
    connects: Vec<(Wire, Wire)>,
    range_checks: Vec<(Wire, usize)>,
    tables: Vec<Vec<u64>>,
    modulus: u64,
}

impl View for U32SplitCircuitBuilder {
    type V = CircuitView;

    closed spec fn view(&self) -> CircuitView {
        CircuitView {
            n_inputs: self.n_inputs as nat,
            rows: self.rows@,
            connects: self.connects@,
            range_checks: self.range_checks@,
            tables: self.tables@.map_values(|t: Vec<u64>| t@),
            modulus: self.modulus,
        }
    }
}

impl View for CircuitData {
    type V = CircuitView;

    closed spec fn view(&self) -> CircuitView {
        CircuitView {
            n_inputs: self.n_inputs as nat,
            rows: self.rows@,
            connects: self.connects@,
            range_checks: self.range_checks@,
            tables: self.tables@.map_values(|t: Vec<u64>| t@),
            modulus: self.modulus,
        }
    }
}

impl U32SplitCircuitBuilder {
    /// An empty circuit over the standard field.
    pub fn new() -> (b: U32SplitCircuitBuilder)
        ensures
            b@.wf(),
            b@.rows.len() == 0,
            b@.connects.len() == 0,
            b@.range_checks.len() == 0,
            b@.tables.len() == 0,
            b@.n_inputs == 0,
            b@.modulus == crate::field::STANDARD_MODULUS,
    {
        U32SplitCircuitBuilder {
            n_inputs: 0,
            rows: Vec::new(),
            connects: Vec::new(),
            range_checks: Vec::new(),
            tables: Vec::new(),
            modulus: crate::field::STANDARD_MODULUS,
        }
    }

    /// An empty circuit over the field the configuration names.
    pub fn new_with_config(config: CircuitConfig) -> (b: U32SplitCircuitBuilder)
        requires
            config.wf(),
        ensures
            b@.wf(),
            b@.rows.len() == 0,
            b@.connects.len() == 0,
            b@.range_checks.len() == 0,
            b@.tables.len() == 0,
            b@.n_inputs == 0,
            b@.modulus == config.modulus,
    {
        U32SplitCircuitBuilder {
            n_inputs: 0,
            rows: Vec::new(),
            connects: Vec::new(),
            range_checks: Vec::new(),
            tables: Vec::new(),
            modulus: config.modulus,
        }
    }

    /// Allocates a fresh input wire, to be filled with a 32-bit word at
    /// proving time.
    pub fn add_u32_input(&mut self) -> (w: Wire)
        requires
            old(self)@.wf(),
            old(self)@.n_inputs < 0xFFFF_FFFF,
        ensures
            final(self)@.wf(),
            final(self)@ == (CircuitView { n_inputs: (old(self)@.n_inputs + 1) as nat, ..old(self)@ }),
            w == Wire::Input(old(self)@.n_inputs as usize),
            final(self)@.valid_wire(w),
    {
        let w = Wire::Input(self.n_inputs);
        self.n_inputs = self.n_inputs + 1;
        proof {
            lemma_wf_extend(old(self)@, self@);
        }
        w
    }

    /// Allocates `count` fresh input wires.
    pub fn add_u32_inputs(&mut self, count: usize) -> (ws: Vec<Wire>)
        requires
            old(self)@.wf(),
            old(self)@.n_inputs + count < 0xFFFF_FFFF,
        ensures
            final(self)@.wf(),
            final(self)@ == (CircuitView { n_inputs: (old(self)@.n_inputs + count) as nat, ..old(self)@ }),
            ws@.len() == count,
            forall|i: int|
                0 <= i < count ==> #[trigger] ws@[i] == Wire::Input(
                    (old(self)@.n_inputs + i) as usize,
                ),
            forall|i: int| 0 <= i < count ==> final(self)@.valid_wire(#[trigger] ws@[i]),
    {
        let mut ws: Vec<Wire> = Vec::new();
        let mut i: usize = 0;
        while i < count
            invariant
                i <= count,
                self@.wf(),
                self@ == (CircuitView { n_inputs: (old(self)@.n_inputs + i) as nat, ..old(self)@ }),
                old(self)@.n_inputs + count < 0xFFFF_FFFF,
                ws@.len() == i,
                forall|j: int|
                    0 <= j < i ==> #[trigger] ws@[j] == Wire::Input(
                        (old(self)@.n_inputs + j) as usize,
                    ),
            decreases count - i,
        {
            let w = self.add_u32_input();
            ws.push(w);
            i = i + 1;
        }
        proof {
            assert forall|i: int| 0 <= i < count implies final(self)@.valid_wire(#[trigger] ws@[i]) by {
            }
        }
        ws
    }

    /// Registers an immutable lookup table of canonical values and returns
    /// its index.
    pub fn register_lookup_table(&mut self, table: Vec<u64>) -> (idx: usize)
        requires
            old(self)@.wf(),
            forall|i: int| 0 <= i < table@.len() ==> #[trigger] table@[i] < old(self)@.modulus,
        ensures
            final(self)@.wf(),
            final(self)@ == (CircuitView {
                tables: old(self)@.tables.push(table@),
                ..old(self)@
            }),
            idx == old(self)@.tables.len(),
            idx < final(self)@.tables.len(),
            final(self)@.tables[idx as int] == table@,
    {
        let idx = self.tables.len();
        let ghost tv = table@;
        self.tables.push(table);
        proof {
            let c1 = old(self)@;
            let c2 = self@;
            assert(c2.tables =~= c1.tables.push(tv));
            assert(c2 == (CircuitView { tables: c1.tables.push(tv), ..c1 }));
            lemma_wf_extend(c1, c2);
        }
        idx
    }

    /// Appends one row, with the caller having established that it only
    /// reads existing wires and is internally valid.  The new row's cells
    /// hold, on every input, what its generator computes over the witness of
    /// the circuit so far; every existing wire keeps its value.
    pub(crate) fn push_row(&mut self, r: Row) -> (idx: usize)
        requires
            old(self)@.wf(),
            old(self)@.rows.len() < 0xFFFF_FFFF,
            (CircuitView { rows: old(self)@.rows.push(r), ..old(self)@ }).row_wf(
                old(self)@.rows.len() as int,
            ),
        ensures
            final(self)@.wf(),
            final(self)@.extends(old(self)@),
            final(self)@ == (CircuitView { rows: old(self)@.rows.push(r), ..old(self)@ }),
            idx == old(self)@.rows.len(),
            forall|inp: Seq<u64>, col: usize|
                col < row_arity(r) ==> #[trigger] final(self)@.wval(
                    inp,
                    Wire::Cell { row: idx, col },
                ) == row_outputs(
                    r,
                    old(self)@.tables,
                    old(self)@.modulus,
                    inp,
                    old(self)@.witness_of(inp),
                )[col as int],
            forall|inp: Seq<u64>, w: Wire|
                old(self)@.valid_wire(w) ==> #[trigger] final(self)@.wval(inp, w) == old(
                    self,
                )@.wval(inp, w),
    {
        let idx = self.rows.len();
        self.rows.push(r);
        proof {
            lemma_wf_push_row(old(self)@, self@, r);
            assert forall|inp: Seq<u64>, col: usize| col < row_arity(r) implies #[trigger] self@.wval(
                inp,
                Wire::Cell { row: idx, col },
            ) == row_outputs(
                r,
                old(self)@.tables,
                old(self)@.modulus,
                inp,
                old(self)@.witness_of(inp),
            )[col as int] by {
                let w = Wire::Cell { row: idx, col };
                assert(self@.valid_wire(w));
                lemma_wval_cell(self@, inp, w);
                lemma_wit_upto_prefix(
                    old(self)@.rows,
                    self@.rows,
                    self@.tables,
                    self@.modulus,
                    inp,
                    idx as nat,
                );
            }
            assert forall|inp: Seq<u64>, w: Wire| old(self)@.valid_wire(w) implies #[trigger] self@.wval(
                inp,
                w,
            ) == old(self)@.wval(inp, w) by {
                lemma_wval_extends(old(self)@, self@, inp, w);
            }
        }
        idx
    }

    /// Asserts that two wires hold the same value.
    pub fn connect(&mut self, a: Wire, b: Wire)
        requires
            old(self)@.wf(),
            old(self)@.valid_wire(a),
            old(self)@.valid_wire(b),
        ensures
            final(self)@.wf(),
            final(self)@.extends(old(self)@),
            final(self)@ == (CircuitView {
                connects: old(self)@.connects.push((a, b)),
                ..old(self)@
            }),
    {
        self.connects.push((a, b));
        proof {
            assert(self@.connects =~= old(self)@.connects.push((a, b)));
            lemma_wf_extend(old(self)@, self@);
        }
    }

    /// Asserts that a wire's value fits in `bits` bits.
    pub fn range_check(&mut self, w: Wire, bits: usize)
        requires
            old(self)@.wf(),
            old(self)@.valid_wire(w),
            bits < 64,
        ensures
            final(self)@.wf(),
            final(self)@.extends(old(self)@),
            final(self)@ == (CircuitView {
                range_checks: old(self)@.range_checks.push((w, bits)),
                ..old(self)@
            }),
    {
        self.range_checks.push((w, bits));
        proof {
            assert(self@.range_checks =~= old(self)@.range_checks.push((w, bits)));
            lemma_wf_extend(old(self)@, self@);
        }
    }

    /// A wire holding a fixed canonical value.
    pub fn constant(&mut self, value: u64) -> (w: Wire)
        requires
            old(self)@.wf(),
            old(self)@.rows.len() < 0xFFFF_FFFF,
            value < old(self)@.modulus,
        ensures
            final(self)@.wf(),
            final(self)@.extends(old(self)@),
            final(self)@ == (CircuitView {
                rows: old(self)@.rows.push(Row::Constant { value }),
                ..old(self)@
            }),
            w == (Wire::Cell { row: old(self)@.rows.len() as usize, col: 0 }),
            final(self)@.valid_wire(w),
            forall|inp: Seq<u64>| #[trigger] final(self)@.wval(inp, w) == value,
            forall|inp: Seq<u64>, w2: Wire|
                old(self)@.valid_wire(w2) ==> #[trigger] final(self)@.wval(inp, w2) == old(
                    self,
                )@.wval(inp, w2),
    {
        let idx = self.push_row(Row::Constant { value });
        let w = Wire::Cell { row: idx, col: 0 };
        proof {
            assert forall|inp: Seq<u64>| #[trigger] self@.wval(inp, w) == value by {
                assert(self@.wval(inp, Wire::Cell { row: idx, col: 0 }) == row_outputs(
                    Row::Constant { value },
                    old(self)@.tables,
                    old(self)@.modulus,
                    inp,
                    old(self)@.witness_of(inp),
                )[0]);
            }
        }
        w
    }

    /// A wire holding the field sum of two wires.
    pub fn add(&mut self, a: Wire, b: Wire) -> (w: Wire)
        requires
            old(self)@.wf(),
            old(self)@.rows.len() < 0xFFFF_FFFF,
            old(self)@.valid_wire(a),
            old(self)@.valid_wire(b),
        ensures
            final(self)@.wf(),
            final(self)@.extends(old(self)@),
            final(self)@ == (CircuitView {
                rows: old(self)@.rows.push(Row::Add { a, b }),
                ..old(self)@
            }),
            w == (Wire::Cell { row: old(self)@.rows.len() as usize, col: 0 }),
            final(self)@.valid_wire(w),
            forall|inp: Seq<u64>| #[trigger] final(self)@.wval(inp, w) as nat == add_f(
                final(self)@.wval(inp, a) as nat,
                final(self)@.wval(inp, b) as nat,
                final(self)@.modulus as nat,
            ),
            forall|inp: Seq<u64>, w2: Wire|
                old(self)@.valid_wire(w2) ==> #[trigger] final(self)@.wval(inp, w2) == old(
                    self,
                )@.wval(inp, w2),
    {
        let idx = self.push_row(Row::Add { a, b });
        let w = Wire::Cell { row: idx, col: 0 };
        proof {
            assert forall|inp: Seq<u64>| #[trigger] self@.wval(inp, w) as nat == add_f(
                self@.wval(inp, a) as nat,
                self@.wval(inp, b) as nat,
                self@.modulus as nat,
            ) by {
                assert(self@.wval(inp, Wire::Cell { row: idx, col: 0 }) == row_outputs(
                    Row::Add { a, b },
                    old(self)@.tables,
                    old(self)@.modulus,
                    inp,
                    old(self)@.witness_of(inp),
                )[0]);
                assert(self@.wval(inp, a) == old(self)@.wval(inp, a));
                assert(self@.wval(inp, b) == old(self)@.wval(inp, b));
            }
        }
        w
    }

    /// A wire holding the field difference of two wires.
    pub fn sub(&mut self, a: Wire, b: Wire) -> (w: Wire)
        requires
            old(self)@.wf(),
            old(self)@.rows.len() < 0xFFFF_FFFF,
            old(self)@.valid_wire(a),
            old(self)@.valid_wire(b),
        ensures
            final(self)@.wf(),
            final(self)@.extends(old(self)@),
            final(self)@ == (CircuitView {
                rows: old(self)@.rows.push(Row::Sub { a, b }),
                ..old(self)@
            }),
            w == (Wire::Cell { row: old(self)@.rows.len() as usize, col: 0 }),
            final(self)@.valid_wire(w),
            forall|inp: Seq<u64>| #[trigger] final(self)@.wval(inp, w) as nat == sub_f(
                final(self)@.wval(inp, a) as nat,
                final(self)@.wval(inp, b) as nat,
                final(self)@.modulus as nat,
            ),
            forall|inp: Seq<u64>, w2: Wire|
                old(self)@.valid_wire(w2) ==> #[trigger] final(self)@.wval(inp, w2) == old(
                    self,
                )@.wval(inp, w2),
    {
        let idx = self.push_row(Row::Sub { a, b });
        let w = Wire::Cell { row: idx, col: 0 };
        proof {
            assert forall|inp: Seq<u64>| #[trigger] self@.wval(inp, w) as nat == sub_f(
                self@.wval(inp, a) as nat,
                self@.wval(inp, b) as nat,
                self@.modulus as nat,
            ) by {
                assert(self@.wval(inp, Wire::Cell { row: idx, col: 0 }) == row_outputs(
                    Row::Sub { a, b },
                    old(self)@.tables,
                    old(self)@.modulus,
                    inp,
                    old(self)@.witness_of(inp),
                )[0]);
                assert(self@.wval(inp, a) == old(self)@.wval(inp, a));
                assert(self@.wval(inp, b) == old(self)@.wval(inp, b));
            }
        }
        w
    }

    /// A wire holding the field sum of three wires.
    pub fn add_many3(&mut self, a: Wire, b: Wire, c: Wire) -> (w: Wire)
        requires
            old(self)@.wf(),
            old(self)@.rows.len() < 0xFFFF_FFFF,
            old(self)@.valid_wire(a),
            old(self)@.valid_wire(b),
            old(self)@.valid_wire(c),
        ensures
            final(self)@.wf(),
            final(self)@.extends(old(self)@),
            final(self)@ == (CircuitView {
                rows: old(self)@.rows.push(Row::Add3 { a, b, c }),
                ..old(self)@
            }),
            w == (Wire::Cell { row: old(self)@.rows.len() as usize, col: 0 }),
            final(self)@.valid_wire(w),
            forall|inp: Seq<u64>| #[trigger] final(self)@.wval(inp, w) as nat == (final(self)@.wval(inp, a) as nat
                + final(self)@.wval(inp, b) as nat + final(self)@.wval(inp, c) as nat) % final(self)@.modulus as nat,
            forall|inp: Seq<u64>, w2: Wire|
                old(self)@.valid_wire(w2) ==> #[trigger] final(self)@.wval(inp, w2) == old(
                    self,
                )@.wval(inp, w2),
    {
        let idx = self.push_row(Row::Add3 { a, b, c });
        let w = Wire::Cell { row: idx, col: 0 };
        proof {
            assert forall|inp: Seq<u64>| #[trigger] self@.wval(inp, w) as nat == (self@.wval(inp, a) as nat
                + self@.wval(inp, b) as nat + self@.wval(inp, c) as nat) % self@.modulus as nat by {
                assert(self@.wval(inp, Wire::Cell { row: idx, col: 0 }) == row_outputs(
                    Row::Add3 { a, b, c },
                    old(self)@.tables,
                    old(self)@.modulus,
                    inp,
                    old(self)@.witness_of(inp),
                )[0]);
                assert(self@.wval(inp, a) == old(self)@.wval(inp, a));
                assert(self@.wval(inp, b) == old(self)@.wval(inp, b));
                assert(self@.wval(inp, c) == old(self)@.wval(inp, c));
            }
        }
        w
    }

    /// A wire holding `a·b + c` over the field.
    pub fn mul_add(&mut self, a: Wire, b: Wire, c: Wire) -> (w: Wire)
        requires
            old(self)@.wf(),
            old(self)@.rows.len() < 0xFFFF_FFFF,
            old(self)@.valid_wire(a),
            old(self)@.valid_wire(b),
            old(self)@.valid_wire(c),
        ensures
            final(self)@.wf(),
            final(self)@.extends(old(self)@),
            final(self)@ == (CircuitView {
                rows: old(self)@.rows.push(Row::MulAdd { a, b, c }),
                ..old(self)@
            }),
            w == (Wire::Cell { row: old(self)@.rows.len() as usize, col: 0 }),
            final(self)@.valid_wire(w),
            forall|inp: Seq<u64>| #[trigger] final(self)@.wval(inp, w) as nat == mul_add_f(
                final(self)@.wval(inp, a) as nat,
                final(self)@.wval(inp, b) as nat,
                final(self)@.wval(inp, c) as nat,
                final(self)@.modulus as nat,
            ),
            forall|inp: Seq<u64>, w2: Wire|
                old(self)@.valid_wire(w2) ==> #[trigger] final(self)@.wval(inp, w2) == old(
                    self,
                )@.wval(inp, w2),
    {
        let idx = self.push_row(Row::MulAdd { a, b, c });
        let w = Wire::Cell { row: idx, col: 0 };
        proof {
            assert forall|inp: Seq<u64>| #[trigger] self@.wval(inp, w) as nat == mul_add_f(
                self@.wval(inp, a) as nat,
                self@.wval(inp, b) as nat,
                self@.wval(inp, c) as nat,
                self@.modulus as nat,
            ) by {
                assert(self@.wval(inp, Wire::Cell { row: idx, col: 0 }) == row_outputs(
                    Row::MulAdd { a, b, c },
                    old(self)@.tables,
                    old(self)@.modulus,
                    inp,
                    old(self)@.witness_of(inp),
                )[0]);
                assert(self@.wval(inp, a) == old(self)@.wval(inp, a));
                assert(self@.wval(inp, b) == old(self)@.wval(inp, b));
                assert(self@.wval(inp, c) == old(self)@.wval(inp, c));
            }
        }
        w
    }

    /// A wire asserted (and generated) to be the table's entry at the input
    /// wire's value.
    pub fn add_lookup_from_index(&mut self, input: Wire, table_idx: usize) -> (w: Wire)
        requires
            old(self)@.wf(),
            old(self)@.rows.len() < 0xFFFF_FFFF,
            old(self)@.valid_wire(input),
            table_idx < old(self)@.tables.len(),
        ensures
            final(self)@.wf(),
            final(self)@.extends(old(self)@),
            final(self)@ == (CircuitView {
                rows: old(self)@.rows.push(Row::Lookup { input, table_idx }),
                ..old(self)@
            }),
            w == (Wire::Cell { row: old(self)@.rows.len() as usize, col: 0 }),
            final(self)@.valid_wire(w),
            forall|inp: Seq<u64>| #[trigger] final(self)@.wval(inp, w) == table_read(
                final(self)@.tables,
                table_idx as int,
                final(self)@.wval(inp, input),
            ),
            forall|inp: Seq<u64>, w2: Wire|
                old(self)@.valid_wire(w2) ==> #[trigger] final(self)@.wval(inp, w2) == old(
                    self,
                )@.wval(inp, w2),
    {
        let idx = self.push_row(Row::Lookup { input, table_idx });
        let w = Wire::Cell { row: idx, col: 0 };
        proof {
            assert forall|inp: Seq<u64>| #[trigger] self@.wval(inp, w) == table_read(
                self@.tables,
                table_idx as int,
                self@.wval(inp, input),
            ) by {
                assert(self@.wval(inp, Wire::Cell { row: idx, col: 0 }) == row_outputs(
                    Row::Lookup { input, table_idx },
                    old(self)@.tables,
                    old(self)@.modulus,
                    inp,
                    old(self)@.witness_of(inp),
                )[0]);
                assert(self@.wval(inp, input) == old(self)@.wval(inp, input));
            }
        }
        w
    }

    /// Freezes the circuit.
    pub fn build(self) -> (data: CircuitData)
        ensures
            data@ == self@,
    {
        CircuitData {
            n_inputs: self.n_inputs,
            rows: self.rows,
            connects: self.connects,
            range_checks: self.range_checks,
            tables: self.tables,
            modulus: self.modulus,
        }
    }
}

/// The rows of an executable witness, as mathematical sequences.
pub open spec fn rows_view(rows: Seq<Vec<u64>>) -> Seq<Seq<u64>> {
    rows.map_values(|v: Vec<u64>| v@)
}

/// The wire names an existing slot of this assignment.
pub open spec fn wire_in_bounds(w: Wire, inp: Seq<u64>, filled: Seq<Seq<u64>>) -> bool {
    match w {
        Wire::Input(i) => i < inp.len(),
        Wire::Cell { row, col } => row < filled.len() && col < filled[row as int].len(),
    }
}

/// Wire reads from a canonical assignment are canonical.
pub proof fn lemma_wire_value_canonical(w: Wire, inp: Seq<u64>, filled: Seq<Seq<u64>>, m: u64)
    requires
        m > 0,
        forall|i: int| 0 <= i < inp.len() ==> #[trigger] inp[i] < m,
        forall|a: int, b: int|
            0 <= a < filled.len() && 0 <= b < filled[a].len() ==> #[trigger] filled[a][b] < m,
    ensures
        wire_value(w, inp, filled) < m,
{
}

/// Generator outputs are canonical and fill exactly the row's columns.
pub proof fn lemma_row_outputs_canonical(
    r: Row,
    tables: Seq<Seq<u64>>,
    m: u64,
    inp: Seq<u64>,
    prev: Seq<Seq<u64>>,
)
    requires
        m > 0xFFFF_FFFF,
        forall|i: int| 0 <= i < inp.len() ==> #[trigger] inp[i] < m,
        forall|a: int, b: int|
            0 <= a < prev.len() && 0 <= b < prev[a].len() ==> #[trigger] prev[a][b] < m,
        forall|t: int, j: int|
            0 <= t < tables.len() && 0 <= j < tables[t].len() ==> #[trigger] tables[t][j] < m,
        match r {
            Row::Constant { value } => value < m,
            Row::Split4 { gate, .. } => gate.wf(),
            _ => true,
        },
    ensures
        row_outputs(r, tables, m, inp, prev).len() == row_arity(r),
        forall|j: int|
            0 <= j < row_outputs(r, tables, m, inp, prev).len() ==> #[trigger] row_outputs(
                r,
                tables,
                m,
                inp,
                prev,
            )[j] < m,
{
    lemma2_to64();
    match r {
        Row::Split4 { gate, input } => {
            let x = wire_value(input, inp, prev);
            lemma_pow2_pos(gate.k1 as nat);
            lemma_pow2_pos((gate.k2 - gate.k1) as nat);
            lemma_pow2_pos((gate.k3 - gate.k2) as nat);
            lemma_pow2_pos((32 - gate.k3) as nat);
            lemma_pow2_strictly_increases(gate.k1 as nat, 32);
            lemma_pow2_strictly_increases((gate.k2 - gate.k1) as nat, 32);
            lemma_pow2_strictly_increases((gate.k3 - gate.k2) as nat, 32);
            lemma_pow2_strictly_increases((32 - gate.k3) as nat, 32);
            lemma_mod_division_less_than_divisor(x as int, pow2(gate.k1 as nat) as int);
            lemma_mod_division_less_than_divisor(
                (x as nat / pow2(gate.k1 as nat)) as int,
                pow2((gate.k2 - gate.k1) as nat) as int,
            );
            lemma_mod_division_less_than_divisor(
                (x as nat / pow2(gate.k2 as nat)) as int,
                pow2((gate.k3 - gate.k2) as nat) as int,
            );
            lemma_mod_division_less_than_divisor(
                (x as nat / pow2(gate.k3 as nat)) as int,
                pow2((32 - gate.k3) as nat) as int,
            );
        },
        Row::Nibble { gate, input } => {
            let x = wire_value(input, inp, prev);
            lemma_pow2_pos(4);
            lemma_mod_division_less_than_divisor(x as int, 16);
            lemma_mod_division_less_than_divisor((x as nat / pow2(4)) as int, 16);
            lemma_mod_division_less_than_divisor((x as nat / pow2(8)) as int, 16);
            lemma_mod_division_less_than_divisor((x as nat / pow2(12)) as int, 16);
            lemma_mod_division_less_than_divisor((x as nat / pow2(16)) as int, 16);
            lemma_mod_division_less_than_divisor((x as nat / pow2(20)) as int, 16);
            lemma_mod_division_less_than_divisor((x as nat / pow2(24)) as int, 16);
            lemma_mod_division_less_than_divisor((x as nat / pow2(28)) as int, 16);
        },
        Row::SplitU16 { gate, input } => {
            let x = wire_value(input, inp, prev);
            lemma_wire_value_canonical(input, inp, prev, m);
            lemma_pow2_pos(16);
            lemma_mod_division_less_than_divisor(x as int, pow2(16) as int);
            lemma_div_nonincreasing(x as int, pow2(16) as int);
        },
        Row::U8Spread { gate, input } => {
            let x = wire_value(input, inp, prev);
            lemma_spread8_bound(crate::spread::even_byte(x as nat));
            lemma_spread8_bound(crate::spread::odd_byte(x as nat));
            lemma_packed_byte_bound(x as nat);
        },
        Row::Constant { value } => {},
        Row::Add { a, b } => {
            lemma_mod_division_less_than_divisor(
                (wire_value(a, inp, prev) as nat + wire_value(b, inp, prev) as nat) as int,
                m as int,
            );
        },
        Row::Sub { a, b } => {
            lemma_mod_division_less_than_divisor(
                (wire_value(a, inp, prev) as nat + m as nat - wire_value(b, inp, prev) as nat) as int,
                m as int,
            );
        },
        Row::Add3 { a, b, c } => {
            lemma_mod_division_less_than_divisor(
                (wire_value(a, inp, prev) as nat + wire_value(b, inp, prev) as nat + wire_value(
                    c,
                    inp,
                    prev,
                ) as nat) as int,
                m as int,
            );
        },
        Row::MulAdd { a, b, c } => {
            lemma_mod_division_less_than_divisor(
                (wire_value(a, inp, prev) as nat * wire_value(b, inp, prev) as nat + wire_value(
                    c,
                    inp,
                    prev,
                ) as nat) as int,
                m as int,
            );
        },
        Row::Lookup { input, table_idx } => {},
    }
}

/// Every partial witness of a well-formed circuit is canonical, row by row.
pub proof fn lemma_wit_canonical(c: CircuitView, inp: Seq<u64>, n: nat)
    requires
        c.wf(),
        n <= c.rows.len(),
        forall|i: int| 0 <= i < inp.len() ==> #[trigger] inp[i] < c.modulus,
    ensures
        wit_upto(c.rows, c.tables, c.modulus, inp, n).len() == n,
        forall|r: int|
            0 <= r < n ==> (#[trigger] wit_upto(c.rows, c.tables, c.modulus, inp, n)[r]).len()
                == row_arity(c.rows[r]),
        forall|r: int, j: int|
            0 <= r < n && 0 <= j < wit_upto(c.rows, c.tables, c.modulus, inp, n)[r].len()
                ==> #[trigger] wit_upto(c.rows, c.tables, c.modulus, inp, n)[r][j] < c.modulus,
    decreases n,
{
    lemma_wit_upto_len(c.rows, c.tables, c.modulus, inp, n);
    if n > 0 {
        let k: nat = (n - 1) as nat;
        lemma_wit_canonical(c, inp, k);
        assert(c.row_wf(k as int));
        lemma_row_outputs_canonical(
            c.rows[k as int],
            c.tables,
            c.modulus,
            inp,
            wit_upto(c.rows, c.tables, c.modulus, inp, k),
        );
    }
}

/// Witness generation is deterministic: the witness is one function of the
/// circuit and its inputs, so any two assignments that generation produced
/// for the same circuit on the same inputs are bitwise identical.
pub proof fn lemma_generation_deterministic(
    c: CircuitView,
    inp: Seq<u64>,
    w1: Seq<Seq<u64>>,
    w2: Seq<Seq<u64>>,
)
    requires
        w1 == c.witness_of(inp),
        w2 == c.witness_of(inp),
    ensures
        w1 == w2,
{
}

/// Witness-generation failure, naming the offending row.
#[derive(Clone, Copy, Debug, PartialEq, Eq, Structural)]
pub enum WitnessError {
    /// The number of supplied input values differs from the circuit's inputs.
    InputCountMismatch,
    /// The lookup at this row read a value outside its table's domain.
    LookupOutOfDomain { row: usize },
}

/// A full concrete assignment: input values plus one vector of output values
/// per row.  The fields are public so that a verifier client can also check
/// assignments it did not generate itself.
#[derive(Clone, Debug, PartialEq, Eq)]
pub struct Witness {
    pub inputs: Vec<u64>,
    pub rows: Vec<Vec<u64>>,
}

impl Witness {
    /// The value this assignment gives a wire, if the wire names an existing
    /// slot.
    pub fn value(&self, w: Wire) -> (r: Option<u64>)
        ensures
            r == (if wire_in_bounds(w, self.inputs@, rows_view(self.rows@)) {
                Some(wire_value(w, self.inputs@, rows_view(self.rows@)))
            } else {
                None::<u64>
            }),
    {
        match w {
            Wire::Input(i) => if i < self.inputs.len() {
                Some(self.inputs[i])
            } else {
                None
            },
            Wire::Cell { row, col } => if row < self.rows.len() {
                let rr = &self.rows[row];
                if col < rr.len() {
                    Some(rr[col])
                } else {
                    None
                }
            } else {
                None
            },
        }
    }
}

/// Reads one wire of a partially generated witness.
fn read_wire(w: Wire, inputs: &Vec<u64>, filled: &Vec<Vec<u64>>) -> (v: u64)
    requires
        wire_in_bounds(w, inputs@, rows_view(filled@)),
    ensures
        v == wire_value(w, inputs@, rows_view(filled@)),
{
    match w {
        Wire::Input(i) => inputs[i],
        Wire::Cell { row, col } => {
            let rr = &filled[row];
            rr[col]
        },
    }
}

/// One row's constraints hold of an assignment: its gate's polynomial
/// identity for gate rows, the defining equation for arithmetic rows, and
/// literal table membership for lookups.
pub open spec fn row_constraint_holds(c: CircuitView, wi: Seq<u64>, wr: Seq<Seq<u64>>, i: int) -> bool {
    match c.rows[i] {
        Row::Split4 { gate, input } => gate.constraint_holds(
            wire_value(input, wi, wr),
            wr[i][0],
            wr[i][1],
            wr[i][2],
            wr[i][3],
            c.modulus,
        ),
        Row::Nibble { gate, input } => gate.constraint_holds(
            wire_value(input, wi, wr),
            wr[i],
            c.modulus,
        ),
        Row::SplitU16 { gate, input } => gate.constraint_holds(
            wire_value(input, wi, wr),
            wr[i][0],
            wr[i][1],
            c.modulus,
        ),
        Row::U8Spread { gate, input } => gate.constraint_holds(
            wire_value(input, wi, wr),
            wr[i][0],
            wr[i][1],
            c.modulus,
        ),
        Row::Constant { value } => wr[i][0] == value,
        Row::Add { a, b } => wr[i][0] as nat == add_f(
            wire_value(a, wi, wr) as nat,
            wire_value(b, wi, wr) as nat,
            c.modulus as nat,
        ),
        Row::Sub { a, b } => wr[i][0] as nat == sub_f(
            wire_value(a, wi, wr) as nat,
            wire_value(b, wi, wr) as nat,
            c.modulus as nat,
        ),
        Row::Add3 { a, b, c: w3 } => wr[i][0] as nat == (wire_value(a, wi, wr) as nat + wire_value(
            b,
            wi,
            wr,
        ) as nat + wire_value(w3, wi, wr) as nat) % c.modulus as nat,
        Row::MulAdd { a, b, c: w3 } => wr[i][0] as nat == mul_add_f(
            wire_value(a, wi, wr) as nat,
            wire_value(b, wi, wr) as nat,
            wire_value(w3, wi, wr) as nat,
            c.modulus as nat,
        ),
        Row::Lookup { input, table_idx } => {
            let v = wire_value(input, wi, wr);
            &&& table_idx < c.tables.len()
            &&& v < c.tables[table_idx as int].len()
            &&& wr[i][0] == c.tables[table_idx as int][v as int]
        },
    }
}

/// The assignment has the circuit's shape and canonical values everywhere.
pub open spec fn witness_shape_ok(c: CircuitView, wi: Seq<u64>, wr: Seq<Seq<u64>>) -> bool {
    &&& wi.len() == c.n_inputs
    &&& wr.len() == c.rows.len()
    &&& forall|i: int| 0 <= i < wr.len() ==> (#[trigger] wr[i]).len() == row_arity(c.rows[i])
    &&& forall|i: int| 0 <= i < wi.len() ==> #[trigger] wi[i] < c.modulus
    &&& forall|i: int, j: int|
        0 <= i < wr.len() && 0 <= j < wr[i].len() ==> #[trigger] wr[i][j] < c.modulus
}

/// The whole circuit accepts the assignment: shape, every gate identity,
/// every connection, every range check.
pub open spec fn satisfies(c: CircuitView, wi: Seq<u64>, wr: Seq<Seq<u64>>) -> bool {
    &&& witness_shape_ok(c, wi, wr)
    &&& forall|i: int| 0 <= i < c.rows.len() ==> row_constraint_holds(c, wi, wr, i)
    &&& forall|i: int|
        0 <= i < c.connects.len() ==> wire_value(#[trigger] c.connects[i].0, wi, wr) == wire_value(
            c.connects[i].1,
            wi,
            wr,
        )
    &&& forall|i: int|
        0 <= i < c.range_checks.len() ==> (wire_value(#[trigger] c.range_checks[i].0, wi, wr) as nat)
            < pow2(c.range_checks[i].1 as nat)
}

fn row_arity_exec(r: &Row) -> (n: usize)
    ensures
        n as nat == row_arity(*r),
{
    match r {
        Row::Split4 { .. } => 4,
        Row::Nibble { .. } => 8,
        Row::SplitU16 { .. } => 2,
        Row::U8Spread { .. } => 4,
        Row::Constant { .. } => 1,
        Row::Add { .. } => 1,
        Row::Sub { .. } => 1,
        Row::Add3 { .. } => 1,
        Row::MulAdd { .. } => 1,
        Row::Lookup { .. } => 1,
    }
}

impl CircuitData {
    /// Runs every generator once, in row order: the witness is a function of
    /// the circuit and the inputs, so two runs on the same inputs write
    /// bit-identical values.  Fails loudly, naming the offending condition,
    /// instead of coercing a wrong value.
    pub fn generate_witness(&self, inputs: &Vec<u64>) -> (r: Result<Witness, WitnessError>)
        requires
            self@.wf(),
            forall|i: int| 0 <= i < inputs@.len() ==> #[trigger] inputs@[i] < self@.modulus,
        ensures
            inputs@.len() != self@.n_inputs ==> r == Err::<Witness, WitnessError>(
                WitnessError::InputCountMismatch,
            ),
            inputs@.len() == self@.n_inputs && self@.gen_ok(inputs@) ==> (r matches Ok(w)
                && w.inputs@ == inputs@ && rows_view(w.rows@) == self@.witness_of(inputs@)),
            inputs@.len() == self@.n_inputs && !self@.gen_ok(inputs@) ==> (r matches Err(
                WitnessError::LookupOutOfDomain { row },
            ) && self@.gen_ok_upto(inputs@, row as nat) && !self@.lookup_ok(inputs@, row as int)
                && row < self@.rows.len()),
    {
        if inputs.len() != self.n_inputs {
            return Err(WitnessError::InputCountMismatch);
        }
        let m = self.modulus;
        let mut filled: Vec<Vec<u64>> = Vec::new();
        let n = self.rows.len();
        let mut i: usize = 0;
        while i < n
            invariant
                self@.wf(),
                forall|k: int| 0 <= k < inputs@.len() ==> #[trigger] inputs@[k] < self@.modulus,
                inputs@.len() == self@.n_inputs,
                m == self@.modulus,
                n == self@.rows.len(),
                i <= n,
                rows_view(filled@) == wit_upto(self@.rows, self@.tables, self@.modulus, inputs@, i as nat),
                filled@.len() == i,
                self@.gen_ok_upto(inputs@, i as nat),
            decreases n - i,
        {
            proof {
                lemma_wit_canonical(self@, inputs@, i as nat);
                assert(self@.row_wf(i as int));
                assert forall|w: Wire| self@.wire_ok(w, i as nat) implies wire_in_bounds(
                    w,
                    inputs@,
                    rows_view(filled@),
                ) by {
                }
            }
            let row = self.rows[i];
            let ghost prev = wit_upto(self@.rows, self@.tables, self@.modulus, inputs@, i as nat);
            let outs: Vec<u64> = match row {
                Row::Split4 { gate, input } => {
                    let x = read_wire(input, inputs, &filled);
                    gate.generate(x)
                },
                Row::Nibble { gate, input } => {
                    let x = read_wire(input, inputs, &filled);
                    gate.generate(x)
                },
                Row::SplitU16 { gate, input } => {
                    let x = read_wire(input, inputs, &filled);
                    gate.generate(x)
                },
                Row::U8Spread { gate, input } => {
                    let x = read_wire(input, inputs, &filled);
                    gate.generate(x)
                },
                Row::Constant { value } => {
                    let mut v: Vec<u64> = Vec::new();
                    v.push(value);
                    v
                },
                Row::Add { a, b } => {
                    let va = read_wire(a, inputs, &filled);
                    let vb = read_wire(b, inputs, &filled);
                    proof {
                        lemma_wire_value_canonical(a, inputs@, prev, m);
                        lemma_wire_value_canonical(b, inputs@, prev, m);
                    }
                    let mut v: Vec<u64> = Vec::new();
                    v.push(add_mod(va, vb, m));
                    v
                },
                Row::Sub { a, b } => {
                    let va = read_wire(a, inputs, &filled);
                    let vb = read_wire(b, inputs, &filled);
                    proof {
                        lemma_wire_value_canonical(a, inputs@, prev, m);
                        lemma_wire_value_canonical(b, inputs@, prev, m);
                    }
                    let mut v: Vec<u64> = Vec::new();
                    v.push(sub_mod(va, vb, m));
                    v
                },
                Row::Add3 { a, b, c } => {
                    let va = read_wire(a, inputs, &filled);
                    let vb = read_wire(b, inputs, &filled);
                    let vc = read_wire(c, inputs, &filled);
                    proof {
                        lemma_wire_value_canonical(a, inputs@, prev, m);
                        lemma_wire_value_canonical(b, inputs@, prev, m);
                        lemma_wire_value_canonical(c, inputs@, prev, m);
                    }
                    let mut v: Vec<u64> = Vec::new();
                    v.push(add3_mod(va, vb, vc, m));
                    v
                },
                Row::MulAdd { a, b, c } => {
                    let va = read_wire(a, inputs, &filled);
                    let vb = read_wire(b, inputs, &filled);
                    let vc = read_wire(c, inputs, &filled);
                    proof {
                        lemma_wire_value_canonical(a, inputs@, prev, m);
                        lemma_wire_value_canonical(b, inputs@, prev, m);
                        lemma_wire_value_canonical(c, inputs@, prev, m);
                    }
                    let mut v: Vec<u64> = Vec::new();
                    v.push(mul_add_mod(va, vb, vc, m));
                    v
                },
                Row::Lookup { input, table_idx } => {
                    let x = read_wire(input, inputs, &filled);
                    let t = &self.tables[table_idx];
                    if x < t.len() as u64 {
                        let mut v: Vec<u64> = Vec::new();
                        v.push(t[x as usize]);
                        v
                    } else {
                        proof {
                            assert(!self@.lookup_ok(inputs@, i as int));
                        }
                        return Err(WitnessError::LookupOutOfDomain { row: i });
                    }
                },
            };
            proof {
                assert(outs@ == row_outputs(self@.rows[i as int], self@.tables, self@.modulus, inputs@, prev));
                assert forall|k: int| 0 <= k < i + 1 implies self@.lookup_ok(inputs@, k) by {
                    if k < i {
                        assert(self@.gen_ok_upto(inputs@, i as nat));
                    }
                }
            }
            filled.push(outs);
            i = i + 1;
            proof {
                assert(rows_view(filled@) =~= wit_upto(
                    self@.rows,
                    self@.tables,
                    self@.modulus,
                    inputs@,
                    i as nat,
                ));
            }
        }
        Ok(Witness { inputs: inputs.clone(), rows: filled })
    }

    fn check_shape(&self, w: &Witness) -> (ok: bool)
        requires
            self@.wf(),
        ensures
            ok == witness_shape_ok(self@, w.inputs@, rows_view(w.rows@)),
    {
        if w.inputs.len() != self.n_inputs {
            return false;
        }
        if w.rows.len() != self.rows.len() {
            return false;
        }
        let mut i: usize = 0;
        while i < w.inputs.len()
            invariant
                i <= w.inputs@.len(),
                forall|k: int| 0 <= k < i ==> #[trigger] w.inputs@[k] < self@.modulus,
                self@.modulus == self.modulus,
            decreases w.inputs@.len() - i,
        {
            if w.inputs[i] >= self.modulus {
                return false;
            }
            i = i + 1;
        }
        let mut r: usize = 0;
        while r < w.rows.len()
            invariant
                r <= w.rows@.len(),
                w.rows@.len() == self@.rows.len(),
                forall|k: int|
                    0 <= k < r ==> (#[trigger] rows_view(w.rows@)[k]).len() == row_arity(
                        self@.rows[k],
                    ),
                forall|k: int, j: int|
                    0 <= k < r && 0 <= j < rows_view(w.rows@)[k].len() ==> #[trigger] rows_view(
                        w.rows@,
                    )[k][j] < self@.modulus,
                self@.modulus == self.modulus,
                self@.rows == self.rows@,
            decreases w.rows@.len() - r,
        {
            let rr = &w.rows[r];
            proof {
                assert(rows_view(w.rows@)[r as int] == w.rows@[r as int]@);
            }
            let a = row_arity_exec(&self.rows[r]);
            if rr.len() != a {
                return false;
            }
            let mut j: usize = 0;
            while j < rr.len()
                invariant
                    j <= rr@.len(),
                    0 <= r < w.rows@.len(),
                    rr@ == w.rows@[r as int]@,
                    rr@ == rows_view(w.rows@)[r as int],
                    self@.modulus == self.modulus,
                    forall|k: int| 0 <= k < j ==> #[trigger] rr@[k] < self.modulus,
                decreases rr@.len() - j,
            {
                if rr[j] >= self.modulus {
                    proof {
                        assert(rows_view(w.rows@)[r as int][j as int] >= self@.modulus);
                    }
                    return false;
                }
                j = j + 1;
            }
            r = r + 1;
        }
        true
    }

    fn check_rows(&self, w: &Witness) -> (ok: bool)
        requires
            self@.wf(),
            witness_shape_ok(self@, w.inputs@, rows_view(w.rows@)),
        ensures
            ok == (forall|i: int|
                0 <= i < self@.rows.len() ==> row_constraint_holds(
                    self@,
                    w.inputs@,
                    rows_view(w.rows@),
                    i,
                )),
    {
        let m = self.modulus;
        let ghost wi = w.inputs@;
        let ghost wr = rows_view(w.rows@);
        let mut i: usize = 0;
        while i < self.rows.len()
            invariant
                self@.wf(),
                witness_shape_ok(self@, wi, wr),
                wi == w.inputs@,
                wr == rows_view(w.rows@),
                m == self@.modulus,
                i <= self@.rows.len(),
                w.rows@.len() == self@.rows.len(),
                forall|k: int| 0 <= k < i ==> row_constraint_holds(self@, wi, wr, k),
                self@.rows == self.rows@,
            decreases self@.rows.len() - i,
        {
            proof {
                assert(self@.row_wf(i as int));
                assert forall|u: Wire| self@.wire_ok(u, i as nat) implies wire_in_bounds(u, wi, wr)
                    && wire_value(u, wi, wr) < m by {
                    lemma_wire_value_canonical(u, wi, wr, m);
                }
            }
            let row = self.rows[i];
            let rr = &w.rows[i];
            proof {
                assert(rows_view(w.rows@)[i as int] == w.rows@[i as int]@);
                assert(rr@.len() == row_arity(self@.rows[i as int]));
            }
            match row {
                Row::Split4 { gate, input } => {
                    let x = read_wire(input, &w.inputs, &w.rows);
                    let mut ws: Vec<u64> = Vec::new();
                    ws.push(x);
                    ws.push(rr[0]);
                    ws.push(rr[1]);
                    ws.push(rr[2]);
                    ws.push(rr[3]);
                    let cs = gate.eval_unfiltered(&ws, m);
                    if cs[0] != 0 {
                        proof {
                        assert(!row_constraint_holds(self@, wi, wr, i as int));
                    }
                    return false;
                    }
                },
                Row::Nibble { gate, input } => {
                    let x = read_wire(input, &w.inputs, &w.rows);
                    let mut ws: Vec<u64> = Vec::new();
                    ws.push(x);
                    ws.push(rr[0]);
                    ws.push(rr[1]);
                    ws.push(rr[2]);
                    ws.push(rr[3]);
                    ws.push(rr[4]);
                    ws.push(rr[5]);
                    ws.push(rr[6]);
                    ws.push(rr[7]);
                    proof {
                        assert(ws@.subrange(1, 9) =~= rr@);
                    }
                    let cs = gate.eval_unfiltered(&ws, m);
                    if cs[0] != 0 {
                        proof {
                        assert(!row_constraint_holds(self@, wi, wr, i as int));
                    }
                    return false;
                    }
                },
                Row::SplitU16 { gate, input } => {
                    let x = read_wire(input, &w.inputs, &w.rows);
                    let mut ws: Vec<u64> = Vec::new();
                    ws.push(x);
                    ws.push(rr[0]);
                    ws.push(rr[1]);
                    let cs = gate.eval_unfiltered(&ws, m);
                    if cs[0] != 0 {
                        proof {
                        assert(!row_constraint_holds(self@, wi, wr, i as int));
                    }
                    return false;
                    }
                },
                Row::U8Spread { gate, input } => {
                    let x = read_wire(input, &w.inputs, &w.rows);
                    let mut ws: Vec<u64> = Vec::new();
                    ws.push(x);
                    ws.push(rr[0]);
                    ws.push(rr[1]);
                    ws.push(rr[2]);
                    ws.push(rr[3]);
                    let cs = gate.eval_unfiltered(&ws, m);
                    if cs[0] != 0 {
                        proof {
                        assert(!row_constraint_holds(self@, wi, wr, i as int));
                    }
                    return false;
                    }
                },
                Row::Constant { value } => {
                    if rr[0] != value {
                        proof {
                        assert(!row_constraint_holds(self@, wi, wr, i as int));
                    }
                    return false;
                    }
                },
                Row::Add { a, b } => {
                    let va = read_wire(a, &w.inputs, &w.rows);
                    let vb = read_wire(b, &w.inputs, &w.rows);
                    if rr[0] != add_mod(va, vb, m) {
                        proof {
                        assert(!row_constraint_holds(self@, wi, wr, i as int));
                    }
                    return false;
                    }
                },
                Row::Sub { a, b } => {
                    let va = read_wire(a, &w.inputs, &w.rows);
                    let vb = read_wire(b, &w.inputs, &w.rows);
                    if rr[0] != sub_mod(va, vb, m) {
                        proof {
                        assert(!row_constraint_holds(self@, wi, wr, i as int));
                    }
                    return false;
                    }
                },
                Row::Add3 { a, b, c } => {
                    let va = read_wire(a, &w.inputs, &w.rows);
                    let vb = read_wire(b, &w.inputs, &w.rows);
                    let vc = read_wire(c, &w.inputs, &w.rows);
                    if rr[0] != add3_mod(va, vb, vc, m) {
                        proof {
                        assert(!row_constraint_holds(self@, wi, wr, i as int));
                    }
                    return false;
                    }
                },
                Row::MulAdd { a, b, c } => {
                    let va = read_wire(a, &w.inputs, &w.rows);
                    let vb = read_wire(b, &w.inputs, &w.rows);
                    let vc = read_wire(c, &w.inputs, &w.rows);
                    if rr[0] != mul_add_mod(va, vb, vc, m) {
                        proof {
                        assert(!row_constraint_holds(self@, wi, wr, i as int));
                    }
                    return false;
                    }
                },
                Row::Lookup { input, table_idx } => {
                    let v = read_wire(input, &w.inputs, &w.rows);
                    proof {
                        assert(self@.tables[table_idx as int] == self.tables@[table_idx as int]@);
                    }
                    let t = &self.tables[table_idx];
                    if !(v < t.len() as u64) {
                        proof {
                        assert(!row_constraint_holds(self@, wi, wr, i as int));
                    }
                    return false;
                    }
                    if rr[0] != t[v as usize] {
                        proof {
                        assert(!row_constraint_holds(self@, wi, wr, i as int));
                    }
                    return false;
                    }
                },
            }
            proof {
                assert(row_constraint_holds(self@, wi, wr, i as int));
            }
            i = i + 1;
        }
        true
    }

    fn check_connects(&self, w: &Witness) -> (ok: bool)
        requires
            self@.wf(),
            witness_shape_ok(self@, w.inputs@, rows_view(w.rows@)),
        ensures
            ok == (forall|i: int|
                0 <= i < self@.connects.len() ==> wire_value(
                    #[trigger] self@.connects[i].0,
                    w.inputs@,
                    rows_view(w.rows@),
                ) == wire_value(self@.connects[i].1, w.inputs@, rows_view(w.rows@))),
    {
        let ghost wi = w.inputs@;
        let ghost wr = rows_view(w.rows@);
        let mut i: usize = 0;
        while i < self.connects.len()
            invariant
                self@.wf(),
                witness_shape_ok(self@, wi, wr),
                wi == w.inputs@,
                wr == rows_view(w.rows@),
                i <= self@.connects.len(),
                self@.connects == self.connects@,
                forall|k: int|
                    0 <= k < i ==> wire_value(#[trigger] self@.connects[k].0, wi, wr) == wire_value(
                        self@.connects[k].1,
                        wi,
                        wr,
                    ),
            decreases self@.connects.len() - i,
        {
            let (a, b) = self.connects[i];
            proof {
                assert(self@.valid_wire(a) && self@.valid_wire(b));
            }
            let va = read_wire(a, &w.inputs, &w.rows);
            let vb = read_wire(b, &w.inputs, &w.rows);
            if va != vb {
                return false;
            }
            i = i + 1;
        }
        true
    }

    fn check_ranges(&self, w: &Witness) -> (ok: bool)
        requires
            self@.wf(),
            witness_shape_ok(self@, w.inputs@, rows_view(w.rows@)),
        ensures
            ok == (forall|i: int|
                0 <= i < self@.range_checks.len() ==> (wire_value(
                    #[trigger] self@.range_checks[i].0,
                    w.inputs@,
                    rows_view(w.rows@),
                ) as nat) < pow2(self@.range_checks[i].1 as nat)),
    {
        let ghost wi = w.inputs@;
        let ghost wr = rows_view(w.rows@);
        let mut i: usize = 0;
        while i < self.range_checks.len()
            invariant
                self@.wf(),
                witness_shape_ok(self@, wi, wr),
                wi == w.inputs@,
                wr == rows_view(w.rows@),
                i <= self@.range_checks.len(),
                self@.range_checks == self.range_checks@,
                forall|k: int|
                    0 <= k < i ==> (wire_value(#[trigger] self@.range_checks[k].0, wi, wr) as nat)
                        < pow2(self@.range_checks[k].1 as nat),
            decreases self@.range_checks.len() - i,
        {
            let (a, bits) = self.range_checks[i];
            proof {
                assert(self@.valid_wire(a) && bits < 64);
                lemma_u64_pow2_no_overflow(bits as nat);
                lemma_u64_shl_is_mul(1u64, bits as u64);
                lemma_pow2_pos(bits as nat);
            }
            let va = read_wire(a, &w.inputs, &w.rows);
            if !(va < (1u64 << (bits as u64))) {
                return false;
            }
            i = i + 1;
        }
        true
    }

    /// Accepts an assignment exactly when every recorded constraint holds of
    /// it: a malformed witness is rejected, never coerced.
    pub fn check_witness(&self, w: &Witness) -> (ok: bool)
        requires
            self@.wf(),
        ensures
            ok == satisfies(self@, w.inputs@, rows_view(w.rows@)),
    {
        if !self.check_shape(w) {
            return false;
        }
        if !self.check_rows(w) {
            return false;
        }
        if !self.check_connects(w) {
            return false;
        }
        if !self.check_ranges(w) {
            return false;
        }
        true
    }
}

/// Circuit-level soundness of the spread split: in any assignment the
/// checker accepts — generated or adversarial — a spread-split row whose two
/// packed wires are bound through a spread table is completely pinned.  The
/// input wire is forced below `2^16` and all four cells equal what the
/// generator would have written, although the row's own constraint is a
/// single linear identity.
pub proof fn lemma_spread_split_row_sound(
    c: CircuitView,
    wi: Seq<u64>,
    wr: Seq<Seq<u64>>,
    i: int,
    le: int,
    lo: int,
    j1: int,
    j2: int,
)
    requires
        satisfies(c, wi, wr),
        c.modulus > 0xFFFF_FFFF,
        0 <= i < c.rows.len(),
        i <= usize::MAX,
        c.rows[i] is U8Spread,
        0 <= le < c.rows.len(),
        le <= usize::MAX,
        0 <= lo < c.rows.len(),
        lo <= usize::MAX,
        c.rows[le] == (Row::Lookup {
            input: Wire::Cell { row: i as usize, col: 2 },
            table_idx: c.rows[i]->U8Spread_gate.table_idx,
        }),
        c.rows[lo] == (Row::Lookup {
            input: Wire::Cell { row: i as usize, col: 3 },
            table_idx: c.rows[i]->U8Spread_gate.table_idx,
        }),
        0 <= j1 < c.connects.len(),
        0 <= j2 < c.connects.len(),
        c.connects[j1] == (
            Wire::Cell { row: le as usize, col: 0 },
            Wire::Cell { row: i as usize, col: 0 },
        ),
        c.connects[j2] == (
            Wire::Cell { row: lo as usize, col: 0 },
            Wire::Cell { row: i as usize, col: 1 },
        ),
        crate::spread::is_spread_table(c.tables[c.rows[i]->U8Spread_gate.table_idx as int]),
    ensures
        wire_value(c.rows[i]->U8Spread_input, wi, wr) < 0x10000,
        wr[i] == u8_spread_outputs(wire_value(c.rows[i]->U8Spread_input, wi, wr)),
{
    let gate = c.rows[i]->U8Spread_gate;
    let input = c.rows[i]->U8Spread_input;
    let t = c.tables[gate.table_idx as int];
    let x = wire_value(input, wi, wr);
    let m = c.modulus;
    lemma_wire_value_canonical(input, wi, wr, m);
    assert(row_constraint_holds(c, wi, wr, i));
    assert(row_constraint_holds(c, wi, wr, le));
    assert(row_constraint_holds(c, wi, wr, lo));
    assert(wr[i].len() == 4);
    assert(wr[le].len() == 1);
    assert(wr[lo].len() == 1);
    // the lookups read the packed cells and write the certified entries
    assert(wire_value(Wire::Cell { row: i as usize, col: 2 }, wi, wr) == wr[i][2]);
    assert(wire_value(Wire::Cell { row: i as usize, col: 3 }, wi, wr) == wr[i][3]);
    assert(wr[i][2] < t.len());
    assert(wr[le][0] == t[wr[i][2] as int]);
    assert(wr[i][3] < t.len());
    assert(wr[lo][0] == t[wr[i][3] as int]);
    // the connections identify the certified entries with the spread cells
    assert(wire_value(c.connects[j1].0, wi, wr) == wire_value(c.connects[j1].1, wi, wr));
    assert(wire_value(c.connects[j2].0, wi, wr) == wire_value(c.connects[j2].1, wi, wr));
    assert(wr[le][0] == wr[i][0]);
    assert(wr[lo][0] == wr[i][1]);
    crate::gates::lemma_u8_spread_constraints_pin_witness(
        x,
        wr[i][0],
        wr[i][1],
        wr[i][2],
        wr[i][3],
        t,
        m,
    );
    assert(wr[i] =~= u8_spread_outputs(x));
}

} // verus!
