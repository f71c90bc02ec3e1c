//! The working field, reduced to what linear gate constraints need: canonical
//! `u64` values below a modulus, with addition, subtraction and multiply-add
//! performed modulo it, and a degree-D extension handled componentwise.
//!
//! Choosing the modulus is the caller's business; the standard configuration
//! uses the order of the field the surrounding proof system works in.  Every
//! identity this crate states about constraints is modular arithmetic over
//! these values.

use vstd::prelude::*;
use vstd::arithmetic::div_mod::{
    lemma_mod_division_less_than_divisor, lemma_mod_multiples_vanish, lemma_small_mod,
};

verus! {

/// Order of the 64-bit field the standard configuration works in.
pub const STANDARD_MODULUS: u64 = 0xFFFF_FFFF_0000_0001;

/// Construction parameters handed to gates and builders.  The gates' layout
/// does not depend on it; the modulus tells witness generation and constraint
/// checking which field they compute in.
#[derive(Clone, Copy, Debug, PartialEq, Eq, Structural)]
pub struct CircuitConfig {
    pub modulus: u64,
}

impl CircuitConfig {
    /// A circuit configuration is usable when a 32-bit word is canonical.
    pub open spec fn wf(self) -> bool {
        self.modulus > 0xFFFF_FFFF
    }

    /// The configuration used when none is supplied.
    pub fn standard_recursion_config() -> (c: CircuitConfig)
        ensures
            c.modulus == STANDARD_MODULUS,
            c.wf(),
    {
        CircuitConfig { modulus: STANDARD_MODULUS }
    }
}

/// `(a + b) mod m`.
pub open spec fn add_f(a: nat, b: nat, m: nat) -> nat {
    (a + b) % m
}

/// `(a - b) mod m`, for canonical `b`.
pub open spec fn sub_f(a: nat, b: nat, m: nat) -> nat {
    ((a + m - b) % (m as int)) as nat
}

/// `(a·b + c) mod m`.
pub open spec fn mul_add_f(a: nat, b: nat, c: nat, m: nat) -> nat {
    (a * b + c) % m
}

/// The subtraction residual is zero exactly on equal canonical values: the
/// fact that lets a single field equation pin a wire.
pub proof fn lemma_sub_f_zero(a: nat, b: nat, m: nat)
    requires
        a < m,
        b < m,
    ensures
        sub_f(a, b, m) == 0 <==> a == b,
{
    if a == b {
        assert(a + m - b == m);
        lemma_mod_multiples_vanish(1, 0, m as int);
        lemma_small_mod(0, m);
    } else if a > b {
        lemma_mod_multiples_vanish(1, (a - b) as int, m as int);
        lemma_small_mod((a - b) as nat, m);
    } else {
        lemma_small_mod((a + m - b) as nat, m);
    }
}

/// Subtraction without wrap: on ordered canonical values the field
/// difference is the integer difference.
pub proof fn lemma_sub_f_exact(a: nat, b: nat, m: nat)
    requires
        b <= a < m,
    ensures
        sub_f(a, b, m) == a - b,
{
    lemma_mod_multiples_vanish(1, (a - b) as int, m as int);
    lemma_small_mod((a - b) as nat, m);
}

/// Computes `(a + b) mod m` on canonical values.
pub fn add_mod(a: u64, b: u64, m: u64) -> (r: u64)
    requires
        a < m,
        b < m,
    ensures
        r as nat == add_f(a as nat, b as nat, m as nat),
        r < m,
{
    let s: u128 = a as u128 + b as u128;
    let r: u128 = s % (m as u128);
    proof {
        lemma_mod_division_less_than_divisor(s as int, m as int);
    }
    r as u64
}

/// Computes `(a + b + c) mod m` on canonical values.
pub fn add3_mod(a: u64, b: u64, c: u64, m: u64) -> (r: u64)
    requires
        a < m,
        b < m,
        c < m,
    ensures
        r as nat == (a as nat + b as nat + c as nat) % m as nat,
        r < m,
{
    let s: u128 = a as u128 + b as u128 + c as u128;
    let r: u128 = s % (m as u128);
    proof {
        lemma_mod_division_less_than_divisor(s as int, m as int);
    }
    r as u64
}

/// Computes `(a - b) mod m` on canonical values.
pub fn sub_mod(a: u64, b: u64, m: u64) -> (r: u64)
    requires
        a < m,
        b < m,
    ensures
        r as nat == sub_f(a as nat, b as nat, m as nat),
        r < m,
{
    let s: u128 = a as u128 + m as u128 - b as u128;
    let r: u128 = s % (m as u128);
    proof {
        lemma_mod_division_less_than_divisor(s as int, m as int);
    }
    r as u64
}

/// Computes `(a·b + c) mod m` on canonical values.
pub fn mul_add_mod(a: u64, b: u64, c: u64, m: u64) -> (r: u64)
    requires
        a < m,
        b < m,
        c < m,
    ensures
        r as nat == mul_add_f(a as nat, b as nat, c as nat, m as nat),
        r < m,
{
    proof {
        assert(a as nat * b as nat + c as nat <= 0xFFFF_FFFF_FFFF_FFFFnat * 0xFFFF_FFFF_FFFF_FFFF
            + 0xFFFF_FFFF_FFFF_FFFF) by (nonlinear_arith)
            requires
                a <= 0xFFFF_FFFF_FFFF_FFFFu64,
                b <= 0xFFFF_FFFF_FFFF_FFFFu64,
                c <= 0xFFFF_FFFF_FFFF_FFFFu64,
        ;
    }
    let s: u128 = a as u128 * b as u128 + c as u128;
    let r: u128 = s % (m as u128);
    proof {
        lemma_mod_division_less_than_divisor(s as int, m as int);
    }
    r as u64
}

/// An element of the degree-D extension of the field, as its D coefficients.
/// Constraints are evaluated over it componentwise.
#[derive(Clone, Debug, PartialEq, Eq)]
pub struct ExtensionElem {
    pub coeffs: Vec<u64>,
}

impl View for ExtensionElem {
    type V = Seq<u64>;

    open spec fn view(&self) -> Seq<u64> {
        self.coeffs@
    }
}

impl ExtensionElem {
    /// Canonical form: every coefficient reduced.
    pub open spec fn wf(self, m: u64) -> bool {
        forall|i: int| 0 <= i < self@.len() ==> #[trigger] self@[i] < m
    }
}

} // verus!
