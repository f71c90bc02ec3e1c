//! Building blocks for arithmetic circuits that slice 32-bit words into
//! narrower lanes: split gates with their witness-computation routines, a
//! spread bit-encoding with a lookup table certifying its round trip, and
//! gadgets that assemble three-operand XOR, majority and choose out of them.

use vstd::prelude::*;

pub mod bitmath;
pub mod circuit;
pub mod field;
pub mod gadgets;
pub mod gates;
pub mod mixing;
pub mod serial;
pub mod spread;

verus! {

/// A 32-bit word fits below this bound.
pub const WORD_BOUND: u64 = 0x1_0000_0000;

} // verus!
