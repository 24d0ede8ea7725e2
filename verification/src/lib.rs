//! Arbitrary-precision signed integers.
//!
//! A value is a sign together with a magnitude stored as base-`BASE` chunks,
//! each chunk packing eighteen decimal digits into a machine word. The crate
//! offers construction from decimal text, canonical rendering back to text,
//! magnitude comparison, and the three arithmetic operations addition,
//! subtraction and multiplication, each verified against the mathematical
//! integer value of its operands.

pub mod bignum;
pub mod mag;
pub mod ops;
pub mod text;
