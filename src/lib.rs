//! IEEE-754 single-precision arithmetic on raw 32-bit encodings.
//!
//! Every operation takes the bit patterns of two `binary32` values and returns
//! the bit pattern of the correctly rounded result (round to nearest, ties to
//! even). The arithmetic is carried out on integers only, and each operation is
//! proved equal to the mathematical model in [`model`].
//!
//! Special values follow IEEE-754: overflow gives a signed infinity, results
//! below the normal range are subnormal or a signed zero, a NaN operand comes
//! back quieted with its payload, and invalid operations (`0/0`, `inf - inf`,
//! `0 * inf`, `inf/inf`) give the quiet NaN `0x7FC0_0000`.
pub mod model;
pub mod round;
pub mod ops;
pub mod laws;

pub use ops::{float_add, float_div, float_mul, float_sub};
