//! Bit-exact codec between arbitrary-precision integers and fixed-width-word
//! finite-field elements, for multi-limb (non-native) arithmetic in
//! zero-knowledge proof circuits.
//!
//! A value too wide for a single circuit cell is split into an ordered,
//! least-significant-first sequence of limbs of a chosen bit width, and the
//! split is exactly reversible: composing the limbs with the same bit width
//! reproduces the value truncated to `number_of_limbs * bit_len` bits.

pub use halo2_axiom::halo2curves::CurveAffineExt;

pub mod arith;
pub mod bigint;
pub mod bits;
pub mod convert;
pub mod decompose;
pub mod field;
pub mod limbs;
pub mod traits;
