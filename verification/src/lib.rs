//! Signed fixed-width (4096-bit) integer arithmetic for protocol code.
//!
//! The crate provides a sign-magnitude integer backend over a fixed sequence
//! of 64-bit limbs, together with the capability contract (`Z`) that any
//! interchangeable integer representation has to satisfy.

pub mod bignum4096;
pub mod bridge;
pub mod limbs;
pub mod z;

pub use crate::bignum4096::Bignum4096;
pub use crate::bridge::convert;
pub use crate::bridge::inverse_convert;
pub use crate::limbs::val_range;
pub use crate::z::EuclideanDivResult;
pub use crate::z::ExtendedGCDResult;
pub use crate::z::Z;
