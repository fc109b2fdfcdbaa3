//! `scalbnf` for IEEE-754 binary32 values, computed on their bit patterns.
//!
//! A single-precision value is carried as its 32-bit pattern (`u32`): one sign
//! bit, an 8-bit biased exponent and a 23-bit fraction. Scaling by a power of
//! two rewrites the exponent field, renormalising subnormal inputs, rounding
//! subnormal results to nearest (ties to even), and saturating to a signed
//! infinity or a signed zero outside the representable range.
pub mod binary32;
pub mod laws;
pub mod rounding;
pub mod scale;

pub use scale::scalbnf;
