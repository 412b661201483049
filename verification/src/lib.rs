//! Two small deterministic pseudo-random generators whose transition is an
//! integer avalanche function: `Mixer32` keeps 32 bits of state, `Mixer64`
//! keeps 64. Both are seedable random sources in the sense of `rand_core`.
use vstd::prelude::*;

pub mod byte_order;
pub mod mixer32;
pub mod mixer64;

pub use mixer32::{Mixer32, Seed32};
pub use mixer64::{Mixer64, Seed64};

verus! {

/// The error type of `rand_core`'s fallible byte fill. The generators never
/// produce one; the type is only carried in a signature.
#[verifier::external_type_specification]
#[verifier::external_body]
pub struct ExError(rand_core::Error);

} // verus!
