//! Prime-power factorization of wide unsigned integers by trial division,
//! with a sequential scan and a data-parallel candidate search that produce
//! the same kind of result: the original number together with a mapping from
//! each discovered factor to its multiplicity.

pub mod engine;
pub mod factorization;
pub mod laws;
pub mod model;
pub mod primes;

pub use engine::{parallel_factorization, serial_factorization};
pub use factorization::{Factorization, PartialFactorization};

use vstd::prelude::*;

verus! {

} // verus!
