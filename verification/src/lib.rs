//! Fiat-Shamir sumcheck with a univariate skip over the Goldilocks field.
use vstd::prelude::*;

pub mod field;
pub mod ext;
pub mod keccak;
pub mod transcript;
pub mod sums;
pub mod skip;
pub mod rounds;
pub mod protocol;
pub mod verify;
pub mod args;
pub mod algebra;
pub mod poly;
pub mod interp;
pub mod bary;
pub mod msgpoly;
pub mod completeness;
pub mod units;
pub mod acceptance;

verus! {

} // verus!
