//! Integer factorization by Lenstra's elliptic curve method.
use vstd::prelude::*;

pub mod natural;
pub mod modular;
pub mod point;
pub mod ecm;

verus! {

} // verus!
