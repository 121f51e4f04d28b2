pub mod elo;
pub mod models;
pub mod store;
pub mod ranking;
pub mod farm;
pub mod laws;
pub mod naming;
pub mod generation;

use vstd::prelude::*;

verus! {

/// The number of places in the ranking; fractals ranked below it drop out.
pub const MAX: i64 = 100;

} // verus!
