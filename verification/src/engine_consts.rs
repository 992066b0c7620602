//! Process-wide configuration of the engine.
use vstd::prelude::*;

verus! {

/// The quote currency every market settles in.
pub const BASE_CURRENCY: &'static str = "INR";

} // verus!
