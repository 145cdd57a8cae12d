use vstd::prelude::*;

pub mod value;
pub mod parse;
pub mod emit;
pub mod hash;
pub mod laws;
pub mod metainfo;

verus! {

/// Maximum nesting depth the decoder accepts before failing with
/// `RecursionLimitExceeded`.
pub const DEPTH_LIMIT: usize = 200;

} // verus!
