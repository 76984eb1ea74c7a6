use vstd::prelude::*;

pub mod dsa;
pub mod lc;

verus! {

/// The owner of the puzzle solutions.
pub struct Solution;

} // verus!
