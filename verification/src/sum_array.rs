//! Summation of an array of 64-bit words.
//!
//! The parallel runtimes split the array into chunks and add the partial
//! sums into one shared counter; whatever the split, the result is the
//! wrapping sum of the whole array, which these sequential functions
//! compute and are specified against.

use crate::scan::{fold_sequential, wsum};
use vstd::prelude::*;

verus! {

/// The sequential reference: the wrapping sum of the array.
pub fn reference_sequential_single(array: &Vec<u64>) -> (r: u64)
    ensures
        r == wsum(array@),
{
    fold_sequential(array)
}

/// What every parallel split of the summation adds up to: the same
/// wrapping sum of the whole array.
pub fn sum(array: &Vec<u64>) -> (r: u64)
    ensures
        r == wsum(array@),
{
    fold_sequential(array)
}

} // verus!
