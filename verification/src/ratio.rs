//! Exact fractions.

use vstd::prelude::*;

verus! {

/// The fraction `numerator / denominator`, with a denominator other than zero.
#[derive(Debug, Clone, Copy, PartialEq, Eq, Structural)]
pub struct Ratio {
    pub numerator: u64,
    pub denominator: u64,
}

} // verus!
