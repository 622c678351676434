use vstd::prelude::*;

pub mod records;
pub mod stats;
pub mod cleaning;
pub mod laws;
pub mod analysis;
pub mod ranking;
pub mod regression;
pub mod summary;
pub mod parse;

verus! {

/// Rounds `a / b` to the nearest integer, halves away from zero.
pub open spec fn round_div(a: int, b: int) -> int
    recommends
        b > 0,
{
    if a >= 0 {
        (2 * a + b) / (2 * b)
    } else {
        -((-2 * a + b) / (2 * b))
    }
}

} // verus!
