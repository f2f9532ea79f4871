//! The source of uniform randomness that the partition draws from.

use rand::rngs::StdRng;
use vstd::prelude::*;

use crate::geometry::{Line, NUM_LINES};

verus! {

/// The standard generator of the `rand` crate, carried through as an opaque
/// value.
#[verifier::external_type_specification]
#[verifier::external_body]
pub struct ExStdRng(StdRng);

/// Calls `rand::Rng::gen_range` on the half-open range `0..bound`. Trusted:
/// the value drawn lies in that range, so it is below `bound`. The range
/// must not be empty, for `gen_range` panics on an empty range.
#[verifier::external_body]
pub(crate) fn random_below(rng: &mut StdRng, bound: usize) -> (r: usize)
    requires
        bound > 0,
    ensures
        r < bound,
{
    rand::Rng::gen_range(rng, 0..bound)
}

/// Draws one of the 1080 lines, each equally likely.
pub fn random_line(rng: &mut StdRng) -> (line: Line)
    ensures
        line.0 < 1080,
{
    Line(random_below(rng, NUM_LINES))
}

} // verus!
