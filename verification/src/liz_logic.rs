//! The sense of a test: kept as is, or swapped.

use vstd::prelude::*;

verus! {

/// Whether a test is taken as it is or negated.
#[derive(Debug, Clone, Copy, PartialEq, Eq, Structural)]
pub enum Sense {
    Same,
    Swap,
}

/// The value of a test taken in a sense.
pub open spec fn spec_sense_apply(sense: Sense, apply_to: bool) -> bool {
    if sense == Sense::Same {
        apply_to
    } else {
        !apply_to
    }
}

/// The sense that keeps a test.
pub fn sense_same() -> (r: Sense)
    ensures
        r == Sense::Same,
{
    Sense::Same
}

/// The sense that negates a test.
pub fn sense_swap() -> (r: Sense)
    ensures
        r == Sense::Swap,
{
    Sense::Swap
}

/// Applies a sense to the value of a test.
pub fn sense_apply(sense: Sense, apply_to: bool) -> (r: bool)
    ensures
        r == spec_sense_apply(sense, apply_to),
{
    if sense == Sense::Same {
        apply_to
    } else {
        !apply_to
    }
}

/// Swapping twice gives back the value of the test.
pub proof fn law_sense_swap_twice(apply_to: bool)
    ensures
        spec_sense_apply(Sense::Swap, spec_sense_apply(Sense::Swap, apply_to)) == apply_to,
        spec_sense_apply(Sense::Same, apply_to) == apply_to,
{
}

} // verus!
