use vstd::prelude::*;

verus! {

/// The coordinate that stands for the negative zero of the scale.
pub const NEGATIVE_ZERO: i64 = -1;

/// The coordinate that stands for the zero of the scale.
pub const ZERO: i64 = 0;

/// The place of a coordinate on the scale. Coordinates are ordered by their
/// places. The two zeros have one place; every other coordinate has a place
/// of its own.
pub open spec fn rank(c: i64) -> i64 {
    if c == NEGATIVE_ZERO {
        ZERO
    } else {
        c
    }
}

/// Computes the place of a coordinate on the scale.
pub fn rank_of(c: i64) -> (place: i64)
    ensures
        place == rank(c),
{
    if c == NEGATIVE_ZERO {
        ZERO
    } else {
        c
    }
}

} // verus!
