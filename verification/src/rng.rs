//! The process-wide random source behind the generator.

use vstd::prelude::*;

verus! {

use crate::filter::SCALE;

/// Relies on `rand::random`: one fresh draw from the thread-local generator.
/// Nothing is promised of the value; callers state what holds of every
/// outcome.
pub assume_specification<T>[ rand::random::<T> ]() -> (r: T)
    where
        rand::distributions::Standard: rand::distributions::Distribution<T>,
;

/// One white sample: a draw reduced to the fixed-point range `[0, SCALE)`.
pub fn next_white() -> (w: u32)
    ensures
        w < SCALE,
{
    rand::random::<u32>() % 10_000_000u32
}

} // verus!
