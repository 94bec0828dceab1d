//! The per-frame preparation of a peak list: bounding, then normalizing, each cached.

use crate::bounder::{bounded, Bounded, Bounder, Bounds};
use crate::frame_cache::{requested, Computer};
use crate::normalizer::{normalized, Normalized, Normalizer, Ratio};
use std::collections::BTreeMap;
use vstd::prelude::*;

verus! {

/// One frame's preparation of a peak list for drawing: the peaks inside `bounds`, rescaled
/// against the tallest of them, each step taken from its cache when it was asked for before.
pub fn transform<'a>(
    bounded_cache: &mut Bounded,
    normalized_cache: &'a mut Normalized,
    peaks: &BTreeMap<u64, u64>,
    bounds: Bounds,
    percent: bool,
) -> (r: &'a BTreeMap<u64, Ratio>)
    requires
        old(bounded_cache).well_formed(),
        old(normalized_cache).well_formed(),
    ensures
        r@ == normalized(bounded(peaks@, bounds), percent),
        final(bounded_cache).well_formed(),
        final(normalized_cache).well_formed(),
        final(bounded_cache)@ == requested(
            old(bounded_cache)@,
            (peaks@, bounds),
            Bounder::spec_compute((peaks@, bounds)),
        ),
        final(normalized_cache)@ == requested(
            old(normalized_cache)@,
            (bounded(peaks@, bounds), percent),
            Normalizer::spec_compute((bounded(peaks@, bounds), percent)),
        ),
{
    let inside = bounded_cache.get((peaks.clone(), bounds)).clone();
    normalized_cache.get((inside, percent))
}

} // verus!
