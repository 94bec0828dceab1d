//! Restricting a peak list to a window of the mass axis.

use std::collections::BTreeMap;
use crate::frame_cache::{Computer, FrameCache};
use crate::spectrum::same_peaks;
use vstd::prelude::*;

verus! {

/// An inclusive interval `[start, end]` on the mass axis.
#[derive(Clone, Copy, Debug, PartialEq, Eq, Hash, Structural)]
pub struct Bounds {
    pub start: u64,
    pub end: u64,
}

impl View for Bounds {
    type V = Bounds;

    open spec fn view(&self) -> Bounds {
        *self
    }
}

impl Bounds {
    /// Whether `mass` lies in the interval.
    pub open spec fn contains_mass(self, mass: u64) -> bool {
        self.start <= mass <= self.end
    }
}

/// The peaks of `peaks` whose mass lies in `bounds`, with their intensities.
pub open spec fn bounded(peaks: Map<u64, u64>, bounds: Bounds) -> Map<u64, u64> {
    peaks.restrict(peaks.dom().filter(|mass: u64| bounds.contains_mass(mass)))
}

/// Relies on `BTreeMap::split_off`: the map keeps the keys below `at`, and the returned
/// map holds the keys from `at` on, with their values.
#[verifier::external_body]
fn split_off(peaks: &mut BTreeMap<u64, u64>, at: u64) -> (above: BTreeMap<u64, u64>)
    ensures
        final(peaks)@ == old(peaks)@.restrict(old(peaks)@.dom().filter(|k: u64| k < at)),
        above@ == old(peaks)@.restrict(old(peaks)@.dom().filter(|k: u64| k >= at)),
{
    peaks.split_off(&at)
}

/// Restricts `peaks` to the masses in `bounds`; with `start > end` the result is empty.
pub fn bound(peaks: &BTreeMap<u64, u64>, bounds: &Bounds) -> (r: BTreeMap<u64, u64>)
    ensures
        r@ == bounded(peaks@, *bounds),
        forall|mass: u64| #[trigger]
            r@.contains_key(mass) ==> bounds.contains_mass(mass) && peaks@.contains_key(mass)
                && r@[mass] == peaks@[mass],
        forall|mass: u64| #[trigger]
            peaks@.contains_key(mass) ==> (r@.contains_key(mass) <==> bounds.contains_mass(mass)),
{
    let mut below = peaks.clone();
    let mut kept = split_off(&mut below, bounds.start);
    if bounds.end < u64::MAX {
        let _above = split_off(&mut kept, bounds.end + 1);
    }
    assert(kept@ =~= bounded(peaks@, *bounds));
    kept
}

/// Bounding a bounded peak list again by the same interval changes nothing.
pub proof fn lemma_bound_idempotent(peaks: Map<u64, u64>, bounds: Bounds)
    ensures
        bounded(bounded(peaks, bounds), bounds) == bounded(peaks, bounds),
{
    assert(bounded(bounded(peaks, bounds), bounds) =~= bounded(peaks, bounds));
}

/// The computation of [`bound`], for a [`FrameCache`]; its input is a peak list and an
/// interval.
pub struct Bounder;

impl Computer for Bounder {
    type Input = (BTreeMap<u64, u64>, Bounds);

    type Output = BTreeMap<u64, u64>;

    open spec fn spec_compute(input: (Map<u64, u64>, Bounds)) -> Map<u64, u64> {
        bounded(input.0, input.1)
    }

    fn compute(input: &(BTreeMap<u64, u64>, Bounds)) -> (r: BTreeMap<u64, u64>) {
        bound(&input.0, &input.1)
    }

    fn same_input(a: &(BTreeMap<u64, u64>, Bounds), b: &(BTreeMap<u64, u64>, Bounds)) -> (r:
        bool) {
        a.1 == b.1 && same_peaks(&a.0, &b.0)
    }
}

/// A per-frame cache of bounded peak lists.
pub type Bounded = FrameCache<Bounder>;

} // verus!
