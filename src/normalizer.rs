//! Rescaling a peak list's intensities against its tallest peak, as exact fractions.

use std::collections::BTreeMap;
use crate::frame_cache::{Computer, FrameCache};
use crate::spectrum::same_peaks;
use vstd::prelude::*;
use vstd::std_specs::btree::spec_btree_map_iter;
use vstd::std_specs::iter::IteratorSpec;

verus! {

/// An exact non-negative fraction `numerator / denominator`; the denominator is never zero.
#[derive(Clone, Copy, Debug, PartialEq, Eq, Hash, Structural)]
pub struct Ratio {
    pub numerator: u128,
    pub denominator: u64,
}

/// The factor of the output scale: `100` in percent mode, `1` in fraction mode.
pub open spec fn scale(percent: bool) -> nat {
    if percent {
        100
    } else {
        1
    }
}

/// Whether `max` is the largest intensity of `peaks`, or `0` when `peaks` is empty.
pub open spec fn is_max_intensity(peaks: Map<u64, u64>, max: u64) -> bool {
    &&& forall|mass: u64| #[trigger] peaks.contains_key(mass) ==> peaks[mass] <= max
    &&& (peaks.dom().len() == 0 ==> max == 0)
    &&& (peaks.dom().len() != 0 ==> exists|mass: u64| #[trigger]
        peaks.contains_key(mass) && peaks[mass] == max)
}

/// The largest intensity of a (finite) peak list, `0` when it is empty.
pub open spec fn max_intensity_of(peaks: Map<u64, u64>) -> u64 {
    choose|max: u64| is_max_intensity(peaks, max)
}

/// What one intensity becomes against the maximum `max`: `scale * intensity / max`,
/// and `0` for every peak when the maximum is `0`.
pub open spec fn rescaled(intensity: u64, max: u64, percent: bool) -> Ratio {
    if max == 0 {
        Ratio { numerator: 0, denominator: 1 }
    } else {
        Ratio { numerator: (scale(percent) * intensity) as u128, denominator: max }
    }
}

/// The normalized peak list: same masses, each intensity rescaled against the maximum.
pub open spec fn normalized(peaks: Map<u64, u64>, percent: bool) -> Map<u64, Ratio> {
    peaks.map_values(|intensity: u64| rescaled(intensity, max_intensity_of(peaks), percent))
}

impl Ratio {
    /// Whether the fraction lies in `[0, scale]`, with a denominator that is not zero.
    pub open spec fn within_scale(self, percent: bool) -> bool {
        self.denominator > 0 && self.numerator <= scale(percent) * self.denominator
    }

    /// Whether the fraction equals the full scale, `1` or `100`.
    pub open spec fn is_full_scale(self, percent: bool) -> bool {
        self.denominator > 0 && self.numerator == scale(percent) * self.denominator
    }
}

/// Any two candidates for the maximum of one peak list are the same value.
pub proof fn lemma_max_unique(peaks: Map<u64, u64>, a: u64, b: u64)
    requires
        peaks.dom().finite(),
        is_max_intensity(peaks, a),
        is_max_intensity(peaks, b),
    ensures
        a == b,
{
    if peaks.dom().len() == 0 {
    } else {
        let ka = choose|mass: u64| #[trigger] peaks.contains_key(mass) && peaks[mass] == a;
        let kb = choose|mass: u64| #[trigger] peaks.contains_key(mass) && peaks[mass] == b;
        assert(peaks[ka] <= b);
        assert(peaks[kb] <= a);
    }
}

/// The largest intensity in `peaks`, `0` when there is none.
pub fn max_intensity(peaks: &BTreeMap<u64, u64>) -> (max: u64)
    ensures
        max == max_intensity_of(peaks@),
        is_max_intensity(peaks@, max),
{
    let mut max: u64 = 0;
    let entries_iter = peaks.iter();
    let ghost entries = entries_iter.remaining();
    let ghost mut seen: int = 0;
    for (mass, intensity) in it: entries_iter
        invariant
            it.seq() == entries,
            seen == it.index(),
            forall|i: int| 0 <= i < seen ==> *(#[trigger] entries[i]).1 <= max,
            seen == 0 ==> max == 0,
            seen > 0 ==> exists|i: int| 0 <= i < seen && *(#[trigger] entries[i]).1 == max,
    {
        if *intensity > max {
            max = *intensity;
        }
        proof {
            seen = seen + 1;
        }
    }
    proof {
        assert(seen == entries.len());
        assert(entries.len() == peaks@.dom().len());
        assert forall|mass: u64| #[trigger] peaks@.contains_key(mass) implies peaks@[mass] <= max by {
            assert(entries.contains((&mass, &peaks@[mass])));
            let i = choose|i: int| 0 <= i < entries.len() && entries[i] == (&mass, &peaks@[mass]);
            assert(*entries[i].1 <= max);
        }
        if peaks@.dom().len() != 0 {
            let i = choose|i: int| 0 <= i < seen && *(#[trigger] entries[i]).1 == max;
            assert(peaks@.contains_key(*entries[i].0));
        }
        assert(is_max_intensity(peaks@, max));
        lemma_max_unique(peaks@, max, max_intensity_of(peaks@));
    }
    max
}

/// What one intensity becomes against the maximum `max`.
fn rescale(intensity: u64, max: u64, percent: bool) -> (r: Ratio)
    ensures
        r == rescaled(intensity, max, percent),
{
    if max == 0 {
        Ratio { numerator: 0, denominator: 1 }
    } else {
        let factor: u128 = if percent {
            100
        } else {
            1
        };
        Ratio { numerator: factor * (intensity as u128), denominator: max }
    }
}

/// Rescales every intensity of `peaks` against the largest one, to `[0, 1]`, or to
/// `[0, 100]` in percent mode. When the largest intensity is `0` (and so when `peaks` is
/// empty) every peak becomes `0 / 1`.
pub fn normalize(peaks: &BTreeMap<u64, u64>, percent: bool) -> (r: BTreeMap<u64, Ratio>)
    ensures
        r@ == normalized(peaks@, percent),
        is_max_intensity(peaks@, max_intensity_of(peaks@)),
        r@.dom() == peaks@.dom(),
        forall|mass: u64| #[trigger] r@.contains_key(mass) ==> r@[mass].within_scale(percent),
        forall|mass: u64|
            #![trigger r@[mass]]
            peaks@.contains_key(mass) && peaks@[mass] == max_intensity_of(peaks@) && peaks@[mass]
                > 0 ==> r@[mass].is_full_scale(percent),
        max_intensity_of(peaks@) == 0 ==> forall|mass: u64| #[trigger]
            r@.contains_key(mass) ==> r@[mass] == (Ratio { numerator: 0, denominator: 1 }),
{
    let max = max_intensity(peaks);
    let mut out: BTreeMap<u64, Ratio> = BTreeMap::new();
    let entries_iter = peaks.iter();
    let ghost entries = entries_iter.remaining();
    let ghost mut seen: int = 0;
    assert(entries.len() == peaks@.dom().len());
    for (mass, intensity) in it: entries_iter
        invariant
            it.seq() == entries,
            seen == it.index(),
            entries == spec_btree_map_iter(peaks).remaining(),
            max == max_intensity_of(peaks@),
            forall|i: int|
                0 <= i < seen ==> #[trigger] out@.contains_key(*entries[i].0),
            forall|mass: u64| #[trigger]
                out@.contains_key(mass) ==> peaks@.contains_key(mass) && out@[mass] == rescaled(
                    peaks@[mass],
                    max,
                    percent,
                ),
    {
        proof {
            assert(entries[seen] == (mass, intensity));
            assert(peaks@.contains_key(*mass) && peaks@[*mass] == *intensity);
        }
        out.insert(*mass, rescale(*intensity, max, percent));
        proof {
            seen = seen + 1;
        }
    }
    proof {
        assert(seen == entries.len());
        assert forall|mass: u64| #[trigger] peaks@.contains_key(mass) implies out@.contains_key(mass) by {
            assert(entries.contains((&mass, &peaks@[mass])));
            let i = choose|i: int| 0 <= i < entries.len() && entries[i] == (&mass, &peaks@[mass]);
            assert(out@.contains_key(*entries[i].0));
        }
        assert(out@ =~= normalized(peaks@, percent));
        assert forall|mass: u64| #[trigger] out@.contains_key(mass) implies out@[mass].within_scale(
            percent,
        ) by {
            assert(peaks@[mass] <= max);
            if max > 0 {
                if percent {
                    assert(100 * peaks@[mass] <= 100 * max) by (nonlinear_arith)
                        requires
                            peaks@[mass] <= max,
                    ;
                }
            }
        }
    }
    out
}

/// The computation of [`normalize`], for a [`FrameCache`]; its input is a peak list and
/// the percent flag.
pub struct Normalizer;

impl Computer for Normalizer {
    type Input = (BTreeMap<u64, u64>, bool);

    type Output = BTreeMap<u64, Ratio>;

    open spec fn spec_compute(input: (Map<u64, u64>, bool)) -> Map<u64, Ratio> {
        normalized(input.0, input.1)
    }

    fn compute(input: &(BTreeMap<u64, u64>, bool)) -> (r: BTreeMap<u64, Ratio>) {
        normalize(&input.0, input.1)
    }

    fn same_input(a: &(BTreeMap<u64, u64>, bool), b: &(BTreeMap<u64, u64>, bool)) -> (r: bool) {
        a.1 == b.1 && same_peaks(&a.0, &b.0)
    }
}

/// A per-frame cache of normalized peak lists.
pub type Normalized = FrameCache<Normalizer>;

} // verus!
