use peaks::bounder::{bound, Bounded, Bounds};
use peaks::normalizer::{max_intensity, normalize, Normalized, Ratio};
use peaks::pipeline::transform;
use peaks::spectrum::same_peaks;
use std::collections::BTreeMap;

fn spectrum(pairs: &[(u64, u64)]) -> BTreeMap<u64, u64> {
    pairs.iter().copied().collect()
}

fn as_f64(ratio: &Ratio) -> f64 {
    ratio.numerator as f64 / ratio.denominator as f64
}

fn values(map: &BTreeMap<u64, Ratio>) -> Vec<(u64, f64)> {
    map.iter().map(|(mass, ratio)| (*mass, as_f64(ratio))).collect()
}

#[test]
fn bound_keeps_window_inclusive() {
    let s = spectrum(&[(100, 10), (200, 50), (300, 20)]);
    let r = bound(&s, &Bounds { start: 150, end: 300 });
    assert_eq!(r, spectrum(&[(200, 50), (300, 20)]));
}

#[test]
fn bound_then_normalize_percent() {
    let s = spectrum(&[(100, 10), (200, 50), (300, 20)]);
    let r = bound(&s, &Bounds { start: 150, end: 300 });
    let n = normalize(&r, true);
    assert_eq!(values(&n), vec![(200, 100.0), (300, 40.0)]);
}

#[test]
fn empty_spectrum_stays_empty() {
    let s = spectrum(&[]);
    for bounds in [
        Bounds { start: 0, end: 0 },
        Bounds { start: 0, end: u64::MAX },
        Bounds { start: 10, end: 5 },
    ] {
        assert!(bound(&s, &bounds).is_empty());
    }
    assert!(normalize(&s, true).is_empty());
    assert!(normalize(&s, false).is_empty());
    assert_eq!(max_intensity(&s), 0);
}

#[test]
fn zero_max_normalizes_to_zero() {
    let s = spectrum(&[(50, 0), (60, 0)]);
    let r = bound(&s, &Bounds { start: 0, end: 100 });
    assert_eq!(r, s);
    for percent in [true, false] {
        let n = normalize(&r, percent);
        assert_eq!(values(&n), vec![(50, 0.0), (60, 0.0)]);
        assert!(n.values().all(|v| !as_f64(v).is_nan()));
        assert!(n.values().all(|v| *v == Ratio { numerator: 0, denominator: 1 }));
    }
}

#[test]
fn bound_subset_and_completeness() {
    let s = spectrum(&[(1, 5), (4, 7), (9, 2), (12, 8), (20, 1)]);
    let b = Bounds { start: 4, end: 12 };
    let r = bound(&s, &b);
    for (mass, intensity) in &r {
        assert!(b.start <= *mass && *mass <= b.end);
        assert_eq!(s.get(mass), Some(intensity));
    }
    for mass in s.keys() {
        assert_eq!(r.contains_key(mass), b.start <= *mass && *mass <= b.end);
    }
    assert_eq!(r, spectrum(&[(4, 7), (9, 2), (12, 8)]));
}

#[test]
fn bound_is_idempotent() {
    let s = spectrum(&[(1, 5), (4, 7), (9, 2), (12, 8), (20, 1)]);
    let b = Bounds { start: 3, end: 15 };
    let once = bound(&s, &b);
    let twice = bound(&once, &b);
    assert_eq!(once, twice);
}

#[test]
fn bound_reversed_interval_is_empty() {
    let s = spectrum(&[(1, 5), (4, 7), (9, 2)]);
    assert!(bound(&s, &Bounds { start: 9, end: 1 }).is_empty());
}

#[test]
fn bound_single_point_and_top_of_range() {
    let s = spectrum(&[(0, 3), (7, 4), (u64::MAX, 9)]);
    assert_eq!(bound(&s, &Bounds { start: 7, end: 7 }), spectrum(&[(7, 4)]));
    assert_eq!(
        bound(&s, &Bounds { start: 1, end: u64::MAX }),
        spectrum(&[(7, 4), (u64::MAX, 9)])
    );
    assert_eq!(bound(&s, &Bounds { start: 0, end: u64::MAX }), s);
    assert!(bound(&s, &Bounds { start: 8, end: u64::MAX - 1 }).is_empty());
}

#[test]
fn normalize_keeps_keys() {
    let s = spectrum(&[(3, 1), (5, 0), (8, 6)]);
    for percent in [true, false] {
        let n = normalize(&s, percent);
        assert_eq!(n.keys().copied().collect::<Vec<_>>(), vec![3, 5, 8]);
    }
}

#[test]
fn normalize_fraction_max_is_one() {
    let s = spectrum(&[(3, 2), (5, 0), (8, 8)]);
    let n = normalize(&s, false);
    assert_eq!(values(&n), vec![(3, 0.25), (5, 0.0), (8, 1.0)]);
    assert_eq!(n[&3], Ratio { numerator: 2, denominator: 8 });
}

#[test]
fn normalize_values_within_scale() {
    let s = spectrum(&[(1, 13), (2, 77), (3, 5), (4, 77)]);
    for (percent, scale) in [(true, 100.0), (false, 1.0)] {
        let n = normalize(&s, percent);
        for (mass, v) in values(&n) {
            assert!((0.0..=scale).contains(&v));
            if s[&mass] == 77 {
                assert_eq!(v, scale);
            }
        }
    }
}

#[test]
fn normalize_large_intensities_do_not_overflow() {
    let s = spectrum(&[(1, u64::MAX), (2, u64::MAX / 2)]);
    let n = normalize(&s, true);
    assert_eq!(
        n[&1],
        Ratio { numerator: 100 * u64::MAX as u128, denominator: u64::MAX }
    );
    assert_eq!(as_f64(&n[&1]), 100.0);
}

#[test]
fn max_intensity_is_largest_value() {
    assert_eq!(max_intensity(&spectrum(&[(1, 3), (2, 9), (3, 4)])), 9);
    assert_eq!(max_intensity(&spectrum(&[(1, 0)])), 0);
}

#[test]
fn same_peaks_compares_contents() {
    let a = spectrum(&[(1, 3), (2, 9)]);
    assert!(same_peaks(&a, &a.clone()));
    assert!(!same_peaks(&a, &spectrum(&[(1, 3), (2, 8)])));
    assert!(!same_peaks(&a, &spectrum(&[(1, 3), (4, 9)])));
    assert!(!same_peaks(&a, &spectrum(&[(1, 3)])));
    assert!(same_peaks(&spectrum(&[]), &spectrum(&[])));
}

#[test]
fn cache_matches_direct_computation() {
    let s = spectrum(&[(100, 10), (200, 50), (300, 20)]);
    let b = Bounds { start: 150, end: 300 };
    let mut bounded = Bounded::new();
    assert_eq!(*bounded.get((s.clone(), b)), bound(&s, &b));
    assert_eq!(*bounded.get((s.clone(), b)), bound(&s, &b));
    let mut normalized = Normalized::new();
    for percent in [true, false] {
        assert_eq!(*normalized.get((s.clone(), percent)), normalize(&s, percent));
    }
}

#[test]
fn cache_hit_within_cycle() {
    let s = spectrum(&[(1, 2), (3, 4)]);
    let a = Bounds { start: 0, end: 2 };
    let b = Bounds { start: 2, end: 9 };
    let mut cache = Bounded::new();
    assert!(!cache.contains(&(s.clone(), a)));
    cache.get((s.clone(), a));
    cache.get((s.clone(), b));
    assert!(cache.contains(&(s.clone(), a)));
    assert_eq!(cache.len(), 2);
    assert_eq!(*cache.get((s.clone(), a)), spectrum(&[(1, 2)]));
    assert_eq!(cache.len(), 2);
}

#[test]
fn cache_evicts_after_unused_cycle() {
    let s = spectrum(&[(1, 2), (3, 4)]);
    let a = Bounds { start: 0, end: 2 };
    let b = Bounds { start: 2, end: 9 };
    let mut cache = Bounded::new();
    cache.get((s.clone(), a));
    cache.sweep();
    assert!(cache.contains(&(s.clone(), a)));
    cache.get((s.clone(), b));
    cache.sweep();
    assert!(!cache.contains(&(s.clone(), a)));
    assert!(cache.contains(&(s.clone(), b)));
    assert_eq!(cache.len(), 1);
    assert_eq!(*cache.get((s.clone(), a)), spectrum(&[(1, 2)]));
    assert_eq!(cache.len(), 2);
}

#[test]
fn cache_keeps_entries_used_before_sweep() {
    let s = spectrum(&[(1, 2), (3, 4)]);
    let mut cache = Normalized::new();
    cache.get((s.clone(), true));
    cache.get((s.clone(), false));
    cache.sweep();
    assert!(cache.contains(&(s.clone(), true)));
    assert!(cache.contains(&(s.clone(), false)));
    cache.sweep();
    assert_eq!(cache.len(), 0);
}

#[test]
fn cache_tells_spectra_apart_by_content() {
    let b = Bounds { start: 0, end: 10 };
    let mut cache = Bounded::new();
    cache.get((spectrum(&[(1, 2)]), b));
    assert!(cache.contains(&(spectrum(&[(1, 2)]), b)));
    assert!(!cache.contains(&(spectrum(&[(1, 3)]), b)));
    assert_eq!(*cache.get((spectrum(&[(1, 3)]), b)), spectrum(&[(1, 3)]));
    assert_eq!(cache.len(), 2);
}

#[test]
fn transform_bounds_then_normalizes() {
    let s = spectrum(&[(100, 10), (200, 50), (300, 20)]);
    let mut bounded = Bounded::new();
    let mut normalized = Normalized::new();
    let r = transform(&mut bounded, &mut normalized, &s, Bounds { start: 150, end: 300 }, true);
    assert_eq!(values(r), vec![(200, 100.0), (300, 40.0)]);
    let again = transform(&mut bounded, &mut normalized, &s, Bounds { start: 150, end: 300 }, true);
    assert_eq!(values(again), vec![(200, 100.0), (300, 40.0)]);
    assert_eq!(bounded.len(), 1);
    assert_eq!(normalized.len(), 1);
}
