//! Peak lists: ordered maps from mass to intensity.

use std::collections::BTreeMap;
use vstd::prelude::*;
use vstd::std_specs::btree::spec_btree_map_iter;
use vstd::std_specs::iter::IteratorSpec;

verus! {

/// Whether two peak lists hold the same masses with the same intensities.
pub fn same_peaks(a: &BTreeMap<u64, u64>, b: &BTreeMap<u64, u64>) -> (r: bool)
    ensures
        r == (a@ == b@),
{
    if a.len() != b.len() {
        return false;
    }
    let entries_iter = a.iter();
    let ghost entries = entries_iter.remaining();
    let ghost mut seen: int = 0;
    assert(entries.len() == a@.dom().len());
    for (mass, intensity) in it: entries_iter
        invariant
            it.seq() == entries,
            seen == it.index(),
            entries == spec_btree_map_iter(a).remaining(),
            a@.dom().len() == b@.dom().len(),
            entries.len() == a@.dom().len(),
            forall|i: int|
                0 <= i < seen ==> #[trigger] b@.contains_key(*entries[i].0) && b@[*entries[i].0]
                    == *entries[i].1,
    {
        proof {
            assert(entries[seen] == (mass, intensity));
            assert(a@.contains_key(*mass) && a@[*mass] == *intensity);
        }
        match b.get(mass) {
            Some(other) => {
                if *other != *intensity {
                    return false;
                }
            },
            None => {
                return false;
            },
        }
        proof {
            seen = seen + 1;
        }
    }
    proof {
        assert(seen == entries.len());
        assert forall|mass: u64| #[trigger] a@.contains_key(mass) implies b@.contains_key(mass)
            && b@[mass] == a@[mass] by {
            assert(entries.contains((&mass, &a@[mass])));
            let i = choose|i: int| 0 <= i < entries.len() && entries[i] == (&mass, &a@[mass]);
            assert(b@.contains_key(*entries[i].0));
        }
        assert(a@.dom().subset_of(b@.dom()));
        vstd::set_lib::lemma_subset_equality(a@.dom(), b@.dom());
        assert(a@ =~= b@);
    }
    true
}

} // verus!
