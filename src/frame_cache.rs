//! Memoizing a pure computation across the frames of a redraw loop.

use vstd::prelude::*;

verus! {

/// A pure computation that a [`FrameCache`] memoizes. What it yields is a function of the
/// input's view alone, and inputs are told apart by their views.
pub trait Computer {
    type Input: View;

    type Output: View;

    /// The result of the computation on an input.
    spec fn spec_compute(input: <Self::Input as View>::V) -> <Self::Output as View>::V;

    /// Runs the computation.
    fn compute(input: &Self::Input) -> (r: Self::Output)
        ensures
            r@ == Self::spec_compute(input@),
    ;

    /// Whether two inputs are the same value.
    fn same_input(a: &Self::Input, b: &Self::Input) -> (r: bool)
        ensures
            r == (a@ == b@),
    ;
}

/// Whether an entry for `input` is held.
pub open spec fn cached<I, O>(entries: Seq<(I, O, bool)>, input: I) -> bool {
    exists|k: int| 0 <= k < entries.len() && #[trigger] entries[k].0 == input
}

/// The entries with the one for `input` marked as used in this cycle.
pub open spec fn touched<I, O>(entries: Seq<(I, O, bool)>, input: I) -> Seq<(I, O, bool)> {
    entries.map_values(|e: (I, O, bool)| if e.0 == input { (e.0, e.1, true) } else { e })
}

/// The entries after a request for `input`, whose result is `output`: a held entry is
/// marked as used, else a new used entry is added.
pub open spec fn requested<I, O>(entries: Seq<(I, O, bool)>, input: I, output: O) -> Seq<
    (I, O, bool),
> {
    if cached(entries, input) {
        touched(entries, input)
    } else {
        entries.push((input, output, true))
    }
}

/// The entries after a sweep: those used in the cycle that ends stay, in order, unmarked;
/// the others are dropped.
pub open spec fn swept<I, O>(entries: Seq<(I, O, bool)>) -> Seq<(I, O, bool)>
    decreases entries.len(),
{
    if entries.len() == 0 {
        entries
    } else {
        let rest = swept(entries.drop_last());
        let last = entries.last();
        if last.2 {
            rest.push((last.0, last.1, false))
        } else {
            rest
        }
    }
}

/// Whether an entry for `input` is held and marked as used.
pub open spec fn used_in_cycle<I, O>(entries: Seq<(I, O, bool)>, input: I) -> bool {
    exists|k: int| 0 <= k < entries.len() && #[trigger] entries[k].0 == input && entries[k].2
}

/// A sweep keeps exactly the entries used in the cycle that ends, and marks none as used.
pub proof fn lemma_swept<I, O>(entries: Seq<(I, O, bool)>, input: I)
    ensures
        cached(swept(entries), input) <==> used_in_cycle(entries, input),
        forall|k: int| 0 <= k < swept(entries).len() ==> !(#[trigger] swept(entries)[k]).2,
    decreases entries.len(),
{
    if entries.len() > 0 {
        let rest = entries.drop_last();
        let last = entries.last();
        lemma_swept(rest, input);
        let s = swept(entries);
        let sr = swept(rest);
        if used_in_cycle(entries, input) {
            let k = choose|k: int| 0 <= k < entries.len() && #[trigger] entries[k].0 == input && entries[k].2;
            if k < entries.len() - 1 {
                assert(rest[k] == entries[k]);
                assert(used_in_cycle(rest, input));
                let j = choose|j: int| 0 <= j < sr.len() && #[trigger] sr[j].0 == input;
                assert(s[j] == sr[j]);
            } else {
                assert(s[s.len() - 1].0 == input);
            }
        }
        if cached(s, input) {
            let j = choose|j: int| 0 <= j < s.len() && #[trigger] s[j].0 == input;
            if j < sr.len() {
                assert(s[j] == sr[j]);
                assert(cached(sr, input));
                let k = choose|k: int| 0 <= k < rest.len() && #[trigger] rest[k].0 == input && rest[k].2;
                assert(entries[k] == rest[k]);
            } else {
                assert(entries[entries.len() - 1].0 == input);
            }
        }
        assert forall|k: int| 0 <= k < s.len() implies !(#[trigger] s[k]).2 by {
            if k < sr.len() {
                assert(s[k] == sr[k]);
            }
        }
    }
}

/// A request leaves every held input held, and holds its own input afterwards, marked as
/// used; marks of other inputs are kept.
pub proof fn lemma_requested<I, O>(entries: Seq<(I, O, bool)>, input: I, output: O, other: I)
    ensures
        used_in_cycle(requested(entries, input, output), input),
        cached(entries, other) ==> cached(requested(entries, input, output), other),
        used_in_cycle(entries, other) ==> used_in_cycle(requested(entries, input, output), other),
        other != input ==> (used_in_cycle(requested(entries, input, output), other)
            <==> used_in_cycle(entries, other)),
{
    let r = requested(entries, input, output);
    if cached(entries, input) {
        let k = choose|k: int| 0 <= k < entries.len() && #[trigger] entries[k].0 == input;
        assert(r[k].0 == input && r[k].2);
        if cached(entries, other) {
            let j = choose|j: int| 0 <= j < entries.len() && #[trigger] entries[j].0 == other;
            assert(r[j].0 == other);
        }
        if used_in_cycle(entries, other) {
            let j = choose|j: int| 0 <= j < entries.len() && #[trigger] entries[j].0 == other && entries[j].2;
            assert(r[j].0 == other && r[j].2);
        }
        if other != input && used_in_cycle(r, other) {
            let j = choose|j: int| 0 <= j < r.len() && #[trigger] r[j].0 == other && r[j].2;
            assert(entries[j].0 == other && entries[j].2);
        }
    } else {
        assert(r[r.len() - 1].0 == input && r[r.len() - 1].2);
        if cached(entries, other) {
            let j = choose|j: int| 0 <= j < entries.len() && #[trigger] entries[j].0 == other;
            assert(r[j].0 == other);
        }
        if used_in_cycle(entries, other) {
            let j = choose|j: int| 0 <= j < entries.len() && #[trigger] entries[j].0 == other && entries[j].2;
            assert(r[j].0 == other && r[j].2);
        }
        if other != input && used_in_cycle(r, other) {
            let j = choose|j: int| 0 <= j < r.len() && #[trigger] r[j].0 == other && r[j].2;
            assert(j < entries.len());
            assert(entries[j].0 == other && entries[j].2);
        }
    }
}

/// Asking for `a`, then for `b`, then for `a` again with no sweep in between: the second
/// request for `a` finds its result held and computes nothing.
pub proof fn lemma_hit_within_cycle<I, O>(entries: Seq<(I, O, bool)>, a: I, b: I, out_a: O, out_b: O)
    ensures
        cached(requested(requested(entries, a, out_a), b, out_b), a),
{
    lemma_requested(entries, a, out_a, a);
    lemma_requested(requested(entries, a, out_a), b, out_b, a);
}

/// Asking for `a`, then for `b`, with a sweep between them and one after: a request for
/// `a` then finds nothing held and computes anew, since `a` went unused for a whole cycle.
pub proof fn lemma_miss_after_unused_cycle<I, O>(
    entries: Seq<(I, O, bool)>,
    a: I,
    b: I,
    out_a: O,
    out_b: O,
)
    requires
        a != b,
    ensures
        !cached(swept(requested(swept(requested(entries, a, out_a)), b, out_b)), a),
{
    let first = swept(requested(entries, a, out_a));
    lemma_swept(requested(entries, a, out_a), a);
    assert(!used_in_cycle(first, a));
    lemma_requested(first, b, out_b, a);
    lemma_swept(requested(first, b, out_b), a);
}

/// Asking for `a`, then for `b`, then sweeping: both were used in the cycle that ended, so
/// a request for `a` right after the sweep still finds its result held.
pub proof fn lemma_hit_after_sweep_of_used<I, O>(
    entries: Seq<(I, O, bool)>,
    a: I,
    b: I,
    out_a: O,
    out_b: O,
)
    ensures
        cached(swept(requested(requested(entries, a, out_a), b, out_b)), a),
{
    lemma_requested(entries, a, out_a, a);
    lemma_requested(requested(entries, a, out_a), b, out_b, a);
    lemma_swept(requested(requested(entries, a, out_a), b, out_b), a);
}

/// Memoizes the results of `C` per input, for as long as each input keeps being asked for:
/// an entry that no request used since the previous sweep is dropped by the next one.
pub struct FrameCache<C: Computer> {
    entries: Vec<(C::Input, C::Output)>,
    used: Vec<bool>,
}

impl<C: Computer> View for FrameCache<C> {
    type V = Seq<(<C::Input as View>::V, <C::Output as View>::V, bool)>;

    closed spec fn view(&self) -> Self::V {
        Seq::new(
            self.entries.len() as nat,
            |i: int| (self.entries[i].0@, self.entries[i].1@, self.used[i]),
        )
    }
}

impl<C: Computer> FrameCache<C> {
    /// The flags agree with the entries, each held result is the computation's result on
    /// its input, and no input is held twice.
    pub closed spec fn well_formed(&self) -> bool {
        &&& self.entries.len() == self.used.len()
        &&& forall|i: int|
            0 <= i < self.entries.len() ==> #[trigger] self.entries[i].1@ == C::spec_compute(
                self.entries[i].0@,
            )
        &&& forall|i: int, j: int|
            0 <= i < j < self.entries.len() ==> #[trigger] self.entries[i].0@
                != #[trigger] self.entries[j].0@
    }

    /// An empty cache.
    pub fn new() -> (r: Self)
        ensures
            r.well_formed(),
            r@ == Seq::<(<C::Input as View>::V, <C::Output as View>::V, bool)>::empty(),
    {
        let r = FrameCache { entries: Vec::new(), used: Vec::new() };
        assert(r@ =~= Seq::empty());
        r
    }

    /// The number of held entries.
    pub fn len(&self) -> (r: usize)
        ensures
            r == self@.len(),
    {
        self.entries.len()
    }

    /// The place of the entry for `input`, if one is held.
    fn find(&self, input: &C::Input) -> (r: Option<usize>)
        requires
            self.well_formed(),
        ensures
            match r {
                Some(k) => k < self@.len() && self@[k as int].0 == input@,
                None => !cached(self@, input@),
            },
    {
        let mut k: usize = 0;
        while k < self.entries.len()
            invariant
                k <= self.entries.len(),
                forall|i: int| 0 <= i < k ==> self.entries[i].0@ != input@,
            decreases self.entries.len() - k,
        {
            if C::same_input(&self.entries[k].0, input) {
                return Some(k);
            }
            k = k + 1;
        }
        None
    }

    /// Whether a result for `input` is held; does not count as a request.
    pub fn contains(&self, input: &C::Input) -> (r: bool)
        requires
            self.well_formed(),
        ensures
            r == cached(self@, input@),
    {
        self.find(input).is_some()
    }

    /// The computation's result on `input`: the held one if there is one, else a fresh one,
    /// which is then held. Either way the entry counts as used in this cycle.
    pub fn get(&mut self, input: C::Input) -> (r: &C::Output)
        requires
            old(self).well_formed(),
        ensures
            final(self).well_formed(),
            r@ == C::spec_compute(input@),
            final(self)@ == requested(old(self)@, input@, C::spec_compute(input@)),
    {
        match self.find(&input) {
            Some(k) => {
                self.used.set(k, true);
                proof {
                    assert(self@ =~= touched(old(self)@, input@));
                    assert(self.entries.len() == self.used.len());
                    assert(self.well_formed());
                }
                &self.entries[k].1
            },
            None => {
                proof {
                    assert forall|i: int| 0 <= i < self.entries.len() implies self.entries[i].0@
                        != input@ by {
                        assert(self@[i].0 == self.entries[i].0@);
                    }
                }
                let output = C::compute(&input);
                let ghost out_view = output@;
                self.entries.push((input, output));
                self.used.push(true);
                let last = self.entries.len() - 1;
                proof {
                    assert(self@ =~= old(self)@.push((input@, C::spec_compute(input@), true)));
                    assert(self.entries.len() == self.used.len());
                    assert(self.entries[last as int].0@ == input@);
                    assert(self.entries[last as int].1@ == out_view);
                    assert forall|i: int| 0 <= i < self.entries.len() implies #[trigger] self.entries[i].1@
                        == C::spec_compute(self.entries[i].0@) by {
                        if i < last {
                            assert(self.entries[i] == old(self).entries[i]);
                        }
                    }
                    assert(self.well_formed());
                }
                &self.entries[last].1
            },
        }
    }

    /// Ends a cycle: drops each entry that no request used since the previous sweep, and
    /// marks the others as unused for the cycle that begins.
    pub fn sweep(&mut self)
        requires
            old(self).well_formed(),
        ensures
            final(self).well_formed(),
            final(self)@ == swept(old(self)@),
    {
        let ghost start = self@;
        let ghost mut done: int = 0;
        let mut k: usize = 0;
        while k < self.entries.len()
            invariant
                self.well_formed(),
                0 <= done <= start.len(),
                k == swept(start.take(done)).len(),
                self@ == swept(start.take(done)) + start.skip(done),
            decreases self.entries.len() - k,
        {
            let ghost before = self@;
            proof {
                assert(start.take(done + 1).drop_last() =~= start.take(done));
                assert(start.take(done + 1).last() == start[done]);
                assert(before[k as int] == start[done]);
                let kept = swept(start.take(done));
                let e = start[done];
                assert(swept(start.take(done + 1)) == if e.2 {
                    kept.push((e.0, e.1, false))
                } else {
                    kept
                });
                assert(forall|i: int|
                    0 <= i < start.len() - done - 1 ==> #[trigger] start.skip(done + 1)[i]
                        == start.skip(done)[i + 1]);
            }
            if self.used[k] {
                self.used.set(k, false);
                proof {
                    assert(self@ =~= before.update(
                        k as int,
                        (before[k as int].0, before[k as int].1, false),
                    ));
                    assert(self@ =~= swept(start.take(done + 1)) + start.skip(done + 1));
                }
                k = k + 1;
            } else {
                self.entries.remove(k);
                self.used.remove(k);
                proof {
                    assert(self@ =~= before.remove(k as int));
                    assert(self@ =~= swept(start.take(done + 1)) + start.skip(done + 1));
                    assert forall|i: int, j: int|
                        0 <= i < j < self.entries.len() implies #[trigger] self.entries[i].0@
                        != #[trigger] self.entries[j].0@ by {
                        assert(self@[i] == before[if i < k { i } else { i + 1 }]);
                        assert(self@[j] == before[if j < k { j } else { j + 1 }]);
                    }
                }
            }
            proof {
                done = done + 1;
            }
        }
        proof {
            assert(done == start.len());
            assert(start.take(done) =~= start);
            assert(self@ =~= swept(start));
        }
    }
}

} // verus!
