//! The escape-time evaluator, as far as it decides: how many times an orbit of
//! `z <- z * z + c` is advanced before a tested value lies beyond the
//! threshold, and when the cap on that number ends the search.
//!
//! The orbit itself is arithmetic on complex numbers and belongs to the
//! caller, who hands it over as two functions: one that advances a value and
//! one that tests its magnitude. [`escape`] runs the search over them. Each
//! value is tested before it is advanced, and each test goes to a [`Probe`],
//! which answers with what to do next.
use vstd::prelude::*;

verus! {

/// How the search for an escape ended.
#[derive(Clone, Copy, Debug, PartialEq, Eq, Structural)]
pub enum Verdict {
    /// The tested value lay beyond the threshold after this many advances.
    Escaped(u32),
    /// Every value up to the cap was tested and none lay beyond the threshold.
    Exhausted,
}

/// What one magnitude test settles.
#[derive(Clone, Copy, Debug, PartialEq, Eq, Structural)]
pub enum Outcome {
    /// Nothing yet: advance the orbit once and test again with this probe.
    Advance(Probe),
    /// The search is over.
    Settled(Verdict),
}

/// The state of a search: the number of advances made so far and their cap.
#[derive(Clone, Copy, Debug, PartialEq, Eq, Structural)]
pub struct Probe {
    depth: u32,
    limit: u32,
}

impl Verdict {
    /// The iteration count that an image is shaded by. An exhausted search
    /// counts as zero, the same number as an escape before the first advance.
    pub open spec fn spec_iterations_used(&self) -> u32 {
        match *self {
            Verdict::Escaped(n) => n,
            Verdict::Exhausted => 0,
        }
    }

    /// The iteration count that an image is shaded by.
    #[verifier::when_used_as_spec(spec_iterations_used)]
    pub fn iterations_used(&self) -> (n: u32)
        ensures
            n == self.iterations_used(),
    {
        match *self {
            Verdict::Escaped(n) => n,
            Verdict::Exhausted => 0,
        }
    }
}

impl Probe {
    #[verifier::type_invariant]
    spec fn within_limit(self) -> bool {
        self.depth <= self.limit
    }

    /// The number of advances made so far.
    pub closed spec fn spec_depth(&self) -> u32 {
        self.depth
    }

    /// The greatest number of advances after which a value is still tested.
    pub closed spec fn spec_limit(&self) -> u32 {
        self.limit
    }

    /// A probe for an orbit at its start value, with at most `limit` advances ahead.
    pub fn new(limit: u32) -> (probe: Probe)
        ensures
            probe.depth() == 0,
            probe.limit() == limit,
    {
        Probe { depth: 0, limit }
    }

    /// The number of advances made so far.
    #[verifier::when_used_as_spec(spec_depth)]
    pub fn depth(&self) -> (d: u32)
        ensures
            d == self.depth(),
            d <= self.limit(),
    {
        proof {
            use_type_invariant(self);
        }
        self.depth
    }

    /// The greatest number of advances after which a value is still tested.
    #[verifier::when_used_as_spec(spec_limit)]
    pub fn limit(&self) -> (l: u32)
        ensures
            l == self.limit(),
    {
        self.limit
    }

    /// Takes the test of the current orbit value, `exceeded` being whether its
    /// magnitude lies beyond the threshold, and says what follows.
    ///
    /// A value beyond the threshold ends the search with the number of
    /// advances that led to it. Otherwise the orbit is advanced, unless the cap
    /// has been reached: then the search ends exhausted.
    pub fn observe(self, exceeded: bool) -> (outcome: Outcome)
        ensures
            self.depth() <= self.limit(),
            exceeded ==> outcome == Outcome::Settled(Verdict::Escaped(self.depth())),
            !exceeded && self.depth() == self.limit() ==> outcome == Outcome::Settled(
                Verdict::Exhausted,
            ),
            !exceeded && self.depth() < self.limit() ==> (outcome matches Outcome::Advance(next)
                && next.depth() == self.depth() + 1 && next.limit() == self.limit()),
    {
        proof {
            use_type_invariant(self);
        }
        if exceeded {
            Outcome::Settled(Verdict::Escaped(self.depth))
        } else if self.depth >= self.limit {
            Outcome::Settled(Verdict::Exhausted)
        } else {
            Outcome::Advance(Probe { depth: self.depth + 1, limit: self.limit })
        }
    }
}

/// Whether `trace`, the magnitude tests of an orbit from its start value on,
/// holds its first `true` at index `n`.
pub open spec fn escapes_at(trace: Seq<bool>, n: int) -> bool {
    &&& 0 <= n < trace.len()
    &&& trace[n]
    &&& forall|j: int| 0 <= j < n ==> !trace[j]
}

/// The verdict on an orbit whose magnitude tests are `trace`, searched with the
/// cap `limit`: an escape at the first test that holds, if that is one of the
/// tests 0 to `limit`; exhaustion if those tests were all made and none held;
/// nothing while fewer tests than that are known and none of them holds.
pub open spec fn verdict(trace: Seq<bool>, limit: u32) -> Option<Verdict> {
    if exists|n: int| n <= limit && escapes_at(trace, n) {
        let n = choose|n: int| n <= limit && escapes_at(trace, n);
        Some(Verdict::Escaped(n as u32))
    } else if trace.len() > limit {
        Some(Verdict::Exhausted)
    } else {
        None
    }
}

/// An orbit escapes at one depth at most.
pub proof fn lemma_escape_depth_unique(trace: Seq<bool>, m: int, n: int)
    requires
        escapes_at(trace, m),
        escapes_at(trace, n),
    ensures
        m == n,
{
    if m < n {
        assert(!trace[m]);
    } else if n < m {
        assert(!trace[n]);
    }
}

/// The first test that holds decides: where it is one of the tests 0 to
/// `limit`, the verdict is an escape at its index, whatever follows it.
pub proof fn lemma_first_test_that_holds_decides(trace: Seq<bool>, limit: u32, n: int)
    requires
        n <= limit,
        escapes_at(trace, n),
    ensures
        verdict(trace, limit) == Some(Verdict::Escaped(n as u32)),
{
    let m = choose|m: int| m <= limit && escapes_at(trace, m);
    lemma_escape_depth_unique(trace, m, n);
}

/// An orbit of which none of the tests 0 to `limit` holds is exhausted, and
/// its iteration count is zero, for every cap.
pub proof fn lemma_no_escape_counts_zero(trace: Seq<bool>, limit: u32)
    requires
        trace.len() > limit,
        forall|j: int| 0 <= j <= limit ==> !trace[j],
    ensures
        verdict(trace, limit) == Some(Verdict::Exhausted),
        verdict(trace, limit).unwrap().iterations_used() == 0,
{
    assert forall|n: int| n <= limit implies !escapes_at(trace, n) by {
        if 0 <= n {
            assert(!trace[n]);
        }
    }
}

/// The iteration count of a verdict never exceeds the cap.
pub proof fn lemma_iterations_within_limit(trace: Seq<bool>, limit: u32)
    requires
        verdict(trace, limit).is_some(),
    ensures
        verdict(trace, limit).unwrap().iterations_used() <= limit,
{
}

/// Tests that follow the deciding one change nothing.
pub proof fn lemma_verdict_stable(trace: Seq<bool>, more: Seq<bool>, limit: u32)
    requires
        verdict(trace, limit).is_some(),
    ensures
        verdict(trace + more, limit) == verdict(trace, limit),
{
    let longer = trace + more;
    if exists|n: int| n <= limit && escapes_at(trace, n) {
        let n = choose|n: int| n <= limit && escapes_at(trace, n);
        assert(longer[n] == trace[n]);
        assert forall|j: int| 0 <= j < n implies !longer[j] by {
            assert(longer[j] == trace[j]);
        }
        assert(escapes_at(longer, n));
        lemma_first_test_that_holds_decides(longer, limit, n);
    } else {
        assert forall|n: int| n <= limit implies !escapes_at(longer, n) by {
            if escapes_at(longer, n) {
                assert(longer[n] == trace[n]);
                assert forall|j: int| 0 <= j < n implies !trace[j] by {
                    assert(longer[j] == trace[j]);
                }
                assert(escapes_at(trace, n));
            }
        }
    }
}

/// Whether `orbit` and `trace` record a search from `start`: `orbit` holds the
/// values that were tested, the first of them `start` and each further one
/// what `advance` made of the one before it, and `trace` holds what `exceeds`
/// said of each.
pub open spec fn records<Z, A: Fn(Z) -> Z, T: Fn(Z) -> bool>(
    advance: &A,
    exceeds: &T,
    start: Z,
    orbit: Seq<Z>,
    trace: Seq<bool>,
) -> bool {
    &&& orbit.len() == trace.len()
    &&& orbit.len() > 0 ==> orbit[0] == start
    &&& forall|i: int|
        0 < i < orbit.len() ==> call_ensures(*advance, (orbit[i - 1],), #[trigger] orbit[i])
    &&& forall|i: int|
        0 <= i < orbit.len() ==> call_ensures(*exceeds, (orbit[i],), #[trigger] trace[i])
}

/// Whether `end` is how the recorded search ends under the cap `limit`: with
/// the verdict on the trace, and with the value that `advance` makes of the
/// escaped one, or with `degenerate` where the search is exhausted.
pub open spec fn ends_with<Z, A: Fn(Z) -> Z>(
    advance: &A,
    degenerate: Z,
    orbit: Seq<Z>,
    trace: Seq<bool>,
    limit: u32,
    end: (Z, Verdict),
) -> bool {
    &&& verdict(trace, limit) == Some(end.1)
    &&& match end.1 {
        Verdict::Escaped(n) => {
            &&& n < orbit.len()
            &&& call_ensures(*advance, (orbit[n as int],), end.0)
        },
        Verdict::Exhausted => end.0 == degenerate,
    }
}

/// Searches the orbit of `start` under `advance` for an escape: tests each
/// value with `exceeds` before advancing it, and stops at the first test that
/// holds, or when the value reached after `limit` advances has been tested
/// and did not escape either.
///
/// Returns the verdict and a last orbit value: for an escape the value that
/// follows the escaped one; for an exhausted search `degenerate`, the value
/// that stands for no orbit at all, wherever the search started.
pub fn escape<Z: Copy, A: Fn(Z) -> Z, T: Fn(Z) -> bool>(
    start: Z,
    degenerate: Z,
    limit: u32,
    advance: &A,
    exceeds: &T,
) -> (end: (Z, Verdict))
    requires
        forall|z: Z| call_requires(*advance, (z,)),
        forall|z: Z| call_requires(*exceeds, (z,)),
    ensures
        end.1.iterations_used() <= limit,
        exists|orbit: Seq<Z>, trace: Seq<bool>|
            records(advance, exceeds, start, orbit, trace) && ends_with(
                advance,
                degenerate,
                orbit,
                trace,
                limit,
                end,
            ),
{
    let mut probe = Probe::new(limit);
    let mut z = start;
    let ghost mut orbit: Seq<Z> = Seq::empty();
    let ghost mut trace: Seq<bool> = Seq::empty();
    loop
        invariant
            forall|z: Z| call_requires(*advance, (z,)),
            forall|z: Z| call_requires(*exceeds, (z,)),
            probe.limit() == limit,
            probe.depth() == orbit.len(),
            records(advance, exceeds, start, orbit, trace),
            forall|j: int| 0 <= j < trace.len() ==> !trace[j],
            orbit.len() == 0 ==> z == start,
            orbit.len() > 0 ==> call_ensures(*advance, (orbit.last(),), z),
        decreases limit - probe.depth(),
    {
        let beyond: bool = exceeds(z);
        proof {
            orbit = orbit.push(z);
            trace = trace.push(beyond);
            assert(records(advance, exceeds, start, orbit, trace));
        }
        match probe.observe(beyond) {
            Outcome::Settled(Verdict::Escaped(n)) => {
                let next: Z = advance(z);
                proof {
                    lemma_first_test_that_holds_decides(trace, limit, n as int);
                    assert(ends_with(
                        advance,
                        degenerate,
                        orbit,
                        trace,
                        limit,
                        (next, Verdict::Escaped(n)),
                    ));
                }
                return (next, Verdict::Escaped(n));
            },
            Outcome::Settled(Verdict::Exhausted) => {
                proof {
                    lemma_no_escape_counts_zero(trace, limit);
                    assert(ends_with(
                        advance,
                        degenerate,
                        orbit,
                        trace,
                        limit,
                        (degenerate, Verdict::Exhausted),
                    ));
                }
                return (degenerate, Verdict::Exhausted);
            },
            Outcome::Advance(next) => {
                z = advance(z);
                probe = next;
            },
        }
    }
}

/// In a recorded search from a start value that `advance` leaves where it
/// is, every tested value is the start value.
proof fn lemma_orbit_stays<Z, A: Fn(Z) -> Z, T: Fn(Z) -> bool>(
    advance: &A,
    exceeds: &T,
    start: Z,
    orbit: Seq<Z>,
    trace: Seq<bool>,
    i: int,
)
    requires
        records(advance, exceeds, start, orbit, trace),
        forall|next: Z| call_ensures(*advance, (start,), next) ==> next == start,
        0 <= i < orbit.len(),
    ensures
        orbit[i] == start,
    decreases i,
{
    if i > 0 {
        lemma_orbit_stays(advance, exceeds, start, orbit, trace, i - 1);
        assert(call_ensures(*advance, (orbit[i - 1],), orbit[i]));
    }
}

/// An orbit that stays at its start value, within the threshold, never
/// escapes: the search is exhausted, its last value is the degenerate one
/// and its iteration count is zero, for every cap.
pub proof fn lemma_resting_orbit_is_exhausted<Z, A: Fn(Z) -> Z, T: Fn(Z) -> bool>(
    advance: &A,
    exceeds: &T,
    start: Z,
    degenerate: Z,
    orbit: Seq<Z>,
    trace: Seq<bool>,
    limit: u32,
    end: (Z, Verdict),
)
    requires
        records(advance, exceeds, start, orbit, trace),
        ends_with(advance, degenerate, orbit, trace, limit, end),
        forall|next: Z| call_ensures(*advance, (start,), next) ==> next == start,
        forall|beyond: bool| call_ensures(*exceeds, (start,), beyond) ==> !beyond,
    ensures
        end == (degenerate, Verdict::Exhausted),
        end.1.iterations_used() == 0,
{
    assert forall|n: int| n <= limit implies !escapes_at(trace, n) by {
        if 0 <= n < trace.len() {
            lemma_orbit_stays(advance, exceeds, start, orbit, trace, n);
            assert(call_ensures(*exceeds, (orbit[n],), trace[n]));
        }
    }
}

/// An orbit that starts within the threshold and leaves it with its first
/// advance escapes with the count 1, under every cap but zero.
pub proof fn lemma_escape_at_first_advance<Z, A: Fn(Z) -> Z, T: Fn(Z) -> bool>(
    advance: &A,
    exceeds: &T,
    start: Z,
    degenerate: Z,
    orbit: Seq<Z>,
    trace: Seq<bool>,
    limit: u32,
    end: (Z, Verdict),
)
    requires
        records(advance, exceeds, start, orbit, trace),
        ends_with(advance, degenerate, orbit, trace, limit, end),
        limit >= 1,
        forall|beyond: bool| call_ensures(*exceeds, (start,), beyond) ==> !beyond,
        forall|next: Z, beyond: bool|
            call_ensures(*advance, (start,), next) && call_ensures(*exceeds, (next,), beyond)
                ==> beyond,
    ensures
        end.1 == Verdict::Escaped(1),
        end.1.iterations_used() == 1,
{
    if trace.len() > 0 {
        assert(call_ensures(*exceeds, (orbit[0],), trace[0]));
        assert(!trace[0]);
    }
    if trace.len() > 1 {
        assert(call_ensures(*advance, (orbit[0],), orbit[1]));
        assert(call_ensures(*exceeds, (orbit[1],), trace[1]));
        assert(escapes_at(trace, 1));
        lemma_first_test_that_holds_decides(trace, limit, 1);
    } else {
        assert forall|n: int| n <= limit implies !escapes_at(trace, n) by {}
    }
}

/// Whether `advance` makes one value only of each value, and `exceeds` says
/// one thing only of each.
pub open spec fn single_valued_arithmetic<Z, A: Fn(Z) -> Z, T: Fn(Z) -> bool>(
    advance: &A,
    exceeds: &T,
) -> bool {
    &&& forall|z: Z, a: Z, b: Z|
        #[trigger] call_ensures(*advance, (z,), a) && #[trigger] call_ensures(*advance, (z,), b)
            ==> a == b
    &&& forall|z: Z, a: bool, b: bool|
        #[trigger] call_ensures(*exceeds, (z,), a) && #[trigger] call_ensures(*exceeds, (z,), b)
            ==> a == b
}

/// Two recorded searches from one start value hold the same values and the
/// same tests as far as both go, where the arithmetic is single-valued.
proof fn lemma_records_agree<Z, A: Fn(Z) -> Z, T: Fn(Z) -> bool>(
    advance: &A,
    exceeds: &T,
    start: Z,
    one: (Seq<Z>, Seq<bool>),
    other: (Seq<Z>, Seq<bool>),
    i: int,
)
    requires
        single_valued_arithmetic(advance, exceeds),
        records(advance, exceeds, start, one.0, one.1),
        records(advance, exceeds, start, other.0, other.1),
        0 <= i < one.0.len(),
        i < other.0.len(),
    ensures
        one.0[i] == other.0[i],
        one.1[i] == other.1[i],
    decreases i,
{
    if i > 0 {
        lemma_records_agree(advance, exceeds, start, one, other, i - 1);
        assert(call_ensures(*advance, (one.0[i - 1],), one.0[i]));
        assert(call_ensures(*advance, (other.0[i - 1],), other.0[i]));
    }
    assert(call_ensures(*exceeds, (one.0[i],), one.1[i]));
    assert(call_ensures(*exceeds, (other.0[i],), other.1[i]));
}

/// The search is a function of its arguments where the arithmetic is: any
/// two searches from one start value, with one degenerate value and under one
/// cap, end alike, whenever and wherever they are run.
pub proof fn lemma_search_repeatable<Z, A: Fn(Z) -> Z, T: Fn(Z) -> bool>(
    advance: &A,
    exceeds: &T,
    start: Z,
    degenerate: Z,
    limit: u32,
    one: (Seq<Z>, Seq<bool>),
    one_end: (Z, Verdict),
    other: (Seq<Z>, Seq<bool>),
    other_end: (Z, Verdict),
)
    requires
        single_valued_arithmetic(advance, exceeds),
        records(advance, exceeds, start, one.0, one.1),
        ends_with(advance, degenerate, one.0, one.1, limit, one_end),
        records(advance, exceeds, start, other.0, other.1),
        ends_with(advance, degenerate, other.0, other.1, limit, other_end),
    ensures
        one_end == other_end,
{
    lemma_first_escape_agrees(advance, exceeds, start, limit, one, other);
    lemma_first_escape_agrees(advance, exceeds, start, limit, other, one);
    match one_end.1 {
        Verdict::Escaped(n) => {
            lemma_records_agree(advance, exceeds, start, one, other, n as int);
        },
        Verdict::Exhausted => {},
    }
}

/// Where one of two such searches has a verdict and the other escapes, the
/// first escapes too, and at the same depth.
proof fn lemma_first_escape_agrees<Z, A: Fn(Z) -> Z, T: Fn(Z) -> bool>(
    advance: &A,
    exceeds: &T,
    start: Z,
    limit: u32,
    one: (Seq<Z>, Seq<bool>),
    other: (Seq<Z>, Seq<bool>),
)
    requires
        single_valued_arithmetic(advance, exceeds),
        records(advance, exceeds, start, one.0, one.1),
        records(advance, exceeds, start, other.0, other.1),
        verdict(one.1, limit).is_some(),
    ensures
        verdict(other.1, limit) matches Some(Verdict::Escaped(n)) ==> verdict(one.1, limit)
            == Some(Verdict::Escaped(n)),
{
    if exists|n: int| n <= limit && escapes_at(other.1, n) {
        let n = choose|n: int| n <= limit && escapes_at(other.1, n);
        lemma_first_test_that_holds_decides(other.1, limit, n);
        if exists|m: int| m <= limit && escapes_at(one.1, m) {
            let m = choose|m: int| m <= limit && escapes_at(one.1, m);
            lemma_first_test_that_holds_decides(one.1, limit, m);
            if m < n {
                lemma_records_agree(advance, exceeds, start, one, other, m);
            } else if n < m {
                lemma_records_agree(advance, exceeds, start, one, other, n);
            }
        } else {
            lemma_records_agree(advance, exceeds, start, one, other, n);
            assert(one.1[n]);
            assert(!escapes_at(one.1, n));
            let j = choose|j: int| 0 <= j < n && one.1[j];
            lemma_records_agree(advance, exceeds, start, one, other, j);
        }
    }
}

} // verus!
