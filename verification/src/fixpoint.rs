//! The recursive itinerary rule and its semi-naive evaluation to a fixpoint.
//!
//! An itinerary state `(from, to, miles)` says that `to` can be reached, as
//! the stop after `from`, with `miles` miles driven since the start. The
//! relation is the least one that holds the seeds and is closed under the
//! step rule. The evaluator lists it in the order of derivation and fails
//! when it holds more facts than a ceiling.

use vstd::prelude::*;
use vstd::set_lib::lemma_len_subset;
use crate::error::PlanError;
use crate::facts::{DistanceEdge, EdgeView};
use crate::seqs::{contains_text, lemma_push_contains, lemma_push_no_duplicates, lists};

verus! {

/// One itinerary state, with the index of the state it was first derived
/// from (`None` for a seed).
#[derive(Debug, Clone, PartialEq, Eq)]
pub struct TripFact {
    pub from: String,
    pub to: String,
    pub miles: u64,
    pub parent: Option<usize>,
}

/// Mathematical value of a [`TripFact`]: the fact itself, without the
/// record of how it was derived.
pub struct TripView {
    pub from: Seq<char>,
    pub to: Seq<char>,
    pub miles: nat,
}

impl View for TripFact {
    type V = TripView;

    open spec fn view(&self) -> TripView {
        TripView { from: self.from@, to: self.to@, miles: self.miles as nat }
    }
}

impl DeepView for TripFact {
    type V = TripView;

    open spec fn deep_view(&self) -> TripView {
        self@
    }
}

/// What the recursive rule reads: where trips start, where they stop
/// growing, and the legs they may be extended by.
pub struct TripRules {
    pub origins: Set<Seq<char>>,
    pub destinations: Set<Seq<char>>,
    pub segments: Set<EdgeView>,
}

/// The name that stands in `from` for "no stop yet".
pub open spec fn start_marker() -> Seq<char> {
    "start"@
}

/// The seed for origin `c`.
pub open spec fn seed_at(c: Seq<char>) -> TripView {
    TripView { from: start_marker(), to: c, miles: 0 }
}

/// The state reached from state `p` by driving leg `e`.
pub open spec fn step(p: TripView, e: EdgeView) -> TripView {
    TripView { from: p.to, to: e.to, miles: p.miles + e.miles }
}

/// `t` is a seed: the start marker, an origin, and no miles.
pub open spec fn is_seed(r: TripRules, t: TripView) -> bool {
    r.origins.contains(t.to) && t == seed_at(t.to)
}

/// `t` follows from `p` by the step rule: `p` has not arrived at a
/// destination, and some segment leads from where `p` arrived.
pub open spec fn extends(r: TripRules, p: TripView, t: TripView) -> bool {
    &&& !r.destinations.contains(p.to)
    &&& exists|e: EdgeView| #[trigger] r.segments.contains(e) && e.from == p.to && t == step(p, e)
}

/// `t` has a derivation of at most `n` steps from a seed.
pub open spec fn derivable_within(r: TripRules, t: TripView, n: nat) -> bool
    decreases n,
{
    is_seed(r, t) || (n > 0 && exists|p: TripView|
        derivable_within(r, p, (n - 1) as nat) && #[trigger] extends(r, p, t))
}

/// `t` is in the itinerary relation.
pub open spec fn reachable(r: TripRules, t: TripView) -> bool {
    exists|n: nat| derivable_within(r, t, n)
}

/// The itinerary relation: the least fixpoint of seeds and steps.
pub open spec fn itinerary_states(r: TripRules) -> Set<TripView> {
    Set::new(|t: TripView| reachable(r, t))
}

/// `trips` holds every seed and every step from one of its members.
pub open spec fn closed_under_rules(r: TripRules, trips: Seq<TripView>) -> bool {
    &&& forall|t: TripView| is_seed(r, t) ==> trips.contains(t)
    &&& forall|i: int, t: TripView|
        0 <= i < trips.len() && #[trigger] extends(r, trips[i], t) ==> trips.contains(t)
}

/// `all` is finite and has at most `ceiling` members.
pub open spec fn fits<T>(all: Set<T>, ceiling: nat) -> bool {
    all.finite() && all.len() <= ceiling
}

/// The relation fits under `ceiling`.
pub open spec fn within_ceiling(r: TripRules, ceiling: nat) -> bool {
    fits(itinerary_states(r), ceiling)
}

/// The seeds of the relation.
pub open spec fn seeds(r: TripRules) -> Set<TripView> {
    Set::new(|t: TripView| is_seed(r, t))
}

/// With `ceiling` distinct members found and one more besides, a set
/// does not fit under the ceiling.
pub proof fn lemma_too_many<T>(found: Seq<T>, extra: T, all: Set<T>, ceiling: nat)
    requires
        found.no_duplicates(),
        forall|i: int| 0 <= i < found.len() ==> all.contains(#[trigger] found[i]),
        all.contains(extra),
        !found.contains(extra),
        found.len() >= ceiling,
    ensures
        !fits(all, ceiling),
{
    let more = found.push(extra);
    lemma_push_no_duplicates(found, extra);
    more.unique_seq_to_set();
    vstd::seq_lib::seq_to_set_is_finite(more);
    assert forall|t: T| more.to_set().contains(t) implies all.contains(t) by {
        lemma_push_contains(found, extra, t);
        if found.contains(t) {
            let i = choose|i: int| 0 <= i < found.len() && found[i] == t;
            assert(all.contains(found[i]));
        }
    }
    if all.finite() {
        lemma_len_subset(more.to_set(), all);
    }
}

/// A set that a sequence lists is finite and as large as the sequence
/// is long.
pub proof fn lemma_listing_fits<T>(found: Seq<T>, all: Set<T>, ceiling: nat)
    requires
        lists(found, all),
        found.len() <= ceiling,
    ensures
        fits(all, ceiling),
        all.len() == found.len(),
{
    assert(all =~= found.to_set());
    found.unique_seq_to_set();
    vstd::seq_lib::seq_to_set_is_finite(found);
}

/// A set with a part that does not fit under the ceiling does not fit.
pub proof fn lemma_superset_misfit<T>(part: Set<T>, all: Set<T>, ceiling: nat)
    requires
        part.subset_of(all),
        !fits(part, ceiling),
    ensures
        !fits(all, ceiling),
{
    if all.finite() {
        lemma_len_subset(part, all);
    }
}

/// A seed is in the itinerary relation.
pub proof fn lemma_seed_reachable(r: TripRules, t: TripView)
    requires
        is_seed(r, t),
    ensures
        reachable(r, t),
{
    assert(derivable_within(r, t, 0));
}

/// What follows from a state of the itinerary relation is in it too.
pub proof fn lemma_step_reachable(r: TripRules, p: TripView, t: TripView)
    requires
        reachable(r, p),
        extends(r, p, t),
    ensures
        reachable(r, t),
{
    let n = choose|n: nat| derivable_within(r, p, n);
    assert(derivable_within(r, p, ((n + 1) - 1) as nat));
    assert(derivable_within(r, t, n + 1));
}

/// A sequence closed under the rules holds every derivable state.
pub proof fn lemma_closed_holds_derivable(r: TripRules, trips: Seq<TripView>, t: TripView, n: nat)
    requires
        closed_under_rules(r, trips),
        derivable_within(r, t, n),
    ensures
        trips.contains(t),
    decreases n,
{
    if !is_seed(r, t) {
        let p = choose|p: TripView|
            derivable_within(r, p, (n - 1) as nat) && #[trigger] extends(r, p, t);
        lemma_closed_holds_derivable(r, trips, p, (n - 1) as nat);
        let i = choose|i: int| 0 <= i < trips.len() && trips[i] == p;
        assert(extends(r, trips[i], t));
    }
}

/// A duplicate-free sequence of reachable states that is closed under the
/// rules lists the itinerary relation, which is then finite and as large
/// as the sequence is long.
pub proof fn lemma_closed_lists_relation(r: TripRules, trips: Seq<TripView>)
    requires
        trips.no_duplicates(),
        forall|i: int| 0 <= i < trips.len() ==> reachable(r, #[trigger] trips[i]),
        closed_under_rules(r, trips),
    ensures
        lists(trips, itinerary_states(r)),
        itinerary_states(r).finite(),
        itinerary_states(r).len() == trips.len(),
{
    assert forall|t: TripView| #[trigger] trips.contains(t) <==> itinerary_states(r).contains(
        t,
    ) by {
        if reachable(r, t) {
            let n = choose|n: nat| derivable_within(r, t, n);
            lemma_closed_holds_derivable(r, trips, t, n);
        }
    }
    assert(itinerary_states(r) =~= trips.to_set());
    trips.unique_seq_to_set();
    vstd::seq_lib::seq_to_set_is_finite(trips);
}

/// The seeds are part of the relation.
pub proof fn lemma_seeds_in_relation(r: TripRules)
    ensures
        seeds(r).subset_of(itinerary_states(r)),
{
    assert forall|t: TripView| seeds(r).contains(t) implies itinerary_states(r).contains(t) by {
        lemma_seed_reachable(r, t);
    }
}

/// Every state of the itinerary relation arrives at a campground of
/// `suitable` and, unless it is a seed, also leaves from one, provided
/// that the origins and both ends of every segment are in `suitable`.
pub proof fn lemma_states_suitable(r: TripRules, suitable: Set<Seq<char>>, t: TripView)
    requires
        r.origins.subset_of(suitable),
        forall|e: EdgeView| #[trigger]
            r.segments.contains(e) ==> suitable.contains(e.from) && suitable.contains(e.to),
        itinerary_states(r).contains(t),
    ensures
        suitable.contains(t.to),
        is_seed(r, t) || suitable.contains(t.from),
{
    if !is_seed(r, t) {
        let n = choose|n: nat| derivable_within(r, t, n);
        let p = choose|p: TripView|
            derivable_within(r, p, (n - 1) as nat) && #[trigger] extends(r, p, t);
        let e = choose|e: EdgeView| #[trigger]
            r.segments.contains(e) && e.from == p.to && t == step(p, e);
        assert(suitable.contains(e.from) && suitable.contains(e.to));
    }
}

/// At the fixpoint nothing is left to derive: every seed is in the
/// relation, and so is every state that follows from one of its states.
pub proof fn lemma_relation_stable(r: TripRules, p: TripView, t: TripView)
    ensures
        is_seed(r, t) ==> itinerary_states(r).contains(t),
        itinerary_states(r).contains(p) && extends(r, p, t) ==> itinerary_states(r).contains(t),
{
    if is_seed(r, t) {
        lemma_seed_reachable(r, t);
    }
    if itinerary_states(r).contains(p) && extends(r, p, t) {
        lemma_step_reachable(r, p, t);
    }
}

/// The rules that three listed relations stand for.
pub open spec fn trip_rules(
    segments: Seq<EdgeView>,
    origins: Seq<Seq<char>>,
    destinations: Seq<Seq<char>>,
) -> TripRules {
    TripRules {
        origins: origins.to_set(),
        destinations: destinations.to_set(),
        segments: segments.to_set(),
    }
}

/// Every state records how it was first derived: a seed has no parent,
/// and any other state names the earliest state that it follows from.
pub open spec fn first_derived(r: TripRules, trips: Seq<TripFact>) -> bool {
    forall|i: int|
        0 <= i < trips.len() ==> match (#[trigger] trips[i]).parent {
            None => is_seed(r, trips[i]@),
            Some(p) => {
                &&& p < i
                &&& !is_seed(r, trips[i]@)
                &&& extends(r, trips[p as int]@, trips[i]@)
                &&& forall|j: int| 0 <= j < p ==> !extends(r, #[trigger] trips[j]@, trips[i]@)
            },
        }
}

/// No state has more miles than its position allows: each step adds at
/// most the longest leg a `u32` can hold.
pub open spec fn miles_bounded(trips: Seq<TripFact>) -> bool {
    forall|i: int| 0 <= i < trips.len() ==> (#[trigger] trips[i]).miles <= i * 0xffff_ffff
}

/// `x` occurs in `s`, and before `y` does.
pub open spec fn occurs_before<T>(s: Seq<T>, x: T, y: T) -> bool {
    exists|a: int| 0 <= a < s.len() && #[trigger] s[a] == x && forall|b: int| 0 <= b <= a ==> s[b] != y
}

/// `x` is one of the first `k` members of `s`.
pub open spec fn among_first<T>(s: Seq<T>, x: T, k: int) -> bool {
    exists|a: int| 0 <= a < k && a < s.len() && #[trigger] s[a] == x
}

/// The leg that leads from state `p` to state `t`.
pub open spec fn leg_between(p: TripView, t: TripView) -> EdgeView {
    EdgeView { from: p.to, to: t.to, miles: (t.miles - p.miles) as nat }
}

/// State `i` is derived before state `j`: a seed before any other state,
/// seeds in the order of their origins, other states in the order of
/// their parents, and states with one parent in the order of their legs
/// among the segments.
pub open spec fn derived_before(
    segments: Seq<EdgeView>,
    origins: Seq<Seq<char>>,
    trips: Seq<TripFact>,
    i: int,
    j: int,
) -> bool {
    match (trips[i].parent, trips[j].parent) {
        (None, None) => occurs_before(origins, trips[i]@.to, trips[j]@.to),
        (None, Some(_)) => true,
        (Some(_), None) => false,
        (Some(p), Some(q)) => p < q || (p == q && occurs_before(
            segments,
            leg_between(trips[p as int]@, trips[i]@),
            leg_between(trips[p as int]@, trips[j]@),
        )),
    }
}

/// The states stand in the order of their derivation.
pub open spec fn derivation_ordered(
    segments: Seq<EdgeView>,
    origins: Seq<Seq<char>>,
    trips: Seq<TripFact>,
) -> bool {
    forall|i: int, j: int|
        0 <= i < j < trips.len() ==> #[trigger] derived_before(segments, origins, trips, i, j)
}

/// Every recorded parent is a position before `bound`.
pub open spec fn parents_below(trips: Seq<TripFact>, bound: int) -> bool {
    forall|j: int|
        0 <= j < trips.len() ==> match (#[trigger] trips[j]).parent {
            None => true,
            Some(p) => p < bound,
        }
}

/// Appending a seed whose origin comes after those of the seeds so far
/// keeps the order of derivation.
pub proof fn lemma_seed_keeps_order(
    segments: Seq<EdgeView>,
    origins: Seq<Seq<char>>,
    known: Seq<TripFact>,
    grown: Seq<TripFact>,
    k: int,
)
    requires
        derivation_ordered(segments, origins, known),
        grown.len() == known.len() + 1,
        forall|j: int| 0 <= j < known.len() ==> grown[j] == #[trigger] known[j],
        forall|j: int| 0 <= j < grown.len() ==> (#[trigger] grown[j]).parent is None,
        0 <= k <= origins.len(),
        forall|j: int| 0 <= j < known.len() ==> among_first(origins, (#[trigger] known[j])@.to, k),
        forall|y: int| 0 <= y < k ==> origins[y] != grown[known.len() as int]@.to,
    ensures
        derivation_ordered(segments, origins, grown),
{
    let n = known.len() as int;
    assert forall|i: int, j: int| 0 <= i < j < grown.len() implies #[trigger] derived_before(
        segments,
        origins,
        grown,
        i,
        j,
    ) by {
        assert(grown[i] == known[i]);
        if j < n {
            assert(grown[j] == known[j]);
            assert(derived_before(segments, origins, known, i, j));
        } else {
            assert(among_first(origins, known[i]@.to, k));
            let x = choose|x: int| 0 <= x < k && x < origins.len() && #[trigger] origins[x] == known[i]@.to;
            assert(origins[x] == grown[i]@.to);
        }
    }
}

/// Appending a state that follows from state `i` by a leg that comes
/// after those of its siblings keeps the order of derivation, when no
/// state so far has a parent after `i`.
pub proof fn lemma_step_keeps_order(
    segments: Seq<EdgeView>,
    origins: Seq<Seq<char>>,
    known: Seq<TripFact>,
    grown: Seq<TripFact>,
    i: usize,
    base: int,
    k: int,
)
    requires
        derivation_ordered(segments, origins, known),
        grown.len() == known.len() + 1,
        forall|j: int| 0 <= j < known.len() ==> grown[j] == #[trigger] known[j],
        0 <= i < base <= known.len(),
        grown[known.len() as int].parent == Some(i),
        forall|j: int|
            0 <= j < base ==> match (#[trigger] known[j]).parent {
                None => true,
                Some(p) => p < i,
            },
        forall|j: int| base <= j < known.len() ==> (#[trigger] known[j]).parent == Some(i),
        0 <= k <= segments.len(),
        forall|j: int|
            base <= j < known.len() ==> among_first(
                segments,
                leg_between(known[i as int]@, (#[trigger] known[j])@),
                k,
            ),
        forall|y: int|
            0 <= y < k ==> segments[y] != leg_between(known[i as int]@, grown[known.len() as int]@),
    ensures
        derivation_ordered(segments, origins, grown),
{
    let n = known.len() as int;
    assert forall|a: int, b: int| 0 <= a < b < grown.len() implies #[trigger] derived_before(
        segments,
        origins,
        grown,
        a,
        b,
    ) by {
        assert(grown[a] == known[a]);
        assert(grown[i as int] == known[i as int]);
        if b < n {
            assert(grown[b] == known[b]);
            assert(derived_before(segments, origins, known, a, b));
            match (known[a].parent, known[b].parent) {
                (Some(p), Some(q)) => {
                    assert(p <= i) by {
                        if a < base {
                        } else {
                        }
                    }
                    assert(grown[p as int] == known[p as int]);
                    assert(derived_before(segments, origins, grown, a, b));
                },
                (None, None) => {
                    assert(derived_before(segments, origins, grown, a, b));
                },
                (None, Some(_)) => {
                    assert(derived_before(segments, origins, grown, a, b));
                },
                (Some(_), None) => {},
            }
        } else {
            assert(b == n);
            match known[a].parent {
                None => {
                    assert(derived_before(segments, origins, grown, a, b));
                },
                Some(p) => {
                    if a >= base {
                        assert(among_first(
                            segments,
                            leg_between(known[i as int]@, known[a]@),
                            k,
                        ));
                        let x = choose|x: int|
                            0 <= x < k && x < segments.len() && #[trigger] segments[x]
                                == leg_between(known[i as int]@, known[a]@);
                        assert(segments[x] == leg_between(grown[i as int]@, grown[a]@));
                        assert(occurs_before(
                            segments,
                            leg_between(grown[i as int]@, grown[a]@),
                            leg_between(grown[i as int]@, grown[n]@),
                        ));
                        assert(derived_before(segments, origins, grown, a, b));
                    } else {
                        assert(p < i);
                        assert(derived_before(segments, origins, grown, a, b));
                    }
                },
            }
        }
    }
}

/// Appending a state that follows from state `i` keeps the states
/// reachable, the seeds among them, and the steps from the states before
/// `done` among them.
pub proof fn lemma_states_grow(r: TripRules, old: Seq<TripView>, next: TripView, i: int, done: int)
    requires
        0 <= i < old.len(),
        0 <= done <= old.len(),
        forall|j: int| 0 <= j < old.len() ==> reachable(r, #[trigger] old[j]),
        forall|j: int, t: TripView|
            0 <= j < done && #[trigger] extends(r, old[j], t) ==> old.contains(t),
        extends(r, old[i], next),
    ensures
        forall|j: int| 0 <= j < old.len() + 1 ==> reachable(r, #[trigger] old.push(next)[j]),
        forall|t: TripView| old.contains(t) ==> #[trigger] old.push(next).contains(t),
        forall|j: int, t: TripView|
            0 <= j < done && #[trigger] extends(r, old.push(next)[j], t) ==> old.push(
                next,
            ).contains(t),
{
    let grown = old.push(next);
    assert(reachable(r, old[i]));
    lemma_step_reachable(r, old[i], next);
    assert forall|j: int| 0 <= j < old.len() + 1 implies reachable(r, #[trigger] grown[j]) by {
        if j < old.len() {
            assert(grown[j] == old[j]);
        }
    }
    assert forall|t: TripView| old.contains(t) implies #[trigger] grown.contains(t) by {
        lemma_push_contains(old, next, t);
    }
    assert forall|j: int, t: TripView|
        0 <= j < done && #[trigger] extends(r, grown[j], t) implies grown.contains(t) by {
        assert(grown[j] == old[j]);
        assert(old.contains(t));
    }
}

/// Appending a state with its earliest parent keeps the record of first
/// derivation.
pub proof fn lemma_first_derived_grows(
    r: TripRules,
    known: Seq<TripFact>,
    grown: Seq<TripFact>,
    i: usize,
)
    requires
        first_derived(r, known),
        grown.len() == known.len() + 1,
        forall|j: int| 0 <= j < known.len() ==> grown[j] == #[trigger] known[j],
        i < known.len(),
        grown[known.len() as int].parent == Some(i),
        !is_seed(r, grown[known.len() as int]@),
        extends(r, known[i as int]@, grown[known.len() as int]@),
        forall|j: int| 0 <= j < i ==> !extends(r, (#[trigger] known[j])@, grown[known.len() as int]@),
    ensures
        first_derived(r, grown),
{
    let n = known.len() as int;
    assert forall|j: int| 0 <= j < grown.len() implies match (#[trigger] grown[j]).parent {
        None => is_seed(r, grown[j]@),
        Some(p) => {
            &&& p < j
            &&& !is_seed(r, grown[j]@)
            &&& extends(r, grown[p as int]@, grown[j]@)
            &&& forall|q: int| 0 <= q < p ==> !extends(r, #[trigger] grown[q]@, grown[j]@)
        },
    } by {
        if j < n {
            assert(grown[j] == known[j]);
            match known[j].parent {
                None => {},
                Some(p) => {
                    assert(grown[p as int] == known[p as int]);
                    assert forall|q: int| 0 <= q < p implies !extends(
                        r,
                        #[trigger] grown[q]@,
                        grown[j]@,
                    ) by {
                        assert(grown[q] == known[q]);
                    }
                },
            }
        } else {
            assert(grown[i as int] == known[i as int]);
            assert forall|q: int| 0 <= q < i implies !extends(
                r,
                #[trigger] grown[q]@,
                grown[j]@,
            ) by {
                assert(grown[q] == known[q]);
            }
        }
    }
}

/// Appending a state whose miles its position allows keeps the bound on
/// miles.
pub proof fn lemma_miles_bounded_grows(known: Seq<TripFact>, grown: Seq<TripFact>)
    requires
        miles_bounded(known),
        grown.len() == known.len() + 1,
        forall|j: int| 0 <= j < known.len() ==> grown[j] == #[trigger] known[j],
        grown[known.len() as int].miles <= known.len() * 0xffff_ffff,
    ensures
        miles_bounded(grown),
{
    assert forall|j: int| 0 <= j < grown.len() implies (#[trigger] grown[j]).miles <= j
        * 0xffff_ffff by {
        if j < known.len() {
            assert(grown[j] == known[j]);
        }
    }
}

/// Whether the state `(from, to, miles)` occurs in `trips`.
pub fn contains_trip(trips: &Vec<TripFact>, from: &String, to: &String, miles: u64) -> (found: bool)
    ensures
        found == trips.deep_view().contains(
            TripView { from: from@, to: to@, miles: miles as nat },
        ),
{
    let ghost needle = TripView { from: from@, to: to@, miles: miles as nat };
    let mut i: usize = 0;
    while i < trips.len()
        invariant
            i <= trips.len(),
            needle == (TripView { from: from@, to: to@, miles: miles as nat }),
            forall|k: int| 0 <= k < i ==> trips.deep_view()[k] != needle,
        decreases trips.len() - i,
    {
        let t = &trips[i];
        if t.miles == miles && t.to == *to && t.from == *from {
            assert(trips.deep_view()[i as int] == needle);
            return true;
        }
        i += 1;
    }
    false
}

/// The state of a semi-naive evaluation between two rounds: the states
/// derived so far, in the order of derivation, and where the delta of the
/// last round begins.
pub struct Evaluator<'a> {
    pub segments: &'a Vec<DistanceEdge>,
    pub origins: &'a Vec<String>,
    pub destinations: &'a Vec<String>,
    pub ceiling: u32,
    pub trips: Vec<TripFact>,
    pub frontier: usize,
}

impl<'a> Evaluator<'a> {
    /// The rules under evaluation.
    pub open spec fn rules(&self) -> TripRules {
        trip_rules(
            self.segments.deep_view(),
            self.origins.deep_view(),
            self.destinations.deep_view(),
        )
    }

    /// The states derived so far.
    pub open spec fn states(&self) -> Seq<TripView> {
        self.trips.deep_view()
    }

    /// The evaluation reads the same relations under the same ceiling.
    pub open spec fn same_task(&self, other: &Evaluator<'a>) -> bool {
        &&& self.segments == other.segments
        &&& self.origins == other.origins
        &&& self.destinations == other.destinations
        &&& self.ceiling == other.ceiling
    }

    /// What holds when every state before `done` has been extended: the
    /// states are distinct, reachable and under the ceiling, all seeds are
    /// there, and so is every step from a state before `done`.
    pub open spec fn settled_up_to(&self, done: int) -> bool {
        &&& 0 <= done <= self.trips.len() <= self.ceiling
        &&& self.states().no_duplicates()
        &&& forall|i: int| 0 <= i < self.trips.len() ==> reachable(self.rules(), #[trigger] self.states()[i])
        &&& forall|t: TripView| is_seed(self.rules(), t) ==> self.states().contains(t)
        &&& forall|i: int, t: TripView|
            0 <= i < done && #[trigger] extends(self.rules(), self.states()[i], t)
                ==> self.states().contains(t)
        &&& first_derived(self.rules(), self.trips@)
        &&& miles_bounded(self.trips@)
    }

    /// The states stand in the order of their derivation.
    pub open spec fn ordered(&self) -> bool {
        derivation_ordered(self.segments.deep_view(), self.origins.deep_view(), self.trips@)
    }

    /// Well-formedness between rounds: everything before the frontier
    /// has been extended, and nothing after it, and the states stand in
    /// the order of their derivation.
    pub open spec fn wf(&self) -> bool {
        &&& self.settled_up_to(self.frontier as int)
        &&& self.ordered()
        &&& parents_below(self.trips@, self.frontier as int)
    }

    /// No round can add a state: the delta is empty.
    pub open spec fn is_fixpoint(&self) -> bool {
        self.frontier == self.trips.len()
    }

    /// `later` keeps every state of `self`, in place.
    pub open spec fn grows_into(&self, later: &Evaluator<'a>) -> bool {
        &&& self.same_task(later)
        &&& self.trips.len() <= later.trips.len()
        &&& forall|i: int| 0 <= i < self.trips.len() ==> later.trips@[i] == #[trigger] self.trips@[i]
    }

    /// Begins an evaluation with the seeds, one for each origin, in the
    /// order of `origins`.
    pub fn start(
        segments: &'a Vec<DistanceEdge>,
        origins: &'a Vec<String>,
        destinations: &'a Vec<String>,
        ceiling: u32,
    ) -> (begun: Result<Evaluator<'a>, PlanError>)
        ensures
            begun is Ok <==> fits(
                seeds(
                    trip_rules(segments.deep_view(), origins.deep_view(), destinations.deep_view()),
                ),
                ceiling as nat,
            ),
            match begun {
                Ok(ev) => {
                    &&& ev.wf()
                    &&& ev.frontier == 0
                    &&& ev.segments == segments
                    &&& ev.origins == origins
                    &&& ev.destinations == destinations
                    &&& ev.ceiling == ceiling
                    &&& forall|i: int| 0 <= i < ev.trips.len() ==> is_seed(ev.rules(), #[trigger] ev.states()[i])
                },
                Err(e) => e == PlanError::FixpointExplosion && !within_ceiling(
                    trip_rules(segments.deep_view(), origins.deep_view(), destinations.deep_view()),
                    ceiling as nat,
                ),
            },
    {
        let ghost r = trip_rules(
            segments.deep_view(),
            origins.deep_view(),
            destinations.deep_view(),
        );
        let marker = "start".to_owned();
        let mut trips: Vec<TripFact> = Vec::new();
        let mut k: usize = 0;
        while k < origins.len()
            invariant
                k <= origins.len(),
                marker@ == start_marker(),
                trips.len() <= ceiling,
                r == trip_rules(segments.deep_view(), origins.deep_view(), destinations.deep_view()),
                trips.deep_view().no_duplicates(),
                forall|i: int| 0 <= i < trips.len() ==> is_seed(r, #[trigger] trips.deep_view()[i]),
                forall|i: int| 0 <= i < trips.len() ==> (#[trigger] trips@[i]).parent is None,
                forall|j: int| 0 <= j < k ==> trips.deep_view().contains(seed_at(#[trigger] origins.deep_view()[j])),
                derivation_ordered(segments.deep_view(), origins.deep_view(), trips@),
                forall|j: int|
                    0 <= j < trips.len() ==> among_first(
                        origins.deep_view(),
                        (#[trigger] trips@[j])@.to,
                        k as int,
                    ),
            decreases origins.len() - k,
        {
            let origin = &origins[k];
            let ghost s = seed_at(origin@);
            let ghost before = trips.deep_view();
            let ghost known = trips@;
            assert(origins.deep_view()[k as int] == origin@);
            assert(is_seed(r, s));

            if !contains_trip(&trips, &marker, origin, 0) {
                if trips.len() >= ceiling as usize {
                    proof {
                        lemma_too_many(before, s, seeds(r), ceiling as nat);
                        lemma_seeds_in_relation(r);
                        lemma_superset_misfit(seeds(r), itinerary_states(r), ceiling as nat);
                    }
                    return Err(PlanError::FixpointExplosion);
                }
                trips.push(TripFact { from: marker.clone(), to: origin.clone(), miles: 0, parent: None });
                proof {
                    assert(trips.deep_view() =~= before.push(s));
                    lemma_push_no_duplicates(before, s);
                    assert forall|j: int| 0 <= j < k + 1 implies trips.deep_view().contains(seed_at(#[trigger] origins.deep_view()[j])) by {
                        lemma_push_contains(before, s, seed_at(origins.deep_view()[j]));
                    }
                    assert forall|y: int| 0 <= y < k implies origins.deep_view()[y] != trips@[known.len() as int]@.to by {
                        if origins.deep_view()[y] == origin@ {
                            assert(before.contains(seed_at(origins.deep_view()[y])));
                        }
                    }
                    lemma_seed_keeps_order(segments.deep_view(), origins.deep_view(), known, trips@, k as int);
                    assert forall|j: int| 0 <= j < trips.len() implies among_first(
                        origins.deep_view(),
                        (#[trigger] trips@[j])@.to,
                        k + 1,
                    ) by {
                        if j < known.len() {
                            assert(trips@[j] == known[j]);
                            assert(among_first(origins.deep_view(), known[j]@.to, k as int));
                            let x = choose|x: int|
                                0 <= x < k && x < origins.deep_view().len()
                                    && #[trigger] origins.deep_view()[x] == known[j]@.to;
                            assert(origins.deep_view()[x] == trips@[j]@.to);
                        } else {
                            assert(origins.deep_view()[k as int] == trips@[j]@.to);
                        }
                    }
                }
            } else {
                proof {
                    assert forall|j: int| 0 <= j < trips.len() implies among_first(
                        origins.deep_view(),
                        (#[trigger] trips@[j])@.to,
                        k + 1,
                    ) by {
                        assert(among_first(origins.deep_view(), trips@[j]@.to, k as int));
                        let x = choose|x: int|
                            0 <= x < k && x < origins.deep_view().len()
                                && #[trigger] origins.deep_view()[x] == trips@[j]@.to;
                        assert(origins.deep_view()[x] == trips@[j]@.to);
                    }
                }
            }
            k += 1;
        }
        let ev = Evaluator { segments, origins, destinations, ceiling, trips, frontier: 0 };
        proof {
            assert(ev.rules() == r);
            assert forall|i: int| 0 <= i < ev.trips.len() implies reachable(r, #[trigger] ev.states()[i]) by {
                lemma_seed_reachable(r, ev.states()[i]);
            }
            assert forall|t: TripView| is_seed(r, t) implies ev.states().contains(t) by {
                let j = choose|j: int| 0 <= j < origins.deep_view().len() && origins.deep_view()[j] == t.to;
                assert(ev.states().contains(seed_at(origins.deep_view()[j])));
            }
            assert(first_derived(r, ev.trips@)) by {
                assert forall|i: int| 0 <= i < ev.trips@.len() implies (#[trigger] ev.trips@[i]).parent is None && is_seed(r, ev.trips@[i]@) by {
                    assert(ev.states()[i] == ev.trips@[i]@);
                }
            }
            assert(miles_bounded(ev.trips@)) by {
                assert forall|i: int| 0 <= i < ev.trips@.len() implies (#[trigger] ev.trips@[i]).miles <= i * 0xffff_ffff by {
                    assert(is_seed(r, ev.states()[i]));
                    assert(ev.states()[i] == ev.trips@[i]@);
                }
            }
            assert forall|t: TripView| #[trigger] ev.states().contains(t) <==> seeds(r).contains(t) by {
                if ev.states().contains(t) {
                    let i = choose|i: int| 0 <= i < ev.states().len() && ev.states()[i] == t;
                    assert(is_seed(r, ev.states()[i]));
                }
            }
            lemma_listing_fits(ev.states(), seeds(r), ceiling as nat);
        }
        Ok(ev)
    }

    /// Appending a new state that follows from state `i` keeps what holds
    /// when every state before `i` has been extended.
    pub proof fn lemma_state_added(before: Evaluator<'a>, after: Evaluator<'a>, i: usize)
        requires
            before.settled_up_to(i as int),
            i < before.trips.len(),
            before.same_task(&after),
            after.trips.len() == before.trips.len() + 1,
            forall|j: int|
                0 <= j < before.trips.len() ==> after.trips@[j] == #[trigger] before.trips@[j],
            after.trips@[before.trips.len() as int].parent == Some(i),
            extends(
                before.rules(),
                before.states()[i as int],
                after.trips@[before.trips.len() as int]@,
            ),
            !before.states().contains(after.trips@[before.trips.len() as int]@),
            before.trips.len() < before.ceiling,
            after.trips@[before.trips.len() as int].miles <= before.trips.len() * 0xffff_ffff,
        ensures
            after.settled_up_to(i as int),
            after.states() == before.states().push(after.trips@[before.trips.len() as int]@),
    {
        let r = before.rules();
        let n = before.trips.len() as int;
        let next = after.trips@[n]@;
        let old = before.states();
        assert(after.rules() == r);
        assert(after.states() =~= old.push(next));
        assert(old[i as int] == before.trips@[i as int]@);
        lemma_push_no_duplicates(old, next);
        lemma_states_grow(r, old, next, i as int, i as int);
        assert(!is_seed(r, next));
        assert forall|j: int| 0 <= j < i implies !extends(r, (#[trigger] before.trips@[j])@, next) by {
            assert(before.trips@[j]@ == old[j]);
        }
        lemma_first_derived_grows(r, before.trips@, after.trips@, i);
        lemma_miles_bounded_grows(before.trips@, after.trips@);
    }

    /// The states known, and those that follow from state `i`.
    pub open spec fn with_successors_of(&self, i: int) -> Set<TripView> {
        Set::new(
            |t: TripView| self.states().contains(t) || extends(self.rules(), self.states()[i], t),
        )
    }

    /// Applies the step rule to state `i`: every state that follows from
    /// it and is not yet known is appended, in the order of the segments.
    /// Fails exactly when that makes more states than the ceiling allows.
    pub fn expand(self, i: usize) -> (grown: Result<Evaluator<'a>, PlanError>)
        requires
            self.settled_up_to(i as int),
            self.ordered(),
            parents_below(self.trips@, i as int),
            i < self.trips.len(),
        ensures
            grown is Ok <==> fits(self.with_successors_of(i as int), self.ceiling as nat),
            match grown {
                Ok(ev) => {
                    &&& ev.settled_up_to(i + 1)
                    &&& lists(ev.states(), self.with_successors_of(i as int))
                    &&& ev.ordered()
                    &&& parents_below(ev.trips@, i + 1)
                    &&& self.grows_into(&ev)
                    &&& ev.frontier == self.frontier
                    &&& forall|j: int|
                        self.trips.len() <= j < ev.trips.len() ==> (#[trigger] ev.trips@[j]).parent
                            == Some(i)
                },
                Err(e) => e == PlanError::FixpointExplosion && !within_ceiling(
                    self.rules(),
                    self.ceiling as nat,
                ),
            },
    {
        let ghost begun = self;
        let ghost r = self.rules();
        let ghost cur = self.states()[i as int];
        let mut ev = self;
        let at = ev.trips[i].to.clone();
        let miles = ev.trips[i].miles;
        assert(cur == ev.trips@[i as int]@);
        if contains_text(ev.destinations, &at) {
            proof {
                assert(forall|t: TripView| !extends(r, cur, t));
                lemma_listing_fits(ev.states(), self.with_successors_of(i as int), self.ceiling as nat);
            }
            return Ok(ev);
        }
        let mut k: usize = 0;
        while k < ev.segments.len()
            invariant
                k <= ev.segments.len(),
                i < begun.trips.len(),
                begun == self,
                ev.settled_up_to(i as int),
                begun.grows_into(&ev),
                ev.frontier == begun.frontier,
                r == ev.rules(),
                cur == ev.states()[i as int],
                at@ == cur.to,
                miles == cur.miles,
                !r.destinations.contains(cur.to),
                forall|j: int|
                    0 <= j < k && (#[trigger] ev.segments.deep_view()[j]).from == cur.to
                        ==> ev.states().contains(step(cur, ev.segments.deep_view()[j])),
                forall|j: int|
                    begun.trips.len() <= j < ev.trips.len() ==> (#[trigger] ev.trips@[j]).parent
                        == Some(i),
                ev.ordered(),
                parents_below(begun.trips@, i as int),
                forall|j: int|
                    0 <= j < ev.trips.len() ==> begun.with_successors_of(i as int).contains(
                        #[trigger] ev.states()[j],
                    ),
                forall|j: int|
                    begun.trips.len() <= j < ev.trips.len() ==> among_first(
                        ev.segments.deep_view(),
                        leg_between(cur, (#[trigger] ev.trips@[j])@),
                        k as int,
                    ),
            decreases ev.segments.len() - k,
        {
            let seg = &ev.segments[k];
            let ghost leg = ev.segments.deep_view()[k as int];
            let ghost before = ev.states();
            let ghost known = ev.trips@;
            if seg.from == at {
                let ghost next = step(cur, leg);
                assert(miles <= i * 0xffff_ffff) by {
                    assert(ev.trips@[i as int].miles <= i * 0xffff_ffff);
                }
                let total = miles + seg.miles as u64;
                proof {
                    assert(r.segments.contains(leg)) by {
                        assert(ev.segments.deep_view().contains(leg));
                    }
                    assert(extends(r, cur, next));
                    assert(reachable(r, before[i as int]));
                    lemma_step_reachable(r, cur, next);
                }
                if !contains_trip(&ev.trips, &at, &seg.to, total) {
                    if ev.trips.len() >= ev.ceiling as usize {
                        proof {
                            let target = begun.with_successors_of(i as int);
                            assert(begun.states()[i as int] == cur);
                            lemma_too_many(before, next, target, ev.ceiling as nat);
                            assert forall|t: TripView| target.contains(t) implies itinerary_states(
                                r,
                            ).contains(t) by {
                                if begun.states().contains(t) {
                                    let j = choose|j: int|
                                        0 <= j < begun.states().len() && begun.states()[j] == t;
                                    assert(begun.trips@[j] == known[j]);
                                    assert(reachable(r, before[j]));
                                } else {
                                    lemma_step_reachable(r, cur, t);
                                }
                            }
                            lemma_superset_misfit(target, itinerary_states(r), ev.ceiling as nat);
                        }
                        return Err(PlanError::FixpointExplosion);
                    }
                    let ghost prior = ev;
                    ev.trips.push(
                        TripFact { from: at.clone(), to: seg.to.clone(), miles: total, parent: Some(i) },
                    );
                    proof {
                        let n = known.len() as int;
                        assert(ev.trips@[n]@ == next);
                        Evaluator::lemma_state_added(prior, ev, i);
                        assert(ev.states().contains(next)) by {
                            lemma_push_contains(before, next, next);
                        }
                        assert(begun.states()[i as int] == cur);
                        assert forall|j: int|
                            0 <= j < ev.trips.len() implies begun.with_successors_of(
                            i as int,
                        ).contains(#[trigger] ev.states()[j]) by {
                            if j < n {
                                assert(ev.states()[j] == before[j]);
                            }
                        }
                        assert(cur == ev.states()[i as int]);
                        assert forall|j: int|
                            0 <= j < k && (#[trigger] ev.segments.deep_view()[j]).from
                                == cur.to implies ev.states().contains(
                            step(cur, ev.segments.deep_view()[j]),
                        ) by {
                            lemma_push_contains(before, next, step(cur, ev.segments.deep_view()[j]));
                        }
                        assert(leg_between(cur, next) == leg);
                        assert(known[i as int]@ == cur);
                        assert(ev.trips@[n]@ == next);
                        assert forall|y: int| 0 <= y < k implies ev.segments.deep_view()[y]
                            != leg by {
                            if ev.segments.deep_view()[y] == leg {
                                assert(before.contains(step(cur, ev.segments.deep_view()[y])));
                            }
                        }
                        assert forall|j: int| 0 <= j < begun.trips.len() implies match (
                        #[trigger] known[j]).parent {
                            None => true,
                            Some(p) => p < i,
                        } by {
                            assert(known[j] == begun.trips@[j]);
                        }
                        lemma_step_keeps_order(
                            ev.segments.deep_view(),
                            ev.origins.deep_view(),
                            known,
                            ev.trips@,
                            i,
                            begun.trips.len() as int,
                            k as int,
                        );
                        assert forall|j: int|
                            begun.trips.len() <= j < ev.trips.len() implies among_first(
                            ev.segments.deep_view(),
                            leg_between(cur, (#[trigger] ev.trips@[j])@),
                            k + 1,
                        ) by {
                            if j < n {
                                assert(ev.trips@[j] == known[j]);
                                assert(among_first(
                                    ev.segments.deep_view(),
                                    leg_between(cur, known[j]@),
                                    k as int,
                                ));
                                let x = choose|x: int|
                                    0 <= x < k && x < ev.segments.deep_view().len()
                                        && #[trigger] ev.segments.deep_view()[x] == leg_between(
                                        cur,
                                        known[j]@,
                                    );
                                assert(ev.segments.deep_view()[x] == leg_between(
                                    cur,
                                    ev.trips@[j]@,
                                ));
                            } else {
                                assert(ev.segments.deep_view()[k as int] == leg_between(
                                    cur,
                                    ev.trips@[j]@,
                                ));
                            }
                        }
                    }
                }
            }
            proof {
                assert forall|j: int|
                    begun.trips.len() <= j < ev.trips.len() implies among_first(
                    ev.segments.deep_view(),
                    leg_between(cur, (#[trigger] ev.trips@[j])@),
                    k + 1,
                ) by {
                    if j < known.len() {
                        assert(ev.trips@[j] == known[j]);
                        assert(among_first(
                            ev.segments.deep_view(),
                            leg_between(cur, known[j]@),
                            k as int,
                        ));
                        let x = choose|x: int|
                            0 <= x < k && x < ev.segments.deep_view().len()
                                && #[trigger] ev.segments.deep_view()[x] == leg_between(
                                cur,
                                known[j]@,
                            );
                        assert(ev.segments.deep_view()[x] == leg_between(cur, ev.trips@[j]@));
                    }
                }
            }
            k += 1;
        }
        proof {
            assert forall|j: int| 0 <= j < ev.trips.len() implies match (
            #[trigger] ev.trips@[j]).parent {
                None => true,
                Some(p) => p < i + 1,
            } by {
                if j < begun.trips.len() {
                    assert(ev.trips@[j] == begun.trips@[j]);
                }
            }
            assert forall|j: int, t: TripView|
                0 <= j < i + 1 && #[trigger] extends(r, ev.states()[j], t) implies ev.states().contains(
                t,
            ) by {
                if j == i {
                    let e = choose|e: EdgeView| #[trigger]
                        r.segments.contains(e) && e.from == cur.to && t == step(cur, e);
                    assert(ev.segments.deep_view().contains(e));
                    let x = choose|x: int|
                        0 <= x < ev.segments.deep_view().len() && ev.segments.deep_view()[x] == e;
                    assert(ev.segments.deep_view()[x].from == cur.to);
                }
            }
            let target = self.with_successors_of(i as int);
            assert(self.states()[i as int] == cur);
            assert forall|t: TripView| #[trigger] ev.states().contains(t) <==> target.contains(
                t,
            ) by {
                if ev.states().contains(t) {
                    let j = choose|j: int| 0 <= j < ev.states().len() && ev.states()[j] == t;
                    assert(target.contains(ev.states()[j]));
                }
                if self.states().contains(t) {
                    let j = choose|j: int| 0 <= j < self.states().len() && self.states()[j] == t;
                    assert(ev.states()[j] == t);
                }
                if extends(r, cur, t) {
                    assert(extends(r, ev.states()[i as int], t));
                }
            }
            lemma_listing_fits(ev.states(), target, self.ceiling as nat);
        }
        Ok(ev)
    }

    /// `t` follows by the step rule from a state of the current delta.
    pub open spec fn follows_from_delta(&self, t: TripView) -> bool {
        exists|i: int|
            self.frontier <= i < self.trips.len() && #[trigger] extends(
                self.rules(),
                self.states()[i],
                t,
            )
    }

    /// The states known, and those that follow from one of the delta:
    /// what the relation holds after another round.
    pub open spec fn round_target(&self) -> Set<TripView> {
        Set::new(|t: TripView| self.states().contains(t) || self.follows_from_delta(t))
    }

    /// One round of semi-naive evaluation: the step rule is applied to the
    /// states of the last delta only, and the states that are new become
    /// the next delta. No state is removed or moved. Fails exactly when
    /// the round makes more states than the ceiling allows.
    pub fn round(self) -> (next: Result<Evaluator<'a>, PlanError>)
        requires
            self.wf(),
        ensures
            next is Ok <==> fits(self.round_target(), self.ceiling as nat),
            match next {
                Ok(ev) => {
                    &&& ev.wf()
                    &&& self.grows_into(&ev)
                    &&& ev.frontier == self.trips.len()
                    &&& forall|t: TripView| #[trigger]
                        ev.states().contains(t) <==> (self.states().contains(t)
                            || self.follows_from_delta(t))
                    &&& self.is_fixpoint() ==> ev.trips@ == self.trips@
                },
                Err(e) => e == PlanError::FixpointExplosion && !within_ceiling(
                    self.rules(),
                    self.ceiling as nat,
                ),
            },
    {
        let ghost r = self.rules();
        let first = self.frontier;
        let end = self.trips.len();
        let mut ev = self;
        let mut i: usize = first;
        while i < end
            invariant
                first == self.frontier,
                end == self.trips.len(),
                first <= i <= end,
                r == self.rules(),
                ev.settled_up_to(i as int),
                ev.ordered(),
                parents_below(ev.trips@, i as int),
                self.grows_into(&ev),
                forall|j: int|
                    end <= j < ev.trips.len() ==> match (#[trigger] ev.trips@[j]).parent {
                        None => false,
                        Some(p) => first <= p < i,
                    },
            decreases end - i,
        {
            let ghost prior = ev;
            match ev.expand(i) {
                Ok(grown) => {
                    ev = grown;
                },
                Err(e) => {
                    proof {
                        let part = prior.with_successors_of(i as int);
                        assert forall|t: TripView| part.contains(t) implies self.round_target().contains(
                            t,
                        ) by {
                            assert(prior.states()[i as int] == self.states()[i as int]);
                            if prior.states().contains(t) {
                                let j = choose|j: int|
                                    0 <= j < prior.states().len() && prior.states()[j] == t;
                                if j < end {
                                    assert(self.states()[j] == t);
                                } else {
                                    let p = prior.trips@[j].parent->0 as int;
                                    assert(extends(r, prior.trips@[p]@, prior.trips@[j]@));
                                    assert(prior.trips@[p] == self.trips@[p]);
                                    assert(extends(r, self.states()[p], t));
                                }
                            } else {
                                assert(extends(r, self.states()[i as int], t));
                            }
                        }
                        lemma_superset_misfit(part, self.round_target(), self.ceiling as nat);
                    }
                    return Err(e);
                },
            }
            proof {
                assert forall|j: int| end <= j < ev.trips.len() implies match (
                #[trigger] ev.trips@[j]).parent {
                    None => false,
                    Some(p) => first <= p < i + 1,
                } by {
                    if j < prior.trips.len() {
                        assert(ev.trips@[j] == prior.trips@[j]);
                    }
                }
                assert forall|j: int| 0 <= j < self.trips.len() implies ev.trips@[j]
                    == #[trigger] self.trips@[j] by {
                    assert(prior.trips@[j] == self.trips@[j]);
                }
            }
            i += 1;
        }
        ev.frontier = end;
        proof {
            assert forall|t: TripView| #[trigger]
                ev.states().contains(t) <==> (self.states().contains(t) || self.follows_from_delta(
                    t,
                )) by {
                if ev.states().contains(t) {
                    let j = choose|j: int| 0 <= j < ev.states().len() && ev.states()[j] == t;
                    if j < end {
                        assert(self.states()[j] == t);
                    } else {
                        let p = ev.trips@[j].parent->0 as int;
                        assert(extends(r, ev.trips@[p]@, ev.trips@[j]@));
                        assert(ev.trips@[p] == self.trips@[p]);
                        assert(extends(r, self.states()[p], t));
                    }
                }
                if self.states().contains(t) {
                    let j = choose|j: int| 0 <= j < self.states().len() && self.states()[j] == t;
                    assert(ev.states()[j] == t);
                }
                if self.follows_from_delta(t) {
                    let j = choose|j: int|
                        self.frontier <= j < self.trips.len() && #[trigger] extends(
                            self.rules(),
                            self.states()[j],
                            t,
                        );
                    assert(ev.states()[j] == self.states()[j]);
                    assert(extends(r, ev.states()[j], t));
                }
            }
            lemma_listing_fits(ev.states(), self.round_target(), self.ceiling as nat);
            if self.is_fixpoint() {
                if ev.trips.len() > end {
                    assert(ev.trips@[end as int].parent is Some);
                }
                assert(ev.trips@ =~= self.trips@);
            }
        }
        Ok(ev)
    }
}

/// What an evaluation that ran to its end returns: the itinerary relation,
/// every state once, each recording the earliest state it follows from.
pub open spec fn is_evaluation(r: TripRules, trips: Seq<TripFact>) -> bool {
    &&& lists(trips.map_values(|t: TripFact| t@), itinerary_states(r))
    &&& closed_under_rules(r, trips.map_values(|t: TripFact| t@))
    &&& first_derived(r, trips)
}

/// Evaluates the itinerary rule to its fixpoint by semi-naive rounds, and
/// returns the relation in the order of derivation. Fails exactly when the
/// relation holds more than `ceiling` states.
pub fn evaluate(
    segments: &Vec<DistanceEdge>,
    origins: &Vec<String>,
    destinations: &Vec<String>,
    ceiling: u32,
) -> (outcome: Result<Vec<TripFact>, PlanError>)
    ensures
        outcome is Ok <==> within_ceiling(
            trip_rules(segments.deep_view(), origins.deep_view(), destinations.deep_view()),
            ceiling as nat,
        ),
        match outcome {
            Ok(trips) => {
                &&& is_evaluation(
                    trip_rules(segments.deep_view(), origins.deep_view(), destinations.deep_view()),
                    trips@,
                )
                &&& derivation_ordered(segments.deep_view(), origins.deep_view(), trips@)
            },
            Err(e) => e == PlanError::FixpointExplosion,
        },
{
    let ghost r = trip_rules(segments.deep_view(), origins.deep_view(), destinations.deep_view());
    let mut ev = match Evaluator::start(segments, origins, destinations, ceiling) {
        Ok(ev) => ev,
        Err(e) => {
            return Err(e);
        },
    };
    loop
        invariant_except_break
            ev.wf(),
        invariant
            ev.segments == segments,
            ev.origins == origins,
            ev.destinations == destinations,
            ev.ceiling == ceiling,
            r == ev.rules(),
            r == trip_rules(segments.deep_view(), origins.deep_view(), destinations.deep_view()),
        ensures
            ev.wf(),
            ev.is_fixpoint(),
        decreases ceiling - ev.trips.len(),
    {
        let known = ev.trips.len();
        match ev.round() {
            Ok(next) => {
                ev = next;
            },
            Err(e) => {
                return Err(e);
            },
        }
        if ev.trips.len() == known {
            break ;
        }
    }
    proof {
        assert(ev.trips@.map_values(|t: TripFact| t@) =~= ev.states());
        lemma_closed_lists_relation(r, ev.states());
    }
    Ok(ev.trips)
}

/// Evaluation is idempotent: two evaluations of the same rules hold the
/// same states, whatever the order in which each derived them.
pub proof fn lemma_evaluations_agree(r: TripRules, first: Seq<TripFact>, second: Seq<TripFact>)
    requires
        is_evaluation(r, first),
        is_evaluation(r, second),
    ensures
        first.map_values(|t: TripFact| t@).to_set() == second.map_values(|t: TripFact| t@).to_set(),
        first.len() == second.len(),
{
    let a = first.map_values(|t: TripFact| t@);
    let b = second.map_values(|t: TripFact| t@);
    assert(a.to_set() =~= itinerary_states(r));
    assert(b.to_set() =~= itinerary_states(r));
    a.unique_seq_to_set();
    b.unique_seq_to_set();
}

/// Of two members of a sequence, at most one occurs before the other.
pub proof fn lemma_occurs_before_asymmetric<T>(s: Seq<T>, x: T, y: T)
    requires
        occurs_before(s, x, y),
    ensures
        !occurs_before(s, y, x),
{
    let a = choose|a: int|
        0 <= a < s.len() && #[trigger] s[a] == x && forall|b: int| 0 <= b <= a ==> s[b] != y;
    if occurs_before(s, y, x) {
        let c = choose|c: int|
            0 <= c < s.len() && #[trigger] s[c] == y && forall|b: int| 0 <= b <= c ==> s[b] != x;
        if a <= c {
            assert(s[a] != x);
        } else {
            assert(s[c] != y);
        }
    }
}

/// The parent that an evaluation records for a state depends only on the
/// states before the parent: where two evaluations agree before position
/// `k`, a state with a parent before `k` in one has that parent in the
/// other.
proof fn lemma_same_parent(
    r: TripRules,
    a: Seq<TripFact>,
    b: Seq<TripFact>,
    k: int,
    i: int,
    j: int,
)
    requires
        first_derived(r, a),
        first_derived(r, b),
        0 <= k <= a.len(),
        k <= b.len(),
        forall|x: int| 0 <= x < k ==> (#[trigger] a[x])@ == b[x]@,
        0 <= i < a.len(),
        0 <= j < b.len(),
        a[i]@ == b[j]@,
        a[i].parent is Some,
        a[i].parent->0 < k,
    ensures
        b[j].parent == a[i].parent,
{
    let p = a[i].parent->0 as int;
    assert(a[p]@ == b[p]@);
    assert(extends(r, b[p]@, b[j]@));
    assert(!is_seed(r, b[j]@));
    let q = b[j].parent->0 as int;
    if q < p {
        assert(a[q]@ == b[q]@);
        assert(extends(r, a[q]@, a[i]@));
    }
}

/// Evaluation is deterministic: two evaluations of the same rules that
/// stand in the order of derivation over the same segments and origins
/// hold the same state, with the same parent, at every position.
pub proof fn lemma_derivation_unique(
    r: TripRules,
    segments: Seq<EdgeView>,
    origins: Seq<Seq<char>>,
    a: Seq<TripFact>,
    b: Seq<TripFact>,
    k: int,
)
    requires
        is_evaluation(r, a),
        is_evaluation(r, b),
        derivation_ordered(segments, origins, a),
        derivation_ordered(segments, origins, b),
        0 <= k < a.len(),
    ensures
        a.len() == b.len(),
        a[k]@ == b[k]@,
        a[k].parent == b[k].parent,
    decreases k,
{
    lemma_evaluations_agree(r, a, b);
    let va = a.map_values(|t: TripFact| t@);
    let vb = b.map_values(|t: TripFact| t@);
    assert forall|x: int| 0 <= x < k implies (#[trigger] a[x])@ == b[x]@ && a[x].parent
        == b[x].parent by {
        lemma_derivation_unique(r, segments, origins, a, b, x);
    }
    let x = a[k]@;
    let y = b[k]@;
    if x != y {
        assert(va[k] == x);
        assert(vb.contains(x)) by {
            assert(va.contains(x));
        }
        let m = choose|m: int| 0 <= m < vb.len() && vb[m] == x;
        assert(m > k) by {
            if m < k {
                assert(va[m] == a[m]@ && vb[m] == b[m]@);
                assert(va[m] == va[k]);
            }
        }
        assert(vb[k] == y);
        assert(va.contains(y)) by {
            assert(vb.contains(y));
        }
        let n = choose|n: int| 0 <= n < va.len() && va[n] == y;
        assert(n > k) by {
            if n < k {
                assert(va[n] == a[n]@ && vb[n] == b[n]@);
                assert(vb[n] == vb[k]);
            }
        }
        assert(a[n]@ == y && b[m]@ == x);
        assert(derived_before(segments, origins, a, k, n));
        assert(derived_before(segments, origins, b, k, m));
        match (a[k].parent, b[k].parent) {
            (None, None) => {
                assert(is_seed(r, y));
                assert(a[n].parent is None);
                assert(b[m].parent is None);
                lemma_occurs_before_asymmetric(origins, x.to, y.to);
            },
            (None, Some(_)) => {
                assert(is_seed(r, x));
                assert(b[m].parent is None);
            },
            (Some(_), None) => {
                assert(is_seed(r, y));
                assert(a[n].parent is None);
            },
            (Some(p), Some(q)) => {
                assert(!is_seed(r, x) && !is_seed(r, y));
                lemma_same_parent(r, a, b, k, k, m);
                lemma_same_parent(r, b, a, k, k, n);
                assert(b[m].parent == Some(p));
                assert(a[n].parent == Some(q));
                if p == q {
                    assert(a[p as int]@ == b[p as int]@);
                    lemma_occurs_before_asymmetric(
                        segments,
                        leg_between(a[p as int]@, x),
                        leg_between(a[p as int]@, y),
                    );
                }
            },
        }
        assert(false);
    }
    match a[k].parent {
        None => {
            assert(is_seed(r, x));
        },
        Some(p) => {
            lemma_same_parent(r, a, b, k, k, k);
        },
    }
}

} // verus!
