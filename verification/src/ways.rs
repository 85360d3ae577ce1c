//! Every way from a seed to a destination.
//!
//! A way is a sequence of states, given by their positions: it begins
//! with a seed, each next state follows from the one before by the step
//! rule, and it ends at a destination. Several ways may end with the same
//! state; each is an itinerary of its own.

use vstd::prelude::*;
use crate::facts::{DistanceEdge, EdgeView, FactStore, StoreView};
use crate::fixpoint::{extends, is_seed, step, trip_rules, TripFact, TripRules};
use crate::itinerary::{arrived, describe_stop, is_terminal, stop_at, Stop, StopView};
use crate::rules::contains_edge;
use crate::seqs::contains_text;

verus! {

/// `way` leads from a seed: positions of states, the first a seed, each
/// next one following from the one before.
pub open spec fn is_path(r: TripRules, trips: Seq<TripFact>, way: Seq<usize>) -> bool {
    &&& way.len() > 0
    &&& forall|k: int| 0 <= k < way.len() ==> (#[trigger] way[k]) < trips.len()
    &&& is_seed(r, trips[way[0] as int]@)
    &&& forall|k: int|
        0 < k < way.len() ==> extends(
            r,
            trips[way[k - 1] as int]@,
            trips[(#[trigger] way[k]) as int]@,
        )
}

/// `way` is a way: it leads from a seed to a state that has arrived at a
/// destination.
pub open spec fn is_way(r: TripRules, trips: Seq<TripFact>, way: Seq<usize>) -> bool {
    &&& is_path(r, trips, way)
    &&& r.destinations.contains(trips[way.last() as int]@.to)
}

/// Every segment has at least one mile, so that every step adds miles.
pub open spec fn legs_have_miles(r: TripRules) -> bool {
    forall|e: EdgeView| #[trigger] r.segments.contains(e) ==> e.miles > 0
}

/// `plans` holds the stops along every way, each once.
pub open spec fn is_enumeration(
    s: StoreView,
    r: TripRules,
    trips: Seq<TripFact>,
    plans: Seq<Seq<StopView>>,
) -> bool {
    &&& plans.no_duplicates()
    &&& forall|p: Seq<StopView>| #[trigger]
        plans.contains(p) <==> exists|way: Seq<usize>|
            is_way(r, trips, way) && p == #[trigger] way_stops(s, trips, way)
}

/// The stops along a way.
pub open spec fn way_stops(s: StoreView, trips: Seq<TripFact>, way: Seq<usize>) -> Seq<StopView> {
    way.map_values(|j: usize| stop_at(s, trips[j as int]@))
}

/// State `j` follows from state `i`, and has more miles.
pub open spec fn steps_to(r: TripRules, trips: Seq<TripFact>, i: int, j: int) -> bool {
    &&& 0 <= i < trips.len()
    &&& extends(r, trips[i]@, trips[j]@)
    &&& trips[i].miles < trips[j].miles
}

/// Each of `ways`, continued by position `j`.
pub open spec fn continued(ways: Seq<Seq<usize>>, j: usize) -> Seq<Seq<usize>> {
    ways.map_values(|w: Seq<usize>| w.push(j))
}

/// The sequences of states that begin with a seed, rise in miles with
/// every step, and end with state `j`, coming to `j` from a state before
/// position `n`: first `j` alone where it is a seed, then by the position
/// of the state before `j`, and among those by the same order.
pub open spec fn ways_via(r: TripRules, trips: Seq<TripFact>, j: int, n: int) -> Seq<Seq<usize>>
    decreases trips[j].miles, n,
{
    if n <= 0 {
        if is_seed(r, trips[j]@) {
            seq![seq![j as usize]]
        } else {
            Seq::empty()
        }
    } else if steps_to(r, trips, n - 1, j) {
        ways_via(r, trips, j, n - 1) + continued(
            ways_via(r, trips, n - 1, trips.len() as int),
            j as usize,
        )
    } else {
        ways_via(r, trips, j, n - 1)
    }
}

/// The ways that end with one of the first `n` states, by the position
/// of that state.
pub open spec fn ways_among(r: TripRules, trips: Seq<TripFact>, n: int) -> Seq<Seq<usize>>
    decreases n,
{
    if n <= 0 {
        Seq::empty()
    } else if is_terminal(r.destinations, trips, n - 1) {
        ways_among(r, trips, n - 1) + ways_via(r, trips, n - 1, trips.len() as int)
    } else {
        ways_among(r, trips, n - 1)
    }
}

/// All ways, in the order of enumeration.
pub open spec fn all_ways(r: TripRules, trips: Seq<TripFact>) -> Seq<Seq<usize>> {
    ways_among(r, trips, trips.len() as int)
}

/// The stops along each of `ways`.
pub open spec fn stops_along_all(s: StoreView, trips: Seq<TripFact>, ways: Seq<Seq<usize>>) -> Seq<
    Seq<StopView>,
> {
    ways.map_values(|w: Seq<usize>| way_stops(s, trips, w))
}

/// One itinerary for each way, in the order of enumeration.
pub open spec fn all_itineraries(s: StoreView, r: TripRules, trips: Seq<TripFact>) -> Seq<
    Seq<StopView>,
> {
    stops_along_all(s, trips, all_ways(r, trips))
}

/// A member of a concatenation is a member of one of its parts.
pub proof fn lemma_concat_contains<T>(a: Seq<T>, b: Seq<T>, x: T)
    ensures
        (a + b).contains(x) <==> (a.contains(x) || b.contains(x)),
{
    let c = a + b;
    if a.contains(x) {
        let i = choose|i: int| 0 <= i < a.len() && a[i] == x;
        assert(c[i] == x);
    }
    if b.contains(x) {
        let i = choose|i: int| 0 <= i < b.len() && b[i] == x;
        assert(c[a.len() + i] == x);
    }
    if c.contains(x) {
        let i = choose|i: int| 0 <= i < c.len() && c[i] == x;
        if i < a.len() {
            assert(a[i] == x);
        } else {
            assert(b[i - a.len()] == x);
        }
    }
}

/// Every sequence of `ways_via` leads from a seed to state `j`, and comes
/// to `j` from a state before position `n`.
pub proof fn lemma_via_sound(r: TripRules, trips: Seq<TripFact>, j: int, n: int, x: int)
    requires
        0 <= j < trips.len(),
        trips.len() <= usize::MAX,
        n <= trips.len(),
        0 <= x < ways_via(r, trips, j, n).len(),
    ensures
        is_path(r, trips, ways_via(r, trips, j, n)[x]),
        ways_via(r, trips, j, n)[x].last() == j,
        ways_via(r, trips, j, n)[x].len() == 1 || ways_via(r, trips, j, n)[x][ways_via(
            r,
            trips,
            j,
            n,
        )[x].len() - 2] < n,
    decreases trips[j].miles, n,
{
    if n <= 0 {
    } else if steps_to(r, trips, n - 1, j) {
        let first = ways_via(r, trips, j, n - 1);
        let inner = ways_via(r, trips, n - 1, trips.len() as int);
        if x < first.len() {
            lemma_via_sound(r, trips, j, n - 1, x);
        } else {
            let y = x - first.len();
            lemma_via_sound(r, trips, n - 1, trips.len() as int, y);
            let w = inner[y];
            let longer = w.push(j as usize);
            assert(ways_via(r, trips, j, n)[x] == longer);
            assert forall|k: int| 0 < k < longer.len() implies extends(
                r,
                trips[longer[k - 1] as int]@,
                trips[(#[trigger] longer[k]) as int]@,
            ) by {
                if k < w.len() {
                    assert(longer[k] == w[k] && longer[k - 1] == w[k - 1]);
                } else {
                    assert(longer[k - 1] == w.last());
                }
            }
            assert(longer[0] == w[0]);
        }
    } else {
        lemma_via_sound(r, trips, j, n - 1, x);
    }
}

/// Every sequence that leads from a seed to state `j`, coming to `j` from
/// a state before position `n`, is in `ways_via`, where every segment has
/// at least one mile.
pub proof fn lemma_via_complete(r: TripRules, trips: Seq<TripFact>, w: Seq<usize>, n: int)
    requires
        is_path(r, trips, w),
        legs_have_miles(r),
        trips.len() <= usize::MAX,
        n <= trips.len(),
        w.len() == 1 || w[w.len() - 2] < n,
    ensures
        ways_via(r, trips, w.last() as int, n).contains(w),
    decreases trips[w.last() as int].miles, n,
{
    let j = w.last() as int;
    if n <= 0 {
        assert(w =~= seq![j as usize]);
        assert(ways_via(r, trips, j, n)[0] == w);
    } else {
        let first = ways_via(r, trips, j, n - 1);
        if w.len() >= 2 && w[w.len() - 2] == n - 1 {
            let shorter = w.drop_last();
            let k = w.len() - 1;
            assert(extends(r, trips[w[k - 1] as int]@, trips[w[k] as int]@));
            let e = choose|e: EdgeView| #[trigger]
                r.segments.contains(e) && e.from == trips[n - 1]@.to && trips[j]@ == step(
                    trips[n - 1]@,
                    e,
                );
            assert(e.miles > 0);
            assert(steps_to(r, trips, n - 1, j));
            assert(is_path(r, trips, shorter)) by {
                assert forall|x: int| 0 < x < shorter.len() implies extends(
                    r,
                    trips[shorter[x - 1] as int]@,
                    trips[(#[trigger] shorter[x]) as int]@,
                ) by {
                    assert(shorter[x] == w[x] && shorter[x - 1] == w[x - 1]);
                }
                assert forall|x: int| 0 <= x < shorter.len() implies (#[trigger] shorter[x])
                    < trips.len() by {
                    assert(shorter[x] == w[x]);
                }
                assert(shorter[0] == w[0]);
            }
            assert(shorter.last() == n - 1);
            if shorter.len() >= 2 {
                assert(shorter[shorter.len() - 2] == w[w.len() - 3]);
            }
            lemma_via_complete(r, trips, shorter, trips.len() as int);
            let inner = ways_via(r, trips, n - 1, trips.len() as int);
            let y = choose|y: int| 0 <= y < inner.len() && inner[y] == shorter;
            assert(continued(inner, j as usize)[y] == shorter.push(j as usize));
            assert(shorter.push(j as usize) =~= w);
            lemma_concat_contains(first, continued(inner, j as usize), w);
        } else {
            lemma_via_complete(r, trips, w, n - 1);
            if steps_to(r, trips, n - 1, j) {
                lemma_concat_contains(
                    first,
                    continued(ways_via(r, trips, n - 1, trips.len() as int), j as usize),
                    w,
                );
            }
        }
    }
}

/// No sequence occurs twice in `ways_via`.
pub proof fn lemma_via_distinct(r: TripRules, trips: Seq<TripFact>, j: int, n: int)
    requires
        0 <= j < trips.len(),
        trips.len() <= usize::MAX,
        n <= trips.len(),
    ensures
        ways_via(r, trips, j, n).no_duplicates(),
    decreases trips[j].miles, n,
{
    if n <= 0 {
    } else if steps_to(r, trips, n - 1, j) {
        let first = ways_via(r, trips, j, n - 1);
        let inner = ways_via(r, trips, n - 1, trips.len() as int);
        let more = continued(inner, j as usize);
        let all = first + more;
        lemma_via_distinct(r, trips, j, n - 1);
        lemma_via_distinct(r, trips, n - 1, trips.len() as int);
        assert forall|a: int, b: int| 0 <= a < all.len() && 0 <= b < all.len() && a
            != b implies all[a] != all[b] by {
            if a < first.len() && b < first.len() {
            } else if a >= first.len() && b >= first.len() {
                let x = a - first.len();
                let y = b - first.len();
                assert(all[a] == inner[x].push(j as usize));
                assert(all[b] == inner[y].push(j as usize));
                if all[a] == all[b] {
                    assert(inner[x] =~= all[a].drop_last());
                    assert(inner[y] =~= all[b].drop_last());
                }
            } else {
                let (lo, hi) = if a < first.len() {
                    (a, b)
                } else {
                    (b, a)
                };
                let y = hi - first.len();
                lemma_via_sound(r, trips, j, n - 1, lo);
                lemma_via_sound(r, trips, n - 1, trips.len() as int, y);
                assert(all[lo] == first[lo]);
                assert(all[hi] == inner[y].push(j as usize));
                assert(all[hi][all[hi].len() - 2] == inner[y].last());
            }
        }
    } else {
        lemma_via_distinct(r, trips, j, n - 1);
    }
}

/// `ways_among` holds the ways that end with one of the first `n`
/// states, each once, where every segment has at least one mile.
pub proof fn lemma_ways_among(r: TripRules, trips: Seq<TripFact>, n: int)
    requires
        legs_have_miles(r),
        trips.len() <= usize::MAX,
        n <= trips.len(),
    ensures
        ways_among(r, trips, n).no_duplicates(),
        forall|w: Seq<usize>| #[trigger]
            ways_among(r, trips, n).contains(w) <==> (is_way(r, trips, w) && w.last() < n),
    decreases n,
{
    if n > 0 {
        lemma_ways_among(r, trips, n - 1);
        let before = ways_among(r, trips, n - 1);
        if is_terminal(r.destinations, trips, n - 1) {
            let last = ways_via(r, trips, n - 1, trips.len() as int);
            let all = before + last;
            lemma_via_distinct(r, trips, n - 1, trips.len() as int);
            assert forall|x: int| 0 <= x < last.len() implies is_way(r, trips, #[trigger] last[x])
                && last[x].last() == n - 1 by {
                lemma_via_sound(r, trips, n - 1, trips.len() as int, x);
            }
            assert forall|w: Seq<usize>| #[trigger]
                all.contains(w) <==> (is_way(r, trips, w) && w.last() < n) by {
                lemma_concat_contains(before, last, w);
                if last.contains(w) {
                    let x = choose|x: int| 0 <= x < last.len() && last[x] == w;
                    assert(is_way(r, trips, last[x]));
                }
                if is_way(r, trips, w) && w.last() == n - 1 {
                    lemma_via_complete(r, trips, w, trips.len() as int);
                }
            }
            assert forall|a: int, b: int| 0 <= a < all.len() && 0 <= b < all.len() && a
                != b implies all[a] != all[b] by {
                if a < before.len() && b >= before.len() {
                    assert(before.contains(all[a]));
                    assert(all[b] == last[b - before.len()]);
                } else if b < before.len() && a >= before.len() {
                    assert(before.contains(all[b]));
                    assert(all[a] == last[a - before.len()]);
                }
            }
        } else {
            assert forall|w: Seq<usize>| #[trigger]
                before.contains(w) <==> (is_way(r, trips, w) && w.last() < n) by {}
        }
    }
}

/// Two sequences that lead from a seed along the same stops are the
/// same, where no state occurs twice.
pub proof fn lemma_stops_tell_ways(
    s: StoreView,
    r: TripRules,
    trips: Seq<TripFact>,
    v: Seq<usize>,
    w: Seq<usize>,
)
    requires
        trips.map_values(|t: TripFact| t@).no_duplicates(),
        is_path(r, trips, v),
        is_path(r, trips, w),
        way_stops(s, trips, v) == way_stops(s, trips, w),
    ensures
        v == w,
{
    let views = trips.map_values(|t: TripFact| t@);
    assert(way_stops(s, trips, v).len() == v.len());
    assert(way_stops(s, trips, w).len() == w.len());
    assert forall|k: int| 0 <= k < v.len() implies v[k] == w[k] by {
        let a = trips[v[k] as int]@;
        let b = trips[w[k] as int]@;
        assert(way_stops(s, trips, v)[k] == stop_at(s, a));
        assert(way_stops(s, trips, w)[k] == stop_at(s, b));
        assert(a.to == b.to && a.miles == b.miles);
        if k > 0 {
            let pa = trips[v[k - 1] as int]@;
            let pb = trips[w[k - 1] as int]@;
            assert(way_stops(s, trips, v)[k - 1] == stop_at(s, pa));
            assert(way_stops(s, trips, w)[k - 1] == stop_at(s, pb));
            assert(extends(r, pa, a));
            assert(extends(r, pb, b));
            assert(a.from == pa.to && b.from == pb.to);
        }
        assert(a == b);
        assert(views[v[k] as int] == a && views[w[k] as int] == b);
    }
    assert(v =~= w);
}

/// The itineraries are the stops along every way, each once, where no
/// state occurs twice and every segment has at least one mile.
pub proof fn lemma_all_itineraries(s: StoreView, r: TripRules, trips: Seq<TripFact>)
    requires
        trips.map_values(|t: TripFact| t@).no_duplicates(),
        legs_have_miles(r),
        trips.len() <= usize::MAX,
    ensures
        is_enumeration(s, r, trips, all_itineraries(s, r, trips)),
{
    let ways = all_ways(r, trips);
    let plans = all_itineraries(s, r, trips);
    lemma_ways_among(r, trips, trips.len() as int);
    assert forall|a: int, b: int| 0 <= a < plans.len() && 0 <= b < plans.len() && a
        != b implies plans[a] != plans[b] by {
        assert(ways.contains(ways[a]) && ways.contains(ways[b]));
        if plans[a] == plans[b] {
            lemma_stops_tell_ways(s, r, trips, ways[a], ways[b]);
        }
    }
    assert forall|p: Seq<StopView>| #[trigger]
        plans.contains(p) <==> exists|way: Seq<usize>|
            is_way(r, trips, way) && p == #[trigger] way_stops(s, trips, way) by {
        if plans.contains(p) {
            let x = choose|x: int| 0 <= x < plans.len() && plans[x] == p;
            assert(ways.contains(ways[x]));
            assert(is_way(r, trips, ways[x]) && p == way_stops(s, trips, ways[x]));
        }
        if exists|way: Seq<usize>| is_way(r, trips, way) && p == #[trigger] way_stops(s, trips, way) {
            let way = choose|way: Seq<usize>|
                is_way(r, trips, way) && p == #[trigger] way_stops(s, trips, way);
            assert(way.last() < trips.len());
            assert(ways.contains(way));
            let x = choose|x: int| 0 <= x < ways.len() && ways[x] == way;
            assert(plans[x] == p);
        }
    }
}

/// Whether state `t` is a seed.
pub fn seeded(origins: &Vec<String>, t: &TripFact) -> (yes: bool)
    ensures
        forall|segments: Seq<EdgeView>, destinations: Seq<Seq<char>>|
            yes == is_seed(#[trigger] trip_rules(segments, origins.deep_view(), destinations), t@),
{
    let marker = "start".to_owned();
    t.miles == 0 && t.from == marker && contains_text(origins, &t.to)
}

/// Whether state `j` follows from state `i`, and has more miles.
pub fn follows(
    trips: &Vec<TripFact>,
    segments: &Vec<DistanceEdge>,
    destinations: &Vec<String>,
    i: usize,
    j: usize,
) -> (yes: bool)
    requires
        i < trips.len(),
        j < trips.len(),
    ensures
        forall|origins: Seq<Seq<char>>|
            yes == steps_to(
                #[trigger] trip_rules(segments.deep_view(), origins, destinations.deep_view()),
                trips@,
                i as int,
                j as int,
            ),
{
    let p = &trips[i];
    let t = &trips[j];
    if p.miles >= t.miles || t.from != p.to || contains_text(destinations, &p.to) {
        return false;
    }
    let more = t.miles - p.miles;
    if more > 0xffff_ffff {
        proof {
            assert forall|e: EdgeView| segments.deep_view().contains(e) implies e.miles
                <= 0xffff_ffff by {
                let k = choose|k: int| 0 <= k < segments.len() && segments.deep_view()[k] == e;
                assert(e.miles == segments@[k].miles);
            }
        }
        return false;
    }
    let found = contains_edge(segments, &p.to, &t.to, more as u32);
    proof {
        let leg = EdgeView { from: p@.to, to: t@.to, miles: more as nat };
        assert(step(p@, leg) == t@);
        assert forall|origins: Seq<Seq<char>>|
            found == steps_to(
                #[trigger] trip_rules(segments.deep_view(), origins, destinations.deep_view()),
                trips@,
                i as int,
                j as int,
            ) by {
            let r = trip_rules(segments.deep_view(), origins, destinations.deep_view());
            if found {
                assert(r.segments.contains(leg));
                assert(extends(r, p@, t@));
            }
            if extends(r, p@, t@) {
                let e = choose|e: EdgeView| #[trigger]
                    r.segments.contains(e) && e.from == p@.to && t@ == step(p@, e);
                assert(e == leg);
            }
        }
    }
    found
}

/// A copy of `way`, continued by position `j`.
pub fn continue_way(way: &Vec<usize>, j: usize) -> (longer: Vec<usize>)
    ensures
        longer@ == way@.push(j),
{
    let mut longer: Vec<usize> = Vec::new();
    let mut k: usize = 0;
    while k < way.len()
        invariant
            k <= way.len(),
            longer@ == way@.take(k as int),
        decreases way.len() - k,
    {
        longer.push(way[k]);
        assert(longer@ =~= way@.take(k + 1));
        k += 1;
    }
    assert(way@.take(k as int) =~= way@);
    longer.push(j);
    longer
}

/// Lists the sequences of states that begin with a seed, rise in miles
/// with every step, and end with state `j`.
pub fn ways_to(
    trips: &Vec<TripFact>,
    segments: &Vec<DistanceEdge>,
    origins: &Vec<String>,
    destinations: &Vec<String>,
    j: usize,
) -> (ways: Vec<Vec<usize>>)
    requires
        j < trips.len(),
    ensures
        ways.deep_view() == ways_via(
            trip_rules(segments.deep_view(), origins.deep_view(), destinations.deep_view()),
            trips@,
            j as int,
            trips.len() as int,
        ),
    decreases trips[j as int].miles,
{
    let ghost r = trip_rules(segments.deep_view(), origins.deep_view(), destinations.deep_view());
    let mut ways: Vec<Vec<usize>> = Vec::new();
    if seeded(origins, &trips[j]) {
        let mut alone: Vec<usize> = Vec::new();
        alone.push(j);
        ways.push(alone);
        assert(alone.deep_view() =~= seq![j]);
        assert(ways.deep_view()[0] == alone.deep_view());
        assert(ways.deep_view() =~= seq![seq![j]]);
    }
    assert(ways.deep_view() =~= ways_via(r, trips@, j as int, 0));
    let mut i: usize = 0;
    while i < trips.len()
        invariant
            i <= trips.len(),
            j < trips.len(),
            r == trip_rules(segments.deep_view(), origins.deep_view(), destinations.deep_view()),
            ways.deep_view() == ways_via(r, trips@, j as int, i as int),
        decreases trips.len() - i,
    {
        if follows(trips, segments, destinations, i, j) {
            let shorter = ways_to(trips, segments, origins, destinations, i);
            let ghost before = ways.deep_view();
            let mut k: usize = 0;
            while k < shorter.len()
                invariant
                    k <= shorter.len(),
                    ways.deep_view() == before + continued(shorter.deep_view().take(k as int), j),
                decreases shorter.len() - k,
            {
                let ghost known = ways.deep_view();
                let longer = continue_way(&shorter[k], j);
                ways.push(longer);
                proof {
                    assert(longer.deep_view() =~= longer@);
                    assert(shorter.deep_view()[k as int] =~= shorter@[k as int]@);
                    assert(ways.deep_view() =~= known.push(longer@));
                    assert(ways.deep_view() =~= before + continued(
                        shorter.deep_view().take(k + 1),
                        j,
                    ));
                }
                k += 1;
            }
            proof {
                assert(shorter.deep_view().take(k as int) =~= shorter.deep_view());
            }
        }
        i += 1;
    }
    ways
}

/// Describes the stops along a way.
pub fn stops_along(store: &FactStore, trips: &Vec<TripFact>, way: &Vec<usize>) -> (stops: Vec<Stop>)
    requires
        forall|k: int| 0 <= k < way.len() ==> (#[trigger] way[k]) < trips.len(),
    ensures
        stops.deep_view() == way_stops(store@, trips@, way@),
{
    let mut stops: Vec<Stop> = Vec::new();
    let mut k: usize = 0;
    while k < way.len()
        invariant
            k <= way.len(),
            forall|x: int| 0 <= x < way.len() ==> (#[trigger] way[x]) < trips.len(),
            stops.deep_view() == way_stops(store@, trips@, way@.take(k as int)),
        decreases way.len() - k,
    {
        let ghost before = stops.deep_view();
        let stop = describe_stop(store, &trips[way[k]]);
        stops.push(stop);
        assert(stops.deep_view() =~= before.push(stop@));
        assert(stops.deep_view() =~= way_stops(store@, trips@, way@.take(k + 1)));
        k += 1;
    }
    assert(way@.take(k as int) =~= way@);
    stops
}

/// Enumerates the itineraries: one for every way, by the position of the
/// state that the way ends with, and for ways to one state by the
/// positions of the states before it. Where no state occurs twice and
/// every segment has at least one mile, these are the stops along every
/// way, each once.
pub fn enumerate_itineraries(
    store: &FactStore,
    trips: &Vec<TripFact>,
    segments: &Vec<DistanceEdge>,
    origins: &Vec<String>,
    destinations: &Vec<String>,
) -> (plans: Vec<Vec<Stop>>)
    ensures
        plans.deep_view() == all_itineraries(
            store@,
            trip_rules(segments.deep_view(), origins.deep_view(), destinations.deep_view()),
            trips@,
        ),
        trips@.map_values(|t: TripFact| t@).no_duplicates() && legs_have_miles(
            trip_rules(segments.deep_view(), origins.deep_view(), destinations.deep_view()),
        ) ==> is_enumeration(
            store@,
            trip_rules(segments.deep_view(), origins.deep_view(), destinations.deep_view()),
            trips@,
            plans.deep_view(),
        ),
{
    let ghost r = trip_rules(segments.deep_view(), origins.deep_view(), destinations.deep_view());
    proof {
        if trips@.map_values(|t: TripFact| t@).no_duplicates() && legs_have_miles(r) {
            assert(trips@.len() == trips.len());
            lemma_all_itineraries(store@, r, trips@);
        }
    }
    let mut plans: Vec<Vec<Stop>> = Vec::new();
    let mut j: usize = 0;
    assert(plans.deep_view() =~= stops_along_all(store@, trips@, ways_among(r, trips@, 0)));
    while j < trips.len()
        invariant
            j <= trips.len(),
            r == trip_rules(segments.deep_view(), origins.deep_view(), destinations.deep_view()),
            plans.deep_view() == stops_along_all(store@, trips@, ways_among(r, trips@, j as int)),
        decreases trips.len() - j,
    {
        if arrived(destinations, &trips[j]) {
            let ways = ways_to(trips, segments, origins, destinations, j);
            let ghost before = plans.deep_view();
            let ghost found = ways_among(r, trips@, j as int);
            let mut k: usize = 0;
            while k < ways.len()
                invariant
                    k <= ways.len(),
                    j < trips.len(),
                    ways.deep_view() == ways_via(r, trips@, j as int, trips.len() as int),
                    plans.deep_view() == before + stops_along_all(
                        store@,
                        trips@,
                        ways.deep_view().take(k as int),
                    ),
                decreases ways.len() - k,
            {
                let ghost known = plans.deep_view();
                proof {
                    lemma_via_sound(r, trips@, j as int, trips.len() as int, k as int);
                    assert(ways.deep_view()[k as int] =~= ways@[k as int]@);
                }
                let stops = stops_along(store, trips, &ways[k]);
                plans.push(stops);
                proof {
                    assert(plans.deep_view() =~= known.push(stops.deep_view()));
                    assert(plans.deep_view() =~= before + stops_along_all(
                        store@,
                        trips@,
                        ways.deep_view().take(k + 1),
                    ));
                }
                k += 1;
            }
            proof {
                assert(ways.deep_view().take(k as int) =~= ways.deep_view());
                assert(plans.deep_view() =~= stops_along_all(
                    store@,
                    trips@,
                    found + ways.deep_view(),
                ));
            }
        }
        j += 1;
    }
    plans
}

} // verus!
