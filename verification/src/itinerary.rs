//! Reading itineraries out of an evaluated itinerary relation.
//!
//! A state that arrives at a destination is terminal. The itinerary to a
//! state is found by walking the record of derivation back to a seed; it
//! holds one stop for each state on the way, from the origin onwards.

use vstd::prelude::*;
use crate::error::PlanError;
use crate::facts::{Campground, CampgroundView, FactStore, Park, ParkView, StoreView};
use crate::fixpoint::{extends, first_derived, is_seed, TripFact, TripRules, TripView};
use crate::seqs::contains_text;

verus! {

/// One stop of an itinerary: a campground, how it and its park are called,
/// and the miles driven from the origin to get there.
#[derive(Debug, Clone, PartialEq, Eq)]
pub struct Stop {
    pub camp_id: String,
    pub park_name: String,
    pub camp_name: String,
    pub miles: u64,
}

/// Mathematical value of a [`Stop`].
pub struct StopView {
    pub camp_id: Seq<char>,
    pub park_name: Seq<char>,
    pub camp_name: Seq<char>,
    pub miles: nat,
}

impl View for Stop {
    type V = StopView;

    open spec fn view(&self) -> StopView {
        StopView {
            camp_id: self.camp_id@,
            park_name: self.park_name@,
            camp_name: self.camp_name@,
            miles: self.miles as nat,
        }
    }
}

impl DeepView for Stop {
    type V = StopView;

    open spec fn deep_view(&self) -> StopView {
        self@
    }
}

/// The ids of the campground facts, in order.
pub open spec fn campground_ids(campgrounds: Seq<CampgroundView>) -> Seq<Seq<char>> {
    campgrounds.map_values(|c: CampgroundView| c.id)
}

/// The ids of the park facts, in order.
pub open spec fn park_ids(parks: Seq<ParkView>) -> Seq<Seq<char>> {
    parks.map_values(|p: ParkView| p.id)
}

/// The first campground fact with id `id`, if there is one.
pub open spec fn campground_of(campgrounds: Seq<CampgroundView>, id: Seq<char>) -> Option<
    CampgroundView,
> {
    match campground_ids(campgrounds).index_of_first(id) {
        Some(i) => Some(campgrounds[i]),
        None => None,
    }
}

/// The first park fact with id `id`, if there is one.
pub open spec fn park_of(parks: Seq<ParkView>, id: Seq<char>) -> Option<ParkView> {
    match park_ids(parks).index_of_first(id) {
        Some(i) => Some(parks[i]),
        None => None,
    }
}

/// The name of campground `id`; empty where no fact names it.
pub open spec fn campground_name(s: StoreView, id: Seq<char>) -> Seq<char> {
    match campground_of(s.campgrounds, id) {
        Some(c) => c.name,
        None => Seq::empty(),
    }
}

/// The name of the park of campground `id`; empty where no fact names it.
pub open spec fn park_name(s: StoreView, id: Seq<char>) -> Seq<char> {
    match campground_of(s.campgrounds, id) {
        Some(c) => match park_of(s.parks, c.park_id) {
            Some(p) => p.name,
            None => Seq::empty(),
        },
        None => Seq::empty(),
    }
}

/// The stop that a state arrives at.
pub open spec fn stop_at(s: StoreView, t: TripView) -> StopView {
    StopView {
        camp_id: t.to,
        park_name: park_name(s, t.to),
        camp_name: campground_name(s, t.to),
        miles: t.miles,
    }
}

/// The states on the way to state `i`, as indices from the first to `i`
/// itself: each is the recorded parent of the next. Empty where `i` is no
/// index of `trips`.
pub open spec fn chain(trips: Seq<TripFact>, i: int) -> Seq<int>
    decreases i,
{
    if 0 <= i < trips.len() {
        match trips[i].parent {
            Some(p) => if p < i {
                chain(trips, p as int).push(i)
            } else {
                seq![i]
            },
            None => seq![i],
        }
    } else {
        Seq::empty()
    }
}

/// The itinerary to state `i`: the stops of the states on the way to it.
pub open spec fn itinerary(s: StoreView, trips: Seq<TripFact>, i: int) -> Seq<StopView> {
    chain(trips, i).map_values(|j: int| stop_at(s, trips[j]@))
}

/// State `i` has arrived at a destination.
pub open spec fn is_terminal(destinations: Set<Seq<char>>, trips: Seq<TripFact>, i: int) -> bool {
    0 <= i < trips.len() && destinations.contains(trips[i]@.to)
}

/// State `b` is the choice: terminal, with the fewest miles of all terminal
/// states, and the first derived of those with as few.
pub open spec fn is_choice(destinations: Set<Seq<char>>, trips: Seq<TripFact>, b: int) -> bool {
    &&& is_terminal(destinations, trips, b)
    &&& forall|j: int| #[trigger]
        is_terminal(destinations, trips, j) ==> trips[b].miles < trips[j].miles || (trips[b].miles
            == trips[j].miles && b <= j)
}

/// Some state is terminal.
pub open spec fn has_terminal(destinations: Set<Seq<char>>, trips: Seq<TripFact>) -> bool {
    exists|j: int| is_terminal(destinations, trips, j)
}

/// At most one state is the choice.
pub proof fn lemma_choice_unique(destinations: Set<Seq<char>>, trips: Seq<TripFact>, a: int, b: int)
    requires
        is_choice(destinations, trips, a),
        is_choice(destinations, trips, b),
    ensures
        a == b,
{
}

/// In an evaluation the way to a state is a trip: it begins with a seed,
/// each of its states follows from the one before by the step rule, and
/// it ends with the state itself.
pub proof fn lemma_chain_is_trip(r: TripRules, trips: Seq<TripFact>, i: int)
    requires
        first_derived(r, trips),
        0 <= i < trips.len(),
    ensures
        chain(trips, i).len() > 0,
        chain(trips, i).last() == i,
        forall|k: int|
            0 <= k < chain(trips, i).len() ==> 0 <= #[trigger] chain(trips, i)[k] < trips.len(),
        is_seed(r, trips[chain(trips, i)[0]]@),
        forall|k: int|
            0 < k < chain(trips, i).len() ==> extends(
                r,
                trips[chain(trips, i)[k - 1]]@,
                trips[#[trigger] chain(trips, i)[k]]@,
            ),
    decreases i,
{
    match trips[i].parent {
        Some(p) => {
            lemma_chain_is_trip(r, trips, p as int);
            let before = chain(trips, p as int);
            let whole = chain(trips, i);
            assert(whole == before.push(i));
            assert forall|k: int| 0 < k < whole.len() implies extends(
                r,
                trips[whole[k - 1]]@,
                trips[#[trigger] whole[k]]@,
            ) by {
                if k < before.len() {
                    assert(whole[k] == before[k] && whole[k - 1] == before[k - 1]);
                } else {
                    assert(whole[k - 1] == before.last());
                }
            }
            assert(whole[0] == before[0]);
        },
        None => {},
    }
}

/// The index of the first campground fact with id `id`.
pub fn find_campground(campgrounds: &Vec<Campground>, id: &String) -> (found: Option<usize>)
    ensures
        match found {
            Some(i) => i < campgrounds.len() && campground_ids(campgrounds.deep_view()).index_of_first(id@) == Some(
                i as int,
            ),
            None => campground_ids(campgrounds.deep_view()).index_of_first(id@) is None,
        },
{
    let ghost ids = campground_ids(campgrounds.deep_view());
    let mut i: usize = 0;
    while i < campgrounds.len()
        invariant
            i <= campgrounds.len(),
            ids == campground_ids(campgrounds.deep_view()),
            forall|j: int| 0 <= j < i ==> ids[j] != id@,
        decreases campgrounds.len() - i,
    {
        if campgrounds[i].id == *id {
            proof {
                assert(ids[i as int] == id@);
                ids.index_of_first_ensures(id@);
            }
            return Some(i);
        }
        i += 1;
    }
    proof {
        ids.index_of_first_ensures(id@);
    }
    None
}

/// The index of the first park fact with id `id`.
pub fn find_park(parks: &Vec<Park>, id: &String) -> (found: Option<usize>)
    ensures
        match found {
            Some(i) => i < parks.len() && park_ids(parks.deep_view()).index_of_first(id@) == Some(
                i as int,
            ),
            None => park_ids(parks.deep_view()).index_of_first(id@) is None,
        },
{
    let ghost ids = park_ids(parks.deep_view());
    let mut i: usize = 0;
    while i < parks.len()
        invariant
            i <= parks.len(),
            ids == park_ids(parks.deep_view()),
            forall|j: int| 0 <= j < i ==> ids[j] != id@,
        decreases parks.len() - i,
    {
        if parks[i].id == *id {
            proof {
                assert(ids[i as int] == id@);
                ids.index_of_first_ensures(id@);
            }
            return Some(i);
        }
        i += 1;
    }
    proof {
        ids.index_of_first_ensures(id@);
    }
    None
}

/// Describes the stop that a state arrives at.
pub fn describe_stop(store: &FactStore, trip: &TripFact) -> (stop: Stop)
    ensures
        stop@ == stop_at(store@, trip@),
{
    let mut park_name = String::new();
    let mut camp_name = String::new();
    match find_campground(&store.campgrounds, &trip.to) {
        Some(i) => {
            let camp = &store.campgrounds[i];
            assert(store@.campgrounds[i as int] == camp@);
            camp_name = camp.name.clone();
            match find_park(&store.parks, &camp.park_id) {
                Some(j) => {
                    assert(store@.parks[j as int] == store.parks@[j as int]@);
                    park_name = store.parks[j].name.clone();
                },
                None => {},
            }
        },
        None => {},
    }
    Stop { camp_id: trip.to.clone(), park_name, camp_name, miles: trip.miles }
}

/// Builds the itinerary to state `i` by walking the record of derivation
/// back from it. Empty where `i` is no index of `trips`.
pub fn itinerary_to(store: &FactStore, trips: &Vec<TripFact>, i: usize) -> (stops: Vec<Stop>)
    ensures
        stops.deep_view() == itinerary(store@, trips@, i as int),
{
    let mut stops: Vec<Stop> = Vec::new();
    if i >= trips.len() {
        assert(stops.deep_view() =~= itinerary(store@, trips@, i as int));
        return stops;
    }
    let ghost s = store@;
    let mut cur: usize = i;
    stops.push(describe_stop(store, &trips[cur]));
    let ghost mut tail: Seq<int> = seq![i as int];
    proof {
        assert(chain(trips@, i as int).drop_last() + tail =~= chain(trips@, i as int));
    }
    loop
        invariant
            s == store@,
            cur < trips.len(),
            tail.len() == stops.len(),
            tail.len() > 0,
            tail[0] == cur,
            chain(trips@, i as int) == chain(trips@, cur as int).drop_last() + tail,
            forall|k: int| 0 <= k < tail.len() ==> 0 <= #[trigger] tail[k] < trips.len(),
            forall|k: int|
                0 <= k < tail.len() ==> (#[trigger] stops.deep_view()[k]) == stop_at(
                    s,
                    trips@[tail[k]]@,
                ),
        ensures
            stops.deep_view() == itinerary(s, trips@, i as int),
        decreases cur,
    {
        match trips[cur].parent {
            Some(p) => {
                if p < cur {
                    let ghost before = stops.deep_view();
                    let stop = describe_stop(store, &trips[p]);
                    stops.insert(0, stop);
                    proof {
                        let grown = seq![p as int] + tail;
                        assert(chain(trips@, p as int).drop_last() + grown =~= chain(
                            trips@,
                            cur as int,
                        ).drop_last() + tail) by {
                            assert(chain(trips@, cur as int).drop_last() =~= chain(
                                trips@,
                                p as int,
                            ));
                            assert(chain(trips@, p as int) =~= chain(
                                trips@,
                                p as int,
                            ).drop_last().push(p as int));
                        }
                        assert(stops.deep_view() =~= seq![stop@] + before);
                        tail = grown;
                    }
                    cur = p;
                    continue ;
                }
            },
            None => {},
        }
        proof {
            assert(chain(trips@, cur as int) =~= seq![cur as int]);
            assert(chain(trips@, i as int) =~= tail);
            assert(stops.deep_view() =~= itinerary(s, trips@, i as int));
        }
        break ;
    }
    stops
}

/// Whether state `trip` has arrived at one of `destinations`.
pub fn arrived(destinations: &Vec<String>, trip: &TripFact) -> (there: bool)
    ensures
        there == destinations.deep_view().to_set().contains(trip@.to),
{
    contains_text(destinations, &trip.to)
}

/// Finds the choice among the terminal states.
pub fn choose_terminal(trips: &Vec<TripFact>, destinations: &Vec<String>) -> (best: Option<usize>)
    ensures
        match best {
            Some(b) => is_choice(destinations.deep_view().to_set(), trips@, b as int),
            None => !has_terminal(destinations.deep_view().to_set(), trips@),
        },
{
    let ghost ends = destinations.deep_view().to_set();
    let mut best: Option<usize> = None;
    let mut i: usize = 0;
    while i < trips.len()
        invariant
            i <= trips.len(),
            ends == destinations.deep_view().to_set(),
            match best {
                Some(b) => {
                    &&& b < i
                    &&& is_terminal(ends, trips@, b as int)
                    &&& forall|j: int|
                        0 <= j < i && #[trigger] is_terminal(ends, trips@, j) ==> trips@[b as int].miles
                            < trips@[j].miles || (trips@[b as int].miles == trips@[j].miles && b
                            <= j)
                },
                None => forall|j: int| 0 <= j < i ==> !#[trigger] is_terminal(ends, trips@, j),
            },
        decreases trips.len() - i,
    {
        if arrived(destinations, &trips[i]) {
            match best {
                Some(b) => {
                    if trips[i].miles < trips[b].miles {
                        best = Some(i);
                    }
                },
                None => {
                    best = Some(i);
                },
            }
        }
        i += 1;
    }
    best
}

/// Chooses one itinerary: the one to the terminal state with the fewest
/// miles, and of several with as few, to the first derived. Fails with
/// `NoRouteFound` exactly when no state is terminal.
pub fn choose_itinerary(store: &FactStore, trips: &Vec<TripFact>, destinations: &Vec<String>) -> (plan:
    Result<Vec<Stop>, PlanError>)
    ensures
        match plan {
            Ok(stops) => exists|b: int|
                is_choice(destinations.deep_view().to_set(), trips@, b) && stops.deep_view()
                    == itinerary(store@, trips@, b),
            Err(e) => e == PlanError::NoRouteFound && !has_terminal(
                destinations.deep_view().to_set(),
                trips@,
            ),
        },
{
    match choose_terminal(trips, destinations) {
        Some(b) => {
            let stops = itinerary_to(store, trips, b);
            assert(is_choice(destinations.deep_view().to_set(), trips@, b as int));
            Ok(stops)
        },
        None => Err(PlanError::NoRouteFound),
    }
}

/// `order` puts the positions of `ix` in the order of their values, and
/// positions with one value in their own order.
pub open spec fn is_stop_order(ix: Seq<u32>, order: Seq<usize>) -> bool {
    &&& order.len() == ix.len()
    &&& order.no_duplicates()
    &&& forall|k: int| 0 <= k < order.len() ==> (#[trigger] order[k]) < ix.len()
    &&& forall|a: int, b: int|
        0 <= a < b < order.len() ==> ix[(#[trigger] order[a]) as int] < ix[(
        #[trigger] order[b]) as int] || (ix[order[a] as int] == ix[order[b] as int] && order[a]
            < order[b])
}

/// Orders the stops of a plan by their running number: the result names,
/// for each place in the plan, the position of the stop that belongs
/// there. Fails with `NoRouteFound` exactly when there is one stop or none.
pub fn stop_order(ix: &Vec<u32>) -> (order: Result<Vec<usize>, PlanError>)
    ensures
        match order {
            Ok(o) => ix.len() > 1 && is_stop_order(ix@, o@),
            Err(e) => e == PlanError::NoRouteFound && ix.len() <= 1,
        },
{
    if ix.len() <= 1 {
        return Err(PlanError::NoRouteFound);
    }
    let mut order: Vec<usize> = Vec::new();
    let mut k: usize = 0;
    while k < ix.len()
        invariant
            k <= ix.len(),
            order.len() == k,
            order@.no_duplicates(),
            forall|x: int| 0 <= x < order.len() ==> (#[trigger] order[x]) < k,
            forall|a: int, b: int|
                0 <= a < b < order.len() ==> ix[(#[trigger] order[a]) as int] < ix[(
                #[trigger] order[b]) as int] || (ix[order[a] as int] == ix[order[b] as int]
                    && order[a] < order[b]),
        decreases ix.len() - k,
    {
        let mut at: usize = 0;
        while at < order.len() && ix[order[at]] <= ix[k]
            invariant
                at <= order.len(),
                k < ix.len(),
                forall|x: int| 0 <= x < order.len() ==> (#[trigger] order[x]) < k,
                forall|x: int| 0 <= x < at ==> ix[(#[trigger] order[x]) as int] <= ix[k as int],
            decreases order.len() - at,
        {
            at += 1;
        }
        let ghost before = order@;
        order.insert(at, k);
        proof {
            let after = order@;
            assert(after == before.insert(at as int, k));
            assert forall|x: int| 0 <= x < after.len() implies (#[trigger] after[x]) < k + 1 by {
                if x < at {
                    assert(after[x] == before[x]);
                } else if x > at {
                    assert(after[x] == before[x - 1]);
                }
            }
            assert forall|a: int, b: int| 0 <= a < after.len() && 0 <= b < after.len() && a
                != b implies after[a] != after[b] by {
                let pa = if a < at { a } else { a - 1 };
                let pb = if b < at { b } else { b - 1 };
                if a != at {
                    assert(after[a] == before[pa]);
                }
                if b != at {
                    assert(after[b] == before[pb]);
                }
            }
            assert forall|a: int, b: int| 0 <= a < b < after.len() implies ix[(
            #[trigger] after[a]) as int] < ix[(#[trigger] after[b]) as int] || (ix[after[a] as int]
                == ix[after[b] as int] && after[a] < after[b]) by {
                let pa = if a < at { a } else { a - 1 };
                let pb = if b < at { b } else { b - 1 };
                if a != at {
                    assert(after[a] == before[pa]);
                }
                if b != at {
                    assert(after[b] == before[pb]);
                }
                if a == at {
                    if at < before.len() {
                        assert(ix[before[at as int] as int] > ix[k as int]);
                        if pb > at {
                            assert(ix[before[at as int] as int] < ix[before[pb] as int] || ix[before[at as int] as int] == ix[before[pb] as int]);
                        }
                    }
                }
            }
        }
        k += 1;
    }
    Ok(order)
}

} // verus!
