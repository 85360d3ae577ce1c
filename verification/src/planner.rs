//! Planning requests: from a fact store and two endpoint selectors to the
//! itinerary relation.

use vstd::prelude::*;
use crate::error::PlanError;
use crate::facts::{Campground, CampgroundView, DistanceEdge, EdgeView, FactStore, StoreView};
use crate::fixpoint::{derivation_ordered, evaluate, is_evaluation, is_seed, itinerary_states, lemma_derivation_unique, lemma_evaluations_agree, lemma_states_suitable, reachable, trip_rules, within_ceiling, TripFact, TripRules, TripView};
use crate::itinerary::{choose_itinerary, has_terminal, is_choice, is_terminal, itinerary, Stop};
use crate::ways::{all_itineraries, enumerate_itineraries, is_enumeration, legs_have_miles};
use crate::rules::{derive_rv_campgrounds, derive_rv_distances, derive_segments, lemma_rv_distance_list, lemma_segment_list, rv_campground_list, rv_campgrounds, rv_distance_list, rv_distances, segment_list, segments};
use crate::seqs::{contains_text, first_occurrences, lemma_first_occurrences, lemma_first_occurrences_step, lists};

verus! {

/// How a caller names the campgrounds at one end of a trip.
#[derive(Debug, Clone, PartialEq, Eq)]
pub enum Selector {
    /// The campground with this id.
    CampId(String),
    /// Every campground of the park with this code.
    ParkCode(String),
    /// The campgrounds of this name in the park with this code.
    Named { park: String, name: String },
}

/// Mathematical value of a [`Selector`].
pub enum SelectorView {
    CampId(Seq<char>),
    ParkCode(Seq<char>),
    Named { park: Seq<char>, name: Seq<char> },
}

impl View for Selector {
    type V = SelectorView;

    open spec fn view(&self) -> SelectorView {
        match self {
            Selector::CampId(id) => SelectorView::CampId(id@),
            Selector::ParkCode(code) => SelectorView::ParkCode(code@),
            Selector::Named { park, name } => SelectorView::Named { park: park@, name: name@ },
        }
    }
}

/// The selector picks this campground fact.
pub open spec fn selects(sel: SelectorView, c: CampgroundView) -> bool {
    match sel {
        SelectorView::CampId(id) => c.id == id,
        SelectorView::ParkCode(code) => c.park_id == code,
        SelectorView::Named { park, name } => c.park_id == park && c.name == name,
    }
}

/// The selector picks some campground fact with id `c`.
pub open spec fn selected(campgrounds: Seq<CampgroundView>, sel: SelectorView, c: Seq<char>) -> bool {
    exists|i: int|
        0 <= i < campgrounds.len() && (#[trigger] campgrounds[i]).id == c && selects(
            sel,
            campgrounds[i],
        )
}

/// The endpoints a selector stands for: the campgrounds it picks that are
/// RV-suitable.
pub open spec fn endpoints(
    campgrounds: Seq<CampgroundView>,
    rv: Set<Seq<char>>,
    sel: SelectorView,
) -> Set<Seq<char>> {
    Set::new(|c: Seq<char>| rv.contains(c) && selected(campgrounds, sel, c))
}

/// Whether the selector picks this campground fact.
pub fn selector_matches(sel: &Selector, c: &Campground) -> (picked: bool)
    ensures
        picked == selects(sel@, c@),
{
    match sel {
        Selector::CampId(id) => c.id == *id,
        Selector::ParkCode(code) => c.park_id == *code,
        Selector::Named { park, name } => c.park_id == *park && c.name == *name,
    }
}

/// For each campground fact in order, its id where the selector picks
/// the fact and the campground is in `rv`.
pub open spec fn endpoint_marks(
    campgrounds: Seq<CampgroundView>,
    rv: Set<Seq<char>>,
    sel: SelectorView,
) -> Seq<Option<Seq<char>>> {
    campgrounds.map_values(
        |c: CampgroundView|
            if selects(sel, c) && rv.contains(c.id) {
                Some(c.id)
            } else {
                None
            },
    )
}

/// The endpoints a selector stands for, each once, in the order of the
/// campground facts.
pub open spec fn endpoint_list(
    campgrounds: Seq<CampgroundView>,
    rv: Set<Seq<char>>,
    sel: SelectorView,
) -> Seq<Seq<char>> {
    first_occurrences(endpoint_marks(campgrounds, rv, sel))
}

/// The list of endpoints lists their relation.
pub proof fn lemma_endpoint_list(campgrounds: Seq<CampgroundView>, rv: Set<Seq<char>>, sel: SelectorView)
    ensures
        lists(endpoint_list(campgrounds, rv, sel), endpoints(campgrounds, rv, sel)),
{
    let marks = endpoint_marks(campgrounds, rv, sel);
    lemma_first_occurrences(marks);
    assert forall|c: Seq<char>| #[trigger]
        marks.contains(Some(c)) <==> endpoints(campgrounds, rv, sel).contains(c) by {
        if marks.contains(Some(c)) {
            let i = choose|i: int| 0 <= i < marks.len() && marks[i] == Some(c);
            assert(campgrounds[i].id == c);
        }
        if endpoints(campgrounds, rv, sel).contains(c) {
            let i = choose|i: int|
                0 <= i < campgrounds.len() && (#[trigger] campgrounds[i]).id == c && selects(
                    sel,
                    campgrounds[i],
                );
            assert(marks[i] == Some(c));
        }
    }
}

/// Lists the endpoints that a selector stands for, each once, in the order
/// of the campground facts.
pub fn select_endpoints(campgrounds: &Vec<Campground>, rv: &Vec<String>, sel: &Selector) -> (ends:
    Vec<String>)
    ensures
        ends.deep_view() == endpoint_list(campgrounds.deep_view(), rv.deep_view().to_set(), sel@),
        lists(
            ends.deep_view(),
            endpoints(campgrounds.deep_view(), rv.deep_view().to_set(), sel@),
        ),
{
    let ghost all = campgrounds.deep_view();
    let ghost suitable = rv.deep_view().to_set();
    let ghost marks = endpoint_marks(all, suitable, sel@);
    let mut ends: Vec<String> = Vec::new();
    let mut i: usize = 0;
    while i < campgrounds.len()
        invariant
            i <= campgrounds.len(),
            all == campgrounds.deep_view(),
            suitable == rv.deep_view().to_set(),
            marks == endpoint_marks(all, suitable, sel@),
            ends.deep_view() == first_occurrences(marks.take(i as int)),
        decreases campgrounds.len() - i,
    {
        let camp = &campgrounds[i];
        let ghost before = ends.deep_view();
        proof {
            lemma_first_occurrences_step(marks, i as int);
            assert(all[i as int] == camp@);
        }
        if selector_matches(sel, camp) && contains_text(rv, &camp.id) && !contains_text(
            &ends,
            &camp.id,
        ) {
            ends.push(camp.id.clone());
            assert(ends.deep_view() =~= before.push(camp.id@));
        }
        i += 1;
    }
    proof {
        assert(marks.take(i as int) =~= marks);
        lemma_endpoint_list(all, suitable, sel@);
    }
    ends
}

/// The rules that a store and two selectors stand for: the derived
/// segments, and the endpoints among the RV-suitable campgrounds.
pub open spec fn rules_of(s: StoreView, origin: SelectorView, destination: SelectorView) -> TripRules {
    let rv = rv_campgrounds(s.campgrounds, s.amenities);
    TripRules {
        origins: endpoints(s.campgrounds, rv, origin),
        destinations: endpoints(s.campgrounds, rv, destination),
        segments: segments(rv_distances(s.distances, rv), s.locations),
    }
}

/// The RV distances of a store, in the order of their derivation.
pub open spec fn rv_distance_list_of(s: StoreView) -> Seq<EdgeView> {
    rv_distance_list(s.distances, rv_campgrounds(s.campgrounds, s.amenities))
}

/// The segments of a store, in the order of their derivation.
pub open spec fn segment_list_of(s: StoreView) -> Seq<EdgeView> {
    segment_list(rv_distance_list_of(s), s.locations)
}

/// The endpoints that a selector stands for in a store, in the order of
/// the campground facts.
pub open spec fn endpoint_list_of(s: StoreView, sel: SelectorView) -> Seq<Seq<char>> {
    endpoint_list(s.campgrounds, rv_campgrounds(s.campgrounds, s.amenities), sel)
}

/// `trips` is the itinerary relation of a request as its evaluation
/// derives it: every state once, each with the earliest state it follows
/// from, in the order of derivation.
pub open spec fn is_derivation(
    s: StoreView,
    origin: SelectorView,
    destination: SelectorView,
    trips: Seq<TripFact>,
) -> bool {
    &&& is_evaluation(rules_of(s, origin, destination), trips)
    &&& derivation_ordered(segment_list_of(s), endpoint_list_of(s, origin), trips)
}

/// Both selectors name at least one RV-suitable campground.
pub open spec fn endpoints_known(s: StoreView, origin: SelectorView, destination: SelectorView) -> bool {
    &&& exists|c: Seq<char>| #[trigger] rules_of(s, origin, destination).origins.contains(c)
    &&& exists|c: Seq<char>| #[trigger] rules_of(s, origin, destination).destinations.contains(c)
}

/// The error that a request fails with before any itinerary is read:
/// an unknown endpoint first, then a relation over the ceiling.
pub open spec fn failure(
    s: StoreView,
    origin: SelectorView,
    destination: SelectorView,
    ceiling: nat,
) -> Option<PlanError> {
    if !endpoints_known(s, origin, destination) {
        Some(PlanError::UnknownEndpoint)
    } else if !within_ceiling(rules_of(s, origin, destination), ceiling) {
        Some(PlanError::FixpointExplosion)
    } else {
        None
    }
}

/// What `run` owes for a request: the error that applies, or else the
/// itinerary relation, every state once, in an order of derivation.
pub open spec fn is_run_outcome(
    s: StoreView,
    origin: SelectorView,
    destination: SelectorView,
    ceiling: nat,
    outcome: Result<Vec<TripFact>, PlanError>,
) -> bool {
    match outcome {
        Ok(trips) => {
            &&& failure(s, origin, destination, ceiling) is None
            &&& is_derivation(s, origin, destination, trips@)
        },
        Err(e) => failure(s, origin, destination, ceiling) == Some(e),
    }
}

/// Some state of the itinerary relation arrives at a destination.
pub open spec fn has_route(r: TripRules) -> bool {
    exists|t: TripView| #[trigger] reachable(r, t) && r.destinations.contains(t.to)
}

/// The error that choosing one itinerary fails with: those of `failure`,
/// and then the lack of any route.
pub open spec fn choice_failure(
    s: StoreView,
    origin: SelectorView,
    destination: SelectorView,
    ceiling: nat,
) -> Option<PlanError> {
    match failure(s, origin, destination, ceiling) {
        Some(e) => Some(e),
        None => if has_route(rules_of(s, origin, destination)) {
            None
        } else {
            Some(PlanError::NoRouteFound)
        },
    }
}

/// The relations that one request derives from a store before the
/// recursive rule runs.
pub struct Derived {
    pub rv_campgrounds: Vec<String>,
    pub rv_distances: Vec<DistanceEdge>,
    pub segments: Vec<DistanceEdge>,
    pub origins: Vec<String>,
    pub destinations: Vec<String>,
}

impl Derived {
    /// The relations are those that the rules derive from `s` for the two
    /// selectors.
    pub open spec fn derived_from(&self, s: StoreView, origin: SelectorView, destination: SelectorView) -> bool {
        &&& self.rv_campgrounds.deep_view() == rv_campground_list(s.campgrounds, s.amenities)
        &&& self.rv_distances.deep_view() == rv_distance_list_of(s)
        &&& self.segments.deep_view() == segment_list_of(s)
        &&& self.origins.deep_view() == endpoint_list_of(s, origin)
        &&& self.destinations.deep_view() == endpoint_list_of(s, destination)
    }

    /// The recursive rule over these relations is the rule of the request.
    pub proof fn lemma_rules(&self, s: StoreView, origin: SelectorView, destination: SelectorView)
        requires
            self.derived_from(s, origin, destination),
        ensures
            trip_rules(
                self.segments.deep_view(),
                self.origins.deep_view(),
                self.destinations.deep_view(),
            ) == rules_of(s, origin, destination),
    {
        let r = rules_of(s, origin, destination);
        let rv = rv_campgrounds(s.campgrounds, s.amenities);
        lemma_rv_distance_list(s.distances, rv);
        assert(rv_distance_list_of(s).to_set() =~= rv_distances(s.distances, rv));
        lemma_segment_list(rv_distance_list_of(s), s.locations);
        lemma_endpoint_list(s.campgrounds, rv, origin);
        lemma_endpoint_list(s.campgrounds, rv, destination);
        assert(self.segments.deep_view().to_set() =~= r.segments);
        assert(self.origins.deep_view().to_set() =~= r.origins);
        assert(self.destinations.deep_view().to_set() =~= r.destinations);
    }
}

/// Applies the non-recursive rules once, in dependency order.
pub fn derive_relations(store: &FactStore, origin: &Selector, destination: &Selector) -> (d: Derived)
    ensures
        d.derived_from(store@, origin@, destination@),
{
    let rv = derive_rv_campgrounds(&store.campgrounds, &store.amenities);
    let rv_edges = derive_rv_distances(&store.distances, &rv);
    let legs = derive_segments(&rv_edges, &store.locations);
    let origins = select_endpoints(&store.campgrounds, &rv, origin);
    let destinations = select_endpoints(&store.campgrounds, &rv, destination);
    proof {
        let s = store@;
        let rvs = rv_campgrounds(s.campgrounds, s.amenities);
        assert(rv.deep_view().to_set() =~= rvs);
    }
    Derived { rv_campgrounds: rv, rv_distances: rv_edges, segments: legs, origins, destinations }
}

impl Derived {
    /// The recursive rule over these relations.
    pub open spec fn rules(&self) -> TripRules {
        trip_rules(
            self.segments.deep_view(),
            self.origins.deep_view(),
            self.destinations.deep_view(),
        )
    }

    /// Evaluates the recursive rule over these relations. Fails with
    /// `UnknownEndpoint` when there is no origin or no destination, and
    /// otherwise with `FixpointExplosion` exactly when the relation holds
    /// more than `ceiling` states.
    pub fn itinerary_states(&self, ceiling: u32) -> (outcome: Result<Vec<TripFact>, PlanError>)
        ensures
            match outcome {
                Ok(trips) => {
                    &&& self.origins.len() > 0
                    &&& self.destinations.len() > 0
                    &&& within_ceiling(self.rules(), ceiling as nat)
                    &&& is_evaluation(self.rules(), trips@)
                    &&& derivation_ordered(
                        self.segments.deep_view(),
                        self.origins.deep_view(),
                        trips@,
                    )
                },
                Err(e) => if self.origins.len() == 0 || self.destinations.len() == 0 {
                    e == PlanError::UnknownEndpoint
                } else {
                    e == PlanError::FixpointExplosion && !within_ceiling(self.rules(), ceiling as nat)
                },
            },
    {
        if self.origins.len() == 0 || self.destinations.len() == 0 {
            return Err(PlanError::UnknownEndpoint);
        }
        evaluate(&self.segments, &self.origins, &self.destinations, ceiling)
    }

    /// There is an origin and a destination exactly when both selectors
    /// name an RV-suitable campground.
    pub proof fn lemma_endpoints(&self, s: StoreView, origin: SelectorView, destination: SelectorView)
        requires
            self.derived_from(s, origin, destination),
        ensures
            endpoints_known(s, origin, destination) <==> (self.origins.len() > 0
                && self.destinations.len() > 0),
    {
        let r = rules_of(s, origin, destination);
        self.lemma_rules(s, origin, destination);
        if self.origins.len() > 0 {
            assert(self.origins.deep_view().contains(self.origins.deep_view()[0]));
            assert(r.origins.contains(self.origins.deep_view()[0]));
        }
        if self.destinations.len() > 0 {
            assert(self.destinations.deep_view().contains(self.destinations.deep_view()[0]));
            assert(r.destinations.contains(self.destinations.deep_view()[0]));
        }
        if endpoints_known(s, origin, destination) {
            let c = choose|c: Seq<char>| #[trigger] r.origins.contains(c);
            assert(self.origins.deep_view().contains(c));
            let d = choose|d: Seq<char>| #[trigger] r.destinations.contains(d);
            assert(self.destinations.deep_view().contains(d));
        }
    }
}

/// In an evaluation, some state is terminal exactly when the relation has
/// a route.
pub proof fn lemma_terminal_iff_route(r: TripRules, trips: Seq<TripFact>)
    requires
        is_evaluation(r, trips),
    ensures
        has_terminal(r.destinations, trips) <==> has_route(r),
{
    let views = trips.map_values(|t: TripFact| t@);
    if has_terminal(r.destinations, trips) {
        let j = choose|j: int| is_terminal(r.destinations, trips, j);
        assert(views[j] == trips[j]@);
        assert(views.contains(trips[j]@));
        assert(itinerary_states(r).contains(trips[j]@));
        assert(reachable(r, trips[j]@));
    }
    if has_route(r) {
        let t = choose|t: TripView| #[trigger] reachable(r, t) && r.destinations.contains(t.to);
        assert(itinerary_states(r).contains(t));
        assert(views.contains(t));
        let j = choose|j: int| 0 <= j < views.len() && views[j] == t;
        assert(is_terminal(r.destinations, trips, j));
    }
}

/// Derives the itinerary relation of a request, in the order of
/// derivation.
///
/// Fails with `UnknownEndpoint` when a selector names no RV-suitable
/// campground, and otherwise with `FixpointExplosion` exactly when the
/// relation holds more than `ceiling` states.
pub fn run(store: &FactStore, origin: &Selector, destination: &Selector, ceiling: u32) -> (outcome:
    Result<Vec<TripFact>, PlanError>)
    ensures
        is_run_outcome(store@, origin@, destination@, ceiling as nat, outcome),
{
    let d = derive_relations(store, origin, destination);
    proof {
        d.lemma_rules(store@, origin@, destination@);
        d.lemma_endpoints(store@, origin@, destination@);
    }
    d.itinerary_states(ceiling)
}

/// Running a request twice gives the same outcome: the same error, or
/// the same states with the same parents in the same order.
pub proof fn lemma_run_idempotent(
    s: StoreView,
    origin: SelectorView,
    destination: SelectorView,
    ceiling: nat,
    first: Result<Vec<TripFact>, PlanError>,
    second: Result<Vec<TripFact>, PlanError>,
)
    requires
        is_run_outcome(s, origin, destination, ceiling, first),
        is_run_outcome(s, origin, destination, ceiling, second),
    ensures
        match (first, second) {
            (Ok(a), Ok(b)) => {
                &&& a.deep_view() == b.deep_view()
                &&& forall|k: int| 0 <= k < a.len() ==> (#[trigger] a@[k]).parent == b@[k].parent
            },
            (Err(e), Err(f)) => e == f,
            _ => false,
        },
{
    if let (Ok(a), Ok(b)) = (first, second) {
        let r = rules_of(s, origin, destination);
        lemma_evaluations_agree(r, a@, b@);
        assert forall|k: int| 0 <= k < a.len() implies a.deep_view()[k] == b.deep_view()[k] && (
        #[trigger] a@[k]).parent == b@[k].parent by {
            lemma_derivation_unique(
                r,
                segment_list_of(s),
                endpoint_list_of(s, origin),
                a@,
                b@,
                k,
            );
        }
        assert(a.deep_view() =~= b.deep_view());
    }
}

/// Only RV-suitable campgrounds take part in a plan: every state of the
/// itinerary relation of a request arrives at one and, unless it is a
/// seed, leaves from one, and every segment joins two of them.
pub proof fn lemma_plan_suitable(
    s: StoreView,
    origin: SelectorView,
    destination: SelectorView,
    t: TripView,
    e: EdgeView,
)
    ensures
        itinerary_states(rules_of(s, origin, destination)).contains(t) ==> {
            &&& rv_campgrounds(s.campgrounds, s.amenities).contains(t.to)
            &&& (is_seed(rules_of(s, origin, destination), t) || rv_campgrounds(
                s.campgrounds,
                s.amenities,
            ).contains(t.from))
        },
        rules_of(s, origin, destination).segments.contains(e) ==> {
            &&& rv_campgrounds(s.campgrounds, s.amenities).contains(e.from)
            &&& rv_campgrounds(s.campgrounds, s.amenities).contains(e.to)
        },
{
    let r = rules_of(s, origin, destination);
    let rv = rv_campgrounds(s.campgrounds, s.amenities);
    if itinerary_states(r).contains(t) {
        lemma_states_suitable(r, rv, t);
    }
}

/// Plans in `enumerate` mode: the stops along every way from a seed to a
/// state that arrives at a destination, each way once. Ways are ordered by
/// the derivation of the state they end with, and ways to one state by the
/// states before it. Without any route the result is empty.
pub fn enumerate(store: &FactStore, origin: &Selector, destination: &Selector, ceiling: u32) -> (outcome:
    Result<Vec<Vec<Stop>>, PlanError>)
    ensures
        match outcome {
            Ok(plans) => {
                &&& failure(store@, origin@, destination@, ceiling as nat) is None
                &&& exists|trips: Seq<TripFact>|
                    is_derivation(store@, origin@, destination@, trips)
                        && #[trigger] all_itineraries(
                        store@,
                        rules_of(store@, origin@, destination@),
                        trips,
                    ) == plans.deep_view() && is_enumeration(
                        store@,
                        rules_of(store@, origin@, destination@),
                        trips,
                        plans.deep_view(),
                    )
            },
            Err(e) => failure(store@, origin@, destination@, ceiling as nat) == Some(e),
        },
{
    let d = derive_relations(store, origin, destination);
    proof {
        d.lemma_rules(store@, origin@, destination@);
        d.lemma_endpoints(store@, origin@, destination@);
    }
    match d.itinerary_states(ceiling) {
        Ok(trips) => {
            let plans = enumerate_itineraries(
                store,
                &trips,
                &d.segments,
                &d.origins,
                &d.destinations,
            );
            proof {
                let r = rules_of(store@, origin@, destination@);
                assert(legs_have_miles(r));
                assert(all_itineraries(store@, r, trips@) == plans.deep_view());
                assert(is_enumeration(store@, r, trips@, plans.deep_view()));
            }
            Ok(plans)
        },
        Err(e) => Err(e),
    }
}

/// Plans in `choice` mode: the one itinerary to the state that arrives at
/// a destination with the fewest miles, and of several with as few, to
/// the first derived. Fails with `NoRouteFound` when the relation has no
/// route.
pub fn choice(store: &FactStore, origin: &Selector, destination: &Selector, ceiling: u32) -> (outcome:
    Result<Vec<Stop>, PlanError>)
    ensures
        match outcome {
            Ok(stops) => {
                &&& choice_failure(store@, origin@, destination@, ceiling as nat) is None
                &&& exists|trips: Seq<TripFact>, b: int|
                    is_derivation(store@, origin@, destination@, trips) && is_choice(
                        rules_of(store@, origin@, destination@).destinations,
                        trips,
                        b,
                    ) && #[trigger] itinerary(store@, trips, b) == stops.deep_view()
            },
            Err(e) => choice_failure(store@, origin@, destination@, ceiling as nat) == Some(e),
        },
{
    let d = derive_relations(store, origin, destination);
    proof {
        d.lemma_rules(store@, origin@, destination@);
        d.lemma_endpoints(store@, origin@, destination@);
    }
    match d.itinerary_states(ceiling) {
        Ok(trips) => {
            proof {
                lemma_terminal_iff_route(rules_of(store@, origin@, destination@), trips@);
            }
            match choose_itinerary(store, &trips, &d.destinations) {
                Ok(stops) => {
                    let ghost b = choose|b: int|
                        is_choice(d.destinations.deep_view().to_set(), trips@, b)
                            && stops.deep_view() == itinerary(store@, trips@, b);
                    assert(itinerary(store@, trips@, b) == stops.deep_view());
                    Ok(stops)
                },
                Err(e) => Err(e),
            }
        },
        Err(e) => Err(e),
    }
}

} // verus!
