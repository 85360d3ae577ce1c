use road_trip_planner::error::PlanError;
use road_trip_planner::facts::{AmenityProfile, Campground, DistanceEdge, FactStore, Location, Park};
use road_trip_planner::fixpoint::{evaluate, Evaluator, TripFact};
use road_trip_planner::itinerary::{choose_terminal, itinerary_to, stop_order};
use road_trip_planner::ways::{enumerate_itineraries, ways_to};
use road_trip_planner::planner::{choice, derive_relations, enumerate, run, select_endpoints, Selector};
use road_trip_planner::rules::{derive_rv_campgrounds, derive_rv_distances, derive_segments, progresses};

fn text(s: &str) -> String {
    s.to_string()
}

fn camp(id: &str, park_id: &str, name: &str) -> Campground {
    Campground { id: text(id), park_id: text(park_id), name: text(name) }
}

fn edge(from: &str, to: &str, miles: u32) -> DistanceEdge {
    DistanceEdge { from: text(from), to: text(to), miles }
}

fn loc(camp_id: &str, latitude: i64, longitude: i64) -> Location {
    Location { camp_id: text(camp_id), latitude, longitude }
}

fn amenity(camp_id: &str, rv_max_length: u32) -> AmenityProfile {
    AmenityProfile { camp_id: text(camp_id), rv_max_length }
}

fn trip(from: &str, to: &str, miles: u64, parent: Option<usize>) -> TripFact {
    TripFact { from: text(from), to: text(to), miles, parent }
}

#[test]
fn rv_campgrounds_need_a_long_enough_limit() {
    let camps = vec![
        camp("none", "p", "n"),
        camp("zero", "p", "z"),
        camp("short", "p", "s"),
        camp("exact", "p", "e"),
        camp("long", "p", "l"),
        camp("zero", "q", "again"),
    ];
    let amenities = vec![
        amenity("zero", 0),
        amenity("short", 33),
        amenity("exact", 34),
        amenity("long", 45),
        amenity("ghost", 0),
    ];
    assert_eq!(derive_rv_campgrounds(&camps, &amenities), vec![text("zero"), text("exact"), text("long")]);
}

#[test]
fn rv_distances_hold_in_both_directions() {
    let rv = vec![text("A"), text("B"), text("C")];
    let distances = vec![edge("A", "B", 300), edge("A", "X", 10), edge("B", "A", 300), edge("C", "C", 0)];
    let edges = derive_rv_distances(&distances, &rv);
    assert_eq!(edges, vec![edge("A", "B", 300), edge("B", "A", 300), edge("C", "C", 0)]);
    for e in &edges {
        assert!(edges.contains(&edge(&e.to, &e.from, e.miles)));
    }
}

#[test]
fn segments_keep_day_lengths_that_head_northwest() {
    let locations = vec![loc("A", 25000, -80000), loc("B", 30000, -80000), loc("W", 25000, -90000)];
    let rv_edges = vec![
        edge("A", "B", 199),
        edge("A", "B", 200),
        edge("A", "B", 600),
        edge("A", "B", 601),
        edge("B", "A", 300),
        edge("A", "W", 400),
        edge("W", "A", 400),
        edge("A", "Q", 400),
        edge("A", "B", 200),
    ];
    assert_eq!(
        derive_segments(&rv_edges, &locations),
        vec![edge("A", "B", 200), edge("A", "B", 600), edge("A", "W", 400)]
    );
    assert!(progresses(&locations, &text("A"), &text("B")));
    assert!(!progresses(&locations, &text("B"), &text("A")));
    assert!(!progresses(&locations, &text("A"), &text("A")));
}

#[test]
fn endpoints_are_the_suitable_campgrounds_selected() {
    let camps = vec![camp("A", "ever", "Flamingo"), camp("B", "olym", "Hoh"), camp("C", "olym", "Kalaloch")];
    let rv = vec![text("A"), text("C")];
    assert_eq!(select_endpoints(&camps, &rv, &Selector::ParkCode(text("olym"))), vec![text("C")]);
    assert_eq!(select_endpoints(&camps, &rv, &Selector::CampId(text("A"))), vec![text("A")]);
    assert_eq!(select_endpoints(&camps, &rv, &Selector::CampId(text("B"))), Vec::<String>::new());
    assert_eq!(
        select_endpoints(&camps, &rv, &Selector::Named { park: text("ever"), name: text("Flamingo") }),
        vec![text("A")]
    );
}

#[test]
fn evaluation_lists_states_in_order_of_derivation() {
    let segments = vec![edge("A", "B", 250), edge("A", "C", 300), edge("B", "D", 250), edge("C", "D", 200), edge("D", "E", 400)];
    let trips = evaluate(&segments, &vec![text("A")], &vec![text("D")], 100).unwrap();
    assert_eq!(
        trips,
        vec![
            trip("start", "A", 0, None),
            trip("A", "B", 250, Some(0)),
            trip("A", "C", 300, Some(0)),
            trip("B", "D", 500, Some(1)),
            trip("C", "D", 500, Some(2)),
        ]
    );
}

#[test]
fn evaluation_keeps_states_that_differ_in_miles_only() {
    let segments = vec![edge("A", "B", 200), edge("A", "B", 300), edge("B", "C", 200)];
    let trips = evaluate(&segments, &vec![text("A")], &vec![text("Z")], 100).unwrap();
    assert_eq!(
        trips,
        vec![
            trip("start", "A", 0, None),
            trip("A", "B", 200, Some(0)),
            trip("A", "B", 300, Some(0)),
            trip("B", "C", 400, Some(1)),
            trip("B", "C", 500, Some(2)),
        ]
    );
}

#[test]
fn a_cycle_explodes_past_any_ceiling() {
    let segments = vec![edge("A", "B", 200), edge("B", "A", 200)];
    for ceiling in [0, 1, 2, 50, 1000] {
        assert_eq!(
            evaluate(&segments, &vec![text("A")], &vec![text("Z")], ceiling),
            Err(PlanError::FixpointExplosion)
        );
    }
}

#[test]
fn the_ceiling_is_the_largest_relation_allowed() {
    let segments = vec![edge("A", "B", 200), edge("B", "C", 200)];
    let origins = vec![text("A")];
    let destinations = vec![text("C")];
    assert_eq!(evaluate(&segments, &origins, &destinations, 3).map(|t| t.len()), Ok(3));
    assert_eq!(evaluate(&segments, &origins, &destinations, 2), Err(PlanError::FixpointExplosion));
    assert_eq!(evaluate(&segments, &vec![], &destinations, 0), Ok(vec![]));
}

#[test]
fn rounds_only_grow_and_end_stable() {
    let segments = vec![edge("A", "B", 200), edge("B", "C", 200), edge("A", "C", 500)];
    let origins = vec![text("A"), text("A")];
    let destinations = vec![text("C")];
    let mut ev = Evaluator::start(&segments, &origins, &destinations, 10).unwrap();
    let mut sizes = vec![ev.trips.len()];
    loop {
        let known = ev.trips.clone();
        ev = ev.round().unwrap();
        assert_eq!(&ev.trips[..known.len()], &known[..]);
        sizes.push(ev.trips.len());
        if ev.trips.len() == known.len() {
            break;
        }
    }
    assert_eq!(sizes, vec![1, 3, 4, 4]);
    assert_eq!(ev.frontier, ev.trips.len());
    let again = ev.trips.clone();
    assert_eq!(ev.round().unwrap().trips, again);
}

#[test]
fn running_twice_gives_the_same_relation() {
    let store = FactStore {
        parks: vec![Park { id: text("p"), name: text("Park") }],
        campgrounds: vec![camp("A", "p", "a"), camp("B", "p", "b"), camp("C", "q", "c")],
        distances: vec![edge("A", "B", 250), edge("C", "B", 300), edge("A", "C", 600)],
        locations: vec![loc("A", 0, 0), loc("B", 1000, 0), loc("C", 2000, -1000)],
        amenities: vec![amenity("A", 0), amenity("B", 34), amenity("C", 60)],
    };
    let origin = Selector::CampId(text("A"));
    let destination = Selector::ParkCode(text("q"));
    let first = run(&store, &origin, &destination, 100);
    let second = run(&store, &origin, &destination, 100);
    assert_eq!(first, second);
    assert_eq!(
        first,
        Ok(vec![
            trip("start", "A", 0, None),
            trip("A", "B", 250, Some(0)),
            trip("A", "C", 600, Some(0)),
            trip("B", "C", 550, Some(1)),
        ])
    );
    let derived = derive_relations(&store, &origin, &destination);
    assert_eq!(derived.rv_campgrounds, vec![text("A"), text("B"), text("C")]);
    assert_eq!(derived.origins, vec![text("A")]);
    assert_eq!(derived.destinations, vec![text("C")]);
    assert_eq!(derived.segments, vec![edge("A", "B", 250), edge("B", "C", 300), edge("A", "C", 600)]);
    let plan = choice(&store, &origin, &destination, 100).unwrap();
    assert_eq!(plan.iter().map(|s| s.camp_id.as_str()).collect::<Vec<_>>(), vec!["A", "B", "C"]);
    assert_eq!(plan.iter().map(|s| s.miles).collect::<Vec<_>>(), vec![0, 250, 550]);
    assert_eq!(plan[2].park_name, "");
    assert_eq!(enumerate(&store, &origin, &destination, 100).unwrap().len(), 2);
    assert_eq!(run(&store, &origin, &destination, 3), Err(PlanError::FixpointExplosion));
    assert_eq!(choice(&store, &origin, &destination, 3), Err(PlanError::FixpointExplosion));
    assert_eq!(enumerate(&store, &origin, &destination, 3), Err(PlanError::FixpointExplosion));
}

#[test]
fn unknown_origin_is_reported() {
    let store = FactStore {
        parks: vec![],
        campgrounds: vec![camp("A", "p", "a"), camp("B", "p", "b")],
        distances: vec![edge("A", "B", 250)],
        locations: vec![loc("A", 0, 0), loc("B", 1000, 0)],
        amenities: vec![amenity("A", 10), amenity("B", 0)],
    };
    let a = Selector::CampId(text("A"));
    let b = Selector::CampId(text("B"));
    assert_eq!(run(&store, &a, &b, 100), Err(PlanError::UnknownEndpoint));
    assert_eq!(run(&store, &Selector::ParkCode(text("nowhere")), &b, 100), Err(PlanError::UnknownEndpoint));
    assert_eq!(run(&store, &b, &b, 0), Err(PlanError::FixpointExplosion));
    assert_eq!(choice(&store, &b, &b, 1).map(|p| p.len()), Ok(1));
}

#[test]
fn itineraries_walk_back_to_the_seed() {
    let store = FactStore {
        parks: vec![Park { id: text("p"), name: text("Park") }, Park { id: text("p"), name: text("Other") }],
        campgrounds: vec![camp("A", "p", "a"), camp("B", "p", "b"), camp("A", "q", "second")],
        distances: vec![],
        locations: vec![],
        amenities: vec![],
    };
    let trips = vec![
        trip("start", "A", 0, None),
        trip("A", "B", 250, Some(0)),
        trip("B", "A", 700, Some(1)),
        trip("A", "B", 900, Some(7)),
    ];
    let names = |i: usize| {
        itinerary_to(&store, &trips, i)
            .iter()
            .map(|s| (s.camp_id.clone(), s.park_name.clone(), s.camp_name.clone(), s.miles))
            .collect::<Vec<_>>()
    };
    assert_eq!(
        names(2),
        vec![
            (text("A"), text("Park"), text("a"), 0),
            (text("B"), text("Park"), text("b"), 250),
            (text("A"), text("Park"), text("a"), 700),
        ]
    );
    assert_eq!(names(3), vec![(text("B"), text("Park"), text("b"), 900)]);
    assert_eq!(names(4), vec![]);
    let destinations = vec![text("B")];
    assert_eq!(choose_terminal(&trips, &destinations), Some(1));
    assert_eq!(choose_terminal(&trips, &vec![text("Z")]), None);
    assert_eq!(enumerate_itineraries(&store, &trips, &vec![], &vec![text("A")], &destinations).len(), 0);
}

#[test]
fn seeds_follow_the_origins_and_count_against_the_ceiling() {
    let segments = vec![];
    let origins = vec![text("B"), text("A"), text("B")];
    let destinations = vec![text("Z")];
    let ev = Evaluator::start(&segments, &origins, &destinations, 2).unwrap();
    assert_eq!(ev.trips, vec![trip("start", "B", 0, None), trip("start", "A", 0, None)]);
    assert_eq!(ev.frontier, 0);
    assert_eq!(
        Evaluator::start(&segments, &origins, &destinations, 1).err(),
        Some(PlanError::FixpointExplosion)
    );
}

#[test]
fn a_round_fails_when_it_passes_the_ceiling() {
    let segments = vec![edge("A", "B", 200), edge("A", "C", 200), edge("B", "D", 200)];
    let origins = vec![text("A")];
    let destinations = vec![text("D")];
    let ev = Evaluator::start(&segments, &origins, &destinations, 3).unwrap();
    let ev = ev.round().unwrap();
    assert_eq!(ev.trips.len(), 3);
    assert_eq!(ev.frontier, 1);
    assert_eq!(ev.round().err(), Some(PlanError::FixpointExplosion));
    let ev = Evaluator::start(&segments, &origins, &destinations, 3).unwrap();
    let grown = ev.expand(0).unwrap();
    assert_eq!(grown.trips[1..], [trip("A", "B", 200, Some(0)), trip("A", "C", 200, Some(0))]);
    let ev = Evaluator::start(&segments, &origins, &destinations, 2).unwrap();
    assert_eq!(ev.expand(0).err(), Some(PlanError::FixpointExplosion));
}

#[test]
fn a_state_at_a_destination_is_not_extended() {
    let segments = vec![edge("A", "B", 200), edge("B", "C", 200)];
    let trips = evaluate(&segments, &vec![text("A")], &vec![text("B")], 10).unwrap();
    assert_eq!(trips, vec![trip("start", "A", 0, None), trip("A", "B", 200, Some(0))]);
    let at_origin = evaluate(&segments, &vec![text("A")], &vec![text("A")], 10).unwrap();
    assert_eq!(at_origin, vec![trip("start", "A", 0, None)]);
}

fn shared_tail() -> FactStore {
    FactStore {
        parks: vec![Park { id: text("p"), name: text("Park") }],
        campgrounds: vec![
            camp("A", "p", "a"),
            camp("B", "p", "b"),
            camp("C", "p", "c"),
            camp("D", "p", "d"),
            camp("E", "p", "e"),
        ],
        distances: vec![
            edge("A", "B", 200),
            edge("A", "C", 200),
            edge("B", "D", 200),
            edge("C", "D", 200),
            edge("D", "E", 200),
        ],
        locations: vec![
            loc("A", 1000, 0),
            loc("B", 2000, 0),
            loc("C", 3000, 0),
            loc("D", 4000, 0),
            loc("E", 5000, 0),
        ],
        amenities: vec![amenity("A", 0), amenity("B", 0), amenity("C", 0), amenity("D", 0), amenity("E", 0)],
    }
}

#[test]
fn routes_that_share_their_tail_are_both_enumerated() {
    let store = shared_tail();
    let origin = Selector::CampId(text("A"));
    let destination = Selector::CampId(text("E"));
    let trips = run(&store, &origin, &destination, 100).unwrap();
    assert_eq!(trips.iter().filter(|t| t.to == "E").count(), 1);
    let plans = enumerate(&store, &origin, &destination, 100).unwrap();
    let routes: Vec<Vec<(&str, u64)>> = plans
        .iter()
        .map(|p| p.iter().map(|s| (s.camp_id.as_str(), s.miles)).collect())
        .collect();
    assert_eq!(
        routes,
        vec![
            vec![("A", 0), ("B", 200), ("D", 400), ("E", 600)],
            vec![("A", 0), ("C", 200), ("D", 400), ("E", 600)],
        ]
    );
    let plan = choice(&store, &origin, &destination, 100).unwrap();
    assert_eq!(plan, plans[0]);
}

#[test]
fn ways_follow_every_state_before() {
    let segments = vec![edge("A", "B", 200), edge("A", "C", 200), edge("B", "D", 200), edge("C", "D", 200), edge("D", "E", 200)];
    let origins = vec![text("A")];
    let destinations = vec![text("E")];
    let trips = evaluate(&segments, &origins, &destinations, 100).unwrap();
    let last = trips.len() - 1;
    assert_eq!(trips[last], trip("D", "E", 600, Some(3)));
    assert_eq!(
        ways_to(&trips, &segments, &origins, &destinations, last),
        vec![vec![0, 1, 3, 5], vec![0, 2, 4, 5]]
    );
    assert_eq!(ways_to(&trips, &segments, &origins, &destinations, 0), vec![vec![0]]);
    let store = FactStore { parks: vec![], campgrounds: vec![], distances: vec![], locations: vec![], amenities: vec![] };
    assert_eq!(enumerate_itineraries(&store, &trips, &segments, &origins, &destinations).len(), 2);
    assert_eq!(enumerate_itineraries(&store, &trips, &segments, &origins, &vec![text("D")]).len(), 2);
}

#[test]
fn stops_are_ordered_by_their_running_number() {
    assert_eq!(stop_order(&vec![2, 0, 1]), Ok(vec![1, 2, 0]));
    assert_eq!(stop_order(&vec![1, 0, 1, 0]), Ok(vec![1, 3, 0, 2]));
    assert_eq!(stop_order(&vec![0, 1]), Ok(vec![0, 1]));
    assert_eq!(stop_order(&vec![7]), Err(PlanError::NoRouteFound));
    assert_eq!(stop_order(&vec![]), Err(PlanError::NoRouteFound));
}
