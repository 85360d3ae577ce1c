use road_trip_planner::error::PlanError;
use road_trip_planner::facts::{AmenityProfile, Campground, DistanceEdge, FactStore, Location, Park};
use road_trip_planner::itinerary::Stop;
use road_trip_planner::planner::{choice, enumerate, run, Selector};

fn park(id: &str, name: &str) -> Park {
    Park { id: id.to_string(), name: name.to_string() }
}

fn camp(id: &str, park_id: &str, name: &str) -> Campground {
    Campground { id: id.to_string(), park_id: park_id.to_string(), name: name.to_string() }
}

fn dist(from: &str, to: &str, miles: u32) -> DistanceEdge {
    DistanceEdge { from: from.to_string(), to: to.to_string(), miles }
}

fn loc(camp_id: &str, latitude: i64, longitude: i64) -> Location {
    Location { camp_id: camp_id.to_string(), latitude, longitude }
}

fn amenity(camp_id: &str, rv_max_length: u32) -> AmenityProfile {
    AmenityProfile { camp_id: camp_id.to_string(), rv_max_length }
}

fn stop(camp_id: &str, park_name: &str, camp_name: &str, miles: u64) -> Stop {
    Stop {
        camp_id: camp_id.to_string(),
        park_name: park_name.to_string(),
        camp_name: camp_name.to_string(),
        miles,
    }
}

fn three_campgrounds() -> FactStore {
    FactStore {
        parks: vec![park("ever", "Everglades"), park("olym", "Olympic")],
        campgrounds: vec![
            camp("A", "ever", "Flamingo Campground"),
            camp("B", "olym", "Kalaloch"),
            camp("C", "olym", "Hoh"),
        ],
        distances: vec![dist("A", "B", 300), dist("A", "C", 50)],
        locations: vec![loc("A", 25000, -80000), loc("B", 30000, -80000), loc("C", 27000, -80000)],
        amenities: vec![amenity("A", 0), amenity("B", 40), amenity("C", 20)],
    }
}

#[test]
fn choice_returns_the_single_itinerary() {
    let store = three_campgrounds();
    let origin = Selector::Named { park: "ever".to_string(), name: "Flamingo Campground".to_string() };
    let destination = Selector::ParkCode("olym".to_string());
    let plan = choice(&store, &origin, &destination, 1000).unwrap();
    assert_eq!(
        plan,
        vec![
            stop("A", "Everglades", "Flamingo Campground", 0),
            stop("B", "Olympic", "Kalaloch", 300),
        ]
    );
    let trips = run(&store, &origin, &destination, 1000).unwrap();
    assert!(trips.iter().all(|t| t.from != "C" && t.to != "C"));
    assert_eq!(trips.len(), 2);
}

fn diamond() -> FactStore {
    FactStore {
        parks: vec![park("p", "Park")],
        campgrounds: vec![
            camp("A", "p", "a"),
            camp("B", "p", "b"),
            camp("C", "p", "c"),
            camp("D", "p", "d"),
        ],
        distances: vec![
            dist("A", "B", 250),
            dist("A", "C", 250),
            dist("B", "D", 250),
            dist("C", "D", 250),
        ],
        locations: vec![
            loc("A", 10000, 0),
            loc("B", 20000, 0),
            loc("C", 20000, 0),
            loc("D", 30000, 0),
        ],
        amenities: vec![amenity("A", 0), amenity("B", 0), amenity("C", 0), amenity("D", 0)],
    }
}

#[test]
fn equal_cost_paths_give_two_itineraries_and_one_choice() {
    let store = diamond();
    let origin = Selector::CampId("A".to_string());
    let destination = Selector::CampId("D".to_string());
    let plans = enumerate(&store, &origin, &destination, 1000).unwrap();
    assert_eq!(
        plans,
        vec![
            vec![stop("A", "Park", "a", 0), stop("B", "Park", "b", 250), stop("D", "Park", "d", 500)],
            vec![stop("A", "Park", "a", 0), stop("C", "Park", "c", 250), stop("D", "Park", "d", 500)],
        ]
    );
    let plan = choice(&store, &origin, &destination, 1000).unwrap();
    assert_eq!(plan, plans[0]);
    assert_eq!(plan.last().unwrap().miles, 500);
}

#[test]
fn unsuitable_destination_is_an_unknown_endpoint() {
    let store = three_campgrounds();
    let origin = Selector::CampId("A".to_string());
    let destination = Selector::CampId("C".to_string());
    assert_eq!(choice(&store, &origin, &destination, 1000), Err(PlanError::UnknownEndpoint));
    assert_eq!(enumerate(&store, &origin, &destination, 1000), Err(PlanError::UnknownEndpoint));
    assert_eq!(run(&store, &origin, &destination, 1000), Err(PlanError::UnknownEndpoint));
}

#[test]
fn disconnected_destination_has_no_route() {
    let mut store = three_campgrounds();
    store.distances = vec![dist("A", "C", 50)];
    let origin = Selector::CampId("A".to_string());
    let destination = Selector::CampId("B".to_string());
    assert_eq!(choice(&store, &origin, &destination, 1000), Err(PlanError::NoRouteFound));
    assert_eq!(enumerate(&store, &origin, &destination, 1000), Ok(vec![]));
}
