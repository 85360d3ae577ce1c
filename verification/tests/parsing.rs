use road_trip_planner::error::PlanError;
use road_trip_planner::facts::{AmenityProfile, Campground, DistanceEdge, FactStore, Location, Park};
use road_trip_planner::load::{load_amenities, load_campgrounds, load_distances, load_locations, load_parks};
use road_trip_planner::numbers::{parse_i64, parse_u32};
use road_trip_planner::pairs::index_pairs;
use road_trip_planner::plan_text::{parse_stop_fields, parse_stops, ParseError};
use road_trip_planner::tsv::parse_tsv;

fn row(fields: &[&str]) -> Vec<String> {
    fields.iter().map(|f| f.to_string()).collect()
}

fn reference_stops(plan: &str) -> Option<Vec<String>> {
    let rest = plan.split_once("nil, [")?.1;
    let mut stops = Vec::new();
    for item in rest.split("]], [") {
        stops.push(item.rsplit_once(',')?.0);
    }
    if let Some(last) = stops.last_mut() {
        *last = last.trim_end_matches(']');
    }
    Some(stops.into_iter().map(String::from).collect())
}

fn check_stops(plan: &str) {
    assert_eq!(parse_stops(plan).ok(), reference_stops(plan), "plan {:?}", plan);
}

#[test]
fn parse_stops_reads_each_name() {
    let plan = "[[[nil, [Everglades: Flamingo, 0]], [Congaree: Longleaf, 560]], [Olympic: Kalaloch, 3100]]]";
    assert_eq!(
        parse_stops(plan),
        Ok(vec![
            "Everglades: Flamingo".to_string(),
            "Congaree: Longleaf".to_string(),
            "Olympic: Kalaloch".to_string(),
        ])
    );
}

#[test]
fn parse_stops_trims_brackets_of_last_name_only() {
    assert_eq!(
        parse_stops("nil, [a],1]], [b]]],2]]"),
        Ok(vec!["a]".to_string(), "b".to_string()])
    );
}

#[test]
fn parse_stops_without_list_start_fails() {
    assert_eq!(parse_stops("[a, 1]], [b, 2]"), Err(ParseError::UnexpectedOutput));
    assert_eq!(parse_stops(""), Err(ParseError::UnexpectedOutput));
}

#[test]
fn parse_stops_item_without_comma_fails() {
    assert_eq!(parse_stops("nil, [a, 1]], [b"), Err(ParseError::UnexpectedOutput));
    assert_eq!(parse_stops("nil, ["), Err(ParseError::UnexpectedOutput));
}

#[test]
fn parse_stops_agrees_with_std_string_functions() {
    let plans = [
        "nil, [a,1",
        "nil, [,",
        "nil, [a,b,c]], [d,e]]]]",
        "xx nil, [nil, [q,1]], []], [r,2]",
        "nil, []], []], [",
        "nil, [a,1]], [b,2]], [",
        "nil, [a,1]]], [b,2",
        "nil, [Caf\u{e9} \u{2191},1]], [\u{1F3D5} camp],2]]",
        "nil, nil, [x]],]], [y],",
        "nil, [a]]]],z",
        "nil,[a,1",
    ];
    for plan in plans {
        check_stops(plan);
    }
}

#[test]
fn parse_error_has_the_message() {
    assert_eq!(ParseError::UnexpectedOutput.message(), "unexpected output from plan enumeration");
}

#[test]
fn parse_u32_reads_decimal_numerals() {
    let cases = [
        "0", "34", "007", "+5", "4294967295", "4294967296", "99999999999999999999999", "", "+",
        "-1", "-0", "12a", " 1", "1 ", "\u{661}", "3.5", "++1",
    ];
    for text in cases {
        assert_eq!(parse_u32(&text.to_string()), text.parse::<u32>().ok(), "text {:?}", text);
    }
    assert_eq!(parse_u32(&"600".to_string()), Some(600));
}

#[test]
fn parse_i64_reads_signed_numerals() {
    let cases = [
        "0", "-0", "+0", "25000", "-80123", "9223372036854775807", "9223372036854775808",
        "-9223372036854775808", "-9223372036854775809", "", "-", "+", "--1", "+-1", "1e3", "12.5",
    ];
    for text in cases {
        assert_eq!(parse_i64(&text.to_string()), text.parse::<i64>().ok(), "text {:?}", text);
    }
    assert_eq!(parse_i64(&"-80123".to_string()), Some(-80123));
}

#[test]
fn parse_tsv_splits_records_at_tabs() {
    let rows = parse_tsv(b"ever\tEverglades National Park\nolym\tOlympic National Park\n").unwrap();
    assert_eq!(
        rows,
        vec![row(&["ever", "Everglades National Park"]), row(&["olym", "Olympic National Park"])]
    );
    assert_eq!(parse_tsv(b""), Ok(vec![]));
}

#[test]
fn parse_tsv_rejects_ragged_records() {
    assert_eq!(parse_tsv(b"a\tb\nc\n"), Err(PlanError::MalformedFact));
    assert_eq!(parse_tsv(b"a\t\xff\n"), Err(PlanError::MalformedFact));
}

#[test]
fn loaders_build_typed_facts() {
    assert_eq!(
        load_parks(&vec![row(&["ever", "Everglades"])]),
        Ok(vec![Park { id: "ever".to_string(), name: "Everglades".to_string() }])
    );
    assert_eq!(
        load_campgrounds(&vec![row(&["c1", "ever", "Flamingo Campground"])]),
        Ok(vec![Campground {
            id: "c1".to_string(),
            park_id: "ever".to_string(),
            name: "Flamingo Campground".to_string(),
        }])
    );
    assert_eq!(
        load_distances(&vec![row(&["c1", "c2", "300"])]),
        Ok(vec![DistanceEdge { from: "c1".to_string(), to: "c2".to_string(), miles: 300 }])
    );
    assert_eq!(
        load_locations(&vec![row(&["c1", "25136", "-80923"])]),
        Ok(vec![Location { camp_id: "c1".to_string(), latitude: 25136, longitude: -80923 }])
    );
    assert_eq!(
        load_amenities(&vec![row(&["c1", "40", "extra", "columns"])]),
        Ok(vec![AmenityProfile { camp_id: "c1".to_string(), rv_max_length: 40 }])
    );
}

#[test]
fn loaders_reject_malformed_records() {
    assert_eq!(load_parks(&vec![row(&["ever"])]), Err(PlanError::MalformedFact));
    assert_eq!(load_campgrounds(&vec![row(&["c1", "ever"])]), Err(PlanError::MalformedFact));
    assert_eq!(load_distances(&vec![row(&["c1", "c2", "far"])]), Err(PlanError::MalformedFact));
    assert_eq!(load_distances(&vec![row(&["c1", "c2"])]), Err(PlanError::MalformedFact));
    assert_eq!(load_locations(&vec![row(&["c1", "25.1", "-80"])]), Err(PlanError::MalformedFact));
    assert_eq!(load_amenities(&vec![row(&["c1", "long"])]), Err(PlanError::MalformedFact));
    assert_eq!(
        load_amenities(&vec![row(&["c1", "40"]), row(&["c2", "-3"])]),
        Err(PlanError::MalformedFact)
    );
}

#[test]
fn store_loads_from_tab_separated_text() {
    let store = FactStore::from_tsv(
        b"ever\tEverglades\n",
        b"c1\tever\tFlamingo Campground\n",
        b"c1\tc2\t300\n",
        b"c1\t25136\t-80923\n",
        b"c1\t0\n",
    )
    .unwrap();
    assert_eq!(store.parks.len(), 1);
    assert_eq!(store.campgrounds[0].name, "Flamingo Campground");
    assert_eq!(store.distances[0].miles, 300);
    assert_eq!(store.locations[0].longitude, -80923);
    assert_eq!(store.amenities[0].rv_max_length, 0);
    assert_eq!(
        FactStore::from_tsv(b"ever\tEverglades\n", b"", b"c1\tc2\tx\n", b"", b""),
        Err(PlanError::MalformedFact)
    );
    assert_eq!(FactStore::new().parks.len(), 0);
}

#[test]
fn index_pairs_lists_pairs_in_order() {
    assert_eq!(index_pairs(0), vec![]);
    assert_eq!(index_pairs(1), vec![(0, 0)]);
    assert_eq!(index_pairs(3), vec![(0, 0), (0, 1), (0, 2), (1, 1), (1, 2), (2, 2)]);
    assert_eq!(index_pairs(10).len(), 55);
}

#[test]
fn errors_have_messages() {
    assert_eq!(PlanError::MalformedFact.message(), "malformed fact record");
    assert_eq!(
        PlanError::NoRouteFound.message(),
        "no road trip found for the given constraints"
    );
    assert!(!PlanError::UnknownEndpoint.message().is_empty());
    assert!(!PlanError::FixpointExplosion.message().is_empty());
}

fn reference_fields(plan: &str) -> Option<Vec<Vec<String>>> {
    let mut stops = plan.split_once("nil, [")?.1.split("]], [").collect::<Vec<_>>();
    if let Some(last) = stops.last_mut() {
        *last = last.trim_end_matches(']');
    }
    Some(stops.into_iter().map(|s| s.split(", ").map(String::from).collect()).collect())
}

#[test]
fn parse_stop_fields_reads_each_field() {
    let plan = "[[nil, [c1, Everglades, Flamingo, 0.00, 0]], [c9, Olympic, Kalaloch, 3100.50, 1]]]";
    assert_eq!(
        parse_stop_fields(plan),
        Ok(vec![
            row(&["c1", "Everglades", "Flamingo", "0.00", "0"]),
            row(&["c9", "Olympic", "Kalaloch", "3100.50", "1"]),
        ])
    );
    assert_eq!(parse_stop_fields("no list here"), Err(ParseError::UnexpectedOutput));
}

#[test]
fn parse_stop_fields_agrees_with_std_string_functions() {
    let plans = [
        "nil, [",
        "nil, [a",
        "nil, [a, b,c, , d]], [, ]], []]]",
        "nil, [a, b]], [c,  d, ]]], [e]",
        "x nil, [nil, [p, q]]",
        "nil, [\u{e9}, \u{1F3D5}, z]]]]",
        "nil,[a, b",
    ];
    for plan in plans {
        assert_eq!(parse_stop_fields(plan).ok(), reference_fields(plan), "plan {:?}", plan);
    }
}
