//! Loading the base relations from records of text fields.
//!
//! A record stands for a fact when it has at least the columns of its
//! relation and its numeric columns are numerals that fit; further
//! columns are ignored. One record that does not fails the whole load.

use vstd::prelude::*;
use crate::error::PlanError;
use crate::facts::{AmenityProfile, AmenityView, Campground, CampgroundView, DistanceEdge, EdgeView, FactStore, Location, LocationView, Park, ParkView, StoreView};
use crate::numbers::{i64_of_text, parse_i64, parse_u32, u32_of_text};
use crate::tsv::{parse_tsv, tsv_records};

verus! {

/// The park that a record stands for: id, name.
pub open spec fn park_of_row(row: Seq<Seq<char>>) -> Option<ParkView> {
    if row.len() >= 2 {
        Some(ParkView { id: row[0], name: row[1] })
    } else {
        None
    }
}

/// The campground that a record stands for: id, park id, name.
pub open spec fn campground_of_row(row: Seq<Seq<char>>) -> Option<CampgroundView> {
    if row.len() >= 3 {
        Some(CampgroundView { id: row[0], park_id: row[1], name: row[2] })
    } else {
        None
    }
}

/// The distance that a record stands for: from, to, whole miles.
pub open spec fn distance_of_row(row: Seq<Seq<char>>) -> Option<EdgeView> {
    if row.len() >= 3 {
        match u32_of_text(row[2]) {
            Some(miles) => Some(EdgeView { from: row[0], to: row[1], miles: miles as nat }),
            None => None,
        }
    } else {
        None
    }
}

/// The location that a record stands for: campground id, latitude and
/// longitude in whole thousandths of a degree.
pub open spec fn location_of_row(row: Seq<Seq<char>>) -> Option<LocationView> {
    if row.len() >= 3 {
        match (i64_of_text(row[1]), i64_of_text(row[2])) {
            (Some(latitude), Some(longitude)) => Some(
                LocationView { camp_id: row[0], latitude: latitude as int, longitude: longitude as int },
            ),
            _ => None,
        }
    } else {
        None
    }
}

/// The amenity profile that a record stands for: campground id, longest
/// RV in feet.
pub open spec fn amenity_of_row(row: Seq<Seq<char>>) -> Option<AmenityView> {
    if row.len() >= 2 {
        match u32_of_text(row[1]) {
            Some(length) => Some(AmenityView { camp_id: row[0], rv_max_length: length as nat }),
            None => None,
        }
    } else {
        None
    }
}

/// The facts that `rows` stand for under the reading `of_row`, in order:
/// `None` where some record stands for none.
pub open spec fn facts_of_rows<T>(
    rows: Seq<Seq<Seq<char>>>,
    of_row: spec_fn(Seq<Seq<char>>) -> Option<T>,
) -> Option<Seq<T>> {
    if forall|i: int| 0 <= i < rows.len() ==> of_row(#[trigger] rows[i]) is Some {
        Some(rows.map_values(|row: Seq<Seq<char>>| of_row(row)->0))
    } else {
        None
    }
}

/// The parks that `rows` stand for.
pub open spec fn parks_of_rows(rows: Seq<Seq<Seq<char>>>) -> Option<Seq<ParkView>> {
    facts_of_rows(rows, |row: Seq<Seq<char>>| park_of_row(row))
}

/// The campgrounds that `rows` stand for.
pub open spec fn campgrounds_of_rows(rows: Seq<Seq<Seq<char>>>) -> Option<Seq<CampgroundView>> {
    facts_of_rows(rows, |row: Seq<Seq<char>>| campground_of_row(row))
}

/// The distances that `rows` stand for.
pub open spec fn distances_of_rows(rows: Seq<Seq<Seq<char>>>) -> Option<Seq<EdgeView>> {
    facts_of_rows(rows, |row: Seq<Seq<char>>| distance_of_row(row))
}

/// The locations that `rows` stand for.
pub open spec fn locations_of_rows(rows: Seq<Seq<Seq<char>>>) -> Option<Seq<LocationView>> {
    facts_of_rows(rows, |row: Seq<Seq<char>>| location_of_row(row))
}

/// The amenity profiles that `rows` stand for.
pub open spec fn amenities_of_rows(rows: Seq<Seq<Seq<char>>>) -> Option<Seq<AmenityView>> {
    facts_of_rows(rows, |row: Seq<Seq<char>>| amenity_of_row(row))
}

/// What a load owes: the facts of all records, or `MalformedFact` where
/// some record stands for none.
pub open spec fn is_loaded<T>(expected: Option<Seq<T>>, loaded: Result<Seq<T>, PlanError>) -> bool {
    match loaded {
        Ok(facts) => expected == Some(facts),
        Err(e) => e == PlanError::MalformedFact && expected is None,
    }
}

/// Loads the park relation.
pub fn load_parks(rows: &Vec<Vec<String>>) -> (loaded: Result<Vec<Park>, PlanError>)
    ensures
        is_loaded(
            parks_of_rows(rows.deep_view()),
            match loaded {
                Ok(facts) => Ok(facts.deep_view()),
                Err(e) => Err(e),
            },
        ),
{
    let mut facts: Vec<Park> = Vec::new();
    let mut i: usize = 0;
    while i < rows.len()
        invariant
            i <= rows.len(),
            facts.len() == i,
            forall|k: int|
                0 <= k < i ==> park_of_row(#[trigger] rows.deep_view()[k]) == Some(
                    facts.deep_view()[k],
                ),
        decreases rows.len() - i,
    {
        let row = &rows[i];
        assert(rows.deep_view()[i as int] == row.deep_view());
        if row.len() < 2 {
            return Err(PlanError::MalformedFact);
        }
        assert(row.deep_view()[0] == row[0]@ && row.deep_view()[1] == row[1]@);
        let ghost before = facts.deep_view();
        facts.push(Park { id: row[0].clone(), name: row[1].clone() });
        assert(facts.deep_view() =~= before.push(park_of_row(row.deep_view())->0));
        i += 1;
    }
    assert(parks_of_rows(rows.deep_view())->0 =~= facts.deep_view());
    Ok(facts)
}

/// Loads the campground relation.
pub fn load_campgrounds(rows: &Vec<Vec<String>>) -> (loaded: Result<Vec<Campground>, PlanError>)
    ensures
        is_loaded(
            campgrounds_of_rows(rows.deep_view()),
            match loaded {
                Ok(facts) => Ok(facts.deep_view()),
                Err(e) => Err(e),
            },
        ),
{
    let mut facts: Vec<Campground> = Vec::new();
    let mut i: usize = 0;
    while i < rows.len()
        invariant
            i <= rows.len(),
            facts.len() == i,
            forall|k: int|
                0 <= k < i ==> campground_of_row(#[trigger] rows.deep_view()[k]) == Some(
                    facts.deep_view()[k],
                ),
        decreases rows.len() - i,
    {
        let row = &rows[i];
        assert(rows.deep_view()[i as int] == row.deep_view());
        if row.len() < 3 {
            return Err(PlanError::MalformedFact);
        }
        assert(row.deep_view()[0] == row[0]@ && row.deep_view()[1] == row[1]@ && row.deep_view()[2]
            == row[2]@);
        let ghost before = facts.deep_view();
        facts.push(Campground { id: row[0].clone(), park_id: row[1].clone(), name: row[2].clone() });
        assert(facts.deep_view() =~= before.push(campground_of_row(row.deep_view())->0));
        i += 1;
    }
    assert(campgrounds_of_rows(rows.deep_view())->0 =~= facts.deep_view());
    Ok(facts)
}

/// Loads the distance relation.
pub fn load_distances(rows: &Vec<Vec<String>>) -> (loaded: Result<Vec<DistanceEdge>, PlanError>)
    ensures
        is_loaded(
            distances_of_rows(rows.deep_view()),
            match loaded {
                Ok(facts) => Ok(facts.deep_view()),
                Err(e) => Err(e),
            },
        ),
{
    let mut facts: Vec<DistanceEdge> = Vec::new();
    let mut i: usize = 0;
    while i < rows.len()
        invariant
            i <= rows.len(),
            facts.len() == i,
            forall|k: int|
                0 <= k < i ==> distance_of_row(#[trigger] rows.deep_view()[k]) == Some(
                    facts.deep_view()[k],
                ),
        decreases rows.len() - i,
    {
        let row = &rows[i];
        assert(rows.deep_view()[i as int] == row.deep_view());
        if row.len() < 3 {
            return Err(PlanError::MalformedFact);
        }
        assert(row.deep_view()[0] == row[0]@ && row.deep_view()[1] == row[1]@ && row.deep_view()[2]
            == row[2]@);
        let miles = match parse_u32(&row[2]) {
            Some(miles) => miles,
            None => {
                return Err(PlanError::MalformedFact);
            },
        };
        let ghost before = facts.deep_view();
        facts.push(DistanceEdge { from: row[0].clone(), to: row[1].clone(), miles });
        assert(facts.deep_view() =~= before.push(distance_of_row(row.deep_view())->0));
        i += 1;
    }
    assert(distances_of_rows(rows.deep_view())->0 =~= facts.deep_view());
    Ok(facts)
}

/// Loads the location relation.
pub fn load_locations(rows: &Vec<Vec<String>>) -> (loaded: Result<Vec<Location>, PlanError>)
    ensures
        is_loaded(
            locations_of_rows(rows.deep_view()),
            match loaded {
                Ok(facts) => Ok(facts.deep_view()),
                Err(e) => Err(e),
            },
        ),
{
    let mut facts: Vec<Location> = Vec::new();
    let mut i: usize = 0;
    while i < rows.len()
        invariant
            i <= rows.len(),
            facts.len() == i,
            forall|k: int|
                0 <= k < i ==> location_of_row(#[trigger] rows.deep_view()[k]) == Some(
                    facts.deep_view()[k],
                ),
        decreases rows.len() - i,
    {
        let row = &rows[i];
        assert(rows.deep_view()[i as int] == row.deep_view());
        if row.len() < 3 {
            return Err(PlanError::MalformedFact);
        }
        assert(row.deep_view()[0] == row[0]@ && row.deep_view()[1] == row[1]@ && row.deep_view()[2]
            == row[2]@);
        let latitude = match parse_i64(&row[1]) {
            Some(latitude) => latitude,
            None => {
                return Err(PlanError::MalformedFact);
            },
        };
        let longitude = match parse_i64(&row[2]) {
            Some(longitude) => longitude,
            None => {
                return Err(PlanError::MalformedFact);
            },
        };
        let ghost before = facts.deep_view();
        facts.push(Location { camp_id: row[0].clone(), latitude, longitude });
        assert(facts.deep_view() =~= before.push(location_of_row(row.deep_view())->0));
        i += 1;
    }
    assert(locations_of_rows(rows.deep_view())->0 =~= facts.deep_view());
    Ok(facts)
}

/// Loads the amenity relation.
pub fn load_amenities(rows: &Vec<Vec<String>>) -> (loaded: Result<Vec<AmenityProfile>, PlanError>)
    ensures
        is_loaded(
            amenities_of_rows(rows.deep_view()),
            match loaded {
                Ok(facts) => Ok(facts.deep_view()),
                Err(e) => Err(e),
            },
        ),
{
    let mut facts: Vec<AmenityProfile> = Vec::new();
    let mut i: usize = 0;
    while i < rows.len()
        invariant
            i <= rows.len(),
            facts.len() == i,
            forall|k: int|
                0 <= k < i ==> amenity_of_row(#[trigger] rows.deep_view()[k]) == Some(
                    facts.deep_view()[k],
                ),
        decreases rows.len() - i,
    {
        let row = &rows[i];
        assert(rows.deep_view()[i as int] == row.deep_view());
        if row.len() < 2 {
            return Err(PlanError::MalformedFact);
        }
        assert(row.deep_view()[0] == row[0]@ && row.deep_view()[1] == row[1]@);
        let rv_max_length = match parse_u32(&row[1]) {
            Some(length) => length,
            None => {
                return Err(PlanError::MalformedFact);
            },
        };
        let ghost before = facts.deep_view();
        facts.push(AmenityProfile { camp_id: row[0].clone(), rv_max_length });
        assert(facts.deep_view() =~= before.push(amenity_of_row(row.deep_view())->0));
        i += 1;
    }
    assert(amenities_of_rows(rows.deep_view())->0 =~= facts.deep_view());
    Ok(facts)
}

/// The store that five sets of records stand for: `None` where some
/// record stands for no fact.
pub open spec fn store_of_rows(
    parks: Seq<Seq<Seq<char>>>,
    campgrounds: Seq<Seq<Seq<char>>>,
    distances: Seq<Seq<Seq<char>>>,
    locations: Seq<Seq<Seq<char>>>,
    amenities: Seq<Seq<Seq<char>>>,
) -> Option<StoreView> {
    match (
        parks_of_rows(parks),
        campgrounds_of_rows(campgrounds),
        distances_of_rows(distances),
        locations_of_rows(locations),
        amenities_of_rows(amenities),
    ) {
        (Some(p), Some(c), Some(d), Some(l), Some(a)) => Some(
            StoreView {
                parks: p,
                campgrounds: c,
                distances: d,
                locations: l,
                amenities: a,
            },
        ),
        _ => None,
    }
}

/// The store that five tab-separated texts stand for: `None` where a text
/// cannot be split into records or a record stands for no fact.
pub open spec fn store_of_tsv(
    parks: Seq<u8>,
    campgrounds: Seq<u8>,
    distances: Seq<u8>,
    locations: Seq<u8>,
    amenities: Seq<u8>,
) -> Option<StoreView> {
    match (
        tsv_records(parks),
        tsv_records(campgrounds),
        tsv_records(distances),
        tsv_records(locations),
        tsv_records(amenities),
    ) {
        (Some(p), Some(c), Some(d), Some(l), Some(a)) => store_of_rows(p, c, d, l, a),
        _ => None,
    }
}

impl FactStore {
    /// Loads a store from the records of its five relations. Fails with
    /// `MalformedFact` exactly when some record stands for no fact.
    pub fn load(
        parks: &Vec<Vec<String>>,
        campgrounds: &Vec<Vec<String>>,
        distances: &Vec<Vec<String>>,
        locations: &Vec<Vec<String>>,
        amenities: &Vec<Vec<String>>,
    ) -> (loaded: Result<FactStore, PlanError>)
        ensures
            match loaded {
                Ok(store) => store_of_rows(
                    parks.deep_view(),
                    campgrounds.deep_view(),
                    distances.deep_view(),
                    locations.deep_view(),
                    amenities.deep_view(),
                ) == Some(store@),
                Err(e) => e == PlanError::MalformedFact && store_of_rows(
                    parks.deep_view(),
                    campgrounds.deep_view(),
                    distances.deep_view(),
                    locations.deep_view(),
                    amenities.deep_view(),
                ) is None,
            },
    {
        let parks = match load_parks(parks) {
            Ok(facts) => facts,
            Err(e) => {
                return Err(e);
            },
        };
        let campgrounds = match load_campgrounds(campgrounds) {
            Ok(facts) => facts,
            Err(e) => {
                return Err(e);
            },
        };
        let distances = match load_distances(distances) {
            Ok(facts) => facts,
            Err(e) => {
                return Err(e);
            },
        };
        let locations = match load_locations(locations) {
            Ok(facts) => facts,
            Err(e) => {
                return Err(e);
            },
        };
        let amenities = match load_amenities(amenities) {
            Ok(facts) => facts,
            Err(e) => {
                return Err(e);
            },
        };
        Ok(FactStore { parks, campgrounds, distances, locations, amenities })
    }

    /// Loads a store from the tab-separated texts of its five relations.
    /// Fails with `MalformedFact` exactly when a text cannot be split into
    /// records or some record stands for no fact.
    pub fn from_tsv(
        parks: &[u8],
        campgrounds: &[u8],
        distances: &[u8],
        locations: &[u8],
        amenities: &[u8],
    ) -> (loaded: Result<FactStore, PlanError>)
        ensures
            match loaded {
                Ok(store) => store_of_tsv(
                    parks@,
                    campgrounds@,
                    distances@,
                    locations@,
                    amenities@,
                ) == Some(store@),
                Err(e) => e == PlanError::MalformedFact && store_of_tsv(
                    parks@,
                    campgrounds@,
                    distances@,
                    locations@,
                    amenities@,
                ) is None,
            },
    {
        let parks = match parse_tsv(parks) {
            Ok(rows) => rows,
            Err(e) => {
                return Err(e);
            },
        };
        let campgrounds = match parse_tsv(campgrounds) {
            Ok(rows) => rows,
            Err(e) => {
                return Err(e);
            },
        };
        let distances = match parse_tsv(distances) {
            Ok(rows) => rows,
            Err(e) => {
                return Err(e);
            },
        };
        let locations = match parse_tsv(locations) {
            Ok(rows) => rows,
            Err(e) => {
                return Err(e);
            },
        };
        let amenities = match parse_tsv(amenities) {
            Ok(rows) => rows,
            Err(e) => {
                return Err(e);
            },
        };
        FactStore::load(&parks, &campgrounds, &distances, &locations, &amenities)
    }
}

} // verus!
