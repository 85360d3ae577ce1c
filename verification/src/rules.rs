//! The non-recursive derivation rules.
//!
//! Each rule is a relation over the relations it reads, and each has an
//! executable function that lists the relation: every derived fact once.

use vstd::prelude::*;
use crate::facts::{AmenityProfile, AmenityView, Campground, CampgroundView, DistanceEdge, EdgeView, Location, LocationView};
use crate::seqs::{contains_text, first_occurrences, lemma_first_occurrences, lemma_first_occurrences_step, lists};

verus! {

/// The shortest RV length limit, in feet, that still admits the vehicle.
pub const RV_LENGTH: u32 = 34;

/// The shortest leg, in miles, that counts as a day of travel.
pub const SEGMENT_MIN_MILES: u32 = 200;

/// The longest leg, in miles, that can be driven in a day.
pub const SEGMENT_MAX_MILES: u32 = 600;

/// A length limit admits the vehicle when there is none or it is long enough.
pub open spec fn admits_rv(rv_max_length: nat) -> bool {
    rv_max_length == 0 || rv_max_length >= RV_LENGTH
}

/// Some amenity profile of campground `c` admits the vehicle.
pub open spec fn has_rv_amenity(amenities: Seq<AmenityView>, c: Seq<char>) -> bool {
    exists|j: int|
        0 <= j < amenities.len() && (#[trigger] amenities[j]).camp_id == c && admits_rv(
            amenities[j].rv_max_length,
        )
}

/// `c` is the id of some campground fact.
pub open spec fn is_campground(campgrounds: Seq<CampgroundView>, c: Seq<char>) -> bool {
    exists|i: int| 0 <= i < campgrounds.len() && (#[trigger] campgrounds[i]).id == c
}

/// The rule for RV-suitable campgrounds: a campground with an amenity
/// profile that admits the vehicle.
pub open spec fn rv_campground(
    campgrounds: Seq<CampgroundView>,
    amenities: Seq<AmenityView>,
    c: Seq<char>,
) -> bool {
    is_campground(campgrounds, c) && has_rv_amenity(amenities, c)
}

/// The relation of RV-suitable campgrounds.
pub open spec fn rv_campgrounds(
    campgrounds: Seq<CampgroundView>,
    amenities: Seq<AmenityView>,
) -> Set<Seq<char>> {
    Set::new(|c: Seq<char>| rv_campground(campgrounds, amenities, c))
}

/// The same edge read in the other direction.
pub open spec fn reversed(e: EdgeView) -> EdgeView {
    EdgeView { from: e.to, to: e.from, miles: e.miles }
}

/// The rule for RV distances: a distance fact, read in either direction,
/// between two RV-suitable campgrounds.
pub open spec fn rv_distance(distances: Seq<EdgeView>, rv: Set<Seq<char>>, e: EdgeView) -> bool {
    &&& rv.contains(e.from)
    &&& rv.contains(e.to)
    &&& (distances.contains(e) || distances.contains(reversed(e)))
}

/// The relation of RV distances.
pub open spec fn rv_distances(distances: Seq<EdgeView>, rv: Set<Seq<char>>) -> Set<EdgeView> {
    Set::new(|e: EdgeView| rv_distance(distances, rv, e))
}

/// Going from `from` to `to` gains latitude or loses longitude.
pub open spec fn heads_northwest(from: LocationView, to: LocationView) -> bool {
    to.latitude > from.latitude || to.longitude < from.longitude
}

/// Some pair of location facts for `from` and `to` heads northwest.
pub open spec fn makes_progress(locations: Seq<LocationView>, from: Seq<char>, to: Seq<char>) -> bool {
    exists|i: int, j: int|
        #![trigger locations[i], locations[j]]
        0 <= i < locations.len() && 0 <= j < locations.len() && locations[i].camp_id == from
            && locations[j].camp_id == to && heads_northwest(locations[i], locations[j])
}

/// A leg is neither too short nor too long for a day.
pub open spec fn day_length(miles: nat) -> bool {
    SEGMENT_MIN_MILES <= miles <= SEGMENT_MAX_MILES
}

/// The rule for segments: an RV distance of a day's length that makes
/// progress to the northwest.
pub open spec fn segment(rv_edges: Set<EdgeView>, locations: Seq<LocationView>, e: EdgeView) -> bool {
    &&& rv_edges.contains(e)
    &&& day_length(e.miles)
    &&& makes_progress(locations, e.from, e.to)
}

/// The relation of segments.
pub open spec fn segments(rv_edges: Set<EdgeView>, locations: Seq<LocationView>) -> Set<EdgeView> {
    Set::new(|e: EdgeView| segment(rv_edges, locations, e))
}

/// For each campground fact in order, its id where some amenity profile
/// of the campground admits the vehicle.
pub open spec fn rv_campground_marks(
    campgrounds: Seq<CampgroundView>,
    amenities: Seq<AmenityView>,
) -> Seq<Option<Seq<char>>> {
    campgrounds.map_values(
        |c: CampgroundView|
            if has_rv_amenity(amenities, c.id) {
                Some(c.id)
            } else {
                None
            },
    )
}

/// The RV-suitable campgrounds, each once, in the order of the campground
/// facts.
pub open spec fn rv_campground_list(
    campgrounds: Seq<CampgroundView>,
    amenities: Seq<AmenityView>,
) -> Seq<Seq<char>> {
    first_occurrences(rv_campground_marks(campgrounds, amenities))
}

/// For each distance fact in order, the fact and then its reverse, where
/// both its campgrounds are in `rv`.
pub open spec fn rv_distance_marks(distances: Seq<EdgeView>, rv: Set<Seq<char>>) -> Seq<
    Option<EdgeView>,
> {
    Seq::new(
        2 * distances.len(),
        |i: int|
            {
                let e = distances[i / 2];
                if rv.contains(e.from) && rv.contains(e.to) {
                    if i % 2 == 0 {
                        Some(e)
                    } else {
                        Some(reversed(e))
                    }
                } else {
                    None
                }
            },
    )
}

/// The RV distances, each once, in the order of the distance facts, a
/// fact before its reverse.
pub open spec fn rv_distance_list(distances: Seq<EdgeView>, rv: Set<Seq<char>>) -> Seq<EdgeView> {
    first_occurrences(rv_distance_marks(distances, rv))
}

/// For each edge in order, the edge where it is of a day's length and
/// makes progress to the northwest.
pub open spec fn segment_marks(rv_edges: Seq<EdgeView>, locations: Seq<LocationView>) -> Seq<
    Option<EdgeView>,
> {
    rv_edges.map_values(
        |e: EdgeView|
            if day_length(e.miles) && makes_progress(locations, e.from, e.to) {
                Some(e)
            } else {
                None
            },
    )
}

/// The segments among `rv_edges`, each once, in the order of `rv_edges`.
pub open spec fn segment_list(rv_edges: Seq<EdgeView>, locations: Seq<LocationView>) -> Seq<
    EdgeView,
> {
    first_occurrences(segment_marks(rv_edges, locations))
}

/// The list of RV-suitable campgrounds lists their relation.
pub proof fn lemma_rv_campground_list(campgrounds: Seq<CampgroundView>, amenities: Seq<AmenityView>)
    ensures
        lists(rv_campground_list(campgrounds, amenities), rv_campgrounds(campgrounds, amenities)),
{
    let marks = rv_campground_marks(campgrounds, amenities);
    lemma_first_occurrences(marks);
    assert forall|c: Seq<char>| #[trigger]
        marks.contains(Some(c)) <==> rv_campground(campgrounds, amenities, c) by {
        if marks.contains(Some(c)) {
            let i = choose|i: int| 0 <= i < marks.len() && marks[i] == Some(c);
            assert(campgrounds[i].id == c);
        }
        if rv_campground(campgrounds, amenities, c) {
            let i = choose|i: int| 0 <= i < campgrounds.len() && (#[trigger] campgrounds[i]).id == c;
            assert(marks[i] == Some(c));
        }
    }
}

/// The list of RV distances lists their relation.
pub proof fn lemma_rv_distance_list(distances: Seq<EdgeView>, rv: Set<Seq<char>>)
    ensures
        lists(rv_distance_list(distances, rv), rv_distances(distances, rv)),
{
    let marks = rv_distance_marks(distances, rv);
    lemma_first_occurrences(marks);
    assert forall|e: EdgeView| #[trigger] marks.contains(Some(e)) <==> rv_distance(
        distances,
        rv,
        e,
    ) by {
        if marks.contains(Some(e)) {
            let i = choose|i: int| 0 <= i < marks.len() && marks[i] == Some(e);
            let d = distances[i / 2];
            assert(0 <= i / 2 < distances.len());
            if i % 2 == 0 {
                assert(d == e);
            } else {
                assert(reversed(d) == e);
                assert(d == reversed(e));
            }
        }
        if rv_distance(distances, rv, e) {
            if distances.contains(e) {
                let k = choose|k: int| 0 <= k < distances.len() && distances[k] == e;
                assert((2 * k) / 2 == k && (2 * k) % 2 == 0);
                assert(marks[2 * k] == Some(e));
            } else {
                let k = choose|k: int| 0 <= k < distances.len() && distances[k] == reversed(e);
                assert((2 * k + 1) / 2 == k && (2 * k + 1) % 2 == 1);
                assert(reversed(reversed(e)) == e);
                assert(marks[2 * k + 1] == Some(e));
            }
        }
    }
}

/// The list of segments lists their relation.
pub proof fn lemma_segment_list(rv_edges: Seq<EdgeView>, locations: Seq<LocationView>)
    ensures
        lists(segment_list(rv_edges, locations), segments(rv_edges.to_set(), locations)),
{
    let marks = segment_marks(rv_edges, locations);
    lemma_first_occurrences(marks);
    assert forall|e: EdgeView| #[trigger] marks.contains(Some(e)) <==> segment(
        rv_edges.to_set(),
        locations,
        e,
    ) by {
        if marks.contains(Some(e)) {
            let i = choose|i: int| 0 <= i < marks.len() && marks[i] == Some(e);
            assert(rv_edges[i] == e);
        }
        if segment(rv_edges.to_set(), locations, e) {
            let i = choose|i: int| 0 <= i < rv_edges.len() && rv_edges[i] == e;
            assert(marks[i] == Some(e));
        }
    }
}

/// RV distances are symmetric: with an edge from `a` to `b` of some
/// length, the relation holds the edge from `b` to `a` of that length.
pub proof fn lemma_rv_distance_symmetric(distances: Seq<EdgeView>, rv: Set<Seq<char>>, e: EdgeView)
    requires
        rv_distances(distances, rv).contains(e),
    ensures
        rv_distances(distances, rv).contains(reversed(e)),
{
    assert(reversed(reversed(e)) == e);
}

/// An RV distance joins two RV-suitable campgrounds.
pub proof fn lemma_rv_distance_suitable(distances: Seq<EdgeView>, rv: Set<Seq<char>>, e: EdgeView)
    requires
        rv_distances(distances, rv).contains(e),
    ensures
        rv.contains(e.from),
        rv.contains(e.to),
{
}

/// A segment joins two RV-suitable campgrounds: no other campground is
/// the `from` or the `to` of a segment derived from the RV distances.
pub proof fn lemma_segment_suitable(
    distances: Seq<EdgeView>,
    rv: Set<Seq<char>>,
    locations: Seq<LocationView>,
    e: EdgeView,
)
    requires
        segments(rv_distances(distances, rv), locations).contains(e),
    ensures
        rv.contains(e.from),
        rv.contains(e.to),
{
}

/// A segment is between 200 and 600 miles long, and some pair of
/// location facts for its two campgrounds heads northwest.
pub proof fn lemma_segment_bound(rv_edges: Set<EdgeView>, locations: Seq<LocationView>, e: EdgeView)
    requires
        segments(rv_edges, locations).contains(e),
    ensures
        200 <= e.miles <= 600,
        exists|i: int, j: int|
            #![trigger locations[i], locations[j]]
            0 <= i < locations.len() && 0 <= j < locations.len() && locations[i].camp_id
                == e.from && locations[j].camp_id == e.to && (locations[j].latitude
                > locations[i].latitude || locations[j].longitude < locations[i].longitude),
        rv_edges.contains(e),
{
}

/// Whether some amenity profile of campground `c` admits the vehicle.
pub fn admits_vehicle(amenities: &Vec<AmenityProfile>, c: &String) -> (found: bool)
    ensures
        found == has_rv_amenity(amenities.deep_view(), c@),
{
    let mut j: usize = 0;
    while j < amenities.len()
        invariant
            j <= amenities.len(),
            forall|k: int|
                0 <= k < j ==> !((#[trigger] amenities.deep_view()[k]).camp_id == c@ && admits_rv(
                    amenities.deep_view()[k].rv_max_length,
                )),
        decreases amenities.len() - j,
    {
        let a = &amenities[j];
        if a.camp_id == *c && (a.rv_max_length == 0 || a.rv_max_length >= RV_LENGTH) {
            assert(amenities.deep_view()[j as int].camp_id == c@);
            return true;
        }
        j += 1;
    }
    false
}

/// Lists the RV-suitable campgrounds, each once, in the order of the
/// campground facts.
pub fn derive_rv_campgrounds(campgrounds: &Vec<Campground>, amenities: &Vec<AmenityProfile>) -> (rv:
    Vec<String>)
    ensures
        rv.deep_view() == rv_campground_list(campgrounds.deep_view(), amenities.deep_view()),
        lists(rv.deep_view(), rv_campgrounds(campgrounds.deep_view(), amenities.deep_view())),
{
    let ghost marks = rv_campground_marks(campgrounds.deep_view(), amenities.deep_view());
    let mut rv: Vec<String> = Vec::new();
    let mut i: usize = 0;
    while i < campgrounds.len()
        invariant
            i <= campgrounds.len(),
            marks == rv_campground_marks(campgrounds.deep_view(), amenities.deep_view()),
            rv.deep_view() == first_occurrences(marks.take(i as int)),
        decreases campgrounds.len() - i,
    {
        let id = &campgrounds[i].id;
        let ghost before = rv.deep_view();
        proof {
            lemma_first_occurrences_step(marks, i as int);
            assert(campgrounds.deep_view()[i as int].id == id@);
        }
        if admits_vehicle(amenities, id) && !contains_text(&rv, id) {
            rv.push(id.clone());
            assert(rv.deep_view() =~= before.push(id@));
        }
        i += 1;
    }
    proof {
        assert(marks.take(i as int) =~= marks);
        lemma_rv_campground_list(campgrounds.deep_view(), amenities.deep_view());
    }
    rv
}

/// Whether the edge from `from` to `to` of `miles` miles occurs in `edges`.
pub fn contains_edge(edges: &Vec<DistanceEdge>, from: &String, to: &String, miles: u32) -> (found:
    bool)
    ensures
        found == edges.deep_view().contains(
            EdgeView { from: from@, to: to@, miles: miles as nat },
        ),
{
    let ghost needle = EdgeView { from: from@, to: to@, miles: miles as nat };
    let mut i: usize = 0;
    while i < edges.len()
        invariant
            i <= edges.len(),
            needle == (EdgeView { from: from@, to: to@, miles: miles as nat }),
            forall|k: int| 0 <= k < i ==> edges.deep_view()[k] != needle,
        decreases edges.len() - i,
    {
        let e = &edges[i];
        if e.from == *from && e.to == *to && e.miles == miles {
            assert(edges.deep_view()[i as int] == needle);
            return true;
        }
        i += 1;
    }
    false
}

/// Lists the RV distances, each once: for each distance fact between two
/// campgrounds of `rv`, in order, the fact and then its reverse.
pub fn derive_rv_distances(distances: &Vec<DistanceEdge>, rv: &Vec<String>) -> (edges: Vec<
    DistanceEdge,
>)
    ensures
        edges.deep_view() == rv_distance_list(distances.deep_view(), rv.deep_view().to_set()),
        lists(edges.deep_view(), rv_distances(distances.deep_view(), rv.deep_view().to_set())),
{
    let ghost all = distances.deep_view();
    let ghost suitable = rv.deep_view().to_set();
    let ghost marks = rv_distance_marks(all, suitable);
    let mut edges: Vec<DistanceEdge> = Vec::new();
    let mut k: usize = 0;
    while k < distances.len()
        invariant
            k <= distances.len(),
            all == distances.deep_view(),
            suitable == rv.deep_view().to_set(),
            marks == rv_distance_marks(all, suitable),
            edges.deep_view() == first_occurrences(marks.take(2 * k)),
        decreases distances.len() - k,
    {
        let d = &distances[k];
        let ghost dv = all[k as int];
        proof {
            assert((2 * k) / 2 == k && (2 * k) % 2 == 0);
            assert((2 * k + 1) / 2 == k && (2 * k + 1) % 2 == 1);
            lemma_first_occurrences_step(marks, 2 * k);
            lemma_first_occurrences_step(marks, 2 * k + 1);
        }
        if contains_text(rv, &d.from) && contains_text(rv, &d.to) {
            if !contains_edge(&edges, &d.from, &d.to, d.miles) {
                let ghost prior = edges.deep_view();
                edges.push(DistanceEdge { from: d.from.clone(), to: d.to.clone(), miles: d.miles });
                assert(edges.deep_view() =~= prior.push(dv));
            }
            assert(edges.deep_view() == first_occurrences(marks.take(2 * k + 1)));
            if !contains_edge(&edges, &d.to, &d.from, d.miles) {
                let ghost prior = edges.deep_view();
                edges.push(DistanceEdge { from: d.to.clone(), to: d.from.clone(), miles: d.miles });
                assert(edges.deep_view() =~= prior.push(reversed(dv)));
            }
        }
        assert(edges.deep_view() == first_occurrences(marks.take(2 * k + 2)));
        k += 1;
    }
    proof {
        assert(marks.take(2 * k) =~= marks);
        lemma_rv_distance_list(all, suitable);
    }
    edges
}

/// Whether some pair of location facts for `from` and `to` heads northwest.
pub fn progresses(locations: &Vec<Location>, from: &String, to: &String) -> (found: bool)
    ensures
        found == makes_progress(locations.deep_view(), from@, to@),
{
    let ghost all = locations.deep_view();
    let mut i: usize = 0;
    while i < locations.len()
        invariant
            i <= locations.len(),
            all == locations.deep_view(),
            forall|a: int, b: int|
                #![trigger all[a], all[b]]
                0 <= a < i && 0 <= b < all.len() ==> !(all[a].camp_id == from@ && all[b].camp_id
                    == to@ && heads_northwest(all[a], all[b])),
        decreases locations.len() - i,
    {
        if locations[i].camp_id == *from {
            let mut j: usize = 0;
            while j < locations.len()
                invariant
                    i < locations.len(),
                    j <= locations.len(),
                    all == locations.deep_view(),
                    all[i as int].camp_id == from@,
                    forall|b: int|
                        #![trigger all[b]]
                        0 <= b < j ==> !(all[b].camp_id == to@ && heads_northwest(
                            all[i as int],
                            all[b],
                        )),
                decreases locations.len() - j,
            {
                let a = &locations[i];
                let b = &locations[j];
                if b.camp_id == *to && (b.latitude > a.latitude || b.longitude < a.longitude) {
                    assert(all[i as int].camp_id == from@ && all[j as int].camp_id == to@
                        && heads_northwest(all[i as int], all[j as int]));
                    return true;
                }
                j += 1;
            }
        }
        i += 1;
    }
    false
}

/// Lists the segments, each once: the edges of `rv_edges` of a day's
/// length that make progress to the northwest, in the order of `rv_edges`.
pub fn derive_segments(rv_edges: &Vec<DistanceEdge>, locations: &Vec<Location>) -> (legs: Vec<
    DistanceEdge,
>)
    ensures
        legs.deep_view() == segment_list(rv_edges.deep_view(), locations.deep_view()),
        lists(legs.deep_view(), segments(rv_edges.deep_view().to_set(), locations.deep_view())),
{
    let ghost all = rv_edges.deep_view();
    let ghost marks = segment_marks(all, locations.deep_view());
    let mut legs: Vec<DistanceEdge> = Vec::new();
    let mut k: usize = 0;
    while k < rv_edges.len()
        invariant
            k <= rv_edges.len(),
            all == rv_edges.deep_view(),
            marks == segment_marks(all, locations.deep_view()),
            legs.deep_view() == first_occurrences(marks.take(k as int)),
        decreases rv_edges.len() - k,
    {
        let d = &rv_edges[k];
        let ghost dv = all[k as int];
        let ghost before = legs.deep_view();
        proof {
            lemma_first_occurrences_step(marks, k as int);
        }
        if SEGMENT_MIN_MILES <= d.miles && d.miles <= SEGMENT_MAX_MILES && progresses(
            locations,
            &d.from,
            &d.to,
        ) && !contains_edge(&legs, &d.from, &d.to, d.miles) {
            legs.push(DistanceEdge { from: d.from.clone(), to: d.to.clone(), miles: d.miles });
            assert(legs.deep_view() =~= before.push(dv));
        }
        k += 1;
    }
    proof {
        assert(marks.take(k as int) =~= marks);
        lemma_segment_list(all, locations.deep_view());
    }
    legs
}

} // verus!
