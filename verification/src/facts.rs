//! The base relations: facts supplied from outside and never derived.

use vstd::prelude::*;

verus! {

/// A park: its code and its display name.
#[derive(Debug, Clone, PartialEq, Eq)]
pub struct Park {
    pub id: String,
    pub name: String,
}

/// A campground, which belongs to the park named by `park_id`.
#[derive(Debug, Clone, PartialEq, Eq)]
pub struct Campground {
    pub id: String,
    pub park_id: String,
    pub name: String,
}

/// A road distance in miles from one campground to another. Stored
/// directed; the rules read it in both directions.
#[derive(Debug, Clone, PartialEq, Eq)]
pub struct DistanceEdge {
    pub from: String,
    pub to: String,
    pub miles: u32,
}

/// Where a campground lies, in thousandths of a degree.
#[derive(Debug, Clone, PartialEq, Eq)]
pub struct Location {
    pub camp_id: String,
    pub latitude: i64,
    pub longitude: i64,
}

/// The longest RV a campground admits, in feet; 0 means no restriction.
#[derive(Debug, Clone, PartialEq, Eq)]
pub struct AmenityProfile {
    pub camp_id: String,
    pub rv_max_length: u32,
}

/// The five base relations of one planning request.
#[derive(Debug, Clone, PartialEq, Eq)]
pub struct FactStore {
    pub parks: Vec<Park>,
    pub campgrounds: Vec<Campground>,
    pub distances: Vec<DistanceEdge>,
    pub locations: Vec<Location>,
    pub amenities: Vec<AmenityProfile>,
}

/// Mathematical value of a [`Park`].
pub struct ParkView {
    pub id: Seq<char>,
    pub name: Seq<char>,
}

/// Mathematical value of a [`Campground`].
pub struct CampgroundView {
    pub id: Seq<char>,
    pub park_id: Seq<char>,
    pub name: Seq<char>,
}

/// Mathematical value of a [`DistanceEdge`], and of every derived edge.
pub struct EdgeView {
    pub from: Seq<char>,
    pub to: Seq<char>,
    pub miles: nat,
}

/// Mathematical value of a [`Location`].
pub struct LocationView {
    pub camp_id: Seq<char>,
    pub latitude: int,
    pub longitude: int,
}

/// Mathematical value of an [`AmenityProfile`].
pub struct AmenityView {
    pub camp_id: Seq<char>,
    pub rv_max_length: nat,
}

/// Mathematical value of a [`FactStore`]: five sequences of fact values.
pub struct StoreView {
    pub parks: Seq<ParkView>,
    pub campgrounds: Seq<CampgroundView>,
    pub distances: Seq<EdgeView>,
    pub locations: Seq<LocationView>,
    pub amenities: Seq<AmenityView>,
}

impl View for Park {
    type V = ParkView;

    open spec fn view(&self) -> ParkView {
        ParkView { id: self.id@, name: self.name@ }
    }
}

impl DeepView for Park {
    type V = ParkView;

    open spec fn deep_view(&self) -> ParkView {
        self@
    }
}

impl View for Campground {
    type V = CampgroundView;

    open spec fn view(&self) -> CampgroundView {
        CampgroundView { id: self.id@, park_id: self.park_id@, name: self.name@ }
    }
}

impl DeepView for Campground {
    type V = CampgroundView;

    open spec fn deep_view(&self) -> CampgroundView {
        self@
    }
}

impl View for DistanceEdge {
    type V = EdgeView;

    open spec fn view(&self) -> EdgeView {
        EdgeView { from: self.from@, to: self.to@, miles: self.miles as nat }
    }
}

impl DeepView for DistanceEdge {
    type V = EdgeView;

    open spec fn deep_view(&self) -> EdgeView {
        self@
    }
}

impl View for Location {
    type V = LocationView;

    open spec fn view(&self) -> LocationView {
        LocationView {
            camp_id: self.camp_id@,
            latitude: self.latitude as int,
            longitude: self.longitude as int,
        }
    }
}

impl DeepView for Location {
    type V = LocationView;

    open spec fn deep_view(&self) -> LocationView {
        self@
    }
}

impl View for AmenityProfile {
    type V = AmenityView;

    open spec fn view(&self) -> AmenityView {
        AmenityView { camp_id: self.camp_id@, rv_max_length: self.rv_max_length as nat }
    }
}

impl DeepView for AmenityProfile {
    type V = AmenityView;

    open spec fn deep_view(&self) -> AmenityView {
        self@
    }
}

impl View for FactStore {
    type V = StoreView;

    open spec fn view(&self) -> StoreView {
        StoreView {
            parks: self.parks.deep_view(),
            campgrounds: self.campgrounds.deep_view(),
            distances: self.distances.deep_view(),
            locations: self.locations.deep_view(),
            amenities: self.amenities.deep_view(),
        }
    }
}

impl FactStore {
    /// A store with no facts in any relation.
    pub fn new() -> (store: FactStore)
        ensures
            store@.parks.len() == 0,
            store@.campgrounds.len() == 0,
            store@.distances.len() == 0,
            store@.locations.len() == 0,
            store@.amenities.len() == 0,
    {
        FactStore {
            parks: Vec::new(),
            campgrounds: Vec::new(),
            distances: Vec::new(),
            locations: Vec::new(),
            amenities: Vec::new(),
        }
    }
}

} // verus!
