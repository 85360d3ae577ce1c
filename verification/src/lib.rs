//! Road-trip planning over a graph of campgrounds.
//!
//! Base facts about parks, campgrounds, distances, coordinates and amenities
//! are turned into itineraries by a small fixed set of derivation rules that
//! are evaluated to a fixpoint. Every rule is stated as a relation over
//! mathematical sequences and sets, and every executable function is proved
//! against that statement.

pub mod error;
pub mod facts;
pub mod seqs;
pub mod rules;
pub mod fixpoint;
pub mod itinerary;
pub mod planner;
pub mod numbers;
pub mod tsv;
pub mod load;
pub mod plan_text;
pub mod pairs;
pub mod ways;
