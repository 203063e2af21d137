//! A street-network routing engine over vector map tiles, and the text
//! tools of the search index that goes with it.
//!
//! The routing graph takes its ways and intersections from tiles, asks a
//! costing model for speeds and penalties, and finds cheapest routes between
//! positions along ways. The functions are verified against their
//! contracts: no arithmetic overflows, nothing panics, and what a function
//! returns is what its contract says. The calls into other crates are not
//! verified; each stands in a small function of its own whose contract says
//! what is taken on trust.

pub mod bitmaps;
pub mod costing;
pub mod graph;
pub mod index;
pub mod languages;
pub mod patterns;
pub mod poi;
pub mod substitutions;
pub mod text;
