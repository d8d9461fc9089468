//! Verified logic of the hpr-sim development tasks.
pub mod text;
pub mod path;
pub mod layering;
pub mod docs;
pub mod census;
pub mod examples;
pub mod ork_library_flights;
pub mod ork_flights;
pub mod ork_geometry;
pub mod ork_mass;
pub mod ork;
pub mod aero;
pub mod ork_corpus_flights;
pub mod tally;
pub mod ork_extensions;
pub mod ork_motors;
pub mod digest;
