//! Locality-restricted random graphs and statistics over their edge lengths.

pub mod config;
pub mod window;
pub mod generator;
pub mod stats;
