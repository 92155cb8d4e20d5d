//! Colour-based image segmentation.
//!
//! The crate partitions a row-major grid of RGB samples into connected
//! regions of similar colour. A weighted colour-distance predicate decides
//! which grid neighbours are similar; an adjacency graph over pixel indices
//! records those decisions; a depth-first labeler assigns every pixel a
//! region identifier; and a colorizer renders each region as a palette entry.

pub mod color;
pub mod colorize;
pub mod graph;
pub mod grid;
pub mod reach;
