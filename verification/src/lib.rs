//! A local-search optimizer for two-dimensional rectangle packing: a fixed
//! set of rectangles is distributed across fixed-size square boxes, without
//! overlap beyond a configured tolerance, minimizing the number of occupied
//! boxes.
//!
//! `problem` holds the spatial model — rectangles, boxes, packings, their
//! validity and score. `neighborhoods` enumerates the packings reachable by
//! one elementary move. `algorithm` drives the search one step at a time.
//! `laws` collects the proofs of the model's general properties.

pub mod algorithm;
pub mod laws;
pub mod neighborhoods;
pub mod problem;
mod rng;
