//! A Count-Min Sketch: a fixed-size table of saturating counters that
//! answers "how often was this item seen?" without ever answering too low.

pub mod dimension;
pub mod hashing;
pub mod index;
pub mod laws;
pub mod model;
pub mod sketch;

pub use sketch::CountMinSketch;
