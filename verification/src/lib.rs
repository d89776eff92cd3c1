//! Shannon entropy of byte windows and hysteresis edge detection over a
//! series of per-block entropy readings.
//!
//! The crate holds the exact, integer part of both: [`histogram`] and
//! [`frequencies`] count the bytes of a window, which is all that its entropy
//! depends on, and [`detect_edges`] turns a series of readings, each placed
//! relative to a high and a low threshold, into rising and falling edges.
//! Arithmetic on entropy values themselves is left to the caller, who picks
//! the numeric type; such values pass through the detector untouched.

pub mod detector;
pub mod edge;
pub mod histogram;

pub use detector::{detect_edges, Detector};
pub use edge::{EdgeType, EntropyEdge, Placement, Sample};
pub use histogram::{frequencies, histogram};
