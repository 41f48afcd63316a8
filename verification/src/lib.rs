//! Reduces a sequence of items to the smallest or the largest subset that
//! still satisfies a pass/fail oracle, by halving.
//!
//! `indices` holds the sets of positions and their operations, `delta` the
//! halving search that both directions share, `range` the state machine of a
//! search, `minimal` and `maximal` the two directions, `searcher` the driver
//! that asks the oracle, and `run` what holds of every search as a whole.
pub mod delta;
pub mod indices;
pub mod maximal;
pub mod minimal;
pub mod range;
pub mod run;
pub mod searcher;
