//! Conversion of a value-change trace into a textual stimulus block.
//!
//! The crate resolves user-selected hierarchical signal paths against a
//! declared variable hierarchy and turns a stream of timestamped scalar
//! changes into delay-annotated assignment statements.

pub mod generator;
pub mod model;
pub mod resolver;
pub mod selection;
pub mod signal_map;
pub mod text;
pub mod time_range;
