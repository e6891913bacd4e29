//! Code generation and geometry layout for circular photogrammetry targets.
//!
//! A target encodes a short binary word as a ring of filled and unfilled
//! angular segments. This crate enumerates the valid, rotation-canonical
//! codes (even parity, at least one diametrically opposite pair of filled
//! segments, optionally a fixed number of rising bit transitions) and turns
//! a chosen code into the ordered list of filled segment indices that a
//! renderer draws as arcs.

pub mod generator;
pub mod layout;
pub mod parity;
pub mod rotation;

pub use generator::generate_codes;
pub use layout::filled_segments;
pub use parity::calc_parity;
pub use parity::count_bit_transitions;
pub use rotation::bitwise_rotate_left;
pub use rotation::find_smallest_rotation;
