//! Roll-length calculator: a closed set of length units, exact quantities,
//! a quantity parser, and a roll model with a winding-length algorithm.
//!
//! Magnitudes are exact rational numbers (`Frac`), so unit conversion and the
//! winding-length computation carry no rounding at all; every operation's
//! result is pinned by its contract.

pub mod frac;
pub mod parse;
pub mod render;
pub mod roll;
pub mod units;
