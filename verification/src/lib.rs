//! The logic of a flight simulator: flight dynamics, pilot input and what is
//! drawn, without the engine that draws it.
//!
//! Numbers are held by their bit pattern and computed with exactly rounded
//! arithmetic, so that a recorded flight replays to the last bit on every
//! machine.

pub mod angle;
pub mod binary32;
pub mod binary64;
pub mod exact;
pub mod fdm;
pub mod fine;
pub mod fold;
pub mod geodetic;
pub mod hash;
pub mod input;
pub mod inverse;
pub mod near;
pub mod norm;
pub mod number;
pub mod render;
pub mod root;
pub mod rotation;
pub mod rounding;
pub mod sign;
pub mod smooth;
pub mod track;
pub mod vector;
