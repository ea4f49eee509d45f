//! Rook occupancy masks and ray-cast attacks.

pub mod blockers;
pub mod rook_attacks;
