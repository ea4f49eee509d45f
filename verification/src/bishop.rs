//! Bishop occupancy masks and ray-cast attacks.

pub mod bishop_attacks;
pub mod blockers;
