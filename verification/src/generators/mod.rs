//! Output-only generators driven by parameters.

pub mod noise;
pub mod phases;
pub mod poly_blep;
pub mod sine;
pub mod tone;
