//! Removal of constant offsets.

pub mod dc_blocker;
pub mod dc_offset;
pub mod removal;
