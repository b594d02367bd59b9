//! The host contract: blocks, contexts, parameters, and traits.

pub mod block;
pub mod context;
pub mod error;
pub mod param;
pub mod source;
pub mod spec;
pub mod traits;
