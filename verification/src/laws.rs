//! What the library promises, stated on inputs and results.
//!
//! The contracts of the library's functions speak of states and relations
//! that are built up step by step. The laws here say what these come to: in
//! terms of indices, bytes, characters and of what the handed-in functions
//! returned.

pub mod accumulation;
pub mod framing;
pub mod messages;
pub mod reporting;
pub mod resampling;
pub mod showing;
pub mod skimming;
pub mod storing;
