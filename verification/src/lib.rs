//! Intra-block edit inference for diff highlighting.
//!
//! Given the deleted ("minus") and added ("plus") lines of one diff block,
//! the library decides which minus line is an edited version of which plus
//! line and, for every such pair, splits both lines into labelled sections
//! so that only the parts that changed need to be highlighted.

pub mod align;
pub mod annotations;
pub mod distance;
pub mod edits;
pub mod pairing;
pub mod sections;
pub mod text;
pub mod tokens;
