//! Bracket-notation syntax trees: `[S [NP Ash] [VP caught]]`.
//!
//! - [`tree`]: tokens, nodes and trees, their values, and the pre-order walk.
//! - [`scan`]: the lexical primitives, read with `nom`.
//! - [`grammar`]: the notation as a function on sequences of characters.
//! - [`parser`]: the parser, which computes that function on string slices.
//! - [`layout`]: the two passes that give every node its place, and what
//!   holds of every layout.
//! - [`format`]: the text of a tree, whole or cut into segments.
//! - [`round_trip`]: parsing loses nothing.
//! - [`well_formed`]: which trees the grammar gives, and which texts it
//!   takes.

pub mod format;
pub mod grammar;
pub mod layout;
pub mod parser;
pub mod round_trip;
pub mod scan;
pub mod tree;
pub mod well_formed;
