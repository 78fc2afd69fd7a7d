//! A template expander for brace-and-pipe prompt templates.
//!
//! A template such as `a random {prompt|word}` contains choice groups in
//! curly braces, with alternatives separated by pipes. Expansion picks one
//! alternative from every group (at random, weighted by optional `:<number>`
//! suffixes, or by a deterministic heuristic) and returns the flattened
//! string. Groups nest arbitrarily deep; malformed templates are rejected
//! with a structured error carrying an exact character offset.

pub mod expand;
pub mod frames;
pub mod laws;
pub mod select;
pub mod semantics;
mod trusted;
pub mod weights;

pub use expand::expand;
pub use expand::expand_chars;
pub use expand::GenerationOptions;
pub use expand::ParseError;
pub use select::SelectionMode;

pub use frames::Choice;
pub use frames::Frame;
pub use frames::Stack;

pub use weights::chars_to_string;
pub use weights::parse_weight;
pub use weights::ParseWeightError;
pub use weights::WeightErrorCause;
pub use weights::WEIGHT_ONE;
