//! An interactive-narrative engine over a directed graph of story links.
//!
//! A story is a set of `Link`s; each link offers `Choice`s, and each choice
//! resolves through a weighted-random draw over its `LinkProbabilityPair`
//! options to the id of the next link. A link without choices is terminal.

pub mod engine;
pub mod json;
pub mod select;
pub mod story;
pub mod validate;
