//! A word breaker for scripts written without inter-word delimiters.
//!
//! The engine walks the text once, left to right, and builds a directed
//! acyclic graph of candidate token boundaries: one node per character
//! boundary, each holding the cost of the best segmentation ending there.
//! Dictionary matches are found by repeated binary search over a sorted
//! word list; whitespace and punctuation runs form a second boundary
//! source; every position always has an unknown-token fallback, so the
//! scan can never get stuck.

pub mod lexord;
pub mod dict;
pub mod acc;
pub mod edge;
pub mod punc_acc;
pub mod graph_builder;
