//! A fuzzy phrase index: exact, prefix, fuzzy and windowed lookup of known
//! phrases, with per-word and whole-phrase edit distance bounds.
use vstd::prelude::*;

pub mod api;
pub mod builder;
pub mod codec;
pub mod ids;
pub mod laws;
pub mod multi;
pub mod query;
pub mod results;
pub mod script;
pub mod set;
pub mod text;
pub mod walk;
pub mod windows;

pub use builder::FuzzyPhraseSetBuilder;
pub use query::QueryWord;
pub use results::{FuzzyMatchResult, FuzzyWindowResult};
pub use set::{FuzzyPhraseSet, FuzzyPhraseSetError};

verus! {

} // verus!
