//! Word-level Markov chains: build a model from text, store it as JSON, generate text from it.

use vstd::prelude::*;
use vstd::string::StringExecFns;

pub mod text;
pub mod model;
pub mod chain;
pub mod generate;

pub use chain::{build_chain, generate_markov_chain};
pub use generate::{generate_text, generate_words, get_text_starter, is_capital, is_preferred, start_candidates};
pub use model::Model;
pub use text::{join_range, tokenize};

verus! {

/// Errors reported by the chain builder and the text generator.
#[derive(Debug, Clone, Copy, PartialEq, Eq, Structural)]
pub enum MarkovError {
    /// A state size or a word count of zero.
    InvalidConfiguration,
    /// Fewer tokens than the state size plus one.
    InsufficientData,
    /// A model with no state to start from.
    EmptyModel,
    /// Text that is not a JSON object of string lists.
    DeserializationError,
    /// A file that could not be read or written.
    IoError,
}

impl MarkovError {
    /// A sentence that describes the error.
    pub fn message(&self) -> String {
        match self {
            MarkovError::InvalidConfiguration => String::from_str(
                "invalid configuration: state size and word count must be greater than 0",
            ),
            MarkovError::InsufficientData => String::from_str(
                "insufficient data: the input needs more words than the state size",
            ),
            MarkovError::EmptyModel => String::from_str("the model is empty, cannot generate text"),
            MarkovError::DeserializationError => String::from_str("the model could not be parsed"),
            MarkovError::IoError => String::from_str("a file could not be read or written"),
        }
    }
}

} // verus!
