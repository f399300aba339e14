//! Scoring of guesses in a five-letter word game, and replay analysis of
//! recorded games against a pair of word lists.

pub mod analysis;
pub mod chains;
pub mod corpus;
pub mod feedback;
pub mod filter;
pub mod order;
pub mod report;
pub mod score;
pub mod text;
pub mod transcript;
pub mod word;

pub use analysis::{analyse, analyse_round, ChainTargets, RowAnalysis};
pub use corpus::Corpus;
pub use feedback::{GuessStatus, LetterGuess};
pub use filter::filter_from_guess;
pub use report::{summarise, RoundSummary};
pub use score::WordGuess;
pub use transcript::Header;
pub use word::{Word, WordError};
