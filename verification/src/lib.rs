//! A Markov-chain text generator: it learns which groups of words follow
//! which in a corpus, and walks what it learnt at random to make new text.

pub mod chain;
pub mod graph;
pub mod state;
pub mod text;
pub mod trainers;
pub mod wording;

pub use chain::{ChainError, ChainParameters, LearningParameters, MarkovChainGenerator, Trainer};
pub use state::{State, Transition};
pub use wording::Wording;
