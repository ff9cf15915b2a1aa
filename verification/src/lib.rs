//! A candidate-word narrowing and ranking engine for a Wordle-style guessing
//! game. The library keeps a pool of words, filters it through per-letter
//! feedback constraints, and proposes the next guess by a positional
//! letter-frequency heuristic.

pub mod board;
pub mod errors;
pub mod letter;
pub mod letter_probability;
pub mod letter_state;
pub mod solver;
pub mod square_state;
pub mod statistics;
pub mod text;
pub mod word;

pub use board::Board;
pub use board::MAX_ATTEMPTS;
pub use errors::WordleError;
pub use letter::Letter;
pub use letter_probability::LetterProbability;
pub use letter_state::LetterState;
pub use solver::SessionStatus;
pub use solver::Solver;
pub use square_state::SquareState;
pub use statistics::Statistics;
pub use word::Word;
pub use word::MAX_LETTERS;
