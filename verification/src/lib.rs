//! A solver for the "Letter Boxed" word puzzle.
//!
//! Twelve letters sit on the four sides of a box, three to a side. A word may
//! be spelled by hopping from letter to letter as long as no two consecutive
//! letters lie on the same side. The puzzle asks for a short chain of words,
//! each starting with the letter the previous one ended on, that together use
//! every letter of the box.
//!
//! The crate validates words against a box, builds the dictionary of usable
//! words together with an index by first letter, and runs a depth-bounded
//! best-first search for the shortest chains. Every function is verified
//! against a mathematical model of sequences of letters.

pub mod chain;
pub mod dictionary;
pub mod error;
pub mod index;
pub mod letter_box;
pub mod queue;
pub mod search;
pub mod solver;
pub mod state;
pub mod text;
pub mod words;

pub use crate::error::ErrorKind;
pub use crate::letter_box::{LetterBox, LetterGroup};
pub use crate::queue::BucketQueue;
pub use crate::solver::LetterBoxedSolver;
pub use crate::state::State;
pub use crate::words::Verdict;
