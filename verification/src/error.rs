//! The ways in which setting up a puzzle can fail.

use vstd::prelude::*;

verus! {

/// Why a puzzle could not be set up.
#[derive(Clone, Copy, Debug, PartialEq, Eq, Structural)]
pub enum ErrorKind {
    /// A side of the box was not given as exactly three letters.
    InvalidGroupLength,
}

} // verus!
