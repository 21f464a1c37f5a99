//! Save the process environment to a binary artifact and later compute the
//! minimal set of shell mutations (unset / assign) that restores it.

use vstd::prelude::*;

pub mod bytes;
pub mod cli;
pub mod codec;
pub mod laws;
pub mod reconcile;
pub mod render;
pub mod snapshot;

verus! {

/// The ways a save or restore operation can fail.
#[derive(Clone, Copy, Debug, PartialEq, Eq, Structural)]
pub enum SerenvError {
    /// The artifact could not be opened, created, read or written.
    IoError,
    /// The artifact's bytes do not parse as a snapshot.
    DecodingError,
    /// No artifact exists where one was expected.
    NotFound,
}

} // verus!
