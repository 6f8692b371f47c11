//! Errors about the kind of a binary dictionary.

use vstd::prelude::*;

verus! {

/// The dictionary is not of the expected kind.
#[derive(Debug, Clone, Copy, PartialEq, Eq, Structural)]
pub enum HeaderError {
    /// A system dictionary was expected.
    InvalidSystemDictVersion,
    /// A user dictionary was expected.
    InvalidUserDictVersion,
}

} // verus!
