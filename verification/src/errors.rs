//! Typed failures of the catalogue operations and of the persistence codec.

use vstd::prelude::*;

verus! {

/// The error kinds a catalogue operation or the codec can return.
///
/// `ValidationError`: an invalid field (an empty reader name, an identifier
/// already in use). `NotFound`: the item or reader id is absent.
/// `ReaderNotFound`: the name match failed during a borrow. `StorageError`:
/// the persisted document cannot be decoded.
#[derive(Clone, Copy, Debug, PartialEq, Eq, Structural)]
pub enum DepoError {
    ValidationError,
    NotFound,
    ReaderNotFound,
    StorageError,
}

} // verus!
