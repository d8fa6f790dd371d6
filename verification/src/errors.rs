//! The failure taxonomy of the model store.

use vstd::prelude::*;

verus! {

/// Why an operation on the store or on a chain failed.
///
/// `EmptyModel`: generation was requested from a chain that has no training
/// data. `NotTracked`: the entity is not in the store. `IoError`: persisted
/// bytes could not be understood.
#[derive(Clone, Copy, Debug, PartialEq, Eq, Structural)]
pub enum ModelError {
    EmptyModel,
    NotTracked,
    IoError,
}

} // verus!
