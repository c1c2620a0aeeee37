//! [IndexCollection2]
use vstd::prelude::*;
use crate::structures::idtrait::id_of::IdOf;
use crate::structures::idtrait::index_collection::IndexCollection;

verus! {

/// An [IndexCollection] addressed through typed ids.
pub trait IndexCollection2<TValue>: IndexCollection<TValue> {
    /// The typed id.
    type TIdOf: IdOf<TValue>;
}

} // verus!
