//! [IndexCollectionPartial]
use vstd::prelude::*;

verus! {

/// A collection addressed by `TIndex` where each slot may be empty.
pub trait IndexCollectionPartial<TValue> {
    /// The index type.
    type TIndex;

    /// What the slot at an index holds.
    spec fn slot(&self, index: Self::TIndex) -> Option<TValue>;

    /// Whether `add` may be called with this index.
    spec fn add_allowed(&self, index: Self::TIndex) -> bool;

    /// Whether `remove` may be called with this index.
    spec fn remove_allowed(&self, index: Self::TIndex) -> bool;

    /// Puts a value at an index.
    fn add(&mut self, index: Self::TIndex, value: TValue)
        requires
            old(self).add_allowed(index),
        ensures
            final(self).slot(index) == Some(value),
            forall|i: Self::TIndex| i != index ==> #[trigger] final(self).slot(i) == old(self).slot(i),
    ;

    /// Empties the slot at an index.
    fn remove(&mut self, index: Self::TIndex)
        requires
            old(self).remove_allowed(index),
        ensures
            final(self).slot(index) is None,
            forall|i: Self::TIndex| i != index ==> #[trigger] final(self).slot(i) == old(self).slot(i),
    ;
}

} // verus!
