//! [IndexCollection]
use vstd::prelude::*;

verus! {

/// A collection addressed by `TIndex`.
pub trait IndexCollection<TValue> {
    /// The index type.
    type TIndex;

    /// The values held, by index.
    spec fn index_map(&self) -> Map<Self::TIndex, TValue>;

    /// Puts a value at an index.
    fn add(&mut self, index: Self::TIndex, value: TValue)
        ensures
            final(self).index_map() == old(self).index_map().insert(index, value),
    ;

    /// Removes the value at an index.
    fn remove(&mut self, index: Self::TIndex)
        ensures
            final(self).index_map() == old(self).index_map().remove(index),
    ;

    /// The value at an index that holds one.
    fn index_value(&self, index: Self::TIndex) -> (res: TValue)
        ensures
            self.index_map().contains_key(index) ==> res == self.index_map()[index],
    ;
}

} // verus!
