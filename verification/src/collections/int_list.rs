//! [IntList]: a list addressed by `usize` where each slot may be empty.
use vstd::prelude::*;
use crate::structures::idtrait::index_collection_parial::IndexCollectionPartial;

verus! {

/// Slots addressed by `usize`; a slot holds a value or nothing.
pub struct IntList<T> {
    list: Vec<Option<T>>,
}

impl<T> View for IntList<T> {
    type V = Seq<Option<T>>;

    closed spec fn view(&self) -> Seq<Option<T>> {
        self.list@
    }
}

impl<T> IntList<T> {
    /// An empty list.
    pub fn new() -> (res: Self)
        ensures
            res@ == Seq::<Option<T>>::empty(),
    {
        IntList::<T> { list: Vec::new() }
    }

    /// The slot at `index`.
    pub fn index(&self, index: usize) -> (res: &Option<T>)
        requires
            index < self@.len(),
        ensures
            *res == self@[index as int],
    {
        &self.list[index]
    }

    /// The slot at `index`, mutably.
    pub fn index_mut(&mut self, index: usize) -> (res: &mut Option<T>)
        requires
            index < old(self)@.len(),
        ensures
            *res == old(self)@[index as int],
            final(self)@ == old(self)@.update(index as int, *final(res)),
    {
        &mut self.list[index]
    }

    /// Puts `value` at `index`, first growing the list with empty slots up to it.
    pub fn add(&mut self, index: usize, value: T)
        requires
            index < usize::MAX,
        ensures
            final(self)@.len() == if index < old(self)@.len() {
                old(self)@.len()
            } else {
                (index + 1) as nat
            },
            final(self)@[index as int] == Some(value),
            forall|i: int|
                0 <= i < final(self)@.len() && i != index ==> #[trigger] final(self)@[i] == if i
                    < old(self)@.len() {
                    old(self)@[i]
                } else {
                    None
                },
    {
        while self.list.len() <= index
            invariant
                index < usize::MAX,
                old(self)@.len() <= self.list@.len(),
                self.list@.len() <= old(self)@.len() || self.list@.len() <= index + 1,
                forall|i: int|
                    0 <= i < self.list@.len() ==> #[trigger] self.list@[i] == if i < old(
                        self,
                    )@.len() {
                        old(self)@[i]
                    } else {
                        None
                    },
            decreases index + 1 - self.list@.len(),
        {
            self.list.push(Option::None);
        }
        self.list.set(index, Option::Some(value));
    }

    /// Empties the slot at `index` where it exists; past the end nothing happens.
    pub fn remove(&mut self, index: usize)
        requires
            index != old(self)@.len(),
        ensures
            index < old(self)@.len() ==> final(self)@ == old(self)@.update(index as int, None),
            index > old(self)@.len() ==> final(self)@ == old(self)@,
    {
        if self.list.len() >= index {
            self.list.set(index, Option::None);
        }
    }
}

impl<T> IndexCollectionPartial<T> for IntList<T> {
    type TIndex = usize;

    open spec fn slot(&self, index: usize) -> Option<T> {
        if index < self@.len() {
            self@[index as int]
        } else {
            None
        }
    }

    open spec fn add_allowed(&self, index: usize) -> bool {
        index < usize::MAX
    }

    open spec fn remove_allowed(&self, index: usize) -> bool {
        index != self@.len()
    }

    fn add(&mut self, index: usize, value: T)
        ensures
            final(self)@.len() == if index < old(self)@.len() {
                old(self)@.len()
            } else {
                (index + 1) as nat
            },
            final(self)@[index as int] == Some(value),
            forall|i: int|
                0 <= i < final(self)@.len() && i != index ==> #[trigger] final(self)@[i] == if i
                    < old(self)@.len() {
                    old(self)@[i]
                } else {
                    None
                },
    {
        IntList::add(self, index, value)
    }

    fn remove(&mut self, index: usize)
        ensures
            index < old(self)@.len() ==> final(self)@ == old(self)@.update(index as int, None),
            index > old(self)@.len() ==> final(self)@ == old(self)@,
    {
        IntList::remove(self, index)
    }
}

} // verus!
