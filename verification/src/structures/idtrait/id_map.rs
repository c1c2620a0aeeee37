//! [IdMap]: two-way mapping between two kinds of ids.
use vstd::prelude::*;
use core::marker::PhantomData;
use crate::structures::idtrait::index_collection::IndexCollection;

verus! {

/// Maps ids of kind A to ids of kind B and back.
pub trait IdMap<TIdA: Copy, TIdB: Copy> {
    /// The B id of each A id known.
    spec fn a2b_map(&self) -> Map<TIdA, TIdB>;

    /// The A id of each B id known.
    spec fn b2a_map(&self) -> Map<TIdB, TIdA>;

    /// Records `idb` as the B id of `ida`.
    fn add(&mut self, ida: TIdA, idb: TIdB)
        ensures
            final(self).a2b_map() == old(self).a2b_map().insert(ida, idb),
    ;

    /// The B id of a known A id.
    fn a2b(&self, ida: TIdA) -> (res: TIdB)
        ensures
            self.a2b_map().contains_key(ida) ==> res == self.a2b_map()[ida],
    ;

    /// The A id of a known B id.
    fn b2a(&self, idb: TIdB) -> (res: TIdA)
        ensures
            self.b2a_map().contains_key(idb) ==> res == self.b2a_map()[idb],
    ;

    /// Forgets `ida` on the A side and `idb` on the B side.
    fn remove(&mut self, ida: TIdA, idb: TIdB)
        ensures
            final(self).a2b_map() == old(self).a2b_map().remove(ida),
            final(self).b2a_map() == old(self).b2a_map().remove(idb),
    ;

    /// Forgets `ida` and, where it is known, its B id.
    fn remove_by_ida(&mut self, ida: TIdA)
        ensures
            final(self).a2b_map() == old(self).a2b_map().remove(ida),
            old(self).a2b_map().contains_key(ida) ==> final(self).b2a_map() == old(
                self,
            ).b2a_map().remove(old(self).a2b_map()[ida]),
    {
        let idb = self.a2b(ida);
        self.remove(ida, idb)
    }

    /// Forgets `idb` and, where it is known, its A id.
    fn remove_by_idb(&mut self, idb: TIdB)
        ensures
            final(self).b2a_map() == old(self).b2a_map().remove(idb),
            old(self).b2a_map().contains_key(idb) ==> final(self).a2b_map() == old(
                self,
            ).a2b_map().remove(old(self).b2a_map()[idb]),
    {
        let ida = self.b2a(idb);
        self.remove(ida, idb)
    }
}

/// An [IdMap] made of one collection for each direction.
pub struct IdMapCollection<TIdA, TIdB, Ta2bC, Tb2aC> {
    a2b_collection: Ta2bC,
    b2a_collection: Tb2aC,
    phantom: PhantomData<(TIdA, TIdB)>,
}

impl<
    TIdA: Copy,
    TIdB: Copy,
    Ta2bC: IndexCollection<TIdB, TIndex = TIdA>,
    Tb2aC: IndexCollection<TIdA, TIndex = TIdB>,
> IdMapCollection<TIdA, TIdB, Ta2bC, Tb2aC> {
    /// The A-to-B collection.
    pub closed spec fn a2b_view(&self) -> Ta2bC {
        self.a2b_collection
    }

    /// The B-to-A collection.
    pub closed spec fn b2a_view(&self) -> Tb2aC {
        self.b2a_collection
    }

    /// Pairs the two collections.
    pub fn new(a2b_collection: Ta2bC, b2a_collection: Tb2aC) -> (res: Self)
        ensures
            res.a2b_view() == a2b_collection,
            res.b2a_view() == b2a_collection,
    {
        IdMapCollection { a2b_collection, b2a_collection, phantom: PhantomData }
    }
}

impl<
    TIdA: Copy,
    TIdB: Copy,
    Ta2bC: IndexCollection<TIdB, TIndex = TIdA>,
    Tb2aC: IndexCollection<TIdA, TIndex = TIdB>,
> IdMap<TIdA, TIdB> for IdMapCollection<TIdA, TIdB, Ta2bC, Tb2aC> {
    closed spec fn a2b_map(&self) -> Map<TIdA, TIdB> {
        self.a2b_collection.index_map()
    }

    closed spec fn b2a_map(&self) -> Map<TIdB, TIdA> {
        self.b2a_collection.index_map()
    }

    /// Only the A-to-B collection records the pair; the B-to-A one stays as it is.
    fn add(&mut self, ida: TIdA, idb: TIdB)
        ensures
            final(self).b2a_map() == old(self).b2a_map(),
    {
        self.a2b_collection.add(ida, idb)
    }

    fn a2b(&self, ida: TIdA) -> (res: TIdB) {
        self.a2b_collection.index_value(ida)
    }

    fn b2a(&self, idb: TIdB) -> (res: TIdA) {
        self.b2a_collection.index_value(idb)
    }

    fn remove(&mut self, ida: TIdA, idb: TIdB) {
        self.a2b_collection.remove(ida);
        self.b2a_collection.remove(idb);
    }
}

} // verus!
