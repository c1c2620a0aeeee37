//! [FIdUIdList]: a pair of lists that translate between two kinds of ids.
use vstd::prelude::*;

verus! {

/// Translates ids of one kind (`fid`) to ids of the other (`uid`) and back; an untranslated
/// `fid` maps to `usize::MAX`.
pub struct FIdUIdList {
    fid_to_uid_list: Vec<usize>,
    uid_to_fid_list: Vec<usize>,
}

impl FIdUIdList {
    /// The `uid` of each `fid`.
    pub closed spec fn fid_to_uid_view(&self) -> Seq<usize> {
        self.fid_to_uid_list@
    }

    /// The `fid` of each `uid`.
    pub closed spec fn uid_to_fid_view(&self) -> Seq<usize> {
        self.uid_to_fid_list@
    }

    /// Two empty lists.
    pub fn new() -> (res: Self)
        ensures
            res.fid_to_uid_view() == Seq::<usize>::empty(),
            res.uid_to_fid_view() == Seq::<usize>::empty(),
    {
        FIdUIdList { fid_to_uid_list: Vec::new(), uid_to_fid_list: Vec::new() }
    }

    /// Gives the next `uid` (the length of the `uid` list); pads the `fid` list with
    /// `usize::MAX` up to position `fid` and then appends the `uid`.
    pub fn add(&mut self, fid: usize) -> (res: usize)
        requires
            fid < usize::MAX,
        ensures
            res == old(self).uid_to_fid_view().len(),
            final(self).uid_to_fid_view() == old(self).uid_to_fid_view(),
            final(self).fid_to_uid_view() == old(self).fid_to_uid_view() + Seq::new(
                if fid > old(self).fid_to_uid_view().len() {
                    (fid - old(self).fid_to_uid_view().len()) as nat
                } else {
                    0nat
                },
                |i: int| usize::MAX,
            ) + seq![res],
    {
        let uid = self.uid_to_fid_list.len();
        let ghost start = self.fid_to_uid_list@;
        let mut i = self.fid_to_uid_list.len();
        while i < fid
            invariant
                start == old(self).fid_to_uid_view(),
                start.len() <= i <= fid || (fid <= start.len() && i == start.len()),
                self.fid_to_uid_list@ == start + Seq::new((i - start.len()) as nat, |k: int| usize::MAX),
                self.uid_to_fid_list@ == old(self).uid_to_fid_view(),
            decreases fid - i,
        {
            self.fid_to_uid_list.push(usize::MAX);
            proof {
                assert(start + Seq::new((i + 1 - start.len()) as nat, |k: int| usize::MAX) =~= start
                    + Seq::new((i - start.len()) as nat, |k: int| usize::MAX) + seq![usize::MAX]);
            }
            i = i + 1;
        }
        self.fid_to_uid_list.push(uid);
        proof {
            let pad = if fid > start.len() {
                (fid - start.len()) as nat
            } else {
                0nat
            };
            assert(Seq::new((i - start.len()) as nat, |k: int| usize::MAX) =~= Seq::new(
                pad,
                |k: int| usize::MAX,
            ));
        }
        uid
    }

    /// Marks `fid` as untranslated and moves the last `uid` entry into position `uid`.
    pub fn remove(&mut self, fid: usize, uid: usize)
        requires
            fid < old(self).fid_to_uid_view().len(),
            uid < old(self).uid_to_fid_view().len(),
        ensures
            final(self).fid_to_uid_view() == old(self).fid_to_uid_view().update(
                fid as int,
                usize::MAX,
            ),
            final(self).uid_to_fid_view() == old(self).uid_to_fid_view().update(
                uid as int,
                old(self).uid_to_fid_view().last(),
            ).drop_last(),
    {
        self.fid_to_uid_list.set(fid, usize::MAX);
        self.uid_to_fid_list.swap_remove(uid);
    }

    /// Removes the pair of `fid`.
    pub fn remove_by_fid(&mut self, fid: usize)
        requires
            fid < old(self).fid_to_uid_view().len(),
            old(self).fid_to_uid_view()[fid as int] < old(self).uid_to_fid_view().len(),
        ensures
            final(self).fid_to_uid_view() == old(self).fid_to_uid_view().update(
                fid as int,
                usize::MAX,
            ),
            final(self).uid_to_fid_view() == old(self).uid_to_fid_view().update(
                old(self).fid_to_uid_view()[fid as int] as int,
                old(self).uid_to_fid_view().last(),
            ).drop_last(),
    {
        let uid = self.fid_to_uid_list[fid];
        self.remove(fid, uid);
    }

    /// Removes the pair of `uid`.
    pub fn remove_by_uid(&mut self, uid: usize)
        requires
            uid < old(self).uid_to_fid_view().len(),
            old(self).uid_to_fid_view()[uid as int] < old(self).fid_to_uid_view().len(),
        ensures
            final(self).fid_to_uid_view() == old(self).fid_to_uid_view().update(
                old(self).uid_to_fid_view()[uid as int] as int,
                usize::MAX,
            ),
            final(self).uid_to_fid_view() == old(self).uid_to_fid_view().update(
                uid as int,
                old(self).uid_to_fid_view().last(),
            ).drop_last(),
    {
        let fid = self.uid_to_fid_list[uid];
        self.remove(fid, uid);
    }

    /// The `uid` of `fid`.
    pub fn fid_to_uid(&self, fid: usize) -> (res: usize)
        requires
            fid < self.fid_to_uid_view().len(),
        ensures
            res == self.fid_to_uid_view()[fid as int],
    {
        self.fid_to_uid_list[fid]
    }

    /// The `fid` of `uid`.
    pub fn uid_to_fid(&self, uid: usize) -> (res: usize)
        requires
            uid < self.uid_to_fid_view().len(),
        ensures
            res == self.uid_to_fid_view()[uid as int],
    {
        self.uid_to_fid_list[uid]
    }
}

} // verus!
