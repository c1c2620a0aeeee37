//! Stepping iterators: each call hands out the current items, then steps them one
//! dimension at a time until a step asks to stop (like a carry that stops propagating).
use std::ops::ControlFlow;
use vstd::prelude::*;

verus! {

/// One step of a [SteppingIterator]: moves `item` (the coordinate of dimension `dim`,
/// bounded by `data`) and says whether the next dimension has to move too
/// (`Continue`) or the stepping is done (`Break`).
pub trait SteppingIteratorFunction<Item, Data> {
    fn step(&mut self, item: &mut Item, data: &Data, dim: usize) -> ControlFlow<(), ()>;
}

/// The index of the first step that broke, walking dimensions `0..N`; `N` when none did.
pub open spec fn stepped_up_to<Item>(before: Seq<Item>, after: Seq<Item>, k: int) -> bool {
    forall|j: int| k < j < before.len() ==> after[j] == before[j]
}

/// The same walking dimensions `N-1` down to `0`.
pub open spec fn stepped_down_to<Item>(before: Seq<Item>, after: Seq<Item>, k: int) -> bool {
    forall|j: int| 0 <= j < k ==> after[j] == before[j]
}

/// Walks the items from the first dimension to the last.
pub struct SteppingIterator<const N: usize, Item, Data, StepFn> {
    items: [Item; N],
    datas: [Data; N],
    step_fn: StepFn,
    ended: bool,
}

impl<const N: usize, Item: Copy, Data, StepFn: SteppingIteratorFunction<Item, Data>> SteppingIterator<
    N,
    Item,
    Data,
    StepFn,
> {
    /// The items the next call hands out.
    pub closed spec fn items_view(&self) -> Seq<Item> {
        self.items@
    }

    /// The bounds handed to each step.
    pub closed spec fn datas_view(&self) -> Seq<Data> {
        self.datas@
    }

    /// The step function.
    pub closed spec fn step_fn_view(&self) -> StepFn {
        self.step_fn
    }

    /// True once every dimension stepped on (the last carry ran off the end).
    pub closed spec fn is_ended(&self) -> bool {
        self.ended
    }

    pub fn new(items: [Item; N], datas: [Data; N], f_next: StepFn) -> (res: Self)
        ensures
            res.items_view() == items@,
            res.datas_view() == datas@,
            res.step_fn_view() == f_next,
            !res.is_ended(),
    {
        Self { items, datas, step_fn: f_next, ended: false }
    }

    /// Hands out the current items, then steps dimension `0`, `1`, ... until one step
    /// breaks; when none breaks, the iteration is over after this item.
    pub fn next(&mut self) -> (res: Option<[Item; N]>)
        ensures
            old(self).is_ended() ==> res is None && *final(self) == *old(self),
            !old(self).is_ended() ==> {
                &&& res matches Some(r) && r@ == old(self).items_view()
                &&& final(self).datas_view() == old(self).datas_view()
                &&& final(self).items_view().len() == N
                &&& exists|k: int|
                    0 <= k <= N && stepped_up_to(old(self).items_view(), final(self).items_view(), k)
                        && (final(self).is_ended() <==> k == N)
            },
    {
        if self.ended {
            return None;
        }
        let ret = self.items;
        let mut k: usize = 0;
        let mut completed = true;
        while k < N
            invariant_except_break
                completed,
                0 <= k <= N,
                self.datas@ == old(self).datas@,
                self.ended == old(self).ended,
                self.items@.len() == N,
                forall|j: int| k <= j < N ==> self.items@[j] == old(self).items@[j],
            ensures
                self.datas@ == old(self).datas@,
                self.ended == old(self).ended,
                self.items@.len() == N,
                completed ==> k == N,
                !completed ==> k < N,
                forall|j: int| k < j < N ==> self.items@[j] == old(self).items@[j],
            decreases N - k,
        {
            let mut it = self.items[k];
            let r = self.step_fn.step(&mut it, &self.datas[k], k);
            self.items.set(k, it);
            match r {
                ControlFlow::Continue(()) => {},
                ControlFlow::Break(()) => {
                    completed = false;
                    break ;
                },
            }
            k = k + 1;
        }
        if completed {
            self.ended = true;
        }
        proof {
            let kk: int = if completed { N as int } else { k as int };
            assert(stepped_up_to(old(self).items_view(), self.items_view(), kk));
            assert(self.is_ended() <==> kk == N);
        }
        Some(ret)
    }
}

/// Walks the items from the last dimension to the first.
pub struct SteppingIteratorRev<const N: usize, Item, Data, StepFn> {
    items: [Item; N],
    datas: [Data; N],
    step_fn: StepFn,
    ended: bool,
}

impl<const N: usize, Item: Copy, Data, StepFn: SteppingIteratorFunction<Item, Data>> SteppingIteratorRev<
    N,
    Item,
    Data,
    StepFn,
> {
    /// The items the next call hands out.
    pub closed spec fn items_view(&self) -> Seq<Item> {
        self.items@
    }

    /// The bounds handed to each step.
    pub closed spec fn datas_view(&self) -> Seq<Data> {
        self.datas@
    }

    /// The step function.
    pub closed spec fn step_fn_view(&self) -> StepFn {
        self.step_fn
    }

    /// True once every dimension stepped on.
    pub closed spec fn is_ended(&self) -> bool {
        self.ended
    }

    pub fn new(items: [Item; N], datas: [Data; N], f_next: StepFn) -> (res: Self)
        ensures
            res.items_view() == items@,
            res.datas_view() == datas@,
            res.step_fn_view() == f_next,
            !res.is_ended(),
    {
        Self { items, datas, step_fn: f_next, ended: false }
    }

    /// Hands out the current items, then steps dimension `N-1`, `N-2`, ... until one
    /// step breaks; when none breaks, the iteration is over after this item.
    pub fn next(&mut self) -> (res: Option<[Item; N]>)
        ensures
            old(self).is_ended() ==> res is None && *final(self) == *old(self),
            !old(self).is_ended() ==> {
                &&& res matches Some(r) && r@ == old(self).items_view()
                &&& final(self).datas_view() == old(self).datas_view()
                &&& final(self).items_view().len() == N
                &&& exists|k: int|
                    -1 <= k < N && stepped_down_to(old(self).items_view(), final(self).items_view(), k)
                        && (final(self).is_ended() <==> k == -1)
            },
    {
        if self.ended {
            return None;
        }
        let ret = self.items;
        let mut k: usize = N;
        let mut completed = true;
        while k > 0
            invariant_except_break
                completed,
                0 <= k <= N,
                self.datas@ == old(self).datas@,
                self.ended == old(self).ended,
                self.items@.len() == N,
                forall|j: int| 0 <= j < k ==> self.items@[j] == old(self).items@[j],
            ensures
                self.datas@ == old(self).datas@,
                self.ended == old(self).ended,
                self.items@.len() == N,
                completed ==> k == 0,
                !completed ==> k < N,
                forall|j: int| 0 <= j < k ==> self.items@[j] == old(self).items@[j],
            decreases k,
        {
            let d = k - 1;
            let mut it = self.items[d];
            let r = self.step_fn.step(&mut it, &self.datas[d], d);
            self.items.set(d, it);
            match r {
                ControlFlow::Continue(()) => {},
                ControlFlow::Break(()) => {
                    completed = false;
                    k = d;
                    break ;
                },
            }
            k = d;
        }
        if completed {
            self.ended = true;
        }
        proof {
            let kk: int = if completed { -1 } else { k as int };
            assert(stepped_down_to(old(self).items_view(), self.items_view(), kk));
            assert(self.is_ended() <==> kk == -1);
        }
        Some(ret)
    }
}

} // verus!
