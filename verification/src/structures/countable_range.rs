//! Countable ranges: finite ranges whose positions are numbered `0..len`, and cursors into them
//! that step forward and back with wrap-around.
use vstd::prelude::*;

verus! {

/// The position after `i` among `0..len`, wrapping from the last to the first.
pub open spec fn step_forward(i: int, len: int) -> int {
    if i + 1 == len {
        0
    } else {
        i + 1
    }
}

/// The position before `i` among `0..len`, wrapping from the first to the last.
pub open spec fn step_back(i: int, len: int) -> int {
    if i == 0 {
        len - 1
    } else {
        i - 1
    }
}

/// A step forward and a step back, in either order, return to the start.
pub proof fn lemma_steps_inverse(i: int, len: int)
    requires
        0 <= i < len,
    ensures
        step_back(step_forward(i, len), len) == i,
        step_forward(step_back(i, len), len) == i,
        0 <= step_forward(i, len) < len,
        0 <= step_back(i, len) < len,
{
}

/// Moving `n` steps and then `m` steps lands where moving `n + m` steps does, and the turns add
/// up.
pub proof fn lemma_moves_compose(i: int, n: int, m: int, len: int)
    requires
        0 <= i < len,
    ensures
        ((i + n) % len + m) % len == (i + n + m) % len,
        (i + n) / len + ((i + n) % len + m) / len == (i + n + m) / len,
{
    vstd::arithmetic::div_mod::lemma_fundamental_div_mod(i + n, len);
    vstd::arithmetic::div_mod::lemma_fundamental_div_mod((i + n) % len + m, len);
    let q1 = (i + n) / len;
    let r1 = (i + n) % len;
    let q2 = (r1 + m) / len;
    let r2 = (r1 + m) % len;
    assert(i + n + m == (q1 + q2) * len + r2) by (nonlinear_arith)
        requires
            i + n == len * q1 + r1,
            r1 + m == len * q2 + r2,
    ;
    vstd::arithmetic::div_mod::lemma_fundamental_div_mod_converse(i + n + m, len, q1 + q2, r2);
}

/// A cursor at one position of a countable range.
pub trait CountableRangeItem: Sized {
    /// The number of positions of the range.
    spec fn len_view(&self) -> int;

    /// The position of the cursor.
    spec fn index_view(&self) -> int;

    /// The range is not empty, its length fits in `usize`, and the cursor is inside it.
    spec fn item_wf(&self) -> bool;

    /// A well formed cursor is inside a range of at least one position.
    proof fn lemma_item_wf(&self)
        requires
            self.item_wf(),
        ensures
            0 <= self.index_view() < self.len_view() <= usize::MAX,
    ;

    /// The position of the cursor.
    fn index(&self) -> (res: usize)
        requires
            self.item_wf(),
        ensures
            res == self.index_view(),
    ;

    /// The number of positions of the range.
    fn range_len(&self) -> (res: usize)
        requires
            self.item_wf(),
        ensures
            res == self.len_view(),
    ;

    /// Steps forward; from the last position it wraps to the first. Returns `false` when it
    /// wrapped, `true` when it stayed inside the range.
    fn next_assign(&mut self) -> (stayed: bool)
        requires
            old(self).item_wf(),
        ensures
            final(self).item_wf(),
            final(self).len_view() == old(self).len_view(),
            stayed == (old(self).index_view() + 1 != old(self).len_view()),
            final(self).index_view() == step_forward(old(self).index_view(), old(self).len_view()),
    ;

    /// Steps back; from the first position it wraps to the last. Returns `false` when it
    /// wrapped, `true` when it stayed inside the range.
    fn prev_assign(&mut self) -> (stayed: bool)
        requires
            old(self).item_wf(),
        ensures
            final(self).item_wf(),
            final(self).len_view() == old(self).len_view(),
            stayed == (old(self).index_view() != 0),
            final(self).index_view() == step_back(old(self).index_view(), old(self).len_view()),
    ;

    /// Moves to the first position.
    fn first_assign(&mut self)
        requires
            old(self).item_wf(),
        ensures
            final(self).item_wf(),
            final(self).len_view() == old(self).len_view(),
            final(self).index_view() == 0,
    ;

    /// Moves to the last position.
    fn last_assign(&mut self)
        requires
            old(self).item_wf(),
        ensures
            final(self).item_wf(),
            final(self).len_view() == old(self).len_view(),
            final(self).index_view() == old(self).len_view() - 1,
    ;
}

/// A cursor that moves any number of steps at once.
pub trait CountableRangeItemN: CountableRangeItem {
    /// Moves `n` steps, wrapping around; returns how many times it went round, negative when going
    /// back: the position becomes `(index + n) mod len` and the result is `(index + n) div len`.
    fn move_n_assign(&mut self, n: isize) -> (res: isize)
        requires
            old(self).item_wf(),
        ensures
            final(self).item_wf(),
            final(self).len_view() == old(self).len_view(),
            final(self).index_view() == (old(self).index_view() + n) % old(self).len_view(),
            res == (old(self).index_view() + n) / old(self).len_view(),
    ;
}

/// A countable range that hands out cursors into itself.
pub trait CountableRangeForRef: Sized {
    type Item: CountableRangeItem;

    /// The number of positions.
    spec fn range_len_view(&self) -> int;

    /// The range is not empty and its length fits in `usize`.
    spec fn range_wf(&self) -> bool;

    /// A well formed range has at least one position.
    proof fn lemma_range_wf(&self)
        requires
            self.range_wf(),
        ensures
            1 <= self.range_len_view() <= usize::MAX,
    ;

    /// A cursor at the first position.
    fn item_first(self) -> (res: Self::Item)
        requires
            self.range_wf(),
        ensures
            res.item_wf(),
            res.len_view() == self.range_len_view(),
            res.index_view() == 0,
    ;

    /// A cursor at the last position.
    fn item_last(self) -> (res: Self::Item)
        requires
            self.range_wf(),
        ensures
            res.item_wf(),
            res.len_view() == self.range_len_view(),
            res.index_view() == self.range_len_view() - 1,
    ;

    /// A cursor at position `index`, which the range has when `index` is below its length; past
    /// it, a range may answer `None` or the position `index mod len`.
    fn item_from_index(self, index: usize) -> (res: Option<Self::Item>)
        requires
            self.range_wf(),
        ensures
            index < self.range_len_view() ==> res is Some,
            res matches Some(item) ==> {
                &&& item.item_wf()
                &&& item.len_view() == self.range_len_view()
                &&& item.index_view() == (index as int) % self.range_len_view()
            },
    ;

    /// The number of positions.
    fn index_len(&self) -> (res: usize)
        requires
            self.range_wf(),
        ensures
            res == self.range_len_view(),
    ;
}

} // verus!
