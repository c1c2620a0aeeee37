//! [RawVec]: an allocation of room for `cap` values and its growth rule.
use vstd::prelude::*;
use vstd::layout::size_of;

verus! {

/// Room for `cap` values of `T`, none of them in use; a zero-sized `T` never needs room, so its
/// capacity is `usize::MAX` from the start.
pub struct RawVec<T> {
    buf: Vec<T>,
    cap: usize,
}

/// The capacity after growing from `cap` towards `wanted`: `wanted` from nothing, otherwise at
/// least double.
pub open spec fn grown_capacity(cap: int, wanted: int) -> int {
    if cap == 0 {
        wanted
    } else if wanted >= 2 * cap {
        wanted
    } else {
        2 * cap
    }
}

/// Growing never gives less than was asked for, and from a non-zero capacity at least doubles it.
pub proof fn lemma_growth_bounds(cap: int, wanted: int)
    ensures
        grown_capacity(cap, wanted) >= wanted,
        cap > 0 ==> grown_capacity(cap, wanted) >= 2 * cap,
{
}

/// The capacity an array of `n` values of `T` may have: at most `isize::MAX` bytes.
pub open spec fn fits_allocation<T>(n: int) -> bool {
    n * size_of::<T>() <= isize::MAX
}

impl<T> RawVec<T> {
    /// The capacity.
    pub closed spec fn capacity(&self) -> usize {
        self.cap
    }

    /// No room, or unbounded room for a zero-sized `T`.
    pub fn new() -> (res: Self)
        ensures
            res.capacity() == if size_of::<T>() == 0 { usize::MAX } else { 0 },
    {
        let cap = if core::mem::size_of::<T>() == 0 { usize::MAX } else { 0 };
        RawVec { buf: Vec::new(), cap }
    }

    /// Room for exactly `cap` values, or unbounded room for a zero-sized `T`.
    pub fn with_capacity(cap: usize) -> (res: Self)
        requires
            fits_allocation::<T>(cap as int),
        ensures
            res.capacity() == if size_of::<T>() == 0 { usize::MAX } else { cap },
    {
        if core::mem::size_of::<T>() != 0 {
            RawVec { buf: Vec::with_capacity(cap), cap }
        } else {
            RawVec { buf: Vec::new(), cap: usize::MAX }
        }
    }

    /// Grows to [grown_capacity]; `T` must not be zero-sized, and the new room must fit.
    pub fn grow(&mut self, cap: usize)
        requires
            size_of::<T>() != 0,
            fits_allocation::<T>(grown_capacity(old(self).capacity() as int, cap as int)),
        ensures
            final(self).capacity() == grown_capacity(old(self).capacity() as int, cap as int),
    {
        let size: usize = core::mem::size_of::<T>();
        assert(size >= 1);
        let new_cap: usize = if self.cap == 0 {
            cap
        } else {
            proof {
                vstd::arithmetic::mul::lemma_mul_inequality(
                    self.cap as int,
                    grown_capacity(self.cap as int, cap as int),
                    size as int,
                );
                vstd::arithmetic::mul::lemma_mul_inequality(1, size as int, self.cap as int);
                vstd::arithmetic::mul::lemma_mul_is_commutative(self.cap as int, size as int);
            }
            let twice: usize = 2 * self.cap;
            if cap >= twice {
                cap
            } else {
                twice
            }
        };
        let additional: usize = if new_cap >= self.buf.len() { new_cap - self.buf.len() } else { 0 };
        self.buf.reserve(additional);
        self.cap = new_cap;
    }

    /// Grows as [RawVec::grow] does when `cap` is at least the capacity; does nothing otherwise.
    pub fn try_grow(&mut self, cap: usize)
        requires
            old(self).capacity() <= cap ==> size_of::<T>() != 0 && fits_allocation::<T>(
                grown_capacity(old(self).capacity() as int, cap as int),
            ),
        ensures
            final(self).capacity() == if old(self).capacity() <= cap {
                grown_capacity(old(self).capacity() as int, cap as int)
            } else {
                old(self).capacity() as int
            },
    {
        if self.cap <= cap {
            self.grow(cap);
        }
    }
}

} // verus!
