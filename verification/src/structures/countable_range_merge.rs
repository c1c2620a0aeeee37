//! Products of countable ranges: a pair ([CountableRangeMerge2]) and an array
//! ([CountableRangeMergeArray]), numbered with the first range most significant.
use vstd::prelude::*;
use vstd::arithmetic::div_mod::{lemma_fundamental_div_mod, lemma_fundamental_div_mod_converse};
use crate::structures::countable_range::{CountableRangeItem, CountableRangeItemN, CountableRangeForRef};

verus! {

/// The pairs of a position of `a` and a position of `b`.
#[derive(Clone, Copy)]
pub struct CountableRangeMerge2<ARange, BRange> {
    pub a: ARange,
    pub b: BRange,
}

/// A cursor into a [CountableRangeMerge2]: one cursor per range.
#[derive(Clone, Copy)]
pub struct CountableRangeMerge2Item<AItem, BItem> {
    a_item: AItem,
    b_item: BItem,
}

/// Pair `(ai, bi)` of lengths `(al, bl)` numbers `ai * bl + bi`, which is below `al * bl`.
pub proof fn lemma_pair_index(ai: int, al: int, bi: int, bl: int)
    requires
        0 <= ai < al,
        0 <= bi < bl,
    ensures
        0 <= ai * bl + bi < al * bl,
        ai * bl + bi + 1 == al * bl <==> (ai + 1 == al && bi + 1 == bl),
        (ai + 1) * bl == ai * bl + bl,
        (ai - 1) * bl + (bl - 1) == ai * bl - 1,
        (al - 1) * bl + (bl - 1) == al * bl - 1,
{
    assert(0 <= ai * bl + bi < al * bl) by (nonlinear_arith)
        requires
            0 <= ai < al,
            0 <= bi < bl,
    ;
    assert(ai * bl + bi + 1 == al * bl ==> (ai + 1 == al && bi + 1 == bl)) by (nonlinear_arith)
        requires
            0 <= ai < al,
            0 <= bi < bl,
    ;
    assert((ai + 1) * bl == ai * bl + bl) by (nonlinear_arith);
    assert((ai - 1) * bl + (bl - 1) == ai * bl - 1) by (nonlinear_arith);
    assert((al - 1) * bl + (bl - 1) == al * bl - 1) by (nonlinear_arith);
    assert((ai + 1 == al && bi + 1 == bl) ==> ai * bl + bi + 1 == al * bl) by (nonlinear_arith);
}

/// Moving the pair by `n` moves `b` by `n` and `a` by `b`'s turns.
pub proof fn lemma_pair_move(
    ai: int,
    al: int,
    bi: int,
    bl: int,
    n: int,
    turns: int,
    ai2: int,
    bi2: int,
    res: int,
)
    requires
        0 <= ai < al,
        0 <= bi < bl,
        bi2 == (bi + n) % bl,
        turns == (bi + n) / bl,
        ai2 == (ai + turns) % al,
        res == (ai + turns) / al,
    ensures
        ai2 * bl + bi2 == (ai * bl + bi + n) % (al * bl),
        res == (ai * bl + bi + n) / (al * bl),
{
    lemma_fundamental_div_mod(bi + n, bl);
    lemma_fundamental_div_mod(ai + turns, al);
    lemma_pair_index(ai2, al, bi2, bl);
    assert(ai * bl + bi + n == res * (al * bl) + (ai2 * bl + bi2)) by (nonlinear_arith)
        requires
            bi + n == bl * turns + bi2,
            ai + turns == al * res + ai2,
    ;
    lemma_fundamental_div_mod_converse(ai * bl + bi + n, al * bl, res, ai2 * bl + bi2);
}

impl<AItem, BItem> CountableRangeMerge2Item<AItem, BItem> {
    /// The cursor into `a`.
    pub closed spec fn a_view(&self) -> AItem {
        self.a_item
    }

    /// The cursor into `b`.
    pub closed spec fn b_view(&self) -> BItem {
        self.b_item
    }

    /// The two cursors.
    pub fn inner(&self) -> (res: (&AItem, &BItem))
        ensures
            *res.0 == self.a_view(),
            *res.1 == self.b_view(),
    {
        (&self.a_item, &self.b_item)
    }

    /// The two cursors.
    pub fn into_inner(self) -> (res: (AItem, BItem))
        ensures
            res.0 == self.a_view(),
            res.1 == self.b_view(),
    {
        (self.a_item, self.b_item)
    }
}

impl<AItem: CountableRangeItem, BItem: CountableRangeItem> CountableRangeItem for
    CountableRangeMerge2Item<AItem, BItem> {
    open spec fn len_view(&self) -> int {
        self.a_view().len_view() * self.b_view().len_view()
    }

    open spec fn index_view(&self) -> int {
        self.a_view().index_view() * self.b_view().len_view() + self.b_view().index_view()
    }

    open spec fn item_wf(&self) -> bool {
        &&& self.a_view().item_wf()
        &&& self.b_view().item_wf()
        &&& self.a_view().len_view() * self.b_view().len_view() <= usize::MAX
    }

    proof fn lemma_item_wf(&self) {
        self.a_item.lemma_item_wf();
        self.b_item.lemma_item_wf();
        lemma_pair_index(
            self.a_item.index_view(),
            self.a_item.len_view(),
            self.b_item.index_view(),
            self.b_item.len_view(),
        );
    }

    fn index(&self) -> (res: usize) {
        proof {
            self.a_item.lemma_item_wf();
            self.b_item.lemma_item_wf();
        }
        let a_idx = self.a_item.index();
        let b_idx = self.b_item.index();
        let b_len = self.b_item.range_len();
        proof {
            lemma_pair_index(
                a_idx as int,
                self.a_item.len_view(),
                b_idx as int,
                b_len as int,
            );
        }
        a_idx * b_len + b_idx
    }

    fn range_len(&self) -> (res: usize) {
        self.a_item.range_len() * self.b_item.range_len()
    }

    fn next_assign(&mut self) -> (stayed: bool) {
        proof {
            self.a_item.lemma_item_wf();
            self.b_item.lemma_item_wf();
        }
        let ghost ai = self.a_item.index_view();
        let ghost bi = self.b_item.index_view();
        let ghost al = self.a_item.len_view();
        let ghost bl = self.b_item.len_view();
        proof {
            lemma_pair_index(ai, al, bi, bl);
        }
        if !self.b_item.next_assign() {
            if !self.a_item.next_assign() {
                return false;
            }
        }
        true
    }

    fn prev_assign(&mut self) -> (stayed: bool) {
        proof {
            self.a_item.lemma_item_wf();
            self.b_item.lemma_item_wf();
        }
        let ghost ai = self.a_item.index_view();
        let ghost bi = self.b_item.index_view();
        let ghost al = self.a_item.len_view();
        let ghost bl = self.b_item.len_view();
        proof {
            lemma_pair_index(ai, al, bi, bl);
            lemma_pair_index(al - 1, al, bl - 1, bl);
        }
        if !self.b_item.prev_assign() {
            if !self.a_item.prev_assign() {
                return false;
            }
        }
        true
    }

    fn first_assign(&mut self) {
        self.a_item.first_assign();
        self.b_item.first_assign();
    }

    fn last_assign(&mut self) {
        self.a_item.last_assign();
        self.b_item.last_assign();
        proof {
            self.a_item.lemma_item_wf();
            self.b_item.lemma_item_wf();
            lemma_pair_index(
                self.a_item.len_view() - 1,
                self.a_item.len_view(),
                self.b_item.len_view() - 1,
                self.b_item.len_view(),
            );
        }
    }
}

impl<AItem: CountableRangeItemN, BItem: CountableRangeItemN> CountableRangeItemN for
    CountableRangeMerge2Item<AItem, BItem> {
    fn move_n_assign(&mut self, n: isize) -> (res: isize) {
        proof {
            self.a_item.lemma_item_wf();
            self.b_item.lemma_item_wf();
        }
        let ghost ai = self.a_item.index_view();
        let ghost bi = self.b_item.index_view();
        let ghost al = self.a_item.len_view();
        let ghost bl = self.b_item.len_view();
        let turns = self.b_item.move_n_assign(n);
        if turns == 0 {
            proof {
                lemma_fundamental_div_mod_converse(ai + turns, al, 0, ai);
                lemma_pair_move(
                    ai,
                    al,
                    bi,
                    bl,
                    n as int,
                    turns as int,
                    ai,
                    self.b_item.index_view(),
                    0,
                );
            }
            return 0;
        }
        let res = self.a_item.move_n_assign(turns);
        proof {
            lemma_pair_move(
                ai,
                al,
                bi,
                bl,
                n as int,
                turns as int,
                self.a_item.index_view(),
                self.b_item.index_view(),
                res as int,
            );
        }
        res
    }
}

impl<ARange: CountableRangeForRef, BRange: CountableRangeForRef> CountableRangeForRef for
    CountableRangeMerge2<ARange, BRange> {
    type Item = CountableRangeMerge2Item<ARange::Item, BRange::Item>;

    open spec fn range_len_view(&self) -> int {
        self.a.range_len_view() * self.b.range_len_view()
    }

    open spec fn range_wf(&self) -> bool {
        &&& self.a.range_wf()
        &&& self.b.range_wf()
        &&& self.a.range_len_view() * self.b.range_len_view() <= usize::MAX
    }

    proof fn lemma_range_wf(&self) {
        self.a.lemma_range_wf();
        self.b.lemma_range_wf();
        assert(1 <= self.a.range_len_view() * self.b.range_len_view()) by (nonlinear_arith)
            requires
                1 <= self.a.range_len_view(),
                1 <= self.b.range_len_view(),
        ;
    }

    fn item_first(self) -> (res: Self::Item) {
        proof {
            self.a.lemma_range_wf();
            self.b.lemma_range_wf();
        }
        let res = CountableRangeMerge2Item { a_item: self.a.item_first(), b_item: self.b.item_first() };
        proof {
            lemma_pair_index(0, res.a_item.len_view(), 0, res.b_item.len_view());
        }
        res
    }

    fn item_last(self) -> (res: Self::Item) {
        proof {
            self.a.lemma_range_wf();
            self.b.lemma_range_wf();
        }
        let res = CountableRangeMerge2Item { a_item: self.a.item_last(), b_item: self.b.item_last() };
        proof {
            lemma_pair_index(
                res.a_item.len_view() - 1,
                res.a_item.len_view(),
                res.b_item.len_view() - 1,
                res.b_item.len_view(),
            );
        }
        res
    }

    fn item_from_index(self, index: usize) -> (res: Option<Self::Item>) {
        proof {
            self.a.lemma_range_wf();
            self.b.lemma_range_wf();
        }
        let index_len = self.b.index_len();
        let ghost al = self.a.range_len_view();
        let div = index / index_len;
        let rem = index % index_len;
        proof {
            lemma_fundamental_div_mod(index as int, index_len as int);
            assert(index < al * index_len ==> div < al) by (nonlinear_arith)
                requires
                    index == index_len * div + rem,
                    0 <= rem < index_len,
                    div >= 0,
            ;
        }
        let a_item_may = self.a.item_from_index(div);
        let b_item_may = self.b.item_from_index(rem);
        match (a_item_may, b_item_may) {
            (Some(a_item), Some(b_item)) => {
                proof {
                    vstd::arithmetic::div_mod::lemma_small_mod(rem as nat, index_len as nat);
                    lemma_pair_move(0, al, 0, index_len as int, index as int, div as int,
                        a_item.index_view(), b_item.index_view(), (div as int) / al);
                }
                Some(CountableRangeMerge2Item { a_item, b_item })
            },
            _ => None,
        }
    }

    fn index_len(&self) -> (res: usize) {
        self.a.index_len() * self.b.index_len()
    }
}

} // verus!
