use datakit::structures::cached_iter::CachedIter;
use datakit::structures::countable_range::{CountableRangeForRef, CountableRangeItem, CountableRangeItemN};
use datakit::structures::countable_range_array::CountableRangeMergeArray;
use datakit::structures::countable_range_merge::CountableRangeMerge2;
use datakit::structures::countable_range_std::CountableRangeStd;
use datakit::structures::dim_dir::{DimDir, DimDirIter};
use datakit::structures::doubly_grid::DoublyGrid2d;
use datakit::structures::doubly_grid_layers::{
    find_doubly_grid_layers_overlap, find_rect_object_at_doubly_grid_layers_i, DoublyGridIndex,
    DoublyGridLayers,
};
use datakit::structures::doubly_slice_layers::{
    doubly_slice_layers_overlap, find_range_at_doubly_slice, find_range_at_doubly_slice_i,
    DoublySliceIndex,
};
use datakit::structures::sort_by_order::{OrderSymVal, SortByOrder};
use datakit::structures::sort_by_order_kv::SortByOrderWithKV;
use datakit::structures::step_iter::{SteppingIterator, SteppingIteratorFunction, SteppingIteratorRev};
use std::ops::ControlFlow;

#[test]
fn test_merge2() {
    let idx1 = CountableRangeMerge2 {
        a: CountableRangeStd::new(-3..=2),
        b: CountableRangeStd::new(-3..=2),
    };
    let mut idx1_item1 = idx1.clone().item_first();
    println!("test next");
    let mut count = 0;
    loop {
        let (a, b) = idx1_item1.inner();
        println!("{:?}:{:?}", (a.inner(), b.inner()), idx1_item1.index());
        assert_eq!(idx1_item1.index(), count);
        count += 1;
        if idx1_item1.next_assign() {
            break;
        }
    }
    assert_eq!(count, 1);
    println!("test prev");
    let mut idx1_item2 = idx1.clone().item_last();
    loop {
        let (a, b) = idx1_item2.inner();
        println!("{:?}:{:?}", (a.inner(), b.inner()), idx1_item2.index());
        assert_eq!(idx1_item2.index(), 35);
        if idx1_item2.prev_assign() {
            break;
        }
    }
    assert_eq!(idx1_item2.index(), 34);
}

#[test]
fn test_merge_array() {
    let idx1 = CountableRangeMergeArray::new([
        CountableRangeStd::new(0..=3),
        CountableRangeStd::new(0..=3),
        CountableRangeStd::new(0..=3),
    ]);
    assert_eq!(idx1.index_len(), 4 * 4 * 4);
    let mut idx1_item = idx1.item_first();
    let mut seen = 0;
    loop {
        let (items, index, _, _) = idx1_item.into_inner();
        let things: Vec<isize> = items.iter().map(|a| *a.inner()).collect();
        println!("{:?}:{}", things, index);
        assert_eq!(index, seen);
        assert_eq!(things[0] * 16 + things[1] * 4 + things[2], index as isize);
        seen += 1;
        idx1_item = CountableRangeMergeArray::new([
            CountableRangeStd::new(0..=3),
            CountableRangeStd::new(0..=3),
            CountableRangeStd::new(0..=3),
        ])
        .item_from_index(index)
        .unwrap();
        if idx1_item.next_assign() {
            break;
        }
    }
    assert_eq!(seen, 1);
    let mut idx2_item = idx1.item_first();
    let mut steps = 0;
    loop {
        println!("{}", idx2_item.index());
        steps += 1;
        if idx2_item.move_n_assign(3) > 0 {
            break;
        }
    }
    assert_eq!(steps, 22);
    assert_eq!(idx2_item.index(), 2);
    let mut idx3_item = idx1.item_first();
    let mut rounds = 0;
    loop {
        rounds += 1;
        if idx3_item.move_n_assign_at_dim(1, 3) > 0 {
            break;
        }
    }
    assert_eq!(rounds, 6);
    assert_eq!(idx3_item.index(), 8);
}

#[test]
fn merge_array_steps_at_dims() {
    let arr = CountableRangeMergeArray::new([
        CountableRangeStd::new(0..=1),
        CountableRangeStd::new(0..=2),
        CountableRangeStd::new(0..=3),
    ]);
    let mut item = arr.item_from_index(5).unwrap();
    assert_eq!(item.index(), 5);
    assert!(item.next_assign_at_dim(2));
    assert_eq!(item.index(), 9);
    assert!(!item.prev_assign_at_dim(1));
    assert_eq!(item.index(), 21);
    assert!(item.next_assign_at_dim_loop(2));
    assert_eq!(item.index(), 22);
    assert!(!item.next_assign_at_dim_loop(1));
    assert_eq!(item.index(), 14);
    assert!(item.prev_assign_at_dim_loop(0));
    assert_eq!(item.index(), 2);
    assert_eq!(item.move_n_assign_loop_at_dim(2, 5), 1);
    assert_eq!(item.index(), 3);
    let mut last = arr.item_last();
    assert_eq!(last.index(), 23);
    assert!(!last.next_assign());
    assert_eq!(last.index(), 0);
    assert!(!last.prev_assign());
    assert_eq!(last.index(), 23);
    assert_eq!(last.move_n_assign(-25), -1);
    assert_eq!(last.index(), 22);
    assert_eq!(arr.item_from_index(30).unwrap().index(), 6);
}

#[test]
fn countable_range_std_moves() {
    let r = CountableRangeStd::new(-2..=1);
    let mut it = r.item_first();
    assert_eq!(*it.inner(), -2);
    assert!(it.next_assign());
    assert_eq!(*it.inner(), -1);
    it.last_assign();
    assert!(!it.next_assign());
    assert_eq!(*it.inner(), -2);
    assert!(!it.prev_assign());
    assert_eq!(*it.inner(), 1);
    assert_eq!(it.move_n_assign(6), 2);
    assert_eq!(*it.inner(), -1);
    assert_eq!(it.move_n_assign(-7), -2);
    assert_eq!(*it.inner(), 0);
    assert!(r.item_from_index(4).is_none());
    assert_eq!(*r.item_from_index(3).unwrap().inner(), 1);
    let half_open = CountableRangeStd::from_range(-2..2);
    assert_eq!(half_open.index_len(), 4);
    let (range, len) = half_open.into_inner();
    assert_eq!(range, -2..=1);
    assert_eq!(len, 4);
}

#[test]
fn doubly_slice_layers_test() {
    println!("{:?}", find_range_at_doubly_slice_i(10..=15));
    println!("{:?}", find_range_at_doubly_slice_i(10..=11));
    println!("{:?}", find_range_at_doubly_slice_i(10..=10));
    assert_eq!(find_range_at_doubly_slice_i(10..=15), DoublySliceIndex { layer: 3, pos: 1 });
    assert_eq!(find_range_at_doubly_slice_i(10..=11), DoublySliceIndex { layer: 1, pos: 5 });
    assert_eq!(find_range_at_doubly_slice_i(10..=10), DoublySliceIndex { layer: 0, pos: 10 });
}

#[test]
fn doubly_slice_negative_and_overlap() {
    let s = find_range_at_doubly_slice_i(-6..=-5);
    assert_eq!(s, DoublySliceIndex { layer: 1, pos: -3 });
    assert_eq!(s.into_range(), -6..-4);
    assert!(s.range_at_doubly_slice_i(-6..=-5));
    assert!(!s.range_at_doubly_slice_i(-7..=-5));
    assert_eq!(doubly_slice_layers_overlap(DoublySliceIndex { layer: 1, pos: 5 }, 3), 1..2);
    assert_eq!(doubly_slice_layers_overlap(DoublySliceIndex { layer: 0, pos: -3 }, 1), -2..-1);
    assert_eq!(doubly_slice_layers_overlap(DoublySliceIndex { layer: 2, pos: 1 }, 0), 4..8);
    assert_eq!(doubly_slice_layers_overlap(DoublySliceIndex { layer: 1, pos: -1 }, 0), -2..0);
    assert_eq!(find_range_at_doubly_slice(3i16..=4i16), DoublySliceIndex { layer: 3, pos: 0 });
}

#[test]
fn doubly_grid_layers() {
    let g = DoublyGrid2d::new(5, 3, |len: usize, y: usize, x: usize| (len, y, x));
    assert_eq!(g.values.len(), 4);
    assert_eq!(g.values[0].len(), 3);
    assert_eq!(g.values[0][0].len(), 5);
    assert_eq!(g.values[1].len(), 2);
    assert_eq!(g.values[1][1].len(), 3);
    assert_eq!(g.values[2].len(), 1);
    assert_eq!(g.values[2][0].len(), 2);
    assert_eq!(g.values[3][0][0], (8, 0, 0));
    assert_eq!(g.values[1][1][2], (2, 1, 2));
}

#[test]
fn sort_by_order_meets_constraints() {
    let mut s = SortByOrder::new();
    let a = s.add_item();
    let b = s.add_item();
    let c = s.add_item();
    s.add_order(c, a);
    s.add_order(b, c);
    assert_eq!(s.get_res(), &[1, 2, 0]);
    let d = s.add_item();
    s.add_orders(&OrderSymVal { key: &d, befores: None, afters: Some(vec![&b]) });
    assert_eq!(s.get_res(), &[3, 1, 2, 0]);
}

#[test]
fn sort_by_order_with_kv() {
    let (x, y, z) = (String::from("x"), String::from("y"), String::from("z"));
    let mut s: SortByOrderWithKV<String, i32> = SortByOrderWithKV::new();
    s.insert(&x, 1);
    s.insert(&y, 2);
    s.add_order(&y, &x);
    s.add_orders(&OrderSymVal { key: &z, befores: Some(vec![&x]), afters: None });
    assert_eq!(s.get_or_add_key_to_id(&z), 2);
    assert_eq!(s.get_res(), vec![&2, &1]);
    *s.id_to_value(2) = Some(3);
    assert_eq!(s.get_res(), vec![&2, &1, &3]);
}

#[test]
fn cached_iter_peeks() {
    let mut it = CachedIter::new(vec![1, 2, 3].into_iter());
    assert_eq!(it.get(), Some(&1));
    assert_eq!(it.next(), Some(1));
    assert_eq!(it.next(), Some(2));
    assert_eq!(it.get(), Some(&3));
    assert_eq!(it.next(), Some(3));
    assert_eq!(it.next(), None);
    let (cur, _) = it.unwrap();
    assert_eq!(cur, None);
}

#[test]
fn dim_dir_iterates_and_vectors() {
    let mut it = DimDirIter::new(2);
    let mut all = Vec::new();
    while let Some(d) = it.next() {
        all.push((d.dim, d.dir_positive));
    }
    assert_eq!(all, vec![(0, false), (0, true), (1, false), (1, true)]);
    assert_eq!(DimDir { dim: 1, dir_positive: false }.to_dir_vec::<3>(), [0, -1, 0]);
}

struct Odometer;

impl SteppingIteratorFunction<usize, usize> for Odometer {
    fn step(&mut self, item: &mut usize, data: &usize, _dim: usize) -> ControlFlow<(), ()> {
        *item += 1;
        if *item == *data {
            *item = 0;
            ControlFlow::Continue(())
        } else {
            ControlFlow::Break(())
        }
    }
}

#[test]
fn stepping_iterators_count_like_odometers() {
    let mut fwd = SteppingIterator::new([0usize, 0], [2usize, 3], Odometer);
    let mut seen = Vec::new();
    while let Some(items) = fwd.next() {
        seen.push(items);
    }
    assert_eq!(seen, vec![[0, 0], [1, 0], [0, 1], [1, 1], [0, 2], [1, 2]]);
    assert_eq!(fwd.next(), None);

    let mut rev = SteppingIteratorRev::new([0usize, 0], [2usize, 2], Odometer);
    let mut seen = Vec::new();
    while let Some(items) = rev.next() {
        seen.push(items);
    }
    assert_eq!(seen, vec![[0, 0], [0, 1], [1, 0], [1, 1]]);
    assert_eq!(rev.next(), None);
}

#[test]
fn countable_range_std_makes_items_inside() {
    let r = CountableRangeStd::new(-2..=3);
    assert_eq!(r.can_make(-2), Ok(-2));
    assert_eq!(r.can_make(3), Ok(3));
    assert_eq!(r.can_make(4), Err(()));
    assert_eq!(r.can_make(-3), Err(()));
    let item = r.make(1);
    assert_eq!(*item.inner(), 1);
    assert_eq!(item.index(), 3);
}

#[test]
fn doubly_grid_cell_covering_a_box() {
    let c = find_rect_object_at_doubly_grid_layers_i([0..=0, 3..=4]);
    assert_eq!(c, DoublyGridIndex { layer: 3, pos: [0, 0] });
    let c = find_rect_object_at_doubly_grid_layers_i([4..=5, 8..=9]);
    assert_eq!(c, DoublyGridIndex { layer: 1, pos: [2, 4] });
    let c = find_rect_object_at_doubly_grid_layers_i([-3..=-3, -2..=-1]);
    assert_eq!(c, DoublyGridIndex { layer: 1, pos: [-2, -1] });
    let c = find_rect_object_at_doubly_grid_layers_i([7..=7]);
    assert_eq!(c, DoublyGridIndex { layer: 0, pos: [7] });
}

#[test]
fn doubly_grid_overlap_per_dimension() {
    let r = find_doubly_grid_layers_overlap(DoublyGridIndex { layer: 1, pos: [2, -3] }, 3);
    assert_eq!(r, [0..1, -1..0]);
    let r = find_doubly_grid_layers_overlap(DoublyGridIndex { layer: 2, pos: [5] }, 2);
    assert_eq!(r, [5..6]);
}

#[test]
fn doubly_grid_layers_of_a_point() {
    let mut layers = DoublyGridLayers::new([2..=2, 5..=5], |g: DoublyGridIndex<2>| g.pos[0] * 10 + g.pos[1] + g.layer);
    assert_eq!(layers.values.len(), 1);
    assert_eq!(layers.get_doubly_grid_index(DoublyGridIndex { layer: 0, pos: [2, 5] }), Some(&25));
    assert_eq!(layers.get_doubly_grid_index(DoublyGridIndex { layer: 0, pos: [2, 4] }), None);
    assert_eq!(layers.get_doubly_grid_index(DoublyGridIndex { layer: 1, pos: [2, 5] }), None);
    assert_eq!(layers.get_doubly_grid_index(DoublyGridIndex { layer: -1, pos: [2, 5] }), None);
    *layers.get_mut_doubly_grid_index(DoublyGridIndex { layer: 0, pos: [2, 5] }).unwrap() = 7;
    assert_eq!(layers.get_doubly_grid_index(DoublyGridIndex { layer: 0, pos: [2, 5] }), Some(&7));
    assert!(layers.get_mut_doubly_grid_index(DoublyGridIndex { layer: 2, pos: [2, 5] }).is_none());
}

#[test]
fn merge_array_from_precomputed_data() {
    let ranges = [CountableRangeStd::new(0..=1), CountableRangeStd::new(-1..=1)];
    let made = CountableRangeMergeArray::from_datas(ranges, [3, 1], 6);
    assert_eq!(made.index_len(), 6);
    let item = made.item_from_index(4).unwrap();
    let (items, index, _, _) = item.into_inner();
    assert_eq!(index, 4);
    assert_eq!((*items[0].inner(), *items[1].inner()), (1, 0));
}

#[test]
fn countable_range_std_test() {
    let a_isize_crange = CountableRangeStd::new(-2..=1);
    fn check_item(mut a_isize_item: datakit::structures::countable_range_std::CountableRangeStdItem) {
        assert_eq!(a_isize_item.inner(), &-2);
        a_isize_item.next_assign();
        assert_eq!(a_isize_item.inner(), &-1);
        a_isize_item.next_assign();
        assert_eq!(a_isize_item.inner(), &0);
        a_isize_item.next_assign();
        assert_eq!(a_isize_item.inner(), &1);
        assert_eq!(a_isize_item.next_assign(), false);
        assert_eq!(a_isize_item.inner(), &-2);

        a_isize_item.last_assign();

        assert_eq!(a_isize_item.inner(), &1);
        a_isize_item.prev_assign();
        assert_eq!(a_isize_item.inner(), &0);
        a_isize_item.prev_assign();
        assert_eq!(a_isize_item.inner(), &-1);
        a_isize_item.prev_assign();
        assert_eq!(a_isize_item.inner(), &-2);
        assert_eq!(a_isize_item.prev_assign(), false);
        assert_eq!(a_isize_item.inner(), &1);
    }
    let a_isize_item = a_isize_crange.clone().item_first();
    check_item(a_isize_item);
    let range = a_isize_crange.into_inner().0;

    let a_b = Box::new(String::from("value"));
    let _a_b_c = *a_b;

    let c_isize_item;
    {
        let b_isize_crange = CountableRangeStd::new(range);
        let b_isize_item = (b_isize_crange.clone()).item_first();
        c_isize_item = (b_isize_crange).clone().item_first();
        check_item(b_isize_item);
    }
    check_item(c_isize_item);
}

#[test]
fn merge_walks_one_full_cycle() {
    let idx = CountableRangeMerge2 {
        a: CountableRangeStd::new(-3..=2),
        b: CountableRangeStd::new(-3..=2),
    };
    let mut item = idx.clone().item_first();
    let mut count = 0;
    loop {
        assert_eq!(item.index(), count);
        count += 1;
        if !item.next_assign() {
            break;
        }
    }
    assert_eq!(count, 36);
    assert_eq!(item.index(), 0);
}

#[test]
fn sort_by_order_try_get_res_reports_cycles() {
    let mut s = SortByOrder::new();
    let a = s.add_item();
    let b = s.add_item();
    let c = s.add_item();
    s.add_order(c, a);
    s.add_order(b, c);
    assert_eq!(s.try_get_res(), Some(&[1usize, 2, 0][..]));
    s.add_order(a, b);
    assert_eq!(s.try_get_res(), None);
}

#[test]
fn sort_by_order_with_kv_try_get_res_reports_cycles() {
    let (x, y, z) = (String::from("x"), String::from("y"), String::from("z"));
    let mut s: SortByOrderWithKV<String, i32> = SortByOrderWithKV::new();
    s.insert(&x, 1);
    s.insert(&y, 2);
    s.insert(&z, 3);
    s.add_order(&y, &x);
    s.add_order(&z, &y);
    assert_eq!(s.try_get_res(), Some(vec![&3, &2, &1]));
    s.add_order(&x, &z);
    assert_eq!(s.try_get_res(), None);
}
