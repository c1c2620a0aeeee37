use datakit::structures::dim_dir::DimDir;
use datakit::structures::n_dim_array::NDimArray;
use datakit::structures::n_dim_chunk_array::NDimChunkArray;
use datakit::structures::n_dim_index::{NDimIndex, NDimIndexer, TNDimIndexer};
use datakit::structures::n_dim_index_operator::NDimIndexOperator;
use datakit::structures::n_dim_index_u::NDimIndexerU;
use std::sync::{Arc, Mutex};

#[test]
fn n_dim_index_u_test() {
    let a_compress_index = NDimIndexerU::new_len([10, 10, 10]);
    let a_compresss_1 = a_compress_index.compress_index_u([1, 2, 3]);
    assert_eq!(a_compresss_1, 321);

    let a_seperated = a_compress_index.decompress_index_u(a_compresss_1);
    assert_eq!(a_seperated, [1, 2, 3]);

    let b_compress_index = NDimIndexerU::new_len([1, 2, 3]);
    let b_compress_index_iter = b_compress_index.iter_u();
    assert_eq!(
        b_compress_index_iter.collect_all(),
        vec![[0, 0, 0], [0, 1, 0], [0, 0, 1], [0, 1, 1], [0, 0, 2], [0, 1, 2]]
    );
}

#[test]
fn n_dim_index_test() {
    let a_ndidxer = NDimIndexer::new_len([-5..5, -5..5, -5..5]);
    let a_ndidx = [-2, 0, 2];
    let a_cidx = a_ndidxer.compress_index(&a_ndidx);
    println!("{:?}", a_ndidxer.starts());
    println!("{:?}", a_ndidxer.steps());
    println!("{:?}", a_cidx);
    let a_scidx = a_ndidxer.decompress_index(a_cidx);
    println!("{:?}", a_scidx);
    assert_eq!(a_scidx, a_ndidx);
}

#[test]
fn test_iterate() {
    let indexer = NDimIndexer::new_len([0..2, 0..3, 0..4]);
    let mut iter = indexer.iter();
    let mut count = 0usize;
    while let Some(i) = iter.next() {
        println!("{:?} : {}", i, indexer.compress_index(&i));
        assert_eq!(indexer.compress_index(&i), count);
        count += 1;
    }
    assert_eq!(count, 24);
}

#[test]
fn test1() {
    let a_idxer = NDimIndexer::new_len([0..5, 0..5, 0..5]);

    let check = |op: &NDimIndexOperator<3>, b: &NDimIndex<3>| {
        assert_eq!(op.get(), b);
        assert_eq!(op.get_compressed(), a_idxer.compress_index(b));
    };

    let a_index = [1, 2, 3];
    let mut a_idx_op = NDimIndexOperator::from_index(&a_idxer, a_index.clone()).unwrap();
    check(&a_idx_op, &a_index);

    a_idx_op.move_n_carry(2);
    check(&a_idx_op, &[1, 3, 0]);

    assert_eq!(a_idx_op.move_n_at_dim(1, -4), -1);
    check(&a_idx_op, &[1, 4, 0]);

    a_idx_op.set_n_at_dim(1, 2);
    check(&a_idx_op, &[1, 2, 0]);

    assert_eq!(a_idx_op.move_n_carry_at_dim(0, 9), 2);
    check(&a_idx_op, &[0, 2, 0]);
}

#[test]
fn operator_from_compressed_and_bounds() {
    let idxer = NDimIndexer::new_len([-2..3, 0..4]);
    assert_eq!(idxer.length(), 20);
    let op = NDimIndexOperator::from_compressed(&idxer, 7).unwrap();
    assert_eq!(op.get(), &[-1, 3]);
    assert!(NDimIndexOperator::from_compressed(&idxer, 20).is_none());
    assert!(NDimIndexOperator::from_index(&idxer, [3, 0]).is_none());
    assert_eq!(idxer.add_index_at_dim(7, 0, -3), 15);
    assert_eq!(idxer.decompress_index_at_dim(7, 1), 3);
    assert_eq!(idxer.decompress_index_at_dim(7, 0), -1);
}

#[test]
fn n_dim_index_u_trait_roundtrip() {
    let idxer = NDimIndexerU::new_len([3, 4]);
    assert_eq!(idxer.bases(), &[1, 3]);
    assert_eq!(idxer.length(), 12);
    for c in 0..12 {
        let idx = TNDimIndexer::decompress_index(&idxer, c);
        assert!(TNDimIndexer::contains(&idxer, &idx));
        assert_eq!(TNDimIndexer::compress_index(&idxer, &idx), c);
    }
    assert!(!TNDimIndexer::contains(&idxer, &[-1, 0]));
    assert!(!idxer.contains_u([3, 0]));
}

#[test]
fn n_dim_chunk_array_test_chunks_lens() {
    let chunk_array = NDimChunkArray::<2, i32>::from_fn([10, 15], 4, |idx| (idx[0] * 100 + idx[1]) as i32);
    let chunks = chunk_array.chunks();
    let mut iter = chunks.n_dim_index().iter_u();
    while let Some(chunks_iter) = iter.next() {
        println!("chunk idx: {:?}", chunks_iter);
        let idx: NDimIndex<2> = [chunks_iter[0] as isize, chunks_iter[1] as isize];
        let chunk = chunks.get(&idx).unwrap();
        println!("chunk lens: {:?}", chunk.n_dim_index().lens());
        let expect = [
            if chunks_iter[0] == 2 { 2 } else { 4 },
            if chunks_iter[1] == 3 { 3 } else { 4 },
        ];
        assert_eq!(chunk.n_dim_index().lens(), &expect);
    }
}

#[test]
fn n_dim_chunk_array_test_iter() {
    let chunk_array = NDimChunkArray::<2, i32>::from_fn([10, 15], 4, |idx| (idx[0] * 100 + idx[1]) as i32);
    let mut iter = chunk_array.iter();
    let mut count = 0;
    while let Some(v) = iter.next() {
        println!("value: {}", *v);
        count += 1;
    }
    assert_eq!(count, 150);
}

#[test]
fn n_dim_chunk_array_test() {
    let chunk_array = NDimChunkArray::<2, i32>::from_fn([10, 15], 4, |idx| (idx[0] * 100 + idx[1]) as i32);
    for i in 0..10 {
        for j in 0..15 {
            assert_eq!(*chunk_array.get(&[i as isize, j as isize]).unwrap(), (i * 100 + j) as i32);
        }
    }
    assert!(chunk_array.get(&[10, 0]).is_none());
    assert!(chunk_array.get(&[-1, 0]).is_none());
}

#[test]
fn test_par_iter() {
    let ranges = [10, 15, 7];
    let chunk_array = NDimChunkArray::<3, NDimIndex<3>>::from_fn(ranges, 4, |idx| *idx);
    let count = Arc::new(Mutex::new(0));
    let exp_count = ranges.iter().fold(1, |a, b| a * b);
    chunk_array.for_each(&|v: &NDimIndex<3>, idx: NDimIndex<3>| {
        assert_eq!(*v, idx);
        *(count.lock().unwrap()) += 1;
    });
    assert_eq!(*count.lock().unwrap(), exp_count);
}

#[test]
fn test_shape() {
    const DIM: usize = 3;
    let ranges = [3, 3, 3];
    let chunk_array = NDimChunkArray::from_fn(ranges, 2, |idx| (*idx, [None::<NDimIndex<DIM>>; DIM]));
    let chunks = chunk_array.chunks();
    let mut iter = chunks.n_dim_index().iter_u();
    while let Some(a) = iter.next() {
        let idx: NDimIndex<3> = [a[0] as isize, a[1] as isize, a[2] as isize];
        println!("{:?}'s shape: {:?}", a, chunks.get(&idx).unwrap().n_dim_index().lens());
    }
}

#[test]
fn edge_iterator_walks_whole_face() {
    let idx = NDimIndexer::new_len([0..2, 0..3]);
    let mut pos = idx.edge_iter(DimDir { dim: 1, dir_positive: true });
    assert_eq!(pos.next(), Some(([0, 2], 2)));
    assert_eq!(pos.next(), Some(([1, 2], 5)));
    assert_eq!(pos.next(), None);
    assert_eq!(pos.next(), None);
    let mut neg = idx.edge_iter(DimDir { dim: 0, dir_positive: false });
    assert_eq!(neg.next(), Some(([0, 0], 0)));
    assert_eq!(neg.next(), Some(([0, 1], 1)));
    assert_eq!(neg.next(), Some(([0, 2], 2)));
    assert_eq!(neg.next(), None);
}

#[test]
fn pair_schedule_phases() {
    let arr = NDimArray::from_fn(NDimIndexer::new_len([0..3]), |i: NDimIndex<1>| i[0] * 10);
    assert_eq!(arr.pair_schedule(), vec![(0, 1, 0), (1, 2, 0)]);
    assert_eq!(arr.pair_phase(0, 1), vec![(0, 1, 0)]);
    let arr2 = NDimArray::from_fn(NDimIndexer::new_len([0..2, 0..2]), |i: NDimIndex<2>| i[0] + i[1]);
    assert_eq!(arr2.pair_schedule(), vec![(0, 2, 0), (1, 3, 0), (0, 1, 1), (2, 3, 1)]);
}

#[test]
fn neighbours_of_a_value() {
    let idx = NDimIndexer::new_len([0..2, 0..3]);
    let arr = NDimArray::from_fn(idx, |i: NDimIndex<2>| i[0] * 10 + i[1]);
    let got = arr.get_with_neiborhoods(&[0, 2]).unwrap();
    assert_eq!(*got.cur, 2);
    assert_eq!(got.neiborhoods[0].0, (Some(&12), [0, 2]));
    assert_eq!(got.neiborhoods[0].1, (Some(&2), [0, 2]));
    assert_eq!(got.neiborhoods[1].0, (None, [0, 2]));
    assert_eq!(got.neiborhoods[1].1, (None, [0, 2]));
    assert!(arr.get_with_neiborhoods(&[2, 0]).is_none());
}

#[test]
fn neighbours_wrap_around_in_loop_mode() {
    let idx = NDimIndexer::new_len([0..2, 0..3]);
    let arr = NDimArray::from_fn(idx, |i: NDimIndex<2>| i[0] * 10 + i[1]);
    let got = arr.get_with_neiborhoods_loop(&[0, 2]).unwrap();
    assert_eq!(*got.cur, 2);
    assert_eq!(got.neiborhoods[0].0, (Some(&12), [0, 2]));
    assert_eq!(got.neiborhoods[1].0, (Some(&0), [0, 2]));
    assert_eq!(got.neiborhoods[1].1, (Some(&2), [0, 2]));
    assert!(arr.get_with_neiborhoods_loop(&[0, 3]).is_none());
}

#[test]
fn pair_phase_touches_each_value_once() {
    let arr = NDimArray::from_fn(NDimIndexer::new_len([0..5, 0..4]), |i: NDimIndex<2>| i[0] + i[1]);
    for dim in 0..2 {
        for rem in 0..2 {
            let pairs = arr.pair_phase(dim, rem);
            assert!(!pairs.is_empty());
            let mut seen = Vec::new();
            for (a, b, d) in pairs {
                assert_eq!(d, dim);
                assert!(!seen.contains(&a));
                seen.push(a);
                assert!(!seen.contains(&b));
                seen.push(b);
            }
        }
    }
}

#[test]
fn edge_iterator_stays_on_face_of_a_box() {
    let idx = NDimIndexer::new_len([0..2, 0..2, 0..2]);
    let mut pos = idx.edge_iter(DimDir { dim: 1, dir_positive: true });
    let mut seen = Vec::new();
    while let Some((p, _)) = pos.next() {
        assert_eq!(p[1], 1);
        seen.push(p);
    }
    assert_eq!(seen, vec![[0, 1, 0], [0, 1, 1], [1, 1, 0], [1, 1, 1]]);
    let mut neg = idx.edge_iter(DimDir { dim: 2, dir_positive: false });
    while let Some((p, _)) = neg.next() {
        assert_eq!(p[2], 0);
    }
}

#[test]
fn edge_iterator_stays_on_positive_face_when_range_starts_below_zero() {
    let idx = NDimIndexer::new_len([0..2, -1..2]);
    let mut pos = idx.edge_iter(DimDir { dim: 1, dir_positive: true });
    assert_eq!(pos.next(), Some(([0, 1], 2)));
    assert_eq!(pos.next(), Some(([1, 1], 5)));
    assert_eq!(pos.next(), None);
}

#[test]
fn operator_move_and_move_back() {
    let idx = NDimIndexer::new_len([0..5, 0..5, 0..5]);
    let mut op = NDimIndexOperator::from_index(&idx, [1, 2, 3]).unwrap();
    let c1 = op.move_n_at_dim(1, -4);
    assert_eq!(c1, -1);
    assert_eq!(*op.get(), [1, 3, 3]);
    let c2 = op.move_n_at_dim(1, 4);
    assert_eq!(c1 + c2, 0);
    assert_eq!(*op.get(), [1, 2, 3]);
    assert_eq!(op.get_compressed(), idx.compress_index(&[1, 2, 3]));
}

#[test]
fn chunk_array_get_mut_writes_one_value() {
    let mut arr = NDimChunkArray::from_fn([5usize, 3], 2, |idx: &NDimIndex<2>| idx[0] * 10 + idx[1]);
    *arr.get_mut(&[3, 2]).unwrap() = -1;
    assert_eq!(arr.get(&[3, 2]), Some(&-1));
    assert_eq!(arr.get(&[2, 2]), Some(&22));
    assert_eq!(arr.get(&[3, 1]), Some(&31));
    assert!(arr.get_mut(&[5, 0]).is_none());
    assert!(arr.get_mut(&[-1, 0]).is_none());
}

#[test]
fn n_dim_array_for_each_mut_updates_every_value() {
    let mut arr = NDimArray::from_fn(NDimIndexer::new_len([-1..2, 0..2]), |i: NDimIndex<2>| i[0] * 10 + i[1]);
    arr.for_each_mut(&|v: &mut isize, i: NDimIndex<2>| *v += i[0] + 100);
    assert_eq!(arr.get(&[-1, 1]), Some(&(-10 + 1 - 1 + 100)));
    assert_eq!(arr.get(&[1, 0]), Some(&(10 + 1 + 100)));
}

#[test]
fn chunk_array_for_each_mut_visits_every_value() {
    let mut arr = NDimChunkArray::from_fn([5usize, 3], 2, |idx: &NDimIndex<2>| idx[0] * 10 + idx[1]);
    arr.for_each_mut(&|v: &mut isize, idx: NDimIndex<2>| *v = *v * 2 + idx[1]);
    for x in 0..5isize {
        for y in 0..3isize {
            assert_eq!(arr.get(&[x, y]), Some(&((x * 10 + y) * 2 + y)));
        }
    }
}

#[test]
fn chunk_array_iter_pair_visits_each_neighbour_pair_once() {
    let arr = NDimChunkArray::from_fn([5usize, 3], 2, |idx: &NDimIndex<2>| idx[0] * 10 + idx[1]);
    let seen = std::cell::RefCell::new(Vec::new());
    arr.iter_pair(&|a: &isize, b: &isize, dim: usize| seen.borrow_mut().push((*a, *b, dim)));
    let mut seen = seen.into_inner();
    for &(a, b, dim) in &seen {
        assert_eq!(b - a, if dim == 0 { 10 } else { 1 });
    }
    seen.sort();
    let mut expected = Vec::new();
    for x in 0..5isize {
        for y in 0..3isize {
            if x + 1 < 5 {
                expected.push((x * 10 + y, (x + 1) * 10 + y, 0));
            }
            if y + 1 < 3 {
                expected.push((x * 10 + y, x * 10 + y + 1, 1));
            }
        }
    }
    expected.sort();
    assert_eq!(seen, expected);
}

#[test]
fn chunk_array_iter_pair_2_side_visits_both_orders() {
    let arr = NDimChunkArray::from_fn([3usize, 2], 2, |idx: &NDimIndex<2>| idx[0] * 10 + idx[1]);
    let seen = std::cell::RefCell::new(Vec::new());
    arr.iter_pair_2_side(&|a: &isize, b: &isize, dir: DimDir| seen.borrow_mut().push((*a, *b, dir.dim, dir.dir_positive)));
    let seen = seen.into_inner();
    assert_eq!(seen.len(), 2 * (2 * 2 + 3 * 1));
    for pair in seen.chunks(2) {
        let (a, b, dim, pos) = pair[0];
        assert!(pos);
        assert_eq!(b - a, if dim == 0 { 10 } else { 1 });
        assert_eq!(pair[1], (b, a, dim, false));
    }
}

#[test]
fn chunk_array_iter_pair_mut_counts_neighbours() {
    let mut arr = NDimChunkArray::from_fn([5usize, 3], 2, |_idx: &NDimIndex<2>| 0i32);
    arr.iter_pair_mut(&|a: &mut i32, b: &mut i32, _dim: usize| {
        *a += 1;
        *b += 1;
    });
    for x in 0..5isize {
        for y in 0..3isize {
            let mut neighbours = 0;
            if x > 0 { neighbours += 1; }
            if x < 4 { neighbours += 1; }
            if y > 0 { neighbours += 1; }
            if y < 2 { neighbours += 1; }
            assert_eq!(arr.get(&[x, y]), Some(&neighbours));
        }
    }
}

#[test]
fn chunk_array_iter_pair_2_side_mut_flows_both_ways() {
    let mut arr = NDimChunkArray::from_fn([3usize, 1], 2, |idx: &NDimIndex<2>| idx[0] as i32 * 100);
    arr.iter_pair_2_side_mut(&|a: &mut i32, b: &mut i32, dir: DimDir| {
        if dir.dir_positive {
            *a += 1;
        } else {
            *a += 10;
        }
        let _ = b;
    });
    assert_eq!(arr.get(&[0, 0]), Some(&1));
    assert_eq!(arr.get(&[1, 0]), Some(&(100 + 1 + 10)));
    assert_eq!(arr.get(&[2, 0]), Some(&(200 + 10)));
}

#[test]
fn indexer_u_at_dim_helpers() {
    let idx = NDimIndexerU::new_len([10, 10, 10]);
    assert_eq!(idx.decompress_index_at_dim(321, 0), 321);
    assert_eq!(idx.decompress_index_at_dim(321, 1), 0);
    assert_eq!(idx.add_index_at_dim(321, 1, 2), 341);
    assert_eq!(idx.add_index_at_dim(321, 2, 7), 21);
    assert_eq!(idx.add_index_at_dim(5, 0, -6), 999);
}

#[test]
fn edge_iterator_on_square_yields_both_face_indexes() {
    let idx = NDimIndexer::new_len([0..2, 0..2]);
    let mut it = idx.edge_iter(DimDir { dim: 1, dir_positive: true });
    let mut seen = Vec::new();
    while let Some(item) = it.next() {
        seen.push(item);
    }
    assert_eq!(seen, vec![([0, 1], 1), ([1, 1], 3)]);
}

#[test]
fn index_iter_walks_compressed_order() {
    let idx = NDimIndexer::new_len([-1..2, 0..2]);
    let mut it = idx.iter();
    let mut k = 0usize;
    while let Some(i) = it.next() {
        assert_eq!(i, idx.decompress_index(k));
        assert_eq!(idx.compress_index(&i), k);
        k += 1;
    }
    assert_eq!(k, NDimIndexer::length(&idx));
    assert_eq!(k, 6);
    assert_eq!(it.next(), None);
}

#[test]
fn chunk_array_iter_yields_each_value_once() {
    let arr = NDimChunkArray::from_fn([3, 5], 2, |i: &NDimIndex<2>| i[0] * 10 + i[1]);
    let mut it = arr.iter();
    let mut got = Vec::new();
    while let Some(v) = it.next() {
        got.push(*v);
    }
    let mut expected = Vec::new();
    for a in 0..3isize {
        for b in 0..5isize {
            expected.push(*arr.get(&[a, b]).unwrap());
        }
    }
    got.sort();
    expected.sort();
    assert_eq!(got, expected);
    assert_eq!(got.len(), 15);
}

#[test]
fn chunk_array_pair_schedule_phases() {
    let arr = NDimChunkArray::from_fn([3], 2, |i: &NDimIndex<1>| i[0]);
    let s = arr.pair_schedule();
    assert_eq!(s, vec![vec![(0, 0, 0, 1, 0)], vec![], vec![(0, 1, 1, 0, 0)], vec![]]);
    let arr2 = NDimChunkArray::from_fn([4, 3], 2, |i: &NDimIndex<2>| i[0] * 10 + i[1]);
    let phases = arr2.pair_schedule();
    assert_eq!(phases.len(), 8);
    let mut count = 0;
    for phase in &phases {
        let mut seen = Vec::new();
        for &(ka, ja, kb, jb, _) in phase {
            assert!(!seen.contains(&(ka, ja)) && !seen.contains(&(kb, jb)));
            seen.push((ka, ja));
            seen.push((kb, jb));
            count += 1;
        }
    }
    assert_eq!(count, 3 * 3 + 4 * 2);
}

#[test]
fn edge_iterator_on_ranges_away_from_zero() {
    let idx = NDimIndexer::new_len([0..2, 5..7]);
    let collect = |dir: DimDir| {
        let mut it = idx.edge_iter(dir);
        let mut v = Vec::new();
        while let Some(x) = it.next() {
            v.push(x);
        }
        v
    };
    assert_eq!(collect(DimDir { dim: 1, dir_positive: true }), vec![([0, 6], 1), ([1, 6], 3)]);
    assert_eq!(collect(DimDir { dim: 1, dir_positive: false }), vec![([0, 5], 0), ([1, 5], 2)]);
    let idx2 = NDimIndexer::new_len([-1..1, 0..2]);
    let mut it = idx2.edge_iter(DimDir { dim: 1, dir_positive: true });
    assert_eq!(it.next(), Some(([-1, 1], 1)));
    assert_eq!(it.next(), Some(([0, 1], 3)));
    assert_eq!(it.next(), None);
    let mut neg = idx2.edge_iter(DimDir { dim: 0, dir_positive: false });
    assert_eq!(neg.next(), Some(([-1, 0], 0)));
    assert_eq!(neg.next(), Some(([-1, 1], 1)));
    assert_eq!(neg.next(), None);
}

#[test]
fn test_ndim_array_bi_iter_mut() {
    let andidx = NDimIndexer::new_len([0..3, 0..3, 0..3]);
    let mut andarr = NDimArray::from_fn(NDimIndexer::new_len([0..3, 0..3, 0..3]), |idx: NDimIndex<3>| {
        (idx, Vec::<NDimIndex<3>>::new())
    });
    let func = |a: &mut (NDimIndex<3>, Vec<NDimIndex<3>>), b: &mut (NDimIndex<3>, Vec<NDimIndex<3>>), dim: usize| {
        a.0.iter().zip(b.0.iter()).enumerate().for_each(|(i, (a_i, b_i))| {
            if i == dim {
                assert_eq!(*a_i + 1, *b_i);
            } else {
                assert_eq!(a_i, b_i);
            }
        });
        a.1.push(b.0.clone());
        b.1.push(a.0.clone());
    };
    for (ia, ib, dim) in andarr.pair_schedule() {
        let vals = andarr.values_mut();
        let (lo, hi) = vals.split_at_mut(ib);
        func(&mut lo[ia], &mut hi[0], dim);
    }
    let mut pairs = 0;
    for i in 0..27usize {
        let idx = andidx.decompress_index(i);
        let (_, seen) = andarr.get(&idx).unwrap();
        pairs += seen.len();
    }
    assert_eq!(pairs, 2 * 3 * 2 * 9);
}
