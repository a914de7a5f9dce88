use simd_quickheap::{
    position_min, push_position, Avx2, Avx512, ConfigurableSimdQuickHeap, Neon, SimdElem,
};

#[test]
fn position_min_prefers_first_even_minimum() {
    let mut v: Vec<u64> = vec![3, 1, 1];
    assert_eq!(position_min::<u64, Avx2>(&mut v), 2);
    assert_eq!(v, vec![3, 1, 1]);
}

#[test]
fn position_min_falls_back_to_first_odd_minimum() {
    let mut v: Vec<u64> = vec![3, 1, 2, 1];
    assert_eq!(position_min::<u64, Avx2>(&mut v), 1);
}

#[test]
fn position_min_odd_length_tail() {
    let mut v: Vec<u64> = vec![4, 3, 5, 2, 1];
    assert_eq!(position_min::<u64, Neon>(&mut v), 4);
}

#[test]
fn position_min_empty_and_all_max() {
    let mut e: Vec<u64> = vec![];
    assert_eq!(position_min::<u64, Avx2>(&mut e), 0);
    let mut m: Vec<u64> = vec![u64::MAX, u64::MAX, u64::MAX];
    assert_eq!(position_min::<u64, Avx2>(&mut m), 0);
    let mut s: Vec<u64> = vec![7];
    assert_eq!(position_min::<u64, Avx2>(&mut s), 0);
}

#[test]
fn position_min_signed() {
    let mut v: Vec<i32> = vec![0, -5, 3, -7, -7, 2];
    assert_eq!(position_min::<i32, Avx512<false>>(&mut v), 4);
}

#[test]
fn push_position_small_branch() {
    let pivots: Vec<u64> = vec![9, 5, 5, 2];
    assert_eq!(push_position::<u64, Avx2>(&pivots, 5), 3);
    assert_eq!(push_position::<u64, Avx2>(&pivots, 10), 0);
    assert_eq!(push_position::<u64, Avx2>(&pivots, 1), 4);
    assert_eq!(push_position::<u64, Avx2>(&pivots, 2), 4);
    assert_eq!(push_position::<u64, Avx2>(&pivots, 3), 3);
    assert_eq!(push_position::<u64, Neon>(&pivots, 6), 1);
    assert_eq!(push_position::<u64, Avx512<true>>(&pivots, 5), 3);
    let empty: Vec<u64> = vec![];
    assert_eq!(push_position::<u64, Avx2>(&empty, 5), 0);
}

#[test]
fn push_position_chunk_boundaries() {
    // 64 pivots, 63 down to 0: the count of pivots at least t is 64 - t.
    let pivots: Vec<u32> = (0..64u32).rev().collect();
    for t in 0..70u32 {
        let expected = if t < 64 { (64 - t) as usize } else { 0 };
        assert_eq!(push_position::<u32, Avx2>(&pivots, t), expected);
        assert_eq!(push_position::<u32, Avx512<false>>(&pivots, t), expected);
        assert_eq!(push_position::<u32, Neon>(&pivots, t), expected);
    }
}

#[test]
fn push_position_binary_search_branch() {
    // 100 pivots, 100 down to 1.
    let pivots: Vec<i64> = (1..=100i64).rev().collect();
    assert_eq!(push_position::<i64, Avx2>(&pivots, 50), 51);
    assert_eq!(push_position::<i64, Avx2>(&pivots, 0), 100);
    assert_eq!(push_position::<i64, Avx2>(&pivots, 101), 0);
    assert_eq!(push_position::<i64, Avx2>(&pivots, 100), 1);
}

#[test]
fn simd_lt_bitmask_counts_equal_lanes() {
    let a = <Avx2 as SimdElem<u64>>::splat(2);
    let b = <Avx2 as SimdElem<u64>>::simd_from_slice(&[1, 2, 3, 4]);
    // bit i = a[i] <= b[i]
    assert_eq!(<Avx2 as SimdElem<u64>>::simd_lt_bitmask(a, b), 0b1110);
    assert_eq!(<Avx2 as SimdElem<u64>>::simd_lt_bitmask(b, a), 0b0011);
    let c = <Neon as SimdElem<i32>>::simd_from_slice(&[-1, 5, 0, 7]);
    let d = <Neon as SimdElem<i32>>::splat(0);
    assert_eq!(<Neon as SimdElem<i32>>::simd_lt_bitmask(c, d), 0b0101);
    let e = <Avx512<false> as SimdElem<u32>>::splat(0);
    assert_eq!(<Avx512<false> as SimdElem<u32>>::simd_lt_bitmask(e, e), 0xffff);
}

#[test]
fn lane_helpers() {
    assert_eq!(<Avx2 as SimdElem<u32>>::lane_indices(), [0, 1, 2, 3, 4, 5, 6, 7]);
    assert_eq!(<Neon as SimdElem<u64>>::lane_indices(), [0, 1]);
    assert_eq!(<Avx512<false> as SimdElem<i64>>::splat(-3), [-3; 8]);
    assert_eq!(<Avx2 as SimdElem<u64>>::L, 4);
    assert_eq!(<Avx512<true> as SimdElem<i32>>::L, 16);
    assert_eq!(<Neon as SimdElem<u32>>::MAX, u32::MAX);
    assert_eq!(<Avx2 as SimdElem<i32>>::from_usize(3), 3);
    assert_eq!(<Avx2 as SimdElem<u64>>::wrapping_add_one(u64::MAX), 0);
    assert_eq!(<Avx2 as SimdElem<u64>>::wrapping_add_one(41), 42);
    assert_eq!(<Neon as SimdElem<i32>>::wrapping_add_one(i32::MAX), i32::MIN);
}

#[test]
fn partition_fast_splits_lanes() {
    let vals = <Avx2 as SimdElem<u64>>::simd_from_slice(&[5, 1, 7, 3]);
    let thr = <Avx2 as SimdElem<u64>>::splat(4);
    let mut v = vec![0u64; 6];
    let mut w = vec![0u64; 6];
    let mut vi = 1usize;
    let mut wi = 0usize;
    <Avx2 as SimdElem<u64>>::partition_fast(vals, thr, &mut v, &mut vi, &mut w, &mut wi);
    assert_eq!(vi, 3);
    assert_eq!(wi, 2);
    assert_eq!(v, vec![0, 5, 7, 0, 0, 0]);
    assert_eq!(w, vec![1, 3, 0, 0, 0, 0]);
}

#[test]
fn partition_fast_equal_to_threshold_goes_up() {
    let vals = <Neon as SimdElem<i64>>::simd_from_slice(&[4, -4]);
    let thr = <Neon as SimdElem<i64>>::splat(4);
    let mut v = vec![9i64; 2];
    let mut w = vec![9i64; 2];
    let mut vi = 0usize;
    let mut wi = 0usize;
    <Neon as SimdElem<i64>>::partition_fast(vals, thr, &mut v, &mut vi, &mut w, &mut wi);
    assert_eq!((vi, wi), (1, 1));
    assert_eq!(v, vec![4, 9]);
    assert_eq!(w, vec![-4, 9]);
}

#[test]
fn partition_slow_ignores_lanes_out_of_range() {
    let vals = <Avx2 as SimdElem<u64>>::simd_from_slice(&[5, 1, 7, 3]);
    let len = <Avx2 as SimdElem<u64>>::splat(<Avx2 as SimdElem<u64>>::from_usize(3));
    let thr = <Avx2 as SimdElem<u64>>::splat(4);
    let mut v = vec![0u64; 4];
    let mut w = vec![0u64; 4];
    let mut vi = 0usize;
    let mut wi = 0usize;
    <Avx2 as SimdElem<u64>>::partition_slow(vals, len, thr, &mut v, &mut vi, &mut w, &mut wi);
    assert_eq!((vi, wi), (2, 1));
    assert_eq!(v, vec![5, 7, 0, 0]);
    assert_eq!(w, vec![1, 0, 0, 0]);
}

#[test]
fn partition_slow_wide_backend() {
    let src: Vec<u32> = (0..16u32).map(|x| (x * 7) % 16).collect();
    let vals = <Avx512<true> as SimdElem<u32>>::simd_from_slice(&src);
    let len = <Avx512<true> as SimdElem<u32>>::splat(10);
    let thr = <Avx512<true> as SimdElem<u32>>::splat(8);
    let mut v = vec![99u32; 16];
    let mut w = vec![99u32; 16];
    let mut vi = 0usize;
    let mut wi = 0usize;
    <Avx512<true> as SimdElem<u32>>::partition_slow(vals, len, thr, &mut v, &mut vi, &mut w, &mut wi);
    let large: Vec<u32> = src[..10].iter().copied().filter(|&x| x >= 8).collect();
    let small: Vec<u32> = src[..10].iter().copied().filter(|&x| x < 8).collect();
    assert_eq!(&v[..vi], &large[..]);
    assert_eq!(&w[..wi], &small[..]);
    assert!(v[vi..].iter().all(|&x| x == 99));
    assert!(w[wi..].iter().all(|&x| x == 99));
}

#[test]
fn empty_heap_pops_none() {
    let mut q = <ConfigurableSimdQuickHeap<u64, Avx2>>::default();
    assert_eq!(q.pop(), None);
    q.push(3);
    assert_eq!(q.pop(), Some(3));
    assert_eq!(q.pop(), None);
}

#[test]
fn heap_keeps_duplicates() {
    let mut q = <ConfigurableSimdQuickHeap<u32, Neon>>::default();
    for x in [5u32, 1, 5, 1, 5, 3, 3, 0, 0, 9] {
        q.push(x);
    }
    let mut out = vec![];
    while let Some(x) = q.pop() {
        out.push(x);
    }
    assert_eq!(out, vec![0, 0, 1, 1, 3, 3, 5, 5, 5, 9]);
}

#[test]
fn heap_sorts_signed_keys_past_the_scan_limit() {
    let mut q = <ConfigurableSimdQuickHeap<i32, Avx512<true>>>::default();
    let input: Vec<i32> = (0..500).map(|i: i32| (i * 7919) % 1000 - 500).collect();
    for &x in &input {
        q.push(x);
    }
    let mut sorted = input.clone();
    sorted.sort();
    let mut out = vec![];
    for _ in 0..input.len() {
        out.push(q.pop().unwrap());
    }
    assert_eq!(out, sorted);
    assert_eq!(q.pop(), None);
}

#[test]
fn heap_interleaves_pushes_and_pops() {
    let mut q = <ConfigurableSimdQuickHeap<i64, Avx2>>::default();
    for x in (0..100i64).rev() {
        q.push(x);
    }
    assert_eq!(q.pop(), Some(0));
    assert_eq!(q.pop(), Some(1));
    q.push(-1);
    q.push(1);
    assert_eq!(q.pop(), Some(-1));
    assert_eq!(q.pop(), Some(1));
    assert_eq!(q.pop(), Some(2));
    q.push(i64::MIN);
    q.push(i64::MAX);
    assert_eq!(q.pop(), Some(i64::MIN));
    let mut last = q.pop().unwrap();
    assert_eq!(last, 3);
    while let Some(x) = q.pop() {
        assert!(x >= last);
        last = x;
    }
    assert_eq!(last, i64::MAX);
}

#[test]
fn from_usize_wraps_like_as() {
    let n: usize = (u32::MAX as usize) + 6;
    assert_eq!(<Avx2 as SimdElem<u32>>::from_usize(n), n as u32);
    assert_eq!(<Avx2 as SimdElem<u32>>::from_usize(n), 5);
    assert_eq!(<Neon as SimdElem<i32>>::from_usize(n), n as i32);
    assert_eq!(<Avx512<false> as SimdElem<u64>>::from_usize(7), 7);
}
