use stat_core::{
    for_each_unrolled4, for_each_unrolled4_zip, simd_reduce, simd_reduce_zip, Block, Quad,
    SimdAccum4,
};
use wide::f64x4;

/// What one accumulator saw: how many chunks, and the first element of each.
#[derive(Clone, Copy, Debug, PartialEq)]
struct Seen {
    count: usize,
    firsts: [u32; 6],
}

fn see(mut seen: Seen, q: Quad<u32>) -> Seen {
    assert_eq!(q.e1, q.e0 + 1);
    assert_eq!(q.e2, q.e0 + 2);
    assert_eq!(q.e3, q.e0 + 3);
    seen.firsts[seen.count] = q.e0;
    seen.count += 1;
    seen
}

fn load(q: Quad<f64>) -> f64x4 {
    f64x4::new([q.e0, q.e1, q.e2, q.e3])
}

fn sum(data: &[f64]) -> f64 {
    if data.is_empty() {
        return 0.0;
    }
    simd_reduce(
        data,
        f64x4::ZERO,
        |acc: f64x4, q: Quad<f64>| acc + load(q),
        |acc: SimdAccum4<f64x4>| ((acc.v1 + acc.v2) + (acc.v3 + acc.v4)).reduce_add(),
        |acc: f64, value: f64| acc + value,
    )
}

fn dot(a: &[f64], b: &[f64]) -> f64 {
    simd_reduce_zip(
        a,
        b,
        f64x4::ZERO,
        |acc: f64x4, (qa, qb): (Quad<f64>, Quad<f64>)| acc + load(qa) * load(qb),
        |acc: SimdAccum4<f64x4>| ((acc.v1 + acc.v2) + (acc.v3 + acc.v4)).reduce_add(),
        |acc: f64, (x, y): (f64, f64)| x.mul_add(y, acc),
    )
}

#[test]
fn reduce_hands_each_chunk_to_its_lane() {
    let data: Vec<u32> = (0..43).collect();
    let empty = Seen { count: 0, firsts: [0; 6] };
    let (lanes, tail) = simd_reduce(
        &data,
        empty,
        see,
        |acc: SimdAccum4<Seen>| (acc, Vec::<u32>::new()),
        |(acc, mut tail): (SimdAccum4<Seen>, Vec<u32>), value: u32| {
            tail.push(value);
            (acc, tail)
        },
    );
    assert_eq!(lanes.v1, Seen { count: 4, firsts: [0, 16, 32, 36, 0, 0] });
    assert_eq!(lanes.v2, Seen { count: 2, firsts: [4, 20, 0, 0, 0, 0] });
    assert_eq!(lanes.v3, Seen { count: 2, firsts: [8, 24, 0, 0, 0, 0] });
    assert_eq!(lanes.v4, Seen { count: 2, firsts: [12, 28, 0, 0, 0, 0] });
    assert_eq!(tail, vec![40, 41, 42]);
}

#[test]
fn reduce_of_a_short_sample_is_the_tail_alone() {
    let data: Vec<u32> = vec![7, 8, 9];
    let empty = Seen { count: 0, firsts: [0; 6] };
    let (lanes, tail) = simd_reduce(
        &data,
        empty,
        see,
        |acc: SimdAccum4<Seen>| (acc, Vec::<u32>::new()),
        |(acc, mut tail): (SimdAccum4<Seen>, Vec<u32>), value: u32| {
            tail.push(value);
            (acc, tail)
        },
    );
    assert_eq!(lanes.v1.count + lanes.v2.count + lanes.v3.count + lanes.v4.count, 0);
    assert_eq!(tail, vec![7, 8, 9]);
}

#[test]
fn reduce_of_nothing_returns_the_reduced_seed() {
    let data: Vec<u32> = Vec::new();
    let out = simd_reduce(
        &data,
        5u64,
        |acc: u64, _q: Quad<u32>| acc + 1,
        |acc: SimdAccum4<u64>| acc.v1 + acc.v2 + acc.v3 + acc.v4,
        |acc: u64, _value: u32| acc + 1000,
    );
    assert_eq!(out, 20);
}

#[test]
fn for_each_walks_blocks_then_chunks_then_tail() {
    let data: Vec<u32> = (0..43).collect();
    let log = for_each_unrolled4(
        &data,
        Vec::<String>::new(),
        |mut log: Vec<String>, b: Block<u32>| {
            log.push(format!("block {} {} {} {}", b.q1.e0, b.q2.e0, b.q3.e0, b.q4.e3));
            log
        },
        |mut log: Vec<String>, q: Quad<u32>| {
            log.push(format!("chunk {}..{}", q.e0, q.e3));
            log
        },
        |mut log: Vec<String>, value: u32| {
            log.push(format!("tail {}", value));
            log
        },
    );
    assert_eq!(
        log,
        vec![
            "block 0 4 8 15",
            "block 16 20 24 31",
            "chunk 32..35",
            "chunk 36..39",
            "tail 40",
            "tail 41",
            "tail 42",
        ]
    );
}

#[test]
fn for_each_zip_pairs_the_two_samples_place_by_place() {
    let x: Vec<u32> = (0..21).collect();
    let y: Vec<u32> = (100..121).collect();
    let log = for_each_unrolled4_zip(
        &x,
        &y,
        Vec::<(u32, u32)>::new(),
        |mut log: Vec<(u32, u32)>, (bx, by): (Block<u32>, Block<u32>)| {
            log.push((bx.q1.e0, by.q1.e0));
            log.push((bx.q4.e3, by.q4.e3));
            log
        },
        |mut log: Vec<(u32, u32)>, (qx, qy): (Quad<u32>, Quad<u32>)| {
            log.push((qx.e0, qy.e0));
            log.push((qx.e3, qy.e3));
            log
        },
        |mut log: Vec<(u32, u32)>, pair: (u32, u32)| {
            log.push(pair);
            log
        },
    );
    assert_eq!(log, vec![(0, 100), (15, 115), (16, 116), (19, 119), (20, 120)]);
}

#[test]
fn vector_sum_of_three_is_six() {
    assert_eq!(sum(&[1.0, 2.0, 3.0]), 6.0);
    assert_eq!(sum(&[]), 0.0);
}

#[test]
fn vector_sum_covers_every_element_once() {
    for len in 0..70usize {
        let data: Vec<f64> = (0..len).map(|i| (i + 1) as f64).collect();
        let expected = (len * (len + 1) / 2) as f64;
        assert_eq!(sum(&data), expected, "length {}", len);
    }
}

#[test]
fn vector_sum_adds_lanes_pairwise() {
    // One element per lane position of the first vector register, the rest
    // zero: the result is ((v1 + v2) + (v3 + v4)) summed across the register.
    let big = 1.0e16;
    let mut data = vec![0.0; 16];
    data[0] = big;
    data[4] = 1.0;
    data[8] = -big;
    data[12] = 1.0;
    // (1e16 + 1) + (-1e16 + 1) = 1e16 + (-1e16) = 0 in double precision,
    // where a left-to-right sum would give 1.
    assert_eq!(sum(&data), 0.0);
}

#[test]
fn zipped_reduce_is_the_dot_product() {
    let a: Vec<f64> = (1..=21).map(|i| i as f64).collect();
    let b: Vec<f64> = (1..=21).map(|i| (2 * i) as f64).collect();
    // 2 * (1^2 + ... + 21^2) = 2 * 3311
    assert_eq!(dot(&a, &b), 6622.0);
    assert_eq!(dot(&[1.0, 2.0, 3.0], &[4.0, 5.0, 6.0]), 32.0);
}

#[test]
fn accumulators_fold_as_a_balanced_tree() {
    let acc = SimdAccum4 { v1: "a".to_string().len(), v2: 20, v3: 300, v4: 4000 };
    let shape = SimdAccum4::new(0u8);
    assert_eq!((shape.v1, shape.v2, shape.v3, shape.v4), (0, 0, 0, 0));
    assert_eq!(acc.fold_pairwise(|a: usize, b: usize| a + b), 4321);
    let names = SimdAccum4 { v1: 1i64, v2: 2, v3: 3, v4: 4 };
    // (1 - 2) - (3 - 4) = 0, while ((1 - 2) - 3) - 4 = -8
    assert_eq!(names.fold_pairwise(|a: i64, b: i64| a - b), 0);
    let q = Quad { e0: 8.0f64, e1: 2.0, e2: 9.0, e3: 3.0 };
    assert_eq!(q.fold_pairwise(f64::min), 2.0);
    assert_eq!(q.fold_pairwise(f64::max), 9.0);
    assert_eq!(q.fold_pairwise(|a: f64, b: f64| a / b), (8.0 / 2.0) / (9.0 / 3.0));
}
