//! Tests of the numeric substrate: dot products, metrics, the heap.

use hora::calc::{dot, get_norm, isqrt, same_dimension};
use hora::heap::{select_topk, BinaryHeap, BoundedTopK};
use hora::metrics::{angular_distance, cosine_similarity, dot_product, euclidean_distance,
    manhattan_distance, metric, metric_code, metric_from_code, range_metric, Metric};
use hora::neighbor::Neighbor;
use hora::node::MemoryNode;
use hora::AnnError;

#[test]
fn test_dot() {
    let a: Vec<i64> = vec![1, 2, 3];
    let b: Vec<i64> = vec![1, 2, 3];
    assert_eq!(dot(&a, &b).unwrap(), 14);
}

#[test]
fn node_test() {
    let v: Vec<i64> = vec![1, 1];
    let v2: Vec<i64> = vec![2, 2];
    let n = MemoryNode::new(&v);
    let n2 = MemoryNode::new(&v2);
    assert_eq!(n.metric(&n2, Metric::Manhattan).unwrap(), 2);
}

#[test]
fn metric_exact_values() {
    let a: Vec<i64> = vec![1, 2, 3];
    let b: Vec<i64> = vec![4, 6, 3];
    // euclidean: 9 + 16 + 0
    assert_eq!(euclidean_distance(&a, &b).unwrap(), 25);
    // manhattan: 3 + 4 + 0
    assert_eq!(manhattan_distance(&a, &b).unwrap(), 7);
    // negated dot: -(4 + 12 + 9)
    assert_eq!(dot_product(&a, &b).unwrap(), -25);
    // dispatch agrees
    assert_eq!(metric(&a, &b, Metric::Euclidean).unwrap(), 25);
    assert_eq!(metric(&a, &b, Metric::Manhattan).unwrap(), 7);
    assert_eq!(metric(&a, &b, Metric::DotProduct).unwrap(), -25);
}

#[test]
fn metric_self_is_closest() {
    // metric(v, v) <= 0 for every configured metric on a non-degenerate v
    let v: Vec<i64> = vec![3, -4, 12];
    assert_eq!(metric(&v, &v, Metric::Euclidean).unwrap(), 0);
    assert_eq!(metric(&v, &v, Metric::Manhattan).unwrap(), 0);
    assert!(metric(&v, &v, Metric::DotProduct).unwrap() <= 0);
    // cosine of a vector with itself is exactly -COS_SCALE
    assert_eq!(metric(&v, &v, Metric::CosineSimilarity).unwrap(), -hora::COS_SCALE);
    assert_eq!(metric(&v, &v, Metric::Angular).unwrap(), 0);
}

#[test]
fn metric_symmetry_bit_exact() {
    let a: Vec<i64> = vec![10, -7, 200, 35];
    let b: Vec<i64> = vec![-3, 18, 44, -90];
    assert_eq!(
        metric(&a, &b, Metric::Euclidean).unwrap(),
        metric(&b, &a, Metric::Euclidean).unwrap()
    );
    assert_eq!(
        metric(&a, &b, Metric::Manhattan).unwrap(),
        metric(&b, &a, Metric::Manhattan).unwrap()
    );
}

#[test]
fn metric_errors() {
    let a: Vec<i64> = vec![1, 2, 3];
    let c: Vec<i64> = vec![1, 2];
    assert_eq!(metric(&a, &c, Metric::Euclidean), Err(AnnError::DimensionMismatch));
    assert_eq!(metric(&a, &a, Metric::Unknown), Err(AnnError::MetricUnset));
    assert_eq!(same_dimension(&a, &c), Err(AnnError::DimensionMismatch));
    assert!(same_dimension(&a, &a).is_ok());
}

#[test]
fn cosine_known_value() {
    // orthogonal vectors: cosine term is 0, angular is exactly 2 * COS_SCALE
    let a: Vec<i64> = vec![5, 0];
    let b: Vec<i64> = vec![0, 7];
    assert_eq!(cosine_similarity(&a, &b).unwrap(), 0);
    assert_eq!(angular_distance(&a, &b).unwrap(), 2 * hora::COS_SCALE);
    // opposite vectors: cosine +COS_SCALE, angular 4 * COS_SCALE
    let c: Vec<i64> = vec![-5, 0];
    assert_eq!(cosine_similarity(&a, &c).unwrap(), hora::COS_SCALE);
    assert_eq!(angular_distance(&a, &c).unwrap(), 4 * hora::COS_SCALE);
}

#[test]
fn range_metric_window() {
    let a: Vec<i64> = vec![9, 1, 2, 9];
    let b: Vec<i64> = vec![7, 1, 2, 3];
    // only the middle window [1, 3) is compared
    assert_eq!(range_metric(&a, &b, Metric::Euclidean, 1, 3).unwrap(), 0);
}

#[test]
fn isqrt_and_norm() {
    assert_eq!(isqrt(0), 0);
    assert_eq!(isqrt(1), 1);
    assert_eq!(isqrt(15), 3);
    assert_eq!(isqrt(16), 4);
    assert_eq!(isqrt(u64::MAX as u128), 4294967295);
    let v: Vec<i64> = vec![3, 4];
    assert_eq!(get_norm(&v).unwrap(), 5);
}

#[test]
fn metric_code_roundtrip() {
    let all = [Metric::Unknown, Metric::Manhattan, Metric::DotProduct, Metric::Euclidean,
        Metric::CosineSimilarity, Metric::Angular];
    for m in all {
        assert_eq!(metric_from_code(metric_code(m)), m);
    }
}

#[test]
fn heap_orders_by_distance() {
    let mut h = BinaryHeap::new();
    assert!(h.is_empty());
    h.push(Neighbor::new(0, 5));
    h.push(Neighbor::new(1, 2));
    h.push(Neighbor::new(2, 9));
    h.push(Neighbor::new(3, 1));
    assert_eq!(h.len(), 4);
    assert_eq!(h.peek().unwrap().distance(), 9);
    let sorted = h.into_sorted_vec();
    let d: Vec<i64> = sorted.iter().map(|n| n.distance()).collect();
    assert_eq!(d, vec![1, 2, 5, 9]);
}

#[test]
fn heap_pop_returns_max() {
    let mut h = BinaryHeap::with_capacity(4);
    h.push(Neighbor::new(7, 3));
    h.push(Neighbor::new(8, 11));
    assert_eq!(h.pop().unwrap().distance(), 11);
    assert_eq!(h.pop().unwrap().distance(), 3);
    assert!(h.pop().is_none());
    h.push(Neighbor::new(9, 1));
    h.clear();
    assert!(h.is_empty());
    let mut h2 = BinaryHeap::new();
    h2.reserve(16);
    h2.push(Neighbor::new(1, 4));
    assert_eq!(h2.into_vec().len(), 1);
}

#[test]
fn bounded_topk_keeps_smallest() {
    let mut t = BoundedTopK::new(3);
    for (i, d) in [(0usize, 50i64), (1, 10), (2, 40), (3, 20), (4, 30)] {
        t.push(Neighbor::new(i, d));
    }
    let r = t.into_sorted_vec();
    let d: Vec<i64> = r.iter().map(|n| n.distance()).collect();
    assert_eq!(d, vec![10, 20, 30]);
}

#[test]
fn select_topk_is_exact() {
    let cands = vec![
        Neighbor::new(0, 7),
        Neighbor::new(1, 3),
        Neighbor::new(2, 9),
        Neighbor::new(3, 5),
    ];
    let r = select_topk(&cands, 2);
    assert_eq!(r.len(), 2);
    assert_eq!(r[0].idx(), 1);
    assert_eq!(r[0].distance(), 3);
    assert_eq!(r[1].idx(), 3);
    assert_eq!(r[1].distance(), 5);
}

#[test]
fn lane_parallel_dot_matches_scalar() {
    // 19 elements: two full 8-wide chunks plus a 3-element tail
    let a: Vec<i64> = (0..19).map(|i| (i * 37 - 300) as i64).collect();
    let b: Vec<i64> = (0..19).map(|i| (1000 - i * 53) as i64).collect();
    assert_eq!(
        hora::simd_metrics::dot_product(&a, &b).unwrap(),
        hora::calc::dot(&a, &b).unwrap()
    );
    let short: Vec<i64> = vec![1, 2];
    assert!(hora::simd_metrics::dot_product(&a, &short).is_err());
}

#[test]
fn node_accessors() {
    let v: Vec<i64> = vec![1, 2];
    let mut n = MemoryNode::new_with_idx(&v, 42);
    assert_eq!(n.idx(), Some(42));
    assert_eq!(n.len(), 2);
    assert!(!n.is_empty());
    assert_eq!(n.vectors().clone(), v);
    n.set_idx(7);
    assert_eq!(n.idx(), Some(7));
    let w: Vec<i64> = vec![5, 6];
    n.set_vectors(&w);
    assert_eq!(n.vectors().clone(), w);
    assert!(MemoryNode::valid_elements(&v));
    let bad: Vec<i64> = vec![hora::COMPONENT_LIMIT + 1];
    assert!(!MemoryNode::valid_elements(&bad));
}
