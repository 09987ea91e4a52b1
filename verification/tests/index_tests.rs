//! End-to-end tests of the six indexes: exactness of the brute-force
//! oracle, boundary cases, recall on clustered data, persistence, the
//! tombstone rules and build reproducibility.

use hora::bpt_idx::BPTIndex;
use hora::bpt_params::BPTParams;
use hora::bruteforce_idx::BruteForceIndex;
use hora::bruteforce_params::BruteForceParams;
use hora::hnsw_idx::HNSWIndex;
use hora::hnsw_params::HNSWParams;
use hora::metrics::Metric;
use hora::pq_idx::{IVFPQIndex, PQIndex};
use hora::pq_params::{IVFPQParams, PQParams};
use hora::ssg_idx::SSGIndex;
use hora::ssg_params::SSGParams;
use hora::AnnError;
use rand::rngs::StdRng;
use rand::{Rng, SeedableRng};
use std::collections::HashSet;

fn gaussian_clusters(seed: u64, n_centers: usize, per_center: usize, dim: usize) -> Vec<Vec<i64>> {
    let mut rng = StdRng::seed_from_u64(seed);
    let mut out = Vec::new();
    for _c in 0..n_centers {
        let center: Vec<i64> = (0..dim).map(|_| rng.gen_range(0..100000i64)).collect();
        for _p in 0..per_center {
            let v: Vec<i64> = center.iter().map(|x| x + rng.gen_range(-3..=3i64)).collect();
            out.push(v);
        }
    }
    out
}

fn uniform_points(seed: u64, n: usize, dim: usize, range: i64) -> Vec<Vec<i64>> {
    let mut rng = StdRng::seed_from_u64(seed);
    (0..n).map(|_| (0..dim).map(|_| rng.gen_range(0..range)).collect()).collect()
}

fn brute_force(data: &[Vec<i64>], dim: usize) -> BruteForceIndex {
    let mut bf = BruteForceIndex::new(dim, &BruteForceParams::default());
    for (i, v) in data.iter().enumerate() {
        bf.add(v, i as u64).unwrap();
    }
    bf.build(Metric::Euclidean).unwrap();
    bf
}

fn recall_at_10(truth: &BruteForceIndex, approx: &[Vec<u64>], data: &[Vec<i64>]) -> f64 {
    let mut hit = 0usize;
    let mut total = 0usize;
    for (q, found) in data.iter().zip(approx.iter()) {
        let base: HashSet<u64> = truth.search(q, 10).into_iter().collect();
        total += base.len();
        hit += found.iter().filter(|id| base.contains(id)).count();
    }
    hit as f64 / total as f64
}

#[test]
fn brute_force_exact_small() {
    // hand-checkable: three points on a line
    let data = vec![vec![0i64, 0], vec![10, 0], vec![3, 0]];
    let bf = brute_force(&data, 2);
    let r = bf.search_full(&[1, 0], 2);
    assert_eq!(r.len(), 2);
    assert_eq!(r[0].0.idx(), Some(0));
    assert_eq!(r[0].1, 1);
    assert_eq!(r[1].0.idx(), Some(2));
    assert_eq!(r[1].1, 4);
    // results sorted ascending and distinct
    let ids = bf.search(&[1, 0], 3);
    assert_eq!(ids.len(), 3);
    let distinct: HashSet<u64> = ids.iter().cloned().collect();
    assert_eq!(distinct.len(), 3);
}

#[test]
fn brute_force_matches_manual_top_k() {
    let data = uniform_points(11, 200, 6, 1000);
    let bf = brute_force(&data, 6);
    let q: Vec<i64> = vec![500, 500, 500, 500, 500, 500];
    let got = bf.search_full(&q, 7);
    // manual exhaustive scan
    let mut dists: Vec<(i64, usize)> = data
        .iter()
        .enumerate()
        .map(|(i, v)| (v.iter().zip(q.iter()).map(|(a, b)| (a - b) * (a - b)).sum::<i64>(), i))
        .collect();
    dists.sort();
    assert_eq!(got.len(), 7);
    for j in 0..7 {
        assert_eq!(got[j].1, dists[j].0);
    }
    for w in got.windows(2) {
        assert!(w[0].1 <= w[1].1);
    }
}

#[test]
fn invalid_vector_rejected() {
    // the fixed-point counterpart of NaN / infinity: out-of-range parts
    let mut bf = BruteForceIndex::new(2, &BruteForceParams::default());
    assert_eq!(bf.add(&[hora::COMPONENT_LIMIT + 1, 0], 0), Err(AnnError::InvalidVector));
    assert_eq!(bf.add(&[0, -hora::COMPONENT_LIMIT - 5], 1), Err(AnnError::InvalidVector));
    assert_eq!(bf.add(&[1, 2, 3], 2), Err(AnnError::DimensionMismatch));
    assert_eq!(bf.nodes_size(), 0);
    assert!(bf.add(&[1, 2], 3).is_ok());
    let mut hnsw = HNSWIndex::new(2, &HNSWParams::default());
    assert_eq!(hnsw.add(&[hora::COMPONENT_LIMIT + 1, 0], 0), Err(AnnError::InvalidVector));
    let mut pq = PQIndex::new(2, &PQParams::default().n_sub(1));
    assert_eq!(pq.add(&[hora::COMPONENT_LIMIT + 1, 0], 0), Err(AnnError::InvalidVector));
}

#[test]
fn oversized_k_returns_all() {
    let data = uniform_points(3, 9, 4, 500);
    let bf = brute_force(&data, 4);
    let r = bf.search(&[1, 2, 3, 4], 50);
    assert_eq!(r.len(), bf.nodes_size());
    let mut hnsw = HNSWIndex::new(4, &HNSWParams::default().n_neighbor(8).n_neighbor0(
        16).ef_build(16));
    for (i, v) in data.iter().enumerate() {
        hnsw.add(v, i as u64).unwrap();
    }
    hnsw.build(Metric::Euclidean).unwrap();
    let r2 = hnsw.search(&[1, 2, 3, 4], 50);
    assert_eq!(r2.len(), hnsw.nodes_size());
    let mut ssg = SSGIndex::new(4, &SSGParams::default().init_k(8).index_size(
        8).neighbor_neighbor_size(8).root_size(4));
    let mut bpt = BPTIndex::new(4, &BPTParams::default().tree_num(4).candidate_size(0));
    let mut pq = PQIndex::new(4, &PQParams::default().n_sub(2).sub_bits(2).train_epoch(10));
    for (i, v) in data.iter().enumerate() {
        ssg.add(v, i as u64).unwrap();
        bpt.add(v, i as u64).unwrap();
        pq.add(v, i as u64).unwrap();
    }
    ssg.build(Metric::Euclidean).unwrap();
    bpt.build(Metric::Euclidean).unwrap();
    pq.build(Metric::Euclidean).unwrap();
    assert_eq!(ssg.search(&[1, 2, 3, 4], 50).len(), ssg.nodes_size());
    assert_eq!(bpt.search(&[1, 2, 3, 4], 50).len(), bpt.nodes_size());
    assert_eq!(pq.search(&[1, 2, 3, 4], 50).len(), pq.nodes_size());
}

#[test]
fn identity_search_returns_self() {
    let data = uniform_points(17, 100, 8, 100000);
    let dim = 8;
    let bf = brute_force(&data, dim);
    let mut hnsw = HNSWIndex::new(dim, &HNSWParams::default().n_neighbor(16).n_neighbor0(
        32).ef_build(64).ef_search(32));
    let mut ssg = SSGIndex::new(dim, &SSGParams::default().init_k(30).index_size(
        30).neighbor_neighbor_size(30).root_size(10));
    let mut bpt = BPTIndex::new(dim, &BPTParams::default().tree_num(4).candidate_size(100));
    for (i, v) in data.iter().enumerate() {
        hnsw.add(v, i as u64).unwrap();
        ssg.add(v, i as u64).unwrap();
        bpt.add(v, i as u64).unwrap();
    }
    hnsw.build(Metric::Euclidean).unwrap();
    ssg.build(Metric::Euclidean).unwrap();
    bpt.build(Metric::Euclidean).unwrap();
    for (i, v) in data.iter().enumerate() {
        assert_eq!(bf.search(v, 1), vec![i as u64]);
        assert_eq!(hnsw.search(v, 1), vec![i as u64]);
        assert_eq!(ssg.search(v, 1), vec![i as u64]);
        assert_eq!(bpt.search(v, 1), vec![i as u64]);
    }
}

#[test]
fn dump_and_load_is_query_indistinguishable() {
    let data = uniform_points(23, 120, 5, 10000);
    let bf = brute_force(&data, 5);
    let parts = bf.to_parts();
    let bytes = bincode::serialize(&parts).unwrap();
    let decoded: (Vec<Vec<i64>>, Vec<u64>, usize, u8) = bincode::deserialize(&bytes).unwrap();
    let restored = BruteForceIndex::from_parts(&decoded.0, &decoded.1, decoded.2, decoded.3)
        .unwrap();
    let queries = uniform_points(29, 100, 5, 10000);
    for q in queries.iter() {
        let a = bf.search_full(q, 10);
        let b = restored.search_full(q, 10);
        assert_eq!(a.len(), b.len());
        // identical distances; ids may differ only by equal-distance ties
        for (x, y) in a.iter().zip(b.iter()) {
            assert_eq!(x.1, y.1);
        }
    }
}

#[test]
fn bpt_build_is_reproducible() {
    let data = uniform_points(31, 300, 10, 100000);
    let params = BPTParams::default().tree_num(4).candidate_size(200);
    let mut one = BPTIndex::new(10, &params);
    let mut two = BPTIndex::new(10, &params);
    for (i, v) in data.iter().enumerate() {
        one.add(v, i as u64).unwrap();
        two.add(v, i as u64).unwrap();
    }
    one.build(Metric::Euclidean).unwrap();
    two.build(Metric::Euclidean).unwrap();
    assert_eq!(one.roots(), two.roots());
    assert_eq!(one.get_n_tree(), 4);
    let queries = uniform_points(37, 50, 10, 100000);
    for q in queries.iter() {
        assert_eq!(one.search(q, 10), two.search(q, 10));
    }
}

#[test]
fn bpt_double_build_fails() {
    let data = uniform_points(41, 20, 4, 1000);
    let mut bpt = BPTIndex::new(4, &BPTParams::default().tree_num(2));
    for (i, v) in data.iter().enumerate() {
        bpt.add(v, i as u64).unwrap();
    }
    assert!(!bpt.built());
    bpt.build(Metric::Euclidean).unwrap();
    assert!(bpt.built());
    assert_eq!(bpt.build(Metric::Euclidean), Err(AnnError::AlreadyBuilt));
}

#[test]
fn hnsw_tombstones_hide_deleted_ids() {
    let dim = 6;
    let data = uniform_points(43, 1000, dim, 100000);
    let params = HNSWParams::default().n_neighbor(16).n_neighbor0(32).ef_build(48).ef_search(
        48).has_deletion(true);
    let mut hnsw = HNSWIndex::new(dim, &params);
    for (i, v) in data.iter().enumerate() {
        hnsw.add(v, i as u64).unwrap();
    }
    hnsw.build(Metric::Euclidean).unwrap();
    let mut rng = StdRng::seed_from_u64(47);
    let mut deleted: HashSet<u64> = HashSet::new();
    while deleted.len() < 500 {
        let id = rng.gen_range(0..1000usize);
        if deleted.insert(id as u64) {
            hnsw.delete_id(id).unwrap();
        }
    }
    // every search returns only surviving ids
    let queries = uniform_points(53, 100, dim, 100000);
    let mut hit = 0usize;
    let mut total = 0usize;
    for q in queries.iter() {
        let found = hnsw.search(q, 10);
        for id in found.iter() {
            assert!(!deleted.contains(id));
        }
        // recall among survivors
        let bf = {
            let mut exact: Vec<(i64, u64)> = data
                .iter()
                .enumerate()
                .filter(|(i, _)| !deleted.contains(&(*i as u64)))
                .map(|(i, v)| {
                    (v.iter().zip(q.iter()).map(|(a, b)| (a - b) * (a - b)).sum::<i64>(),
                        i as u64)
                })
                .collect();
            exact.sort();
            exact.truncate(10);
            exact.into_iter().map(|(_, i)| i).collect::<HashSet<u64>>()
        };
        total += bf.len();
        hit += found.iter().filter(|id| bf.contains(id)).count();
    }
    assert!(hit as f64 / total as f64 >= 0.75);
}

#[test]
fn hnsw_all_deleted_returns_empty() {
    let dim = 4;
    let data = uniform_points(59, 50, dim, 1000);
    let params = HNSWParams::default().n_neighbor(8).n_neighbor0(16).ef_build(16).has_deletion(
        true);
    let mut hnsw = HNSWIndex::new(dim, &params);
    for (i, v) in data.iter().enumerate() {
        hnsw.add(v, i as u64).unwrap();
    }
    hnsw.build(Metric::Euclidean).unwrap();
    for i in 0..50 {
        hnsw.delete_id(i).unwrap();
    }
    let r = hnsw.search(&[1, 2, 3, 4], 10);
    assert_eq!(r.len(), 0);
}

#[test]
fn pq_unique_vectors_get_unique_codes() {
    // one subspace, enough bits for one centroid per point
    let dim = 4;
    let n = 8usize;
    let mut data: Vec<Vec<i64>> = Vec::new();
    for i in 0..n {
        // far-separated corners
        data.push((0..dim).map(|d| ((i as i64 >> d) & 1) * 100000).collect());
    }
    let params = PQParams::default().n_sub(1).sub_bits(3).train_epoch(80);
    let mut pq = PQIndex::new(dim, &params);
    for (i, v) in data.iter().enumerate() {
        pq.add(v, i as u64).unwrap();
    }
    pq.build(Metric::Euclidean).unwrap();
    let codes = pq.assigned_codes(0);
    let distinct: HashSet<usize> = codes.iter().cloned().collect();
    assert_eq!(distinct.len(), n);
}

#[test]
fn ivfpq_visits_most_buckets() {
    let dim = 4;
    let data = uniform_points(61, 10000, dim, 100000);
    let params = IVFPQParams::default().n_sub(2).sub_bits(4).n_kmeans_center(
        16).search_n_center(4).train_epoch(5);
    let mut ivf = IVFPQIndex::new(dim, &params);
    for (i, v) in data.iter().enumerate() {
        ivf.add(v, i as u64).unwrap();
    }
    ivf.build(Metric::Euclidean).unwrap();
    let queries = uniform_points(67, 1000, dim, 100000);
    let mut visited: HashSet<usize> = HashSet::new();
    for q in queries.iter() {
        let qn = hora::node::MemoryNode::new(q);
        for b in ivf.nearest_centers(&qn, 4) {
            visited.insert(b);
        }
    }
    // >= 90% of the 16 buckets are visited across the query set
    assert!(visited.len() * 10 >= 16 * 9);
}

#[test]
fn gaussian_cluster_recall() {
    // 50 cluster centres, 10 points each; every index must reach 80%
    // recall@10 against the brute-force oracle
    let dim = 10;
    let data = gaussian_clusters(71, 50, 10, dim);
    let bf = brute_force(&data, dim);
    let mut hnsw = HNSWIndex::new(dim, &HNSWParams::default());
    let mut ssg = SSGIndex::new(dim, &SSGParams::default());
    let mut bpt = BPTIndex::new(dim, &BPTParams::default().tree_num(16).candidate_size(0));
    let mut pq = PQIndex::new(dim, &PQParams::default());
    let params_ivf = IVFPQParams::default().n_kmeans_center(16).search_n_center(8).train_epoch(
        20);
    let mut ivf = IVFPQIndex::new(dim, &params_ivf);
    for (i, v) in data.iter().enumerate() {
        hnsw.add(v, i as u64).unwrap();
        ssg.add(v, i as u64).unwrap();
        bpt.add(v, i as u64).unwrap();
        pq.add(v, i as u64).unwrap();
        ivf.add(v, i as u64).unwrap();
    }
    hnsw.build(Metric::Euclidean).unwrap();
    ssg.build(Metric::Euclidean).unwrap();
    bpt.build(Metric::Euclidean).unwrap();
    pq.build(Metric::Euclidean).unwrap();
    ivf.build(Metric::Euclidean).unwrap();

    let hnsw_found: Vec<Vec<u64>> = data.iter().map(|q| hnsw.search(q, 10)).collect();
    let ssg_found: Vec<Vec<u64>> = data.iter().map(|q| ssg.search(q, 10)).collect();
    let bpt_found: Vec<Vec<u64>> = data.iter().map(|q| bpt.search(q, 10)).collect();
    let pq_found: Vec<Vec<u64>> = data.iter().map(|q| pq.search(q, 10)).collect();
    let ivf_found: Vec<Vec<u64>> = data.iter().map(|q| ivf.search(q, 10)).collect();
    assert!(recall_at_10(&bf, &hnsw_found, &data) >= 0.80);
    assert!(recall_at_10(&bf, &ssg_found, &data) >= 0.80);
    assert!(recall_at_10(&bf, &bpt_found, &data) >= 0.80);
    assert!(recall_at_10(&bf, &pq_found, &data) >= 0.80);
    assert!(recall_at_10(&bf, &ivf_found, &data) >= 0.80);
}

#[test]
fn gaussian_companions_found() {
    // 50 centres, 3 points each: querying any point for its 10 nearest
    // must return its same-cluster companions nearly always
    let dim = 10;
    let data = gaussian_clusters(73, 50, 3, dim);
    let bf = brute_force(&data, dim);
    let mut companion_hits = 0usize;
    let mut companion_total = 0usize;
    for (i, q) in data.iter().enumerate() {
        let cluster = (i / 3) * 3;
        let found: HashSet<u64> = bf.search(q, 10).into_iter().collect();
        for other in cluster..cluster + 3 {
            if other != i {
                companion_total += 1;
                if found.contains(&(other as u64)) {
                    companion_hits += 1;
                }
            }
        }
    }
    assert!(companion_hits * 10 >= companion_total * 8);
}

#[test]
fn add_batch_and_clear() {
    let mut bf = BruteForceIndex::new(2, &BruteForceParams::default());
    let vss = vec![vec![1i64, 2], vec![3, 4]];
    let ids = vec![10u64, 11];
    bf.add_batch(&vss, &ids).unwrap();
    assert_eq!(bf.nodes_size(), 2);
    // a batch with one bad vector changes nothing
    let bad = vec![vec![1i64, 2], vec![1, 2, 3]];
    assert_eq!(bf.add_batch(&bad, &ids), Err(AnnError::DimensionMismatch));
    assert_eq!(bf.nodes_size(), 2);
    bf.build(Metric::Euclidean).unwrap();
    assert!(bf.built());
    bf.clear();
    assert_eq!(bf.nodes_size(), 0);
    assert!(!bf.built());
}

#[test]
fn ssg_parts_round_trip_preserves_queries() {
    let data = uniform_points(41, 80, 6, 10000);
    let params = SSGParams::default().init_k(20).index_size(20).neighbor_neighbor_size(
        20).root_size(5);
    let mut ssg = SSGIndex::new(6, &params);
    for (i, v) in data.iter().enumerate() {
        ssg.add(v, i as u64).unwrap();
    }
    ssg.build(Metric::Euclidean).unwrap();
    let (vecs, ids, graph, roots, dim, code) = ssg.to_parts();
    let restored = SSGIndex::from_parts(&vecs, &ids, &graph, &roots, dim, code, &params).unwrap();
    assert!(restored.built());
    for q in data.iter().take(20) {
        assert_eq!(ssg.search(q, 5), restored.search(q, 5));
    }
}

#[test]
fn ssg_parts_rejects_dangling_edge() {
    let data = uniform_points(43, 10, 4, 1000);
    let params = SSGParams::default().init_k(5).index_size(5).neighbor_neighbor_size(
        5).root_size(2);
    let mut ssg = SSGIndex::new(4, &params);
    for (i, v) in data.iter().enumerate() {
        ssg.add(v, i as u64).unwrap();
    }
    ssg.build(Metric::Euclidean).unwrap();
    let (vecs, ids, mut graph, roots, dim, code) = ssg.to_parts();
    graph[0].push(vecs.len()); // one past the last node
    assert!(SSGIndex::from_parts(&vecs, &ids, &graph, &roots, dim, code, &params).is_err());
}

#[test]
fn hnsw_parts_round_trip_preserves_queries() {
    let data = uniform_points(47, 90, 6, 10000);
    let params = HNSWParams::default().n_neighbor(12).n_neighbor0(24).ef_build(48).ef_search(24);
    let mut hnsw = HNSWIndex::new(6, &params);
    for (i, v) in data.iter().enumerate() {
        hnsw.add(v, i as u64).unwrap();
    }
    hnsw.build(Metric::Euclidean).unwrap();
    let parts = hnsw.to_parts();
    let restored = HNSWIndex::from_parts(&parts, &params).unwrap();
    for q in data.iter().take(20) {
        assert_eq!(hnsw.search(q, 5), restored.search(q, 5));
    }
}

#[test]
fn hnsw_parts_rejects_oversized_row() {
    let data = uniform_points(53, 12, 4, 1000);
    let params = HNSWParams::default().n_neighbor(4).n_neighbor0(4).ef_build(16).ef_search(16);
    let mut hnsw = HNSWIndex::new(4, &params);
    for (i, v) in data.iter().enumerate() {
        hnsw.add(v, i as u64).unwrap();
    }
    hnsw.build(Metric::Euclidean).unwrap();
    let mut parts = hnsw.to_parts();
    parts.layer0[0] = vec![0, 1, 2, 3, 4, 5]; // longer than the layer-0 cap
    assert!(HNSWIndex::from_parts(&parts, &params).is_err());
}

#[test]
fn pq_parts_round_trip_preserves_queries() {
    let data = uniform_points(59, 60, 4, 100000);
    let params = PQParams::default().n_sub(2).sub_bits(3).train_epoch(40);
    let mut pq = PQIndex::new(4, &params);
    for (i, v) in data.iter().enumerate() {
        pq.add(v, i as u64).unwrap();
    }
    pq.build(Metric::Euclidean).unwrap();
    let parts = pq.to_parts();
    let restored = PQIndex::from_parts(&parts, &params).unwrap();
    for q in data.iter().take(20) {
        assert_eq!(pq.search(q, 5), restored.search(q, 5));
    }
}

#[test]
fn pq_parts_rejects_out_of_range_code() {
    let data = uniform_points(61, 20, 4, 100000);
    let params = PQParams::default().n_sub(2).sub_bits(2).train_epoch(20);
    let mut pq = PQIndex::new(4, &params);
    for (i, v) in data.iter().enumerate() {
        pq.add(v, i as u64).unwrap();
    }
    pq.build(Metric::Euclidean).unwrap();
    let mut parts = pq.to_parts();
    parts.assigned[0][0] = 4; // codebook holds only four centroids
    assert!(PQIndex::from_parts(&parts, &params).is_err());
}

#[test]
fn add_batch_on_every_index() {
    let data = uniform_points(67, 30, 4, 10000);
    let ids: Vec<u64> = (0..30u64).collect();
    let mut hnsw = HNSWIndex::new(4, &HNSWParams::default());
    let mut ssg = SSGIndex::new(4, &SSGParams::default());
    let mut bpt = BPTIndex::new(4, &BPTParams::default());
    let mut pq = PQIndex::new(4, &PQParams::default().n_sub(2).sub_bits(2));
    let mut ivfpq = IVFPQIndex::new(4, &IVFPQParams::default().n_sub(2).sub_bits(2));
    hnsw.add_batch(&data, &ids).unwrap();
    ssg.add_batch(&data, &ids).unwrap();
    bpt.add_batch(&data, &ids).unwrap();
    pq.add_batch(&data, &ids).unwrap();
    ivfpq.add_batch(&data, &ids).unwrap();
    assert_eq!(hnsw.nodes_size(), 30);
    assert_eq!(ssg.nodes_size(), 30);
    assert_eq!(pq.nodes_size(), 30);
    // a bad row rejects the whole batch, leaving the index unchanged
    let mut bad = data.clone();
    bad.push(vec![1, 2, 3]); // wrong dimension
    let bad_ids: Vec<u64> = (0..31u64).collect();
    assert!(hnsw.add_batch(&bad, &bad_ids).is_err());
    assert_eq!(hnsw.nodes_size(), 30);
}
