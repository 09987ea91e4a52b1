//! The whole-suite exercises: seed-selection k-means over clustered
//! data, and every index built over one clustered data set with recall
//! measured against the brute-force oracle.

use hora::bruteforce_idx::BruteForceIndex;
use hora::bruteforce_params::BruteForceParams;
use hora::hnsw_idx::HNSWIndex;
use hora::hnsw_params::HNSWParams;
use hora::kmeans::general_kmeans;
use hora::metrics::Metric;
use hora::node::MemoryNode;
use hora::pq_idx::PQIndex;
use hora::pq_params::PQParams;
use hora::ssg_idx::SSGIndex;
use hora::ssg_params::SSGParams;
use rand::rngs::StdRng;
use rand::{Rng, SeedableRng};
use std::collections::HashSet;

fn make_normal_distribution_clustering(clustering_n: usize, node_n: usize, dimension: usize,
    range: i64, seed: u64) -> (Vec<Vec<i64>>, Vec<Vec<i64>>) {
    let mut rng = StdRng::seed_from_u64(seed);
    let mut bases: Vec<Vec<i64>> = Vec::new();
    let mut ns: Vec<Vec<i64>> = Vec::new();
    for _i in 0..clustering_n {
        let base: Vec<i64> = (0..dimension).map(|_| rng.gen_range(0..range)).collect();
        for _j in 0..node_n {
            let v: Vec<i64> = base.iter().map(|x| x + rng.gen_range(-2..=2i64)).collect();
            ns.push(v);
        }
        bases.push(base);
    }
    (bases, ns)
}

#[test]
fn test_general_kmeans() {
    let dimension = 2;
    let nodes_every_cluster = 10;
    let node_n = 10;
    let (_, ns) = make_normal_distribution_clustering(node_n, nodes_every_cluster, dimension,
        100000, 5);
    let nodes: Vec<MemoryNode> = ns
        .iter()
        .enumerate()
        .map(|(idx, vs)| MemoryNode::new_with_idx(vs, idx as u64))
        .collect();
    let seeds = general_kmeans(node_n, 30, &nodes, Metric::Euclidean);
    assert_eq!(seeds.len(), node_n);
    for s in seeds.iter() {
        assert!(*s < nodes.len());
    }
}

#[test]
fn test_all_index() {
    let dimension = 10;
    let nodes_every_cluster = 3;
    let node_n = 400;
    let (_, ns) = make_normal_distribution_clustering(node_n, nodes_every_cluster, dimension,
        100000, 9);
    let mut bf_idx = BruteForceIndex::new(dimension, &BruteForceParams::default());
    let mut hnsw_idx = HNSWIndex::new(dimension, &HNSWParams::default());
    let mut pq_idx = PQIndex::new(dimension, &PQParams::default());
    let mut ssg_idx = SSGIndex::new(dimension, &SSGParams::default());
    for (i, v) in ns.iter().enumerate() {
        bf_idx.add(v, i as u64).unwrap();
        hnsw_idx.add(v, i as u64).unwrap();
        pq_idx.add(v, i as u64).unwrap();
        ssg_idx.add(v, i as u64).unwrap();
    }
    bf_idx.build(Metric::Euclidean).unwrap();
    hnsw_idx.build(Metric::Euclidean).unwrap();
    pq_idx.build(Metric::Euclidean).unwrap();
    ssg_idx.build(Metric::Euclidean).unwrap();

    let test_time = 10;
    let mut rng = StdRng::seed_from_u64(13);
    for _t in 0..test_time {
        let target: usize = rng.gen_range(0..ns.len());
        let w = &ns[target];
        let base_set: HashSet<u64> = bf_idx.search(w, 100).into_iter().collect();
        for found in [hnsw_idx.search(w, 100), pq_idx.search(w, 100), ssg_idx.search(w, 100)] {
            let hits = found.iter().filter(|id| base_set.contains(id)).count();
            // approximate indexes must agree with the oracle on most of
            // the hundred nearest
            assert!(hits * 10 >= found.len() * 5);
        }
    }
}
