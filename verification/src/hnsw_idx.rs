//! The hierarchical navigable small-world graph index: multi-layer
//! proximity graph with heuristic neighbour selection, layered greedy
//! descent, and soft deletion by tombstone.

use crate::calc::bounded;
use crate::heap::{BinaryHeap, BoundedTopK};
use crate::hnsw_params::HNSWParams;
use crate::metrics::{metric_spec, Metric};
use crate::neighbor::{sorted_asc, Neighbor};
use crate::node::MemoryNode;
use crate::random::Random;
use crate::visited::{bits_of, bitset_contains, bitset_insert, bitset_with_capacity};
use crate::{AnnError, COMPONENT_LIMIT, DIM_LIMIT};
use vstd::prelude::*;

verus! {

pub struct HNSWIndex {
    _dimension: usize,
    _n_items: usize,
    _n_constructed_items: usize,
    _max_item: usize,
    _n_neighbor: usize,
    _n_neighbor0: usize,
    _max_level: usize,
    _cur_level: usize,
    _id2neighbor: Vec<Vec<Vec<usize>>>,
    _id2neighbor0: Vec<Vec<usize>>,
    _nodes: Vec<MemoryNode>,
    _root_id: usize,
    _id2level: Vec<usize>,
    _has_removed: bool,
    _ef_build: usize,
    _ef_search: usize,
    _delete_ids: Vec<bool>,
    mt: Metric,
    rng: Random,
}

impl HNSWIndex {
    pub closed spec fn dim(&self) -> int {
        self._dimension as int
    }

    pub closed spec fn nodes_seq(&self) -> Seq<MemoryNode> {
        self._nodes@
    }

    pub closed spec fn n_items_spec(&self) -> int {
        self._n_items as int
    }

    pub closed spec fn max_item_spec(&self) -> int {
        self._max_item as int
    }

    pub closed spec fn metric_kind(&self) -> Metric {
        self.mt
    }

    pub closed spec fn constructed(&self) -> int {
        self._n_constructed_items as int
    }

    pub closed spec fn has_deletion_spec(&self) -> bool {
        self._has_removed
    }

    pub closed spec fn tombstones(&self) -> Seq<bool> {
        self._delete_ids@
    }

    /// Node `i` is soft-deleted.
    pub open spec fn deleted_spec(&self, i: int) -> bool {
        self.has_deletion_spec() && self.tombstones()[i]
    }

    pub closed spec fn neighbors0(&self) -> Seq<Seq<usize>> {
        Seq::new(self._id2neighbor0@.len(), |i: int| self._id2neighbor0@[i]@)
    }

    /// The layer-0 degree cap actually used (a zero parameter means one).
    pub closed spec fn n_neighbor0_cap(&self) -> int {
        if self._n_neighbor0 == 0 {
            1
        } else {
            self._n_neighbor0 as int
        }
    }

    /// The upper-layer degree cap actually used.
    pub closed spec fn n_neighbor_cap(&self) -> int {
        if self._n_neighbor == 0 {
            1
        } else {
            self._n_neighbor as int
        }
    }

    /// The adjacency rows of the upper layers, one row per node and layer.
    pub closed spec fn neighbors_upper(&self) -> Seq<Seq<Seq<usize>>> {
        Seq::new(
            self._id2neighbor@.len(),
            |i: int| Seq::new(self._id2neighbor@[i]@.len(), |l: int| self._id2neighbor@[i]@[l]@),
        )
    }

    pub closed spec fn root_spec(&self) -> int {
        self._root_id as int
    }

    /// The layer assigned to each node.
    pub closed spec fn levels_spec(&self) -> Seq<usize> {
        self._id2level@
    }

    /// The highest layer currently in use.
    pub closed spec fn cur_level_spec(&self) -> int {
        self._cur_level as int
    }

    /// The configured layer ceiling.
    pub closed spec fn max_level_spec(&self) -> int {
        self._max_level as int
    }

    /// The out-edges of node `v` at layer `level` (an absent upper row
    /// is an empty one).
    pub open spec fn layer_row(&self, v: int, level: int) -> Seq<usize> {
        if level == 0 {
            self.neighbors0()[v]
        } else if level - 1 < self.neighbors_upper()[v].len() {
            self.neighbors_upper()[v][level - 1]
        } else {
            Seq::<usize>::empty()
        }
    }

    /// `path` walks from a seed along the layer's out-edges.
    pub open spec fn is_path(&self, seeds: Seq<usize>, level: int, path: Seq<usize>) -> bool {
        &&& path.len() >= 1
        &&& seeds.contains(path[0])
        &&& forall|i: int|
            #![trigger path[i]]
            0 <= i < path.len() - 1 ==> (path[i] as int) < self.n_items_spec()
                && self.layer_row(path[i] as int, level).contains(path[i + 1])
    }

    /// `v` is reachable from the seed set over the layer's edges.
    pub open spec fn reachable_at(&self, seeds: Seq<usize>, level: int, v: usize) -> bool {
        exists|path: Seq<usize>| self.is_path(seeds, level, path) && path.last() == v
    }

    /// A seed is reachable by the one-point path.
    pub proof fn lemma_reach_seed(&self, seeds: Seq<usize>, level: int, v: usize)
        requires
            seeds.contains(v),
        ensures
            self.reachable_at(seeds, level, v),
    {
        let path = Seq::<usize>::empty().push(v);
        assert(path[0] == v);
        assert(self.is_path(seeds, level, path));
        assert(path.last() == v);
    }

    /// One edge step preserves reachability.
    pub proof fn lemma_reach_step(&self, seeds: Seq<usize>, level: int, u: usize, v: usize)
        requires
            self.reachable_at(seeds, level, u),
            (u as int) < self.n_items_spec(),
            self.layer_row(u as int, level).contains(v),
        ensures
            self.reachable_at(seeds, level, v),
    {
        let path = choose|path: Seq<usize>|
            self.is_path(seeds, level, path) && path.last() == u;
        assert(self.is_path(seeds, level, path) && path.last() == u);
        let path2 = path.push(v);
        assert(self.is_path(seeds, level, path2)) by {
            assert(path2.len() >= 1);
            assert(path2[0] == path[0]);
            assert forall|i: int|
                #![trigger path2[i]]
                0 <= i < path2.len() - 1 implies (path2[i] as int) < self.n_items_spec()
                && self.layer_row(path2[i] as int, level).contains(path2[i + 1]) by {
                if i < path.len() - 1 {
                    assert(path2[i] == path[i]);
                    assert(path2[i + 1] == path[i + 1]);
                } else {
                    assert(path2[i] == path[path.len() - 1]);
                    assert(path[path.len() - 1] == path.last());
                    assert(path2[i + 1] == v);
                }
            }
        }
        assert(path2.last() == v);
    }

    pub open spec fn wf(&self) -> bool {
        &&& 1 <= self.dim() <= DIM_LIMIT as int
        &&& self.n_items_spec() == self.nodes_seq().len()
        &&& self.n_items_spec() <= self.max_item_spec()
        &&& self.tombstones().len() == self.n_items_spec()
        &&& self.adjacency_ok()
        &&& forall|i: int| 0 <= i < self.nodes_seq().len() ==> (#[trigger] self.nodes_seq()[
            i]).valid() && self.nodes_seq()[i].vecs().len() == self.dim() && self.nodes_seq()[
            i].id() is Some
        &&& self.n_items_spec() >= 1 ==> self.root_spec() < self.n_items_spec()
    }

    /// Every adjacency entry names a stored node.
    pub closed spec fn adjacency_ok(&self) -> bool {
        &&& self._id2neighbor0@.len() == self.n_items_spec()
        &&& self._id2neighbor@.len() == self.n_items_spec()
        &&& self._id2level@.len() == self.n_items_spec()
        &&& forall|i: int, t: int|
            #![trigger self._id2neighbor0@[i]@[t]]
            0 <= i < self.n_items_spec() && 0 <= t < self._id2neighbor0@[i]@.len()
                ==> self._id2neighbor0@[i]@[t] < self.n_items_spec()
        &&& forall|i: int, l: int, t: int|
            #![trigger self._id2neighbor@[i]@[l]@[t]]
            0 <= i < self.n_items_spec() && 0 <= l < self._id2neighbor@[i]@.len() && 0 <= t
                < self._id2neighbor@[i]@[l]@.len() ==> self._id2neighbor@[i]@[l]@[t] < self.n_items_spec()
        &&& forall|i: int| 0 <= i < self.n_items_spec() ==> (#[trigger] self._id2neighbor0@[
            i])@.len() <= self.n_neighbor0_cap()
        &&& forall|i: int, l: int|
            #![trigger self._id2neighbor@[i]@[l]]
            0 <= i < self.n_items_spec() && 0 <= l < self._id2neighbor@[i]@.len()
                ==> self._id2neighbor@[i]@[l]@.len() <= self.n_neighbor_cap()
    }

    pub open spec fn built_spec(&self) -> bool {
        self.metric_kind() != Metric::Unknown && self.constructed() == self.n_items_spec()
    }

    /// `sel` certifies a search result for query `q`: distinct stored
    /// nodes, none tombstoned when deletion is on, in ascending order of
    /// their exact distances to `q`.
    pub open spec fn valid_selection(&self, sel: Seq<Neighbor>, q: Seq<i64>) -> bool {
        &&& sorted_asc(sel)
        &&& crate::neighbor::distinct_idx(sel)
        &&& forall|j: int| 0 <= j < sel.len() ==> (#[trigger] sel[j])._idx < self.nodes_seq().len()
            && (self.has_deletion_spec() ==> !self.deleted_spec(sel[j]._idx as int)) && (sel[
            j]._distance as int) == metric_spec(self.nodes_seq()[sel[j]._idx as int].vecs(), q,
            self.metric_kind())
    }

    /// How many of the first `n` nodes are live (not tombstoned).
    pub open spec fn live_count_to(&self, n: int) -> int
        decreases n,
    {
        if n <= 0 {
            0
        } else {
            self.live_count_to(n - 1) + (if self.deleted_spec(n - 1) {
                0int
            } else {
                1int
            })
        }
    }

    /// How many stored nodes are live.
    pub open spec fn live_count(&self) -> int {
        self.live_count_to(self.nodes_seq().len() as int)
    }

    /// The live count never exceeds the prefix length.
    pub proof fn lemma_live_count_bounds(&self, n: int)
        ensures
            0 <= self.live_count_to(n) <= (if n <= 0 {
                0int
            } else {
                n
            }),
        decreases (if n <= 0 {
            0int
        } else {
            n
        }),
    {
        if n > 0 {
            self.lemma_live_count_bounds(n - 1);
        }
    }

    /// Without tombstones every node is live.
    pub proof fn lemma_live_count_full(&self, n: int)
        requires
            forall|i: int| 0 <= i < n ==> !self.deleted_spec(i),
            n >= 0,
        ensures
            self.live_count_to(n) == n,
        decreases n,
    {
        if n > 0 {
            self.lemma_live_count_full(n - 1);
        }
    }

    /// Every live stored node with its exact distance, ascending: the
    /// exhaustive answer used when `k` covers the whole index.
    fn full_scan(&self, search_data: &MemoryNode) -> (r: Vec<Neighbor>)
        requires
            self.wf(),
            self.metric_kind() != Metric::Unknown,
            search_data.valid(),
            search_data.vecs().len() == self.dim(),
        ensures
            self.valid_selection(r@, search_data.vecs()),
            r@.len() == self.live_count(),
    {
        let n = self._n_items;
        let mut cands: Vec<Neighbor> = Vec::new();
        let mut i: usize = 0;
        while i < n
            invariant
                self.wf(),
                self.metric_kind() != Metric::Unknown,
                search_data.valid(),
                search_data.vecs().len() == self.dim(),
                i <= n,
                n == self.nodes_seq().len(),
                cands@.len() == self.live_count_to(i as int),
                forall|a: int, b: int| 0 <= a < b < cands@.len() ==> (#[trigger] cands@[a])._idx
                    < (#[trigger] cands@[b])._idx,
                forall|j: int| 0 <= j < cands@.len() ==> (#[trigger] cands@[j])._idx < i && (
                self.has_deletion_spec() ==> !self.deleted_spec(cands@[j]._idx as int)) && (
                cands@[j]._distance as int) == metric_spec(self.nodes_seq()[cands@[
                    j]._idx as int].vecs(), search_data.vecs(), self.metric_kind()),
            decreases n - i,
        {
            if !self.is_deleted(i) {
                let d = self.dist_to(i, search_data);
                cands.push(Neighbor::new(i, d));
            }
            i = i + 1;
        }
        if cands.len() == 0 {
            return cands;
        }
        let kk = cands.len();
        proof {
            assert(crate::neighbor::distinct_idx(cands@));
        }
        let r = crate::heap::select_topk(&cands, kk);
        proof {
            assert forall|j: int| 0 <= j < r@.len() implies (#[trigger] r@[j])._idx
                < self.nodes_seq().len() && (self.has_deletion_spec() ==> !self.deleted_spec(
                r@[j]._idx as int)) && (r@[j]._distance as int) == metric_spec(self.nodes_seq()[
                r@[j]._idx as int].vecs(), search_data.vecs(), self.metric_kind()) by {
                assert(cands@.contains(r@[j]));
                let ghost w = choose|w: int| 0 <= w < cands@.len() && cands@[w] == r@[j];
                assert(cands@[w]._idx < self.nodes_seq().len());
            }
        }
        r
    }

    pub fn new(dimension: usize, params: &HNSWParams) -> (r: HNSWIndex)
        requires
            1 <= dimension <= DIM_LIMIT,
        ensures
            r.wf(),
            r.dim() == dimension,
            r.nodes_seq().len() == 0,
            r.metric_kind() == Metric::Unknown,
            r.has_deletion_spec() == params.has_deletion,
            r.max_item_spec() == params.max_item,
    {
        HNSWIndex {
            _dimension: dimension,
            _n_items: 0,
            _n_constructed_items: 0,
            _max_item: params.max_item,
            _n_neighbor: params.n_neighbor,
            _n_neighbor0: params.n_neighbor0,
            _max_level: params.max_level,
            _cur_level: 0,
            _id2neighbor: Vec::new(),
            _id2neighbor0: Vec::new(),
            _nodes: Vec::new(),
            _root_id: 0,
            _id2level: Vec::new(),
            _has_removed: params.has_deletion,
            _ef_build: params.ef_build,
            _ef_search: params.ef_search,
            _delete_ids: Vec::new(),
            mt: Metric::Unknown,
            rng: Random::new(0x4157),
        }
    }

    /// A level drawn by fair coin flips, capped at the maximum.
    fn get_random_level(&mut self) -> (r: usize)
        ensures
            r <= old(self)._max_level,
            final(self)._max_level == old(self)._max_level,
            final(self).wf() == old(self).wf(),
            final(self).nodes_seq() == old(self).nodes_seq(),
            final(self).dim() == old(self).dim(),
            final(self).metric_kind() == old(self).metric_kind(),
            final(self).n_items_spec() == old(self).n_items_spec(),
            final(self).constructed() == old(self).constructed(),
            final(self).tombstones() == old(self).tombstones(),
            final(self).has_deletion_spec() == old(self).has_deletion_spec(),
            final(self).max_item_spec() == old(self).max_item_spec(),
            final(self)._id2neighbor@ == old(self)._id2neighbor@,
            final(self)._id2neighbor0@ == old(self)._id2neighbor0@,
            final(self)._id2level@ == old(self)._id2level@,
            final(self)._root_id == old(self)._root_id,
            final(self)._cur_level == old(self)._cur_level,
            final(self)._nodes@ == old(self)._nodes@,
            final(self)._ef_build == old(self)._ef_build,
            final(self)._ef_search == old(self)._ef_search,
            final(self)._n_neighbor == old(self)._n_neighbor,
            final(self)._n_neighbor0 == old(self)._n_neighbor0,
            final(self)._dimension == old(self)._dimension,
    {
        let mut ret: usize = 0;
        let cap = self._max_level;
        while ret < cap
            invariant
                ret <= cap,
                cap == self._max_level,
                *self == *old(self) || self._max_level == old(self)._max_level,
                self._dimension == old(self)._dimension,
                self._nodes@ == old(self)._nodes@,
                self._id2neighbor@ == old(self)._id2neighbor@,
                self._id2neighbor0@ == old(self)._id2neighbor0@,
                self._id2level@ == old(self)._id2level@,
                self._root_id == old(self)._root_id,
                self._cur_level == old(self)._cur_level,
                self._n_items == old(self)._n_items,
                self._n_constructed_items == old(self)._n_constructed_items,
                self._delete_ids@ == old(self)._delete_ids@,
                self._has_removed == old(self)._has_removed,
                self._max_item == old(self)._max_item,
                self._ef_build == old(self)._ef_build,
                self._ef_search == old(self)._ef_search,
                self._n_neighbor == old(self)._n_neighbor,
                self._n_neighbor0 == old(self)._n_neighbor0,
                self.mt == old(self).mt,
            decreases cap - ret,
        {
            let v = self.rng.next_u64();
            if v % 2 == 1 {
                ret = ret + 1;
            } else {
                break;
            }
        }
        ret
    }

    /// The adjacency list of `id` at `level`, cloned; empty when the
    /// node carries no list at that level.
    fn neighbor_list(&self, id: usize, level: usize) -> (r: Vec<usize>)
        requires
            self.wf(),
            id < self.n_items_spec(),
        ensures
            forall|t: int| 0 <= t < r@.len() ==> (#[trigger] r@[t]) < self.n_items_spec(),
            r@ == self.layer_row(id as int, level as int),
    {
        if level == 0 {
            let r = self._id2neighbor0[id].clone();
            proof {
                assert forall|t: int| 0 <= t < r@.len() implies (#[trigger] r@[t]) < self.n_items_spec() by {
                    assert(self._id2neighbor0@[id as int]@[t] < self.n_items_spec());
                }
                assert(self.neighbors0()[id as int] == self._id2neighbor0@[id as int]@);
            }
            r
        } else if level - 1 < self._id2neighbor[id].len() {
            let r = self._id2neighbor[id][level - 1].clone();
            proof {
                assert forall|t: int| 0 <= t < r@.len() implies (#[trigger] r@[t]) < self.n_items_spec() by {
                    assert(self._id2neighbor@[id as int]@[(level - 1) as int]@[t] < self.n_items_spec());
                }
                assert(self.neighbors_upper()[id as int][(level - 1) as int]
                    == self._id2neighbor@[id as int]@[(level - 1) as int]@);
            }
            r
        } else {
            let r: Vec<usize> = Vec::new();
            proof {
                assert(self.neighbors_upper()[id as int].len() == self._id2neighbor@[
                    id as int]@.len());
                assert(r@ =~= self.layer_row(id as int, level as int));
            }
            r
        }
    }

    /// Exact distance between two stored nodes.
    fn dist_id(&self, x: usize, y: usize) -> (r: i64)
        requires
            self.wf(),
            self.metric_kind() != Metric::Unknown,
            x < self.n_items_spec(),
            y < self.n_items_spec(),
        ensures
            r as int == metric_spec(self.nodes_seq()[x as int].vecs(),
                self.nodes_seq()[y as int].vecs(), self.metric_kind()),
    {
        proof {
            assert((#[trigger] self.nodes_seq()[x as int]).valid());
            assert((#[trigger] self.nodes_seq()[y as int]).valid());
        }
        let d = self._nodes[x].metric(&self._nodes[y], self.mt);
        match d {
            Ok(v) => v,
            Err(_) => {
                // unreachable: dimensions agree and the metric is configured
                proof {
                    assert(false);
                }
                0
            },
        }
    }

    /// Exact distance from a stored node to a query.
    fn dist_to(&self, x: usize, q: &MemoryNode) -> (r: i64)
        requires
            self.wf(),
            self.metric_kind() != Metric::Unknown,
            x < self.n_items_spec(),
            q.valid(),
            q.vecs().len() == self.dim(),
        ensures
            r as int == metric_spec(self.nodes_seq()[x as int].vecs(), q.vecs(),
                self.metric_kind()),
    {
        proof {
            assert((#[trigger] self.nodes_seq()[x as int]).valid());
        }
        let d = self._nodes[x].metric(q, self.mt);
        match d {
            Ok(v) => v,
            Err(_) => {
                // unreachable: dimensions agree and the metric is configured
                proof {
                    assert(false);
                }
                0
            },
        }
    }

    /// Best-first frontier search at one layer from a set of seeds.
    /// Every result is a live stored node with its exact distance.
    fn search_layer_seeds(&self, seeds: &Vec<usize>, search_data: &MemoryNode, level: usize,
        ef: usize, has_deletion: bool) -> (r: Vec<Neighbor>)
        requires
            self.wf(),
            self.metric_kind() != Metric::Unknown,
            search_data.valid(),
            search_data.vecs().len() == self.dim(),
            ef >= 1,
            forall|t: int| 0 <= t < seeds@.len() ==> (#[trigger] seeds@[t]) < self.n_items_spec(),
        ensures
            sorted_asc(r@),
            r@.len() <= ef,
            seeds@.len() >= 1 && !has_deletion ==> r@.len() >= 1,
            forall|j: int| 0 <= j < r@.len() ==> (#[trigger] r@[j])._idx < self.n_items_spec() && (
            has_deletion ==> !self.deleted_spec(r@[j]._idx as int)) && (r@[j]._distance as int)
                == metric_spec(self.nodes_seq()[r@[j]._idx as int].vecs(), search_data.vecs(),
                self.metric_kind()),
            forall|j: int| 0 <= j < r@.len() ==> self.reachable_at(
                seeds@,
                level as int,
                (#[trigger] r@[j])._idx,
            ),
    {
        let ghost good = |v: Neighbor|
            v._idx < self.n_items_spec() && (has_deletion ==> !self.deleted_spec(v._idx as int))
                && (v._distance as int) == metric_spec(self.nodes_seq()[v._idx as int].vecs(),
                search_data.vecs(), self.metric_kind()) && self.reachable_at(
                seeds@,
                level as int,
                v._idx,
            );
        let mut candidates = BinaryHeap::new();
        let mut top = BoundedTopK::new(ef);
        let mut visited = bitset_with_capacity(self._n_items);
        let ns = seeds.len();
        let mut s: usize = 0;
        while s < ns
            invariant
                self.wf(),
                self.metric_kind() != Metric::Unknown,
                search_data.valid(),
                search_data.vecs().len() == self.dim(),
                ef >= 1,
                ns == seeds@.len(),
                s <= ns,
                forall|t: int| 0 <= t < seeds@.len() ==> (#[trigger] seeds@[t]) < self.n_items_spec(),
                candidates.wf(),
                top.wf(),
                top.spec_k() == ef,
                crate::visited::bit_capacity(visited) == self.n_items_spec(),
                good == (|v: Neighbor|
                    v._idx < self.n_items_spec() && (has_deletion ==> !self.deleted_spec(
                        v._idx as int)) && (v._distance as int) == metric_spec(self.nodes_seq()[
                        v._idx as int].vecs(), search_data.vecs(), self.metric_kind())
                        && self.reachable_at(seeds@, level as int, v._idx)),
                forall|v: Neighbor| top.pushed_ms().contains(v) ==> #[trigger] good(v),
                s == 0 ==> bits_of(visited) == Set::<usize>::empty(),
                !has_deletion && s >= 1 ==> top.pushed_ms().len() >= 1,
                forall|u: int| 0 <= u < candidates@.len() ==> (#[trigger] candidates@[u])._idx
                    < self.n_items_spec() && self.reachable_at(
                    seeds@,
                    level as int,
                    candidates@[u]._idx,
                ),
            decreases ns - s,
        {
            let root = seeds[s];
            if !bitset_contains(&visited, root) {
                bitset_insert(&mut visited, root);
                proof {
                    assert(seeds@[s as int] == root);
                    assert(seeds@.contains(root));
                    self.lemma_reach_seed(seeds@, level as int, root);
                }
                let dist = self.dist_to(root, search_data);
                if !has_deletion || !self.is_deleted(root) {
                    top.push(Neighbor::new(root, dist));
                }
                candidates.push(Neighbor::new(root, if dist == i64::MIN {
                    i64::MAX
                } else {
                    -dist
                }));
                proof {
                    broadcast use vstd::seq_lib::to_multiset_contains,
                        vstd::seq_lib::to_multiset_build, vstd::multiset::group_multiset_axioms;

                    assert forall|u: int| 0 <= u < candidates@.len() implies (
                    #[trigger] candidates@[u])._idx < self.n_items_spec()
                        && self.reachable_at(seeds@, level as int, candidates@[u]._idx) by {
                        assert(candidates@.to_multiset().contains(candidates@[u]));
                    }
                }
            }
            s = s + 1;
        }
        let mut budget: u128 = (self._n_items as u128) + (ns as u128) + 1;
        while budget > 0
            invariant
                self.wf(),
                self.metric_kind() != Metric::Unknown,
                search_data.valid(),
                search_data.vecs().len() == self.dim(),
                ef >= 1,
                candidates.wf(),
                top.wf(),
                top.spec_k() == ef,
                crate::visited::bit_capacity(visited) == self.n_items_spec(),
                good == (|v: Neighbor|
                    v._idx < self.n_items_spec() && (has_deletion ==> !self.deleted_spec(
                        v._idx as int)) && (v._distance as int) == metric_spec(self.nodes_seq()[
                        v._idx as int].vecs(), search_data.vecs(), self.metric_kind())
                        && self.reachable_at(seeds@, level as int, v._idx)),
                forall|v: Neighbor| top.pushed_ms().contains(v) ==> #[trigger] good(v),
                !has_deletion && seeds@.len() >= 1 ==> top.pushed_ms().len() >= 1,
                forall|u: int| 0 <= u < candidates@.len() ==> (#[trigger] candidates@[u])._idx
                    < self.n_items_spec() && self.reachable_at(
                    seeds@,
                    level as int,
                    candidates@[u]._idx,
                ),
            decreases budget,
        {
            budget = budget - 1;
            if candidates.is_empty() {
                break;
            }
            let ghost cpre = candidates@;
            let cur = match candidates.pop() {
                Some(x) => x,
                None => {
                    // unreachable: the frontier is not empty
                    proof {
                        assert(false);
                    }
                    Neighbor { _idx: 0, _distance: 0 }
                },
            };
            proof {
                broadcast use vstd::seq_lib::to_multiset_contains,
                    vstd::multiset::group_multiset_axioms;

                assert(cpre.to_multiset().contains(cur));
                assert(cpre.contains(cur));
                let ghost ci = choose|ci: int| 0 <= ci < cpre.len() && cpre[ci] == cur;
                assert(cur._idx < self.n_items_spec() && self.reachable_at(
                    seeds@,
                    level as int,
                    cur._idx,
                ));
                assert forall|u: int| 0 <= u < candidates@.len() implies (
                #[trigger] candidates@[u])._idx < self.n_items_spec() && self.reachable_at(
                    seeds@,
                    level as int,
                    candidates@[u]._idx,
                ) by {
                    assert(candidates@.to_multiset().contains(candidates@[u]));
                    assert(cpre.to_multiset().count(candidates@[u]) > 0);
                    assert(cpre.contains(candidates@[u]));
                    let ghost cu = choose|cu: int| 0 <= cu < cpre.len() && cpre[cu]
                        == candidates@[u];
                    assert(cpre[cu]._idx < self.n_items_spec());
                }
            }
            let cur_dist = if cur._distance == i64::MIN {
                i64::MAX
            } else {
                -cur._distance
            };
            // stop when the nearest frontier point is farther than the
            // worst retained result and the result set is full
            let mut lower_bound = i64::MAX;
            let mut full = false;
            if top.len() >= ef {
                full = true;
            }
            match top.peek() {
                Some(w) => {
                    lower_bound = w._distance;
                },
                None => {},
            }
            if full && cur_dist > lower_bound {
                break;
            }
            let neigh = self.neighbor_list(cur._idx, level);
            let nn = neigh.len();
            let mut t: usize = 0;
            while t < nn
                invariant
                    self.wf(),
                    self.metric_kind() != Metric::Unknown,
                    search_data.valid(),
                    search_data.vecs().len() == self.dim(),
                    ef >= 1,
                    nn == neigh@.len(),
                    t <= nn,
                    cur._idx < self.n_items_spec(),
                    self.reachable_at(seeds@, level as int, cur._idx),
                    neigh@ == self.layer_row(cur._idx as int, level as int),
                    forall|u: int| 0 <= u < neigh@.len() ==> (#[trigger] neigh@[u]) < self.n_items_spec(),
                    candidates.wf(),
                    top.wf(),
                    top.spec_k() == ef,
                    crate::visited::bit_capacity(visited) == self.n_items_spec(),
                    good == (|v: Neighbor|
                        v._idx < self.n_items_spec() && (has_deletion ==> !self.deleted_spec(
                            v._idx as int)) && (v._distance as int) == metric_spec(
                            self.nodes_seq()[v._idx as int].vecs(), search_data.vecs(),
                            self.metric_kind()) && self.reachable_at(
                            seeds@,
                            level as int,
                            v._idx,
                        )),
                    forall|v: Neighbor| top.pushed_ms().contains(v) ==> #[trigger] good(v),
                    !has_deletion && seeds@.len() >= 1 ==> top.pushed_ms().len() >= 1,
                    forall|u: int| 0 <= u < candidates@.len() ==> (#[trigger] candidates@[
                        u])._idx < self.n_items_spec() && self.reachable_at(
                        seeds@,
                        level as int,
                        candidates@[u]._idx,
                    ),
                decreases nn - t,
            {
                let nb = neigh[t];
                if !bitset_contains(&visited, nb) {
                    bitset_insert(&mut visited, nb);
                    proof {
                        assert(neigh@[t as int] == nb);
                        assert(neigh@.contains(nb));
                        self.lemma_reach_step(seeds@, level as int, cur._idx, nb);
                    }
                    let dist = self.dist_to(nb, search_data);
                    let mut worst = i64::MAX;
                    let mut have_room = true;
                    if top.len() >= ef {
                        have_room = false;
                    }
                    match top.peek() {
                        Some(w) => {
                            worst = w._distance;
                        },
                        None => {},
                    }
                    if have_room || dist < worst {
                        let ghost cpre2 = candidates@;
                        candidates.push(Neighbor::new(nb, if dist == i64::MIN {
                            i64::MAX
                        } else {
                            -dist
                        }));
                        if !self.is_deleted(nb) {
                            top.push(Neighbor::new(nb, dist));
                        }
                        proof {
                            broadcast use vstd::seq_lib::to_multiset_contains,
                                vstd::seq_lib::to_multiset_build,
                                vstd::multiset::group_multiset_axioms;

                            assert forall|u: int| 0 <= u < candidates@.len() implies (
                            #[trigger] candidates@[u])._idx < self.n_items_spec()
                                && self.reachable_at(
                                seeds@,
                                level as int,
                                candidates@[u]._idx,
                            ) by {
                                assert(candidates@.to_multiset().contains(candidates@[u]));
                                if candidates@[u] != (Neighbor {
                                    _idx: nb,
                                    _distance: if dist == i64::MIN {
                                        i64::MAX
                                    } else {
                                        (-dist) as i64
                                    },
                                }) {
                                    assert(cpre2.to_multiset().contains(candidates@[u]));
                                    assert(cpre2.contains(candidates@[u]));
                                    let ghost cu2 = choose|cu2: int| 0 <= cu2 < cpre2.len()
                                        && cpre2[cu2] == candidates@[u];
                                    assert(cpre2[cu2]._idx < self.n_items_spec());
                                }
                            }
                        }
                    }
                }
                t = t + 1;
            }
        }
        let r = top.into_sorted_vec();
        proof {
            broadcast use vstd::multiset::group_multiset_axioms;

            assert forall|j: int| 0 <= j < r@.len() implies (#[trigger] r@[j])._idx < self.n_items_spec()
                && (has_deletion ==> !self.deleted_spec(r@[j]._idx as int)) && (
            r@[j]._distance as int) == metric_spec(self.nodes_seq()[r@[j]._idx as int].vecs(),
                search_data.vecs(), self.metric_kind()) by {
                broadcast use vstd::seq_lib::to_multiset_contains;

                assert(r@.to_multiset().contains(r@[j]));
                assert(top.pushed_ms().count(r@[j]) > 0);
                assert(good(r@[j]));
            }
            assert forall|j: int| 0 <= j < r@.len() implies self.reachable_at(
                seeds@,
                level as int,
                (#[trigger] r@[j])._idx,
            ) by {
                broadcast use vstd::seq_lib::to_multiset_contains;

                assert(r@.to_multiset().contains(r@[j]));
                assert(top.pushed_ms().count(r@[j]) > 0);
                assert(good(r@[j]));
            }
        }
        r
    }

    fn is_deleted(&self, id: usize) -> (r: bool)
        requires
            self.wf(),
            id < self.n_items_spec(),
        ensures
            r == self.deleted_spec(id as int),
    {
        self._has_removed && self._delete_ids[id]
    }

    /// Mark a node deleted; later searches never return it.
    pub fn delete_id(&mut self, id: usize) -> (r: Result<(), AnnError>)
        requires
            old(self).wf(),
        ensures
            final(self).wf(),
            final(self).nodes_seq() == old(self).nodes_seq(),
            final(self).dim() == old(self).dim(),
            final(self).metric_kind() == old(self).metric_kind(),
            final(self).built_spec() == old(self).built_spec(),
            final(self).has_deletion_spec() == old(self).has_deletion_spec(),
            id < old(self).n_items_spec() ==> r is Ok && final(self).tombstones() == old(
                self).tombstones().update(id as int, true),
            id >= old(self).n_items_spec() ==> r is Err && final(self).tombstones() == old(
                self).tombstones(),
    {
        if id >= self._n_items {
            return Err(AnnError::ParameterOutOfRange);
        }
        self._delete_ids[id] = true;
        Ok(())
    }

    /// The diversity rule: a candidate is kept only when it is at least
    /// as close to the query (its recorded distance) as to every
    /// already-kept neighbour.
    pub open spec fn heuristic_keep(&self, kept: Seq<Neighbor>, cand: Neighbor) -> bool {
        forall|t: int|
            0 <= t < kept.len() ==> metric_spec(self.nodes_seq()[cand._idx as int].vecs(),
                self.nodes_seq()[(#[trigger] kept[t])._idx as int].vecs(), self.metric_kind())
                >= cand._distance as int
    }

    /// The greedy diversity filter over an ascending candidate list:
    /// walk the candidates, keep each one that passes the rule against
    /// everything kept so far, stop at `cap`.
    pub open spec fn heuristic_filter(&self, cands: Seq<Neighbor>, kept: Seq<Neighbor>, cap:
        int) -> Seq<Neighbor>
        decreases cands.len(),
    {
        if cands.len() == 0 || kept.len() >= cap {
            kept
        } else if self.heuristic_keep(kept, cands[0]) {
            self.heuristic_filter(cands.drop_first(), kept.push(cands[0]), cap)
        } else {
            self.heuristic_filter(cands.drop_first(), kept, cap)
        }
    }

    /// The greedy filter never drops what is already kept.
    proof fn lemma_heuristic_filter_grows(&self, cands: Seq<Neighbor>, kept: Seq<Neighbor>,
        cap: int)
        ensures
            self.heuristic_filter(cands, kept, cap).len() >= kept.len(),
        decreases cands.len(),
    {
        if cands.len() == 0 || kept.len() >= cap {
        } else if self.heuristic_keep(kept, cands[0]) {
            self.lemma_heuristic_filter_grows(cands.drop_first(), kept.push(cands[0]), cap);
        } else {
            self.lemma_heuristic_filter_grows(cands.drop_first(), kept, cap);
        }
    }

    /// With a candidate and room, the first candidate is always kept.
    proof fn lemma_heuristic_filter_nonempty(&self, cands: Seq<Neighbor>, cap: int)
        requires
            cands.len() >= 1,
            cap >= 1,
        ensures
            self.heuristic_filter(cands, Seq::<Neighbor>::empty(), cap).len() >= 1,
    {
        let kept = Seq::<Neighbor>::empty();
        assert(self.heuristic_keep(kept, cands[0]));
        self.lemma_heuristic_filter_grows(cands.drop_first(), kept.push(cands[0]), cap);
    }

    /// The diversity filter reads only the stored vectors and the
    /// metric, so equal data gives equal selections.
    proof fn lemma_heuristic_filter_congruent(
        a: &HNSWIndex,
        b: &HNSWIndex,
        cands: Seq<Neighbor>,
        kept: Seq<Neighbor>,
        cap: int,
    )
        requires
            a.nodes_seq() == b.nodes_seq(),
            a.metric_kind() == b.metric_kind(),
        ensures
            a.heuristic_filter(cands, kept, cap) == b.heuristic_filter(cands, kept, cap),
        decreases cands.len(),
    {
        if cands.len() == 0 || kept.len() >= cap {
        } else {
            assert(a.heuristic_keep(kept, cands[0]) == b.heuristic_keep(kept, cands[0]));
            if a.heuristic_keep(kept, cands[0]) {
                Self::lemma_heuristic_filter_congruent(a, b, cands.drop_first(), kept.push(
                    cands[0]), cap);
            } else {
                Self::lemma_heuristic_filter_congruent(a, b, cands.drop_first(), kept, cap);
            }
        }
    }

    /// Heuristic neighbour selection: exactly the greedy diversity
    /// filter over the candidate list.
    fn get_neighbors_by_heuristic2(&self, sorted_list: &Vec<Neighbor>, ret_size: usize) -> (r:
        Vec<Neighbor>)
        requires
            self.wf(),
            self.metric_kind() != Metric::Unknown,
            forall|t: int| 0 <= t < sorted_list@.len() ==> (#[trigger] sorted_list@[t])._idx
                < self.n_items_spec(),
        ensures
            r@.len() <= ret_size,
            forall|t: int| 0 <= t < r@.len() ==> (#[trigger] r@[t])._idx < self.n_items_spec(),
            r@ == self.heuristic_filter(sorted_list@, Seq::<Neighbor>::empty(),
                ret_size as int),
    {
        let n = sorted_list.len();
        let mut return_list: Vec<Neighbor> = Vec::new();
        let mut i: usize = 0;
        proof {
            assert(sorted_list@.subrange(0, n as int) =~= sorted_list@);
        }
        while i < n && return_list.len() < ret_size
            invariant
                self.wf(),
                self.metric_kind() != Metric::Unknown,
                i <= n,
                n == sorted_list@.len(),
                forall|t: int| 0 <= t < sorted_list@.len() ==> (#[trigger] sorted_list@[t])._idx
                    < self.n_items_spec(),
                return_list@.len() <= ret_size,
                forall|t: int| 0 <= t < return_list@.len() ==> (#[trigger] return_list@[t])._idx
                    < self.n_items_spec(),
                self.heuristic_filter(sorted_list@, Seq::<Neighbor>::empty(), ret_size as int)
                    == self.heuristic_filter(sorted_list@.subrange(i as int, n as int),
                    return_list@, ret_size as int),
            decreases n - i,
        {
            let cand = sorted_list[i];
            let mut good = true;
            let m = return_list.len();
            let mut j: usize = 0;
            while j < m && good
                invariant
                    self.wf(),
                    self.metric_kind() != Metric::Unknown,
                    i < n == sorted_list@.len(),
                    cand == sorted_list@[i as int],
                    cand._idx < self.n_items_spec(),
                    j <= m,
                    m == return_list@.len(),
                    forall|t: int| 0 <= t < sorted_list@.len() ==> (#[trigger] sorted_list@[
                        t])._idx < self.n_items_spec(),
                    forall|t: int| 0 <= t < return_list@.len() ==> (#[trigger] return_list@[
                        t])._idx < self.n_items_spec(),
                    good ==> forall|t: int|
                        0 <= t < j ==> metric_spec(self.nodes_seq()[cand._idx as int].vecs(),
                            self.nodes_seq()[(#[trigger] return_list@[t])._idx as int].vecs(),
                            self.metric_kind()) >= cand._distance as int,
                    !good ==> !self.heuristic_keep(return_list@, cand),
                decreases m - j, (if good {
                    1int
                } else {
                    0int
                }),
            {
                let cur2ret = self.dist_id(cand._idx, return_list[j]._idx);
                if cur2ret < cand._distance {
                    good = false;
                } else {
                    j = j + 1;
                }
            }
            proof {
                if good {
                    assert(j == m);
                    assert(self.heuristic_keep(return_list@, cand));
                }
            }
            let ghost kept_pre = return_list@;
            if good {
                return_list.push(cand);
            }
            proof {
                let rem = sorted_list@.subrange(i as int, n as int);
                assert(rem.len() > 0);
                assert(rem[0] == cand);
                assert(rem.drop_first() =~= sorted_list@.subrange(i + 1, n as int));
                if good {
                    assert(self.heuristic_keep(kept_pre, cand));
                    assert(return_list@ == kept_pre.push(cand));
                    assert(self.heuristic_filter(rem, kept_pre, ret_size as int)
                        == self.heuristic_filter(rem.drop_first(), kept_pre.push(cand),
                        ret_size as int));
                } else {
                    assert(self.heuristic_filter(rem, kept_pre, ret_size as int)
                        == self.heuristic_filter(rem.drop_first(), kept_pre, ret_size as int));
                }
            }
            i = i + 1;
        }
        proof {
            let rem = sorted_list@.subrange(i as int, n as int);
            if i == n {
                assert(rem =~= Seq::<Neighbor>::empty());
            }
            assert(self.heuristic_filter(rem, return_list@, ret_size as int) == return_list@);
        }
        return_list
    }

    /// Write a node's adjacency list at a layer.
    fn set_neighbor_list(&mut self, id: usize, level: usize, list: Vec<usize>)
        requires
            old(self).wf(),
            id < old(self).n_items_spec(),
            forall|t: int| 0 <= t < list@.len() ==> (#[trigger] list@[t]) < old(
                self).n_items_spec(),
            level == 0 ==> list@.len() <= old(self).n_neighbor0_cap(),
            level != 0 ==> list@.len() <= old(self).n_neighbor_cap(),
        ensures
            final(self).wf(),
            final(self).nodes_seq() == old(self).nodes_seq(),
            final(self).dim() == old(self).dim(),
            final(self).metric_kind() == old(self).metric_kind(),
            final(self).n_items_spec() == old(self).n_items_spec(),
            final(self).constructed() == old(self).constructed(),
            final(self).tombstones() == old(self).tombstones(),
            final(self).has_deletion_spec() == old(self).has_deletion_spec(),
            final(self).max_item_spec() == old(self).max_item_spec(),
            final(self)._root_id == old(self)._root_id,
            final(self)._cur_level == old(self)._cur_level,
            final(self)._ef_build == old(self)._ef_build,
            final(self)._ef_search == old(self)._ef_search,
            final(self)._n_neighbor == old(self)._n_neighbor,
            final(self)._n_neighbor0 == old(self)._n_neighbor0,
            final(self)._max_level == old(self)._max_level,
            final(self)._id2level@ == old(self)._id2level@,
            forall|v: int|
                0 <= v < old(self).n_items_spec() && v != id ==> final(self).neighbors0()[v]
                    == old(self).neighbors0()[v] && final(self).neighbors_upper()[v] == old(
                    self).neighbors_upper()[v],
            level == 0 ==> final(self).neighbors0()[id as int] == list@ && final(
                self).neighbors_upper()[id as int] == old(self).neighbors_upper()[id as int],
            level != 0 ==> final(self).neighbors0()[id as int] == old(self).neighbors0()[
                id as int] && final(self).neighbors_upper()[id as int].len() == old(
                self).neighbors_upper()[id as int].len(),
            level != 0 && level - 1 < old(self).neighbors_upper()[id as int].len() ==> final(
                self).neighbors_upper()[id as int] == old(self).neighbors_upper()[
                id as int].update(level - 1, list@),
            level != 0 && level - 1 >= old(self).neighbors_upper()[id as int].len() ==> final(
                self).neighbors_upper()[id as int] == old(self).neighbors_upper()[id as int],
    {
        if level == 0 {
            self._id2neighbor0[id] = list;
            proof {
                assert forall|i: int, t: int|
                    #![trigger self._id2neighbor0@[i]@[t]]
                    0 <= i < self.n_items_spec() && 0 <= t < self._id2neighbor0@[i]@.len() implies
                    self._id2neighbor0@[i]@[t] < self.n_items_spec() by {
                    if i != id {
                        assert(self._id2neighbor0@[i] == old(self)._id2neighbor0@[i]);
                        assert(old(self)._id2neighbor0@[i]@[t] < old(self).n_items_spec());
                    }
                }
                assert forall|i: int| 0 <= i < self.n_items_spec() implies (
                #[trigger] self._id2neighbor0@[i])@.len() <= self.n_neighbor0_cap() by {
                    if i != id {
                        assert(self._id2neighbor0@[i] == old(self)._id2neighbor0@[i]);
                    }
                }
                assert forall|v: int| 0 <= v < old(self).n_items_spec() && v != id implies self.neighbors0()[
                v] == old(self).neighbors0()[v] && self.neighbors_upper()[v] == old(
                    self).neighbors_upper()[v] by {
                    assert(self._id2neighbor0@[v] == old(self)._id2neighbor0@[v]);
                    assert(self.neighbors_upper()[v] =~= old(self).neighbors_upper()[v]);
                }
                assert(self.neighbors0()[id as int] == list@);
                assert(self.neighbors_upper()[id as int] =~= old(self).neighbors_upper()[
                    id as int]);
            }
        } else {
            let mut row = self._id2neighbor[id].clone();
            if level - 1 < row.len() {
                row[level - 1] = list;
                self._id2neighbor[id] = row;
            }
            proof {
                assert forall|i: int, l: int, t: int|
                    #![trigger self._id2neighbor@[i]@[l]@[t]]
                    0 <= i < self.n_items_spec() && 0 <= l < self._id2neighbor@[i]@.len() && 0
                        <= t < self._id2neighbor@[i]@[l]@.len() implies self._id2neighbor@[i]@[
                    l]@[t] < self.n_items_spec() by {
                    if i != id {
                        assert(self._id2neighbor@[i] == old(self)._id2neighbor@[i]);
                        assert(old(self)._id2neighbor@[i]@[l]@[t] < old(self).n_items_spec());
                    } else {
                        if l != level - 1 || old(self)._id2neighbor@[i]@.len() <= level - 1 {
                            assert(old(self)._id2neighbor@[i]@[l]@[t] < old(
                                self).n_items_spec());
                        }
                    }
                }
                assert forall|i: int, l: int|
                    #![trigger self._id2neighbor@[i]@[l]]
                    0 <= i < self.n_items_spec() && 0 <= l < self._id2neighbor@[i]@.len() implies
                    self._id2neighbor@[i]@[l]@.len() <= self.n_neighbor_cap() by {
                    if i != id {
                        assert(self._id2neighbor@[i] == old(self)._id2neighbor@[i]);
                        assert(old(self)._id2neighbor@[i]@[l]@.len() <= old(
                            self).n_neighbor_cap());
                    } else {
                        if l != level - 1 || old(self)._id2neighbor@[i]@.len() <= level - 1 {
                            assert(old(self)._id2neighbor@[i]@[l]@.len() <= old(
                                self).n_neighbor_cap());
                        }
                    }
                }
                assert forall|v: int| 0 <= v < old(self).n_items_spec() && v != id implies self.neighbors0()[
                v] == old(self).neighbors0()[v] && self.neighbors_upper()[v] == old(
                    self).neighbors_upper()[v] by {
                    assert(self._id2neighbor0@[v] == old(self)._id2neighbor0@[v]);
                    assert(self._id2neighbor@[v] == old(self)._id2neighbor@[v]);
                    assert(self.neighbors_upper()[v] =~= old(self).neighbors_upper()[v]);
                }
                assert(self.neighbors0()[id as int] == old(self).neighbors0()[id as int]);
                if ((level - 1) as int) < old(self).neighbors_upper()[id as int].len() {
                    assert(self.neighbors_upper()[id as int] =~= old(self).neighbors_upper()[
                        id as int].update((level - 1) as int, list@));
                } else {
                    assert(self.neighbors_upper()[id as int] =~= old(self).neighbors_upper()[
                        id as int]);
                }
            }
        }
    }

    /// Connect a new node at one layer: select its neighbours by the
    /// heuristic, then add the reverse edges, re-pruning full lists.
    fn connect_neighbor(&mut self, cur_id: usize, sorted_candidates: &Vec<Neighbor>, level:
        usize) -> (r: usize)
        requires
            old(self).wf(),
            old(self).metric_kind() != Metric::Unknown,
            cur_id < old(self).n_items_spec(),
            sorted_candidates@.len() >= 1,
            forall|t: int| 0 <= t < sorted_candidates@.len() ==> (#[trigger] sorted_candidates@[
                t])._idx < old(self).n_items_spec(),
        ensures
            final(self).wf(),
            final(self).nodes_seq() == old(self).nodes_seq(),
            final(self).dim() == old(self).dim(),
            final(self).metric_kind() == old(self).metric_kind(),
            final(self).n_items_spec() == old(self).n_items_spec(),
            final(self).constructed() == old(self).constructed(),
            final(self).tombstones() == old(self).tombstones(),
            final(self).has_deletion_spec() == old(self).has_deletion_spec(),
            final(self).max_item_spec() == old(self).max_item_spec(),
            final(self)._root_id == old(self)._root_id,
            final(self)._cur_level == old(self)._cur_level,
            final(self)._ef_build == old(self)._ef_build,
            final(self)._ef_search == old(self)._ef_search,
            final(self)._n_neighbor == old(self)._n_neighbor,
            final(self)._n_neighbor0 == old(self)._n_neighbor0,
            final(self)._max_level == old(self)._max_level,
            final(self)._id2level@ == old(self)._id2level@,
            r < final(self).n_items_spec(),
            level == 0 || ((level - 1) as int) < old(self).neighbors_upper()[
                cur_id as int].len() ==> final(self).layer_row(cur_id as int, level as int)
                == old(self).heuristic_filter(
                sorted_candidates@,
                Seq::<Neighbor>::empty(),
                (if level == 0 {
                    old(self).n_neighbor0_cap()
                } else {
                    old(self).n_neighbor_cap()
                }),
            ).map_values(|v: Neighbor| v._idx),
            level == 0 ==> final(self).neighbors0()[cur_id as int].len() >= 1,
            level != 0 ==> final(self).neighbors0() == old(self).neighbors0(),
            level == 0 ==> forall|v: int|
                0 <= v < old(self).n_items_spec() && v != cur_id && old(self).neighbors0()[
                    v].len() >= 1 ==> (#[trigger] final(self).neighbors0()[v]).len() >= 1,
    {
        let n_neigh = if level == 0 {
            self._n_neighbor0
        } else {
            self._n_neighbor
        };
        let n_neigh = if n_neigh == 0 {
            1
        } else {
            n_neigh
        };
        proof {
            if level == 0 {
                assert(n_neigh as int == self.n_neighbor0_cap());
            } else {
                assert(n_neigh as int == self.n_neighbor_cap());
            }
        }
        let selected = self.get_neighbors_by_heuristic2(sorted_candidates, n_neigh);
        let next_entry = if selected.len() > 0 {
            selected[0]._idx
        } else {
            sorted_candidates[0]._idx
        };
        // the new node's own out-list
        let mut own: Vec<usize> = Vec::new();
        let sn = selected.len();
        let mut t: usize = 0;
        while t < sn
            invariant
                t <= sn,
                sn == selected@.len(),
                forall|u: int| 0 <= u < selected@.len() ==> (#[trigger] selected@[u])._idx < old(
                    self).n_items_spec(),
                own@.len() == t,
                forall|u: int| 0 <= u < own@.len() ==> (#[trigger] own@[u]) < old(
                    self).n_items_spec(),
                forall|u: int| 0 <= u < own@.len() ==> (#[trigger] own@[u]) == selected@[
                    u]._idx,
            decreases sn - t,
        {
            own.push(selected[t]._idx);
            t = t + 1;
        }
        let ghost filt = old(self).heuristic_filter(
            sorted_candidates@,
            Seq::<Neighbor>::empty(),
            (if level == 0 {
                old(self).n_neighbor0_cap()
            } else {
                old(self).n_neighbor_cap()
            }),
        );
        proof {
            assert(selected@ == filt);
            assert(own@ =~= filt.map_values(|v: Neighbor| v._idx));
            if level == 0 && sorted_candidates@.len() >= 1 {
                old(self).lemma_heuristic_filter_nonempty(
                    sorted_candidates@,
                    old(self).n_neighbor0_cap(),
                );
            }
        }
        self.set_neighbor_list(cur_id, level, own);
        let ghost row0 = self.layer_row(cur_id as int, level as int);
        proof {
            if level == 0 {
                assert(row0 == own@);
            } else if ((level - 1) as int) < old(self).neighbors_upper()[cur_id as int].len() {
                assert(self.neighbors_upper()[cur_id as int] == old(self).neighbors_upper()[
                    cur_id as int].update((level - 1) as int, own@));
                assert(row0 == own@);
            }
        }
        // reverse edges
        let mut t2: usize = 0;
        while t2 < sn
            invariant
                self.wf(),
                self.metric_kind() == old(self).metric_kind(),
                self.metric_kind() != Metric::Unknown,
                self.nodes_seq() == old(self).nodes_seq(),
                self.dim() == old(self).dim(),
                self.n_items_spec() == old(self).n_items_spec(),
                self.constructed() == old(self).constructed(),
                self.tombstones() == old(self).tombstones(),
                self.has_deletion_spec() == old(self).has_deletion_spec(),
                self.max_item_spec() == old(self).max_item_spec(),
                self._root_id == old(self)._root_id,
                self._cur_level == old(self)._cur_level,
                self._ef_build == old(self)._ef_build,
                self._ef_search == old(self)._ef_search,
                self._n_neighbor == old(self)._n_neighbor,
                self._n_neighbor0 == old(self)._n_neighbor0,
                self._max_level == old(self)._max_level,
                self._id2level@ == old(self)._id2level@,
                cur_id < self.n_items_spec(),
                t2 <= sn,
                sn == selected@.len(),
                n_neigh >= 1,
                level == 0 ==> n_neigh as int == self.n_neighbor0_cap(),
                level != 0 ==> n_neigh as int == self.n_neighbor_cap(),
                self.layer_row(cur_id as int, level as int) == row0,
                level != 0 ==> self.neighbors0() == old(self).neighbors0(),
                level == 0 ==> forall|v: int|
                    0 <= v < self.n_items_spec() && v != cur_id && old(self).neighbors0()[
                        v].len() >= 1 ==> (#[trigger] self.neighbors0()[v]).len() >= 1,
                forall|u: int| 0 <= u < selected@.len() ==> (#[trigger] selected@[u])._idx < self.n_items_spec(),
            decreases sn - t2,
        {
            let nb = selected[t2]._idx;
            if nb != cur_id {
                let mut list = self.neighbor_list(nb, level);
                let mut present = false;
                let ln = list.len();
                let mut u: usize = 0;
                while u < ln
                    invariant
                        u <= ln,
                        ln == list@.len(),
                        cur_id < self.n_items_spec(),
                    decreases ln - u,
                {
                    if list[u] == cur_id {
                        present = true;
                        break;
                    }
                    u = u + 1;
                }
                if !present {
                    if list.len() < n_neigh {
                        list.push(cur_id);
                        let ghost pre_w = *self;
                        self.set_neighbor_list(nb, level, list);
                        proof {
                            assert(self.layer_row(cur_id as int, level as int) == row0);
                            if level != 0 {
                                assert(self.neighbors0() =~= pre_w.neighbors0());
                            } else {
                                assert forall|v: int|
                                    0 <= v < self.n_items_spec() && v != cur_id && old(
                                        self).neighbors0()[v].len() >= 1 implies (
                                #[trigger] self.neighbors0()[v]).len() >= 1 by {
                                    if v != nb {
                                        assert(self.neighbors0()[v] == pre_w.neighbors0()[v]);
                                    } else {
                                        assert(self.neighbors0()[v] == list@);
                                    }
                                }
                            }
                        }
                    } else {
                        // over capacity: re-prune the neighbourhood
                        let mut cands: Vec<Neighbor> = Vec::new();
                        let d_max = self.dist_id(cur_id, nb);
                        cands.push(Neighbor::new(cur_id, d_max));
                        let ln2 = list.len();
                        let mut w: usize = 0;
                        while w < ln2
                            invariant
                                self.wf(),
                                self.metric_kind() != Metric::Unknown,
                                w <= ln2,
                                ln2 == list@.len(),
                                cands@.len() >= 1,
                                nb < self.n_items_spec(),
                                forall|v: int| 0 <= v < list@.len() ==> (#[trigger] list@[v])
                                    < self.n_items_spec(),
                                forall|v: int| 0 <= v < cands@.len() ==> (#[trigger] cands@[
                                    v])._idx < self.n_items_spec(),
                            decreases ln2 - w,
                        {
                            let other = list[w];
                            let d = self.dist_id(other, nb);
                            cands.push(Neighbor::new(other, d));
                            w = w + 1;
                        }
                        let sorted = crate::heap::select_topk_keep_all(&cands);
                        let pruned = self.get_neighbors_by_heuristic2(&sorted, n_neigh);
                        let mut nl: Vec<usize> = Vec::new();
                        let pn = pruned.len();
                        let mut v2: usize = 0;
                        while v2 < pn
                            invariant
                                v2 <= pn,
                                pn == pruned@.len(),
                                forall|v: int| 0 <= v < pruned@.len() ==> (#[trigger] pruned@[
                                    v])._idx < self.n_items_spec(),
                                nl@.len() == v2,
                                forall|v: int| 0 <= v < nl@.len() ==> (#[trigger] nl@[v])
                                    < self.n_items_spec(),
                            decreases pn - v2,
                        {
                            nl.push(pruned[v2]._idx);
                            v2 = v2 + 1;
                        }
                        proof {
                            self.lemma_heuristic_filter_nonempty(sorted@, n_neigh as int);
                            assert(pruned@.len() >= 1);
                        }
                        let ghost pre_w = *self;
                        self.set_neighbor_list(nb, level, nl);
                        proof {
                            assert(self.layer_row(cur_id as int, level as int) == row0);
                            if level != 0 {
                                assert(self.neighbors0() =~= pre_w.neighbors0());
                            } else {
                                assert forall|v: int|
                                    0 <= v < self.n_items_spec() && v != cur_id && old(
                                        self).neighbors0()[v].len() >= 1 implies (
                                #[trigger] self.neighbors0()[v]).len() >= 1 by {
                                    if v != nb {
                                        assert(self.neighbors0()[v] == pre_w.neighbors0()[v]);
                                    } else {
                                        assert(self.neighbors0()[v] == nl@);
                                    }
                                }
                            }
                        }
                    }
                }
            }
            t2 = t2 + 1;
        }
        next_entry
    }

    /// Insert one item's edges, descending from the root.
    fn construct_single_item(&mut self, insert_id: usize)
        requires
            old(self).wf(),
            old(self).metric_kind() != Metric::Unknown,
            insert_id < old(self).n_items_spec(),
        ensures
            final(self).wf(),
            final(self).nodes_seq() == old(self).nodes_seq(),
            final(self).dim() == old(self).dim(),
            final(self).metric_kind() == old(self).metric_kind(),
            final(self).n_items_spec() == old(self).n_items_spec(),
            final(self).constructed() == old(self).constructed(),
            final(self).tombstones() == old(self).tombstones(),
            final(self).has_deletion_spec() == old(self).has_deletion_spec(),
            final(self).max_item_spec() == old(self).max_item_spec(),
            insert_id >= 1 ==> final(self).neighbors0()[insert_id as int].len() >= 1,
            insert_id >= 1 ==> exists|cands: Seq<Neighbor>|
                {
                    let picked = #[trigger] old(self).heuristic_filter(
                        cands,
                        Seq::<Neighbor>::empty(),
                        old(self).n_neighbor0_cap(),
                    );
                    cands.len() >= 1 && (forall|t: int|
                        0 <= t < cands.len() ==> (#[trigger] cands[t])._idx < old(
                            self).n_items_spec()) && final(self).neighbors0()[insert_id as int]
                        == picked.map_values(|v: Neighbor| v._idx)
                },
            forall|v: int|
                0 <= v < old(self).n_items_spec() && v != insert_id && old(self).neighbors0()[
                    v].len() >= 1 ==> (#[trigger] final(self).neighbors0()[v]).len() >= 1,
    {
        if insert_id == 0 {
            return ;
        }
        let insert_level = if insert_id < self._id2level.len() {
            self._id2level[insert_id]
        } else {
            0
        };
        let mut cur_id = self._root_id;
        let mut cur_level = self._cur_level;
        // greedy descent above the insertion level
        let mut budget: u128 = (self._n_items as u128) + (self._cur_level as u128) + 2;
        let mut cur_dist = self.dist_id(cur_id, insert_id);
        while cur_level > insert_level && budget > 0
            invariant
                self.wf(),
                self.metric_kind() != Metric::Unknown,
                insert_id < self.n_items_spec(),
                cur_id < self.n_items_spec(),
            decreases budget,
        {
            budget = budget - 1;
            let mut changed = false;
            let neigh = self.neighbor_list(cur_id, cur_level);
            let nn = neigh.len();
            let mut t: usize = 0;
            while t < nn
                invariant
                    self.wf(),
                    self.metric_kind() != Metric::Unknown,
                    insert_id < self.n_items_spec(),
                    cur_id < self.n_items_spec(),
                    t <= nn,
                    nn == neigh@.len(),
                    forall|u: int| 0 <= u < neigh@.len() ==> (#[trigger] neigh@[u]) < self.n_items_spec(),
                decreases nn - t,
            {
                let cand = neigh[t];
                let d = self.dist_id(cand, insert_id);
                if d < cur_dist {
                    cur_dist = d;
                    cur_id = cand;
                    changed = true;
                }
                t = t + 1;
            }
            if !changed {
                if cur_level == 0 {
                    break;
                }
                cur_level = cur_level - 1;
            }
        }
        // frontier search and connection per layer
        let top_level = if insert_level < self._cur_level {
            insert_level
        } else {
            self._cur_level
        };
        let mut level = top_level;
        let mut lbudget: u128 = (top_level as u128) + 2;
        while lbudget > 0
            invariant_except_break
                self.wf(),
                self.metric_kind() == old(self).metric_kind(),
                self.metric_kind() != Metric::Unknown,
                insert_id < self.n_items_spec(),
                insert_id >= 1,
                cur_id < self.n_items_spec(),
                self.nodes_seq() == old(self).nodes_seq(),
                self.dim() == old(self).dim(),
                self.n_items_spec() == old(self).n_items_spec(),
                self.constructed() == old(self).constructed(),
                self.tombstones() == old(self).tombstones(),
                self.has_deletion_spec() == old(self).has_deletion_spec(),
                self.max_item_spec() == old(self).max_item_spec(),
                self._ef_build == old(self)._ef_build,
                self._n_neighbor0 == old(self)._n_neighbor0,
                self._n_neighbor == old(self)._n_neighbor,
                lbudget >= level as u128 + 1,
                forall|v: int|
                    0 <= v < old(self).n_items_spec() && v != insert_id && old(
                        self).neighbors0()[v].len() >= 1 ==> (#[trigger] self.neighbors0()[
                        v]).len() >= 1,
            ensures
                self.wf(),
                self.metric_kind() == old(self).metric_kind(),
                self.nodes_seq() == old(self).nodes_seq(),
                self.dim() == old(self).dim(),
                self.n_items_spec() == old(self).n_items_spec(),
                self.constructed() == old(self).constructed(),
                self.tombstones() == old(self).tombstones(),
                self.has_deletion_spec() == old(self).has_deletion_spec(),
                self.max_item_spec() == old(self).max_item_spec(),
                self.neighbors0()[insert_id as int].len() >= 1,
                exists|cands: Seq<Neighbor>|
                    {
                        let picked = #[trigger] old(self).heuristic_filter(
                            cands,
                            Seq::<Neighbor>::empty(),
                            old(self).n_neighbor0_cap(),
                        );
                        cands.len() >= 1 && (forall|t: int|
                            0 <= t < cands.len() ==> (#[trigger] cands[t])._idx < old(
                                self).n_items_spec()) && self.neighbors0()[insert_id as int]
                            == picked.map_values(|v: Neighbor| v._idx)
                    },
                forall|v: int|
                    0 <= v < old(self).n_items_spec() && v != insert_id && old(
                        self).neighbors0()[v].len() >= 1 ==> (#[trigger] self.neighbors0()[
                        v]).len() >= 1,
            decreases lbudget,
        {
            lbudget = lbudget - 1;
            let ef = if self._ef_build == 0 {
                1
            } else {
                self._ef_build
            };
            let mut seeds: Vec<usize> = Vec::new();
            seeds.push(cur_id);
            let found = self.search_layer_seeds(&seeds, &self._nodes[insert_id].clone(), level,
                ef, false);
            let sorted_candidates = if found.len() == 0 {
                let mut sc: Vec<Neighbor> = Vec::new();
                sc.push(Neighbor::new(cur_id, self.dist_id(cur_id, insert_id)));
                sc
            } else {
                found
            };
            let ghost mid = *self;
            cur_id = self.connect_neighbor(insert_id, &sorted_candidates, level);
            if level == 0 {
                proof {
                    HNSWIndex::lemma_heuristic_filter_congruent(
                        &mid,
                        old(self),
                        sorted_candidates@,
                        Seq::<Neighbor>::empty(),
                        old(self).n_neighbor0_cap(),
                    );
                    assert(self.neighbors0()[insert_id as int] == old(self).heuristic_filter(
                        sorted_candidates@,
                        Seq::<Neighbor>::empty(),
                        old(self).n_neighbor0_cap(),
                    ).map_values(|v: Neighbor| v._idx));
                    assert(sorted_candidates@.len() >= 1);
                }
                break;
            }
            level = level - 1;
        }
    }

    fn init_item(&mut self, data: &MemoryNode) -> (r: usize)
        requires
            old(self).wf(),
            data.valid(),
            data.id() is Some,
            data.vecs().len() == old(self).dim(),
            old(self).nodes_seq().len() < old(self).max_item_spec(),
        ensures
            final(self).wf(),
            final(self).dim() == old(self).dim(),
            final(self).metric_kind() == old(self).metric_kind(),
            final(self).n_items_spec() == old(self).n_items_spec() + 1,
            final(self).constructed() == old(self).constructed(),
            final(self).max_item_spec() == old(self).max_item_spec(),
            final(self).has_deletion_spec() == old(self).has_deletion_spec(),
            final(self).nodes_seq().len() == old(self).nodes_seq().len() + 1,
            final(self).nodes_seq().last().vecs() == data.vecs(),
            final(self).nodes_seq().last().id() == data.id(),
            forall|t: int| 0 <= t < old(self).nodes_seq().len() ==> final(self).nodes_seq()[t]
                == old(self).nodes_seq()[t],
            final(self).max_level_spec() == old(self).max_level_spec(),
            final(self).levels_spec().len() == old(self).levels_spec().len() + 1,
            forall|i: int| 0 <= i < old(self).levels_spec().len() ==> final(self).levels_spec()[
                i] == old(self).levels_spec()[i],
            final(self).levels_spec().last() as int <= final(self).max_level_spec(),
            old(self).n_items_spec() == 0 ==> final(self).root_spec() == 0 && final(
                self).levels_spec().last() as int == final(self).max_level_spec() && final(
                self).cur_level_spec() == final(self).max_level_spec(),
    {
        let cur_id = self._n_items;
        let mut cur_level = self.get_random_level();
        if cur_id == 0 {
            cur_level = self._max_level;
            self._cur_level = cur_level;
            self._root_id = cur_id;
        }
        let neigh0: Vec<usize> = Vec::new();
        let mut neigh: Vec<Vec<usize>> = Vec::new();
        let mut i: usize = 0;
        while i < cur_level
            invariant
                i <= cur_level,
                neigh@.len() == i,
                forall|l: int| 0 <= l < neigh@.len() ==> (#[trigger] neigh@[l])@.len() == 0,
            decreases cur_level - i,
        {
            let level_neigh: Vec<usize> = Vec::new();
            neigh.push(level_neigh);
            i = i + 1;
        }
        self._nodes.push(data.clone());
        self._id2neighbor0.push(neigh0);
        self._id2neighbor.push(neigh);
        self._id2level.push(cur_level);
        self._delete_ids.push(false);
        self._n_items = self._n_items + 1;
        proof {
            assert forall|a: int, t: int|
                #![trigger self._id2neighbor0@[a]@[t]]
                0 <= a < self.n_items_spec() && 0 <= t < self._id2neighbor0@[a]@.len() implies
                self._id2neighbor0@[a]@[t] < self.n_items_spec() by {
                if a < old(self).n_items_spec() {
                    assert(self._id2neighbor0@[a] == old(self)._id2neighbor0@[a]);
                    assert(old(self)._id2neighbor0@[a]@[t] < old(self).n_items_spec());
                }
            }
            assert forall|a: int, l: int, t: int|
                #![trigger self._id2neighbor@[a]@[l]@[t]]
                0 <= a < self.n_items_spec() && 0 <= l < self._id2neighbor@[a]@.len() && 0 <= t
                    < self._id2neighbor@[a]@[l]@.len() implies self._id2neighbor@[a]@[l]@[t]
                < self.n_items_spec() by {
                if a < old(self).n_items_spec() {
                    assert(self._id2neighbor@[a] == old(self)._id2neighbor@[a]);
                    assert(old(self)._id2neighbor@[a]@[l]@[t] < old(self).n_items_spec());
                } else {
                    assert(self._id2neighbor@[a]@[l]@.len() == 0);
                }
            }
        }
        cur_id
    }

    /// Append a prepared node without constructing its edges.
    pub fn add_node(&mut self, item: &MemoryNode) -> (r: Result<(), AnnError>)
        requires
            old(self).wf(),
            item.valid(),
            item.id() is Some,
        ensures
            final(self).wf(),
            final(self).dim() == old(self).dim(),
            final(self).metric_kind() == old(self).metric_kind(),
            final(self).max_item_spec() == old(self).max_item_spec(),
            final(self).has_deletion_spec() == old(self).has_deletion_spec(),
            r is Ok <==> item.vecs().len() == old(self).dim() && old(self).nodes_seq().len()
                < old(self).max_item_spec(),
            r is Ok ==> final(self).nodes_seq().len() == old(self).nodes_seq().len() + 1
                && final(self).nodes_seq().last().vecs() == item.vecs() && final(
                self).nodes_seq().last().id() == item.id() && forall|t: int|
                0 <= t < old(self).nodes_seq().len() ==> final(self).nodes_seq()[t] == old(
                    self).nodes_seq()[t],
            r is Ok ==> final(self).levels_spec().len() == old(self).levels_spec().len() + 1
                && (forall|i: int| 0 <= i < old(self).levels_spec().len() ==> final(
                self).levels_spec()[i] == old(self).levels_spec()[i]) && final(
                self).levels_spec().last() as int <= final(self).max_level_spec(),
            r is Ok && old(self).nodes_seq().len() == 0 ==> final(self).root_spec() == 0
                && final(self).levels_spec().last() as int == final(self).max_level_spec()
                && final(self).cur_level_spec() == final(self).max_level_spec(),
            r is Err ==> final(self).nodes_seq() == old(self).nodes_seq(),
    {
        if item.len() != self._dimension {
            return Err(AnnError::DimensionMismatch);
        }
        if self._n_items >= self._max_item {
            return Err(AnnError::IndexFull);
        }
        let _ = self.init_item(item);
        Ok(())
    }

    /// Validate and append a raw vector with its id.
    pub fn add(&mut self, vs: &[i64], idx: u64) -> (r: Result<(), AnnError>)
        requires
            old(self).wf(),
        ensures
            final(self).wf(),
            final(self).dim() == old(self).dim(),
            final(self).metric_kind() == old(self).metric_kind(),
            final(self).max_item_spec() == old(self).max_item_spec(),
            final(self).has_deletion_spec() == old(self).has_deletion_spec(),
            r is Ok <==> vs@.len() == old(self).dim() && bounded(vs@, COMPONENT_LIMIT) && old(
                self).nodes_seq().len() < old(self).max_item_spec(),
            r is Ok ==> final(self).nodes_seq().len() == old(self).nodes_seq().len() + 1
                && final(self).nodes_seq().last().vecs() == vs@ && final(
                self).nodes_seq().last().id() == Some(idx) && forall|t: int|
                0 <= t < old(self).nodes_seq().len() ==> final(self).nodes_seq()[t] == old(
                    self).nodes_seq()[t],
            r is Err ==> final(self).nodes_seq() == old(self).nodes_seq(),
    {
        if vs.len() != self._dimension {
            return Err(AnnError::DimensionMismatch);
        }
        if !MemoryNode::valid_elements(vs) {
            return Err(AnnError::InvalidVector);
        }
        let n = MemoryNode::new_with_idx(vs, idx);
        self.add_node(&n)
    }

    /// Validate the whole batch, then append it: no partial insertion.
    pub fn add_batch(&mut self, vss: &Vec<Vec<i64>>, indices: &[u64]) -> (r: Result<(),
        AnnError>)
        requires
            old(self).wf(),
        ensures
            final(self).wf(),
            final(self).metric_kind() == old(self).metric_kind(),
            final(self).dim() == old(self).dim(),
            final(self).max_item_spec() == old(self).max_item_spec(),
            final(self).has_deletion_spec() == old(self).has_deletion_spec(),
            r is Err ==> final(self).nodes_seq() == old(self).nodes_seq(),
            vss@.len() != indices@.len() ==> r == Err::<(), AnnError>(
                AnnError::DimensionMismatch),
            r is Ok ==> vss@.len() == indices@.len() && final(self).nodes_seq().len() == old(
                self).nodes_seq().len() + vss@.len() && forall|j: int|
                0 <= j < vss@.len() ==> (#[trigger] final(self).nodes_seq()[old(
                    self).nodes_seq().len() + j]).vecs() == vss@[j]@ && final(
                    self).nodes_seq()[old(self).nodes_seq().len() + j].id() == Some(
                    indices@[j]),
    {
        if vss.len() != indices.len() {
            return Err(AnnError::DimensionMismatch);
        }
        let m = vss.len();
        if m > self._max_item - self._n_items {
            return Err(AnnError::IndexFull);
        }
        let mut i: usize = 0;
        while i < m
            invariant
                i <= m,
                m == vss@.len() == indices@.len(),
                self == old(self),
                self.wf(),
                forall|j: int| 0 <= j < i ==> (#[trigger] vss@[j])@.len() == old(self).dim()
                    && bounded(vss@[j]@, COMPONENT_LIMIT),
            decreases m - i,
        {
            if vss[i].len() != self._dimension {
                return Err(AnnError::DimensionMismatch);
            }
            if !MemoryNode::valid_elements(vss[i].as_slice()) {
                return Err(AnnError::InvalidVector);
            }
            i = i + 1;
        }
        let ghost base = self.nodes_seq();
        let mut j: usize = 0;
        while j < m
            invariant
                j <= m,
                m == vss@.len() == indices@.len(),
                self.wf(),
                self.metric_kind() == old(self).metric_kind(),
                self.dim() == old(self).dim(),
                self.max_item_spec() == old(self).max_item_spec(),
                self.has_deletion_spec() == old(self).has_deletion_spec(),
                base == old(self).nodes_seq(),
                base.len() + m <= self.max_item_spec(),
                self.nodes_seq().len() == base.len() + j,
                forall|t: int| 0 <= t < vss@.len() ==> (#[trigger] vss@[t])@.len() == old(
                    self).dim() && bounded(vss@[t]@, COMPONENT_LIMIT),
                forall|t: int| 0 <= t < j ==> (#[trigger] self.nodes_seq()[base.len()
                    + t]).vecs() == vss@[t]@ && self.nodes_seq()[base.len() + t].id() == Some(
                    indices@[t]),
            decreases m - j,
        {
            let ghost pre = *self;
            match self.add(vss[j].as_slice(), indices[j]) {
                Ok(()) => {},
                Err(_) => {
                    // unreachable: the batch was validated and fits
                    proof {
                        assert(false);
                    }
                },
            }
            proof {
                assert forall|t: int| 0 <= t < j + 1 implies (#[trigger] self.nodes_seq()[
                    base.len() + t]).vecs() == vss@[t]@ && self.nodes_seq()[base.len()
                    + t].id() == Some(indices@[t]) by {
                    if t < j {
                        assert(self.nodes_seq()[base.len() + t] == pre.nodes_seq()[base.len()
                            + t]);
                    } else {
                        assert(self.nodes_seq()[base.len() + t] == self.nodes_seq().last());
                    }
                }
            }
            j = j + 1;
        }
        Ok(())
    }

    /// Construct edges for every pending item.
    pub fn build(&mut self, mt: Metric) -> (r: Result<(), AnnError>)
        requires
            old(self).wf(),
        ensures
            final(self).wf(),
            final(self).nodes_seq() == old(self).nodes_seq(),
            final(self).dim() == old(self).dim(),
            final(self).has_deletion_spec() == old(self).has_deletion_spec(),
            mt == Metric::Unknown ==> r == Err::<(), AnnError>(AnnError::MetricUnset),
            mt != Metric::Unknown ==> r is Ok && final(self).built_spec() && final(
                self).metric_kind() == mt,
            forall|i: int|
                0 <= i < final(self).n_items_spec() ==> (#[trigger] final(self).neighbors0()[
                    i]).len() <= final(self).n_neighbor0_cap(),
            forall|i: int, l: int|
                #![trigger final(self).neighbors_upper()[i][l]]
                0 <= i < final(self).n_items_spec() && 0 <= l < final(self).neighbors_upper()[
                    i].len() ==> final(self).neighbors_upper()[i][l].len() <= final(
                    self).n_neighbor_cap(),
            mt != Metric::Unknown ==> forall|i: int|
                old(self).constructed() <= i < final(self).n_items_spec() && i >= 1 ==> (
                #[trigger] final(self).neighbors0()[i]).len() >= 1,
    {
        if matches!(mt, Metric::Unknown) {
            proof {
                lemma_degree_caps(self);
            }
            return Err(AnnError::MetricUnset);
        }
        self.mt = mt;
        proof {
            assert(self.nodes_seq() == old(self).nodes_seq());
            assert(self.wf());
        }
        let n = self._n_items;
        let mut insert_id: usize = if self._n_constructed_items > n {
            n
        } else {
            self._n_constructed_items
        };
        let ghost start = insert_id as int;
        while insert_id < n
            invariant
                self.wf(),
                self.metric_kind() == mt,
                mt != Metric::Unknown,
                start <= insert_id <= n,
                start == (if old(self).constructed() > n as int {
                    n as int
                } else {
                    old(self).constructed()
                }),
                n == self.n_items_spec(),
                self.nodes_seq() == old(self).nodes_seq(),
                self.dim() == old(self).dim(),
                self.has_deletion_spec() == old(self).has_deletion_spec(),
                self.max_item_spec() == old(self).max_item_spec(),
                forall|v: int| start <= v < insert_id && v >= 1 ==> (
                #[trigger] self.neighbors0()[v]).len() >= 1,
            decreases n - insert_id,
        {
            let ghost pre_c = *self;
            self.construct_single_item(insert_id);
            proof {
                assert forall|v: int| start <= v < insert_id + 1 && v >= 1 implies (
                #[trigger] self.neighbors0()[v]).len() >= 1 by {
                    if v < insert_id {
                        assert(pre_c.neighbors0()[v].len() >= 1);
                    }
                }
            }
            insert_id = insert_id + 1;
        }
        let ghost before_mark = *self;
        self._n_constructed_items = n;
        proof {
            assert(self.wf());
            lemma_degree_caps(self);
            assert(self.neighbors0() == before_mark.neighbors0());
            assert forall|i: int|
                old(self).constructed() <= i < self.n_items_spec() && i >= 1 implies (
            #[trigger] self.neighbors0()[i]).len() >= 1 by {
                assert(start <= i < n);
                assert(before_mark.neighbors0()[i].len() >= 1);
            }
        }
        Ok(())
    }

    pub fn built(&self) -> (r: bool)
        requires
            self.wf(),
        ensures
            r == (self.constructed() == self.n_items_spec()),
    {
        self._n_constructed_items == self._n_items
    }

    /// Greedy descent to layer 1, then a frontier search at layer 0:
    /// at most `k` live nodes with exact distances, ascending, distinct.
    pub fn search_knn(&self, search_data: &MemoryNode, k: usize) -> (r: Vec<Neighbor>)
        requires
            self.wf(),
            self.built_spec(),
            search_data.valid(),
            search_data.vecs().len() == self.dim(),
            k >= 1,
        ensures
            self.valid_selection(r@, search_data.vecs()),
            r@.len() <= k,
            self.nodes_seq().len() == 0 ==> r@.len() == 0,
            !self.has_deletion_spec() && self.nodes_seq().len() >= 1 ==> r@.len() >= 1,
            k as int >= self.nodes_seq().len() ==> r@.len() == self.live_count(),
            !self.has_deletion_spec() && k as int >= self.nodes_seq().len() ==> r@.len()
                == self.nodes_seq().len(),
    {
        if self._n_items == 0 {
            let r: Vec<Neighbor> = Vec::new();
            return r;
        }
        if k >= self._n_items {
            // the query covers the whole index: answer exhaustively
            let r = self.full_scan(search_data);
            proof {
                self.lemma_live_count_bounds(self.nodes_seq().len() as int);
                if !self.has_deletion_spec() {
                    assert forall|i: int| 0 <= i < self.nodes_seq().len() implies !self.deleted_spec(
                        i,
                    ) by {}
                    self.lemma_live_count_full(self.nodes_seq().len() as int);
                }
            }
            return r;
        }
        let mut cur_id = self._root_id;
        let mut cur_dist = self.dist_to(cur_id, search_data);
        let mut cur_level = self._cur_level;
        let mut budget: u128 = (self._n_items as u128) + (self._cur_level as u128) + 2;
        while budget > 0
            invariant
                self.wf(),
                self.built_spec(),
                search_data.valid(),
                search_data.vecs().len() == self.dim(),
                cur_id < self.n_items_spec(),
            decreases budget,
        {
            budget = budget - 1;
            let mut changed = false;
            if cur_level > 0 {
                let neigh = self.neighbor_list(cur_id, cur_level);
                let nn = neigh.len();
                let mut t: usize = 0;
                while t < nn
                    invariant
                        self.wf(),
                        self.built_spec(),
                        search_data.valid(),
                        search_data.vecs().len() == self.dim(),
                        cur_id < self.n_items_spec(),
                        t <= nn,
                        nn == neigh@.len(),
                        forall|u: int| 0 <= u < neigh@.len() ==> (#[trigger] neigh@[u]) < self.n_items_spec(),
                    decreases nn - t,
                {
                    let cand = neigh[t];
                    let d = self.dist_to(cand, search_data);
                    if d < cur_dist {
                        cur_dist = d;
                        cur_id = cand;
                        changed = true;
                    }
                    t = t + 1;
                }
            }
            if !changed {
                if cur_level <= 1 {
                    break;
                }
                cur_level = cur_level - 1;
            }
        }
        let search_range = if self._ef_search > k {
            self._ef_search
        } else {
            k
        };
        let mut seeds: Vec<usize> = Vec::new();
        seeds.push(cur_id);
        let raw = self.search_layer_seeds(&seeds, search_data, 0, search_range,
            self._has_removed);
        // dedup, keep ascending order, cut to k
        let mut seen = bitset_with_capacity(self._n_items);
        let mut out: Vec<Neighbor> = Vec::new();
        let rn = raw.len();
        let mut t: usize = 0;
        while t < rn && out.len() < k
            invariant
                self.wf(),
                k >= 1,
                t <= rn,
                rn == raw@.len(),
                sorted_asc(raw@),
                t == 0 ==> bits_of(seen) == Set::<usize>::empty(),
                t >= 1 ==> out@.len() >= 1,
                forall|j: int| 0 <= j < raw@.len() ==> (#[trigger] raw@[j])._idx < self.nodes_seq().len()
                    && (self._has_removed ==> !self.deleted_spec(raw@[j]._idx as int)) && (
                raw@[j]._distance as int) == metric_spec(self.nodes_seq()[raw@[
                    j]._idx as int].vecs(), search_data.vecs(), self.metric_kind()),
                crate::visited::bit_capacity(seen) == self.n_items_spec(),
                out@.len() <= k,
                sorted_asc(out@),
                crate::neighbor::distinct_idx(out@),
                forall|j: int| 0 <= j < out@.len() ==> bits_of(seen).contains(
                    (#[trigger] out@[j])._idx),
                forall|j: int| 0 <= j < out@.len() ==> (#[trigger] out@[j])._idx < self.nodes_seq().len()
                    && (self._has_removed ==> !self.deleted_spec(out@[j]._idx as int)) && (
                out@[j]._distance as int) == metric_spec(self.nodes_seq()[out@[
                    j]._idx as int].vecs(), search_data.vecs(), self.metric_kind()),
                forall|j: int, u: int|
                    #![trigger out@[j], raw@[u]]
                    0 <= j < out@.len() && t <= u < raw@.len() ==> out@[j]._distance <= raw@[
                        u]._distance,
            decreases rn - t,
        {
            let nb = raw[t];
            if !bitset_contains(&seen, nb._idx) {
                bitset_insert(&mut seen, nb._idx);
                out.push(nb);
            }
            t = t + 1;
        }
        out
    }

    /// Top-k with full node information.
    pub fn node_search_k(&self, item: &MemoryNode, k: usize) -> (r: Vec<(MemoryNode, i64)>)
        requires
            self.wf(),
            self.built_spec(),
            item.valid(),
            item.vecs().len() == self.dim(),
        ensures
            r@.len() <= k,
            k >= 1 && !self.has_deletion_spec() && self.nodes_seq().len() >= 1 ==> r@.len() >= 1,
            k as int >= self.nodes_seq().len() ==> r@.len() == self.live_count(),
            !self.has_deletion_spec() && k as int >= self.nodes_seq().len() ==> r@.len()
                == self.nodes_seq().len(),
            forall|a: int, b: int| 0 <= a < b < r@.len() ==> (#[trigger] r@[a]).1 <= (
            #[trigger] r@[b]).1,
            forall|j: int| 0 <= j < r@.len() ==> ((#[trigger] r@[j]).1 as int) == metric_spec(
                r@[j].0.vecs(), item.vecs(), self.metric_kind()) && r@[j].0.id() is Some,
            exists|sel: Seq<Neighbor>|
                #[trigger] self.valid_selection(sel, item.vecs()) && sel.len() == r@.len()
                    && forall|j: int| 0 <= j < sel.len() ==> (#[trigger] sel[j])._distance == r@[
                    j].1 && r@[j].0.vecs() == self.nodes_seq()[sel[j]._idx as int].vecs() && r@[
                    j].0.id() == self.nodes_seq()[sel[j]._idx as int].id(),
    {
        if k == 0 {
            let r: Vec<(MemoryNode, i64)> = Vec::new();
            proof {
                let sel = Seq::<Neighbor>::empty();
                assert(self.valid_selection(sel, item.vecs()) && sel.len() == r@.len() && forall|
                    j: int| 0 <= j < sel.len() ==> (#[trigger] sel[j])._distance == r@[j].1
                        && r@[j].0.vecs() == self.nodes_seq()[sel[j]._idx as int].vecs() && r@[
                        j].0.id() == self.nodes_seq()[sel[j]._idx as int].id());
            }
            return r;
        }
        let found = self.search_knn(item, k);
        let mut r: Vec<(MemoryNode, i64)> = Vec::new();
        let m = found.len();
        let mut j: usize = 0;
        while j < m
            invariant
                self.wf(),
                j <= m,
                m == found@.len() <= k,
                sorted_asc(found@),
                crate::neighbor::distinct_idx(found@),
                forall|t: int| 0 <= t < m ==> (#[trigger] found@[t])._idx < self.nodes_seq().len()
                    && (found@[t]._distance as int) == metric_spec(self.nodes_seq()[found@[
                    t]._idx as int].vecs(), item.vecs(), self.metric_kind()),
                self.valid_selection(found@, item.vecs()),
                r@.len() == j,
                forall|t: int| 0 <= t < j ==> ((#[trigger] r@[t]).1 as int) == metric_spec(
                    r@[t].0.vecs(), item.vecs(), self.metric_kind()) && r@[t].0.id() is Some
                    && r@[t].1 == found@[t]._distance && r@[t].0.vecs() == self.nodes_seq()[
                    found@[t]._idx as int].vecs() && r@[t].0.id() == self.nodes_seq()[found@[
                    t]._idx as int].id(),
            decreases m - j,
        {
            let nb = found[j];
            let nd = self._nodes[nb._idx].clone();
            r.push((nd, nb._distance));
            j = j + 1;
        }
        proof {
            let sel = found@;
            assert(self.valid_selection(sel, item.vecs()) && sel.len() == r@.len() && forall|
                j: int| 0 <= j < sel.len() ==> (#[trigger] sel[j])._distance == r@[j].1
                    && r@[j].0.vecs() == self.nodes_seq()[sel[j]._idx as int].vecs() && r@[
                    j].0.id() == self.nodes_seq()[sel[j]._idx as int].id());
        }
        r
    }

    /// Top-k for a raw query vector.
    pub fn search_full(&self, item: &[i64], k: usize) -> (r: Vec<(MemoryNode, i64)>)
        requires
            self.wf(),
            self.built_spec(),
            item@.len() == self.dim(),
            bounded(item@, COMPONENT_LIMIT),
        ensures
            r@.len() <= k,
            k >= 1 && !self.has_deletion_spec() && self.nodes_seq().len() >= 1 ==> r@.len() >= 1,
            k as int >= self.nodes_seq().len() ==> r@.len() == self.live_count(),
            !self.has_deletion_spec() && k as int >= self.nodes_seq().len() ==> r@.len()
                == self.nodes_seq().len(),
            forall|a: int, b: int| 0 <= a < b < r@.len() ==> (#[trigger] r@[a]).1 <= (
            #[trigger] r@[b]).1,
            forall|j: int| 0 <= j < r@.len() ==> ((#[trigger] r@[j]).1 as int) == metric_spec(
                r@[j].0.vecs(), item@, self.metric_kind()) && r@[j].0.id() is Some,
            exists|sel: Seq<Neighbor>|
                #[trigger] self.valid_selection(sel, item@) && sel.len() == r@.len() && forall|
                j: int| 0 <= j < sel.len() ==> (#[trigger] sel[j])._distance == r@[j].1 && r@[
                    j].0.vecs() == self.nodes_seq()[sel[j]._idx as int].vecs() && r@[j].0.id()
                    == self.nodes_seq()[sel[j]._idx as int].id(),
    {
        let q = MemoryNode::new(item);
        self.node_search_k(&q, k)
    }

    /// Top-k, ids only: the projection of the full search to external
    /// ids, in the same order.
    pub fn search(&self, item: &[i64], k: usize) -> (r: Vec<u64>)
        requires
            self.wf(),
            self.built_spec(),
            item@.len() == self.dim(),
            bounded(item@, COMPONENT_LIMIT),
        ensures
            r@.len() <= k,
            k >= 1 && !self.has_deletion_spec() && self.nodes_seq().len() >= 1 ==> r@.len() >= 1,
            k as int >= self.nodes_seq().len() ==> r@.len() == self.live_count(),
            !self.has_deletion_spec() && k as int >= self.nodes_seq().len() ==> r@.len()
                == self.nodes_seq().len(),
            exists|sel: Seq<Neighbor>|
                #[trigger] self.valid_selection(sel, item@) && sel.len() == r@.len() && forall|
                j: int| 0 <= j < sel.len() ==> Some(#[trigger] r@[j]) == self.nodes_seq()[sel[
                    j]._idx as int].id(),
    {
        if k == 0 {
            let r: Vec<u64> = Vec::new();
            proof {
                let sel = Seq::<Neighbor>::empty();
                assert(self.valid_selection(sel, item@) && sel.len() == r@.len() && forall|
                    j: int| 0 <= j < sel.len() ==> Some(#[trigger] r@[j]) == self.nodes_seq()[
                    sel[j]._idx as int].id());
            }
            return r;
        }
        let q = MemoryNode::new(item);
        let found = self.search_knn(&q, k);
        let mut r: Vec<u64> = Vec::new();
        let m = found.len();
        let mut j: usize = 0;
        while j < m
            invariant
                self.wf(),
                j <= m,
                m == found@.len() <= k,
                self.valid_selection(found@, item@),
                r@.len() == j,
                forall|t: int| 0 <= t < j ==> Some(#[trigger] r@[t]) == self.nodes_seq()[found@[
                    t]._idx as int].id(),
            decreases m - j,
        {
            let nb = found[j];
            proof {
                assert(self.nodes_seq()[nb._idx as int].id() is Some);
            }
            let id = match self._nodes[nb._idx].idx() {
                Some(v) => v,
                None => {
                    // unreachable: every stored node carries an id
                    proof {
                        assert(false);
                    }
                    0
                },
            };
            r.push(id);
            j = j + 1;
        }
        proof {
            let sel = found@;
            assert(self.valid_selection(sel, item@) && sel.len() == r@.len() && forall|j: int|
                0 <= j < sel.len() ==> Some(#[trigger] r@[j]) == self.nodes_seq()[sel[
                j]._idx as int].id());
        }
        r
    }

    pub fn name(&self) -> (r: &'static str) {
        "HNSWIndex"
    }

    pub fn dimension(&self) -> (r: usize)
        ensures
            r == self.dim(),
    {
        self._dimension
    }

    pub fn nodes_size(&self) -> (r: usize)
        requires
            self.wf(),
        ensures
            r == self.nodes_seq().len(),
    {
        self._n_items
    }

    /// Hand out the whole searchable state as plain values, for
    /// persistence.
    pub fn to_parts(&self) -> (r: HNSWParts)
        requires
            self.wf(),
        ensures
            r.vectors@.len() == self.nodes_seq().len(),
            r.ids@.len() == self.nodes_seq().len(),
            forall|i: int| 0 <= i < self.nodes_seq().len() ==> (#[trigger] r.vectors@[i])@
                == self.nodes_seq()[i].vecs() && Some(r.ids@[i]) == self.nodes_seq()[i].id(),
            r.deleted@ == self.tombstones(),
            r.layer0@.len() == self.neighbors0().len(),
            forall|i: int| 0 <= i < self.neighbors0().len() ==> (#[trigger] r.layer0@[i])@
                == self.neighbors0()[i],
            r.upper@.len() == self.neighbors_upper().len(),
            forall|i: int| 0 <= i < self.neighbors_upper().len() ==> (#[trigger] r.upper@[
                i])@.len() == self.neighbors_upper()[i].len(),
            forall|i: int, l: int|
                #![trigger r.upper@[i]@[l]]
                0 <= i < self.neighbors_upper().len() && 0 <= l < self.neighbors_upper()[i].len()
                    ==> r.upper@[i]@[l]@ == self.neighbors_upper()[i][l],
            r.levels@ == self.levels_spec(),
            r.root == self.root_spec(),
            r.top_level == self.cur_level_spec(),
            r.constructed == self.constructed(),
            r.dimension == self.dim(),
            r.metric_code == crate::metrics::metric_code_spec(self.metric_kind()),
    {
        let mut vecs: Vec<Vec<i64>> = Vec::new();
        let mut ids: Vec<u64> = Vec::new();
        let n = self._nodes.len();
        let mut i: usize = 0;
        while i < n
            invariant
                i <= n,
                n == self.nodes_seq().len(),
                self.wf(),
                vecs@.len() == i,
                ids@.len() == i,
                forall|t: int| 0 <= t < i ==> (#[trigger] vecs@[t])@ == self.nodes_seq()[t].vecs()
                    && Some(ids@[t]) == self.nodes_seq()[t].id(),
            decreases n - i,
        {
            proof {
                assert(self._nodes@[i as int] == self.nodes_seq()[i as int]);
                assert(self.nodes_seq()[i as int].valid());
            }
            vecs.push(self._nodes[i].vectors().clone());
            let id = match self._nodes[i].idx() {
                Some(v) => v,
                None => {
                    // unreachable: every stored node carries an id
                    proof {
                        assert(false);
                    }
                    0
                },
            };
            ids.push(id);
            proof {
                assert(vecs@[i as int]@ == self.nodes_seq()[i as int].vecs());
                assert(Some(ids@[i as int]) == self.nodes_seq()[i as int].id());
            }
            i = i + 1;
        }
        let mut layer0: Vec<Vec<usize>> = Vec::new();
        let gn = self._id2neighbor0.len();
        let mut g: usize = 0;
        while g < gn
            invariant
                g <= gn,
                gn == self.neighbors0().len(),
                layer0@.len() == g,
                forall|t: int| 0 <= t < g ==> (#[trigger] layer0@[t])@ == self.neighbors0()[t],
            decreases gn - g,
        {
            layer0.push(self._id2neighbor0[g].clone());
            g = g + 1;
        }
        let mut upper: Vec<Vec<Vec<usize>>> = Vec::new();
        let un = self._id2neighbor.len();
        let mut u: usize = 0;
        while u < un
            invariant
                u <= un,
                un == self.neighbors_upper().len(),
                upper@.len() == u,
                forall|t: int| 0 <= t < u ==> (#[trigger] upper@[t])@.len()
                    == self.neighbors_upper()[t].len(),
                forall|t: int, l: int|
                    #![trigger upper@[t]@[l]]
                    0 <= t < u && 0 <= l < self.neighbors_upper()[t].len() ==> upper@[t]@[l]@
                        == self.neighbors_upper()[t][l],
            decreases un - u,
        {
            let mut stack: Vec<Vec<usize>> = Vec::new();
            let ln = self._id2neighbor[u].len();
            let mut l: usize = 0;
            while l < ln
                invariant
                    l <= ln,
                    u < un,
                    un == self.neighbors_upper().len(),
                    ln == self.neighbors_upper()[u as int].len(),
                    stack@.len() == l,
                    forall|t: int| 0 <= t < l ==> (#[trigger] stack@[t])@
                        == self.neighbors_upper()[u as int][t],
                decreases ln - l,
            {
                stack.push(self._id2neighbor[u][l].clone());
                l = l + 1;
            }
            upper.push(stack);
            u = u + 1;
        }
        HNSWParts {
            vectors: vecs,
            ids,
            deleted: self._delete_ids.clone(),
            layer0,
            upper,
            levels: self._id2level.clone(),
            root: self._root_id,
            top_level: self._cur_level,
            constructed: self._n_constructed_items,
            dimension: self._dimension,
            metric_code: crate::metrics::metric_code(self.mt),
        }
    }

    /// Rebuild an index from persisted plain values, validating them
    /// all; a load succeeds exactly when the parts are consistent.
    pub fn from_parts(p: &HNSWParts, params: &HNSWParams) -> (r: Result<HNSWIndex, AnnError>)
        ensures
            r is Ok <==> hnsw_parts_valid(p, params),
            r is Ok ==> {
                let idx = r->Ok_0;
                &&& idx.wf()
                &&& idx.dim() == p.dimension
                &&& idx.metric_kind() == crate::metrics::metric_from_code_spec(p.metric_code)
                &&& idx.nodes_seq().len() == p.vectors@.len()
                &&& forall|i: int| 0 <= i < p.vectors@.len() ==> (#[trigger] idx.nodes_seq()[
                    i]).vecs() == p.vectors@[i]@ && idx.nodes_seq()[i].id() == Some(p.ids@[i])
                &&& idx.tombstones() == p.deleted@
                &&& idx.has_deletion_spec() == params.has_deletion
                &&& idx.neighbors0().len() == p.layer0@.len()
                &&& forall|i: int| 0 <= i < p.layer0@.len() ==> (#[trigger] idx.neighbors0()[i])
                    == p.layer0@[i]@
                &&& idx.neighbors_upper().len() == p.upper@.len()
                &&& forall|i: int| 0 <= i < p.upper@.len() ==> (#[trigger] idx.neighbors_upper()[
                    i]).len() == p.upper@[i]@.len()
                &&& forall|i: int, l: int|
                    #![trigger idx.neighbors_upper()[i][l]]
                    0 <= i < p.upper@.len() && 0 <= l < p.upper@[i]@.len()
                        ==> idx.neighbors_upper()[i][l] == p.upper@[i]@[l]@
                &&& idx.levels_spec() == p.levels@
                &&& idx.root_spec() == p.root as int
                &&& idx.cur_level_spec() == p.top_level as int
                &&& idx.constructed() == p.constructed as int
                &&& idx.max_item_spec() == params.max_item
            },
    {
        if p.dimension < 1 || p.dimension > DIM_LIMIT {
            return Err(AnnError::ParameterOutOfRange);
        }
        let n = p.vectors.len();
        if p.ids.len() != n || p.deleted.len() != n || p.layer0.len() != n || p.upper.len() != n
            || p.levels.len() != n {
            return Err(AnnError::DimensionMismatch);
        }
        if n > params.max_item || p.constructed > n {
            return Err(AnnError::ParameterOutOfRange);
        }
        if n >= 1 && p.root >= n {
            return Err(AnnError::ParameterOutOfRange);
        }
        let cap0: usize = if params.n_neighbor0 == 0 {
            1
        } else {
            params.n_neighbor0
        };
        let cap: usize = if params.n_neighbor == 0 {
            1
        } else {
            params.n_neighbor
        };
        let mut g: usize = 0;
        while g < n
            invariant
                g <= n,
                n == p.vectors@.len() == p.layer0@.len(),
                cap0 as int == (if params.n_neighbor0 == 0 {
                    1int
                } else {
                    params.n_neighbor0 as int
                }),
                forall|a: int| 0 <= a < g ==> (#[trigger] p.layer0@[a])@.len() <= cap0,
                forall|a: int, b: int|
                    #![trigger p.layer0@[a]@[b]]
                    0 <= a < g && 0 <= b < p.layer0@[a]@.len() ==> p.layer0@[a]@[b] < n,
            decreases n - g,
        {
            let row_len = p.layer0[g].len();
            if row_len > cap0 {
                return Err(AnnError::ParameterOutOfRange);
            }
            let mut b: usize = 0;
            while b < row_len
                invariant
                    b <= row_len,
                    g < n,
                    n == p.vectors@.len() == p.layer0@.len(),
                    row_len == p.layer0@[g as int]@.len(),
                    forall|t: int| 0 <= t < b ==> p.layer0@[g as int]@[t] < n,
                decreases row_len - b,
            {
                if p.layer0[g][b] >= n {
                    return Err(AnnError::ParameterOutOfRange);
                }
                b = b + 1;
            }
            g = g + 1;
        }
        let mut u: usize = 0;
        while u < n
            invariant
                u <= n,
                n == p.vectors@.len() == p.upper@.len(),
                cap as int == (if params.n_neighbor == 0 {
                    1int
                } else {
                    params.n_neighbor as int
                }),
                forall|a: int, l: int|
                    #![trigger p.upper@[a]@[l]]
                    0 <= a < u && 0 <= l < p.upper@[a]@.len() ==> p.upper@[a]@[l]@.len() <= cap,
                forall|a: int, l: int, b: int|
                    #![trigger p.upper@[a]@[l]@[b]]
                    0 <= a < u && 0 <= l < p.upper@[a]@.len() && 0 <= b < p.upper@[a]@[l]@.len()
                        ==> p.upper@[a]@[l]@[b] < n,
            decreases n - u,
        {
            let stack_len = p.upper[u].len();
            let mut l: usize = 0;
            while l < stack_len
                invariant
                    l <= stack_len,
                    u < n,
                    n == p.vectors@.len() == p.upper@.len(),
                    stack_len == p.upper@[u as int]@.len(),
                    cap as int == (if params.n_neighbor == 0 {
                        1int
                    } else {
                        params.n_neighbor as int
                    }),
                    forall|t: int| 0 <= t < l ==> (#[trigger] p.upper@[u as int]@[t])@.len()
                        <= cap,
                    forall|t: int, b: int|
                        #![trigger p.upper@[u as int]@[t]@[b]]
                        0 <= t < l && 0 <= b < p.upper@[u as int]@[t]@.len() ==> p.upper@[
                            u as int]@[t]@[b] < n,
                decreases stack_len - l,
            {
                let row_len = p.upper[u][l].len();
                if row_len > cap {
                    return Err(AnnError::ParameterOutOfRange);
                }
                let mut b: usize = 0;
                while b < row_len
                    invariant
                        b <= row_len,
                        u < n,
                        l < stack_len,
                        n == p.vectors@.len() == p.upper@.len(),
                        stack_len == p.upper@[u as int]@.len(),
                        row_len == p.upper@[u as int]@[l as int]@.len(),
                        forall|t: int| 0 <= t < b ==> p.upper@[u as int]@[l as int]@[t] < n,
                    decreases row_len - b,
                {
                    if p.upper[u][l][b] >= n {
                        return Err(AnnError::ParameterOutOfRange);
                    }
                    b = b + 1;
                }
                l = l + 1;
            }
            u = u + 1;
        }
        let mut nodes: Vec<MemoryNode> = Vec::new();
        let mut i: usize = 0;
        while i < n
            invariant
                i <= n,
                n == p.vectors@.len() == p.ids@.len(),
                1 <= p.dimension <= DIM_LIMIT,
                nodes@.len() == i,
                forall|t: int| 0 <= t < i ==> (#[trigger] nodes@[t]).valid() && nodes@[
                    t].vecs() == p.vectors@[t]@ && nodes@[t].vecs().len() == p.dimension
                    && nodes@[t].id() == Some(p.ids@[t]),
                forall|t: int| 0 <= t < i ==> (#[trigger] p.vectors@[t])@.len() == p.dimension
                    && bounded(p.vectors@[t]@, COMPONENT_LIMIT),
            decreases n - i,
        {
            if p.vectors[i].len() != p.dimension {
                return Err(AnnError::DimensionMismatch);
            }
            if !MemoryNode::valid_elements(p.vectors[i].as_slice()) {
                return Err(AnnError::InvalidVector);
            }
            let nd = MemoryNode::new_with_idx(p.vectors[i].as_slice(), p.ids[i]);
            nodes.push(nd);
            i = i + 1;
        }
        let mut layer0: Vec<Vec<usize>> = Vec::new();
        let mut g2: usize = 0;
        while g2 < n
            invariant
                g2 <= n,
                n == p.layer0@.len(),
                layer0@.len() == g2,
                forall|t: int| 0 <= t < g2 ==> (#[trigger] layer0@[t])@ == p.layer0@[t]@,
            decreases n - g2,
        {
            layer0.push(p.layer0[g2].clone());
            g2 = g2 + 1;
        }
        let mut upper: Vec<Vec<Vec<usize>>> = Vec::new();
        let mut u2: usize = 0;
        while u2 < n
            invariant
                u2 <= n,
                n == p.upper@.len(),
                upper@.len() == u2,
                forall|t: int| 0 <= t < u2 ==> (#[trigger] upper@[t])@.len() == p.upper@[
                    t]@.len(),
                forall|t: int, l: int|
                    #![trigger upper@[t]@[l]]
                    0 <= t < u2 && 0 <= l < p.upper@[t]@.len() ==> upper@[t]@[l]@ == p.upper@[
                        t]@[l]@,
            decreases n - u2,
        {
            let mut stack: Vec<Vec<usize>> = Vec::new();
            let ln = p.upper[u2].len();
            let mut l2: usize = 0;
            while l2 < ln
                invariant
                    l2 <= ln,
                    u2 < n,
                    n == p.upper@.len(),
                    ln == p.upper@[u2 as int]@.len(),
                    stack@.len() == l2,
                    forall|t: int| 0 <= t < l2 ==> (#[trigger] stack@[t])@ == p.upper@[
                        u2 as int]@[t]@,
                decreases ln - l2,
            {
                stack.push(p.upper[u2][l2].clone());
                l2 = l2 + 1;
            }
            upper.push(stack);
            u2 = u2 + 1;
        }
        let idx = HNSWIndex {
            _dimension: p.dimension,
            _n_items: n,
            _n_constructed_items: p.constructed,
            _max_item: params.max_item,
            _n_neighbor: params.n_neighbor,
            _n_neighbor0: params.n_neighbor0,
            _max_level: params.max_level,
            _cur_level: p.top_level,
            _id2neighbor: upper,
            _id2neighbor0: layer0,
            _nodes: nodes,
            _root_id: p.root,
            _id2level: p.levels.clone(),
            _has_removed: params.has_deletion,
            _ef_build: params.ef_build,
            _ef_search: params.ef_search,
            _delete_ids: p.deleted.clone(),
            mt: crate::metrics::metric_from_code(p.metric_code),
            rng: Random::new(0x4157),
        };
        proof {
            assert forall|a: int, b: int|
                #![trigger idx._id2neighbor0@[a]@[b]]
                0 <= a < idx.n_items_spec() && 0 <= b < idx._id2neighbor0@[a]@.len() implies idx._id2neighbor0@[
                a]@[b] < idx.n_items_spec() by {
                assert(idx._id2neighbor0@[a]@ == p.layer0@[a]@);
            }
            assert forall|a: int| 0 <= a < idx.n_items_spec() implies (
            #[trigger] idx._id2neighbor0@[a])@.len() <= idx.n_neighbor0_cap() by {
                assert(idx._id2neighbor0@[a]@ == p.layer0@[a]@);
            }
            assert forall|a: int, l: int, b: int|
                #![trigger idx._id2neighbor@[a]@[l]@[b]]
                0 <= a < idx.n_items_spec() && 0 <= l < idx._id2neighbor@[a]@.len() && 0 <= b
                    < idx._id2neighbor@[a]@[l]@.len() implies idx._id2neighbor@[a]@[l]@[b]
                < idx.n_items_spec() by {
                assert(idx._id2neighbor@[a]@[l]@ == p.upper@[a]@[l]@);
            }
            assert forall|a: int, l: int|
                #![trigger idx._id2neighbor@[a]@[l]]
                0 <= a < idx.n_items_spec() && 0 <= l < idx._id2neighbor@[a]@.len() implies idx._id2neighbor@[
                a]@[l]@.len() <= idx.n_neighbor_cap() by {
                assert(idx._id2neighbor@[a]@[l]@ == p.upper@[a]@[l]@);
            }
            assert(idx.wf());
            assert forall|i2: int| 0 <= i2 < p.layer0@.len() implies (
            #[trigger] idx.neighbors0()[i2]) == p.layer0@[i2]@ by {
                assert(idx.neighbors0()[i2] == idx._id2neighbor0@[i2]@);
            }
            assert forall|i2: int, l: int|
                #![trigger idx.neighbors_upper()[i2][l]]
                0 <= i2 < p.upper@.len() && 0 <= l < p.upper@[i2]@.len() implies idx.neighbors_upper()[
                i2][l] == p.upper@[i2]@[l]@ by {
                assert(idx.neighbors_upper()[i2][l] == idx._id2neighbor@[i2]@[l]@);
            }
        }
        Ok(idx)
    }
}

/// Law: once every stored node is tombstoned, a search that returns only
/// live nodes returns nothing.
/// The whole searchable state of an index as plain values, for
/// persistence: an encoder outside the library turns it into bytes
/// and back, and `from_parts` revalidates whatever comes back.
pub struct HNSWParts {
    pub vectors: Vec<Vec<i64>>,
    pub ids: Vec<u64>,
    pub deleted: Vec<bool>,
    pub layer0: Vec<Vec<usize>>,
    pub upper: Vec<Vec<Vec<usize>>>,
    pub levels: Vec<usize>,
    pub root: usize,
    pub top_level: usize,
    pub constructed: usize,
    pub dimension: usize,
    pub metric_code: u8,
}

/// Persisted plain values may be loaded only when they are mutually
/// consistent: matching lengths, bounded vectors of the stated dimension,
/// in-range edges under the per-layer degree caps, and a root and a
/// constructed count that fit the node count.
pub open spec fn hnsw_parts_valid(p: &HNSWParts, params: &HNSWParams) -> bool {
    let n = p.vectors@.len() as int;
    let cap0 = (if params.n_neighbor0 == 0 {
        1int
    } else {
        params.n_neighbor0 as int
    });
    let cap = (if params.n_neighbor == 0 {
        1int
    } else {
        params.n_neighbor as int
    });
    &&& 1 <= p.dimension <= DIM_LIMIT
    &&& p.ids@.len() == n
    &&& p.deleted@.len() == n
    &&& p.layer0@.len() == n
    &&& p.upper@.len() == n
    &&& p.levels@.len() == n
    &&& n <= params.max_item
    &&& p.constructed <= n
    &&& n >= 1 ==> (p.root as int) < n
    &&& forall|i: int|
        0 <= i < n ==> (#[trigger] p.vectors@[i])@.len() == p.dimension && bounded(
            p.vectors@[i]@,
            COMPONENT_LIMIT,
        )
    &&& forall|i: int| 0 <= i < n ==> (#[trigger] p.layer0@[i])@.len() <= cap0
    &&& forall|i: int, t: int|
        #![trigger p.layer0@[i]@[t]]
        0 <= i < n && 0 <= t < p.layer0@[i]@.len() ==> p.layer0@[i]@[t] < n
    &&& forall|i: int, l: int|
        #![trigger p.upper@[i]@[l]]
        0 <= i < n && 0 <= l < p.upper@[i]@.len() ==> p.upper@[i]@[l]@.len() <= cap
    &&& forall|i: int, l: int, t: int|
        #![trigger p.upper@[i]@[l]@[t]]
        0 <= i < n && 0 <= l < p.upper@[i]@.len() && 0 <= t < p.upper@[i]@[l]@.len()
            ==> p.upper@[i]@[l]@[t] < n
}

/// Every well-formed index keeps each layer-0 row within the layer-0 degree
/// cap and each upper-layer row within the upper-layer degree cap.
pub proof fn lemma_degree_caps(index: &HNSWIndex)
    requires
        index.wf(),
    ensures
        forall|i: int|
            0 <= i < index.n_items_spec() ==> (#[trigger] index.neighbors0()[i]).len()
                <= index.n_neighbor0_cap(),
        forall|i: int, l: int|
            #![trigger index.neighbors_upper()[i][l]]
            0 <= i < index.n_items_spec() && 0 <= l < index.neighbors_upper()[i].len()
                ==> index.neighbors_upper()[i][l].len() <= index.n_neighbor_cap(),
{
    assert forall|i: int| 0 <= i < index.n_items_spec() implies (#[trigger] index.neighbors0()[
        i]).len() <= index.n_neighbor0_cap() by {
        assert(index.neighbors0()[i] == index._id2neighbor0@[i]@);
        assert(index._id2neighbor0@[i]@.len() <= index.n_neighbor0_cap());
    }
    assert forall|i: int, l: int|
        #![trigger index.neighbors_upper()[i][l]]
        0 <= i < index.n_items_spec() && 0 <= l < index.neighbors_upper()[i].len() implies index.neighbors_upper()[
        i][l].len() <= index.n_neighbor_cap() by {
        assert(index.neighbors_upper()[i][l] == index._id2neighbor@[i]@[l]@);
        assert(index._id2neighbor@[i]@[l]@.len() <= index.n_neighbor_cap());
    }
}

pub proof fn lemma_all_deleted_empty(index: &HNSWIndex, r: Seq<Neighbor>)
    requires
        index.has_deletion_spec(),
        forall|j: int| 0 <= j < r.len() ==> (#[trigger] r[j])._idx < index.nodes_seq().len()
            && !index.deleted_spec(r[j]._idx as int),
        forall|i: int| 0 <= i < index.nodes_seq().len() ==> index.deleted_spec(i),
    ensures
        r.len() == 0,
{
    if r.len() > 0 {
        assert(r[0]._idx < index.nodes_seq().len());
        assert(index.deleted_spec(r[0]._idx as int));
    }
}

} // verus!
