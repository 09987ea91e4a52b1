//! The binary-partition-tree forest: randomized two-means hyperplane
//! trees with heap-driven descent at query time.

use crate::calc::{bounded, dot, dot_spec, get_norm, lemma_bounded_widen, lemma_dot_bound,
    lemma_sqrt_floor, sqrt_floor};
use crate::bpt_params::BPTParams;
use crate::heap::{select_topk, BinaryHeap};
use crate::kmeans::Kmeans;
use crate::metrics::{metric_spec, Metric};
use crate::neighbor::{distinct_idx, sorted_asc, Neighbor};
use crate::node::MemoryNode;
use crate::random::Random;
use crate::visited::{bits_of, bitset_contains, bitset_insert, bitset_with_capacity};
use crate::{AnnError, COMPONENT_LIMIT, DIM_LIMIT, VAL_LIMIT};
use vstd::prelude::*;

verus! {

/// Scale of a normalized hyperplane component.
pub const PLANE_SCALE: i64 = 65536;

/// A forest node: either a data leaf, a cluster of data-leaf indexes,
/// or an internal split with a hyperplane and two children.
struct Leaf {
    n_descendants: usize,
    children: Vec<usize>,
    node: MemoryNode,
    norm: i64,
    has_init: bool,
}

/// `max(left, right) * den > num * (left + right)`: the imbalance of a
/// two-way split, compared against the rational threshold `num / den`.
fn imbalance_exceeds(left: usize, right: usize, num: u64, den: u64) -> (r: bool)
    requires
        num <= 100,
        den <= 100,
    ensures
        r == ((if left > right {
            left
        } else {
            right
        }) as int * den > num * (left + right)),
{
    let mx: u128 = if left > right {
        left as u128
    } else {
        right as u128
    };
    let total: u128 = left as u128 + right as u128;
    proof {
        assert((mx as int) * (den as int) < u128::MAX as int) by (nonlinear_arith)
            requires 0 <= mx as int <= u64::MAX as int, 0 <= den as int <= 100;
        assert((num as int) * (total as int) < u128::MAX as int) by (nonlinear_arith)
            requires 0 <= total as int <= 2 * (u64::MAX as int), 0 <= num as int <= 100;
    }
    mx * (den as u128) > (num as u128) * total
}

pub struct BPTIndex {
    _dimension: usize,
    _tot_items_cnt: usize,
    _tot_leaves_cnt: usize,
    _roots: Vec<usize>,
    _leaf_max_items: usize,
    _built: bool,
    leaves: Vec<Leaf>,
    mt: Metric,
    _tree_num: i32,
    _candidate_size: i32,
    rng: Random,
}

impl BPTIndex {
    pub closed spec fn dim(&self) -> int {
        self._dimension as int
    }

    pub closed spec fn tot_items(&self) -> int {
        self._tot_items_cnt as int
    }

    pub closed spec fn metric_kind(&self) -> Metric {
        self.mt
    }

    pub closed spec fn built_flag(&self) -> bool {
        self._built
    }

    pub closed spec fn roots_seq(&self) -> Seq<usize> {
        self._roots@
    }

    pub closed spec fn leaf_max_spec(&self) -> int {
        self._leaf_max_items as int
    }

    pub closed spec fn tree_num_spec(&self) -> int {
        self._tree_num as int
    }

    pub open spec fn built_spec(&self) -> bool {
        self.built_flag() && self.metric_kind() != Metric::Unknown
    }

    pub closed spec fn leaves_len(&self) -> int {
        self.leaves@.len() as int
    }

    /// The point stored at a leaf.
    pub closed spec fn leaf_node(&self, i: int) -> MemoryNode {
        self.leaves@[i].node
    }

    /// `sel` certifies a search result for query `q`: distinct data
    /// leaves in ascending order of their exact distances to `q`.
    pub open spec fn valid_selection(&self, sel: Seq<Neighbor>, q: Seq<i64>) -> bool {
        &&& sorted_asc(sel)
        &&& distinct_idx(sel)
        &&& forall|j: int| 0 <= j < sel.len() ==> 1 <= (#[trigger] sel[j])._idx < self.leaves_len()
            && (sel[j]._distance as int) == metric_spec(self.leaf_node(sel[
            j]._idx as int).vecs(), q, self.metric_kind()) && self.leaf_node(sel[
            j]._idx as int).id() is Some
    }

    /// The stored data points, in insertion order.
    pub closed spec fn data_nodes(&self) -> Seq<MemoryNode> {
        Seq::new(self.tot_items() as nat, |i: int| self.leaves@[i + 1].node)
    }

    pub closed spec fn wf(&self) -> bool {
        &&& 1 <= self.dim() <= DIM_LIMIT as int
        &&& 2 <= self._leaf_max_items as int
        &&& self.tot_items() + 1 <= self.leaves@.len()
        &&& forall|i: int| 0 <= i < self.leaves@.len() ==> (#[trigger] self.leaves@[
            i]).node.valid() && (self.leaves@[i].node.vecs().len() == self.dim()
            || self.leaves@[i].node.vecs().len() == 0)
        &&& forall|i: int, c: int|
            #![trigger self.leaves@[i].children@[c]]
            0 <= i < self.leaves@.len() && 0 <= c < self.leaves@[i].children@.len()
                ==> self.leaves@[i].children@[c] < self.leaves@.len()
        &&& forall|i: int| 1 <= i <= self.tot_items() ==> (#[trigger] self.leaves@[
            i]).n_descendants == 1
        &&& forall|i: int| 1 <= i < self.leaves@.len() && (#[trigger] self.leaves@[
            i]).n_descendants == 1 ==> self.leaves@[i].node.vecs().len() == self.dim()
            && self.leaves@[i].node.id() is Some
        &&& forall|i: int|
            0 <= i < self.leaves@.len() && 1 < (#[trigger] self.leaves@[i]).n_descendants
                <= self._leaf_max_items ==> self.leaves@[i].children@.len() == self.leaves@[
                i].n_descendants && forall|c: int|
                0 <= c < self.leaves@[i].children@.len() ==> 1 <= (#[trigger] self.leaves@[
                    i].children@[c]) <= self.tot_items()
        &&& forall|i: int|
            0 <= i < self.leaves@.len() && (#[trigger] self.leaves@[i]).n_descendants
                > self._leaf_max_items ==> self.leaves@[i].children@.len() == 2 && self.leaves@[
                i].children@[0] >= 1 && self.leaves@[i].children@[1] >= 1 && self.leaves@[
                i].node.vecs().len() == self.dim()
        &&& forall|t: int| 0 <= t < self.roots_seq().len() ==> 1 <= (#[trigger] self.roots_seq()[
            t]) < self.leaves@.len()
    }


    /// Pushing a leaf that satisfies the per-leaf constraints keeps the
    /// index well-formed.
    proof fn lemma_wf_push(pre: BPTIndex, post: BPTIndex, nn: Leaf)
        requires
            pre.wf(),
            post.leaves@ == pre.leaves@.push(nn),
            post._dimension == pre._dimension,
            post._leaf_max_items == pre._leaf_max_items,
            post._roots@ == pre._roots@,
            post._tot_items_cnt == pre._tot_items_cnt || (post._tot_items_cnt
                == pre._tot_items_cnt + 1 && pre.leaves@.len() == pre._tot_items_cnt + 1
                && nn.n_descendants == 1),
            nn.node.valid(),
            nn.node.vecs().len() == post.dim() || nn.node.vecs().len() == 0,
            forall|c: int| 0 <= c < nn.children@.len() ==> (#[trigger] nn.children@[c])
                < post.leaves@.len(),
            nn.n_descendants == 1 ==> nn.node.vecs().len() == post.dim() && nn.node.id() is Some,
            1 < nn.n_descendants <= post._leaf_max_items ==> nn.children@.len()
                == nn.n_descendants && forall|c: int|
                0 <= c < nn.children@.len() ==> 1 <= (#[trigger] nn.children@[c])
                    <= post.tot_items(),
            nn.n_descendants > post._leaf_max_items ==> nn.children@.len() == 2
                && nn.children@[0] >= 1 && nn.children@[1] >= 1 && nn.node.vecs().len()
                == post.dim(),
        ensures
            post.wf(),
    {
        let ol = pre.leaves@;
        let nl = post.leaves@;
        assert(nl.len() == ol.len() + 1);
        assert forall|i: int| 0 <= i < nl.len() implies (#[trigger] nl[i]).node.valid() && (nl[
            i].node.vecs().len() == post.dim() || nl[i].node.vecs().len() == 0) by {
            if i < ol.len() {
                assert(nl[i] == ol[i]);
                assert((#[trigger] ol[i]).node.valid());
            }
        }
        assert forall|i: int, c: int|
            #![trigger nl[i].children@[c]]
            0 <= i < nl.len() && 0 <= c < nl[i].children@.len() implies nl[i].children@[c]
            < nl.len() by {
            if i < ol.len() {
                assert(nl[i] == ol[i]);
                assert(ol[i].children@[c] < ol.len());
            }
        }
        assert forall|i: int| 1 <= i <= post.tot_items() implies (#[trigger] nl[
            i]).n_descendants == 1 by {
            if i < ol.len() {
                assert(nl[i] == ol[i]);
                assert(i <= pre.tot_items() ==> (#[trigger] ol[i]).n_descendants == 1);
            }
        }
        assert forall|i: int| 1 <= i < nl.len() && (#[trigger] nl[i]).n_descendants
            == 1 implies nl[i].node.vecs().len() == post.dim() && nl[i].node.id() is Some by {
            if i < ol.len() {
                assert(nl[i] == ol[i]);
                assert((#[trigger] ol[i]).n_descendants == ol[i].n_descendants);
            }
        }
        assert forall|i: int|
            0 <= i < nl.len() && 1 < (#[trigger] nl[i]).n_descendants
                <= post._leaf_max_items implies nl[i].children@.len() == nl[i].n_descendants
            && (forall|c: int|
                0 <= c < nl[i].children@.len() ==> 1 <= (#[trigger] nl[i].children@[c])
                    <= post.tot_items()) by {
            if i < ol.len() {
                assert(nl[i] == ol[i]);
                assert(1 < (#[trigger] ol[i]).n_descendants <= pre._leaf_max_items);
                assert forall|c: int| 0 <= c < nl[i].children@.len() implies 1 <= (
                #[trigger] nl[i].children@[c]) <= post.tot_items() by {
                    assert(1 <= (#[trigger] ol[i].children@[c]) <= pre.tot_items());
                }
            }
        }
        assert forall|i: int|
            0 <= i < nl.len() && (#[trigger] nl[i]).n_descendants
                > post._leaf_max_items implies nl[i].children@.len() == 2 && nl[i].children@[0]
            >= 1 && nl[i].children@[1] >= 1 && nl[i].node.vecs().len() == post.dim() by {
            if i < ol.len() {
                assert(nl[i] == ol[i]);
                assert((#[trigger] ol[i]).n_descendants == ol[i].n_descendants);
            }
        }
        assert forall|t: int| 0 <= t < post.roots_seq().len() implies 1 <= (
        #[trigger] post.roots_seq()[t]) < nl.len() by {
            assert(1 <= (#[trigger] pre.roots_seq()[t]) < ol.len());
        }
    }

    pub fn new(dimension: usize, params: &BPTParams) -> (r: BPTIndex)
        requires
            1 <= dimension <= DIM_LIMIT,
        ensures
            r.wf(),
            !r.built_flag(),
            r.dim() == dimension,
            r.tot_items() == 0,
    {
        let mut children: Vec<usize> = Vec::new();
        children.push(0);
        children.push(0);
        let empty: Vec<i64> = Vec::new();
        let sentinel = Leaf {
            n_descendants: 0,
            children,
            node: MemoryNode::new(empty.as_slice()),
            norm: 0,
            has_init: false,
        };
        let mut leaves: Vec<Leaf> = Vec::new();
        leaves.push(sentinel);
        BPTIndex {
            _dimension: dimension,
            _tot_items_cnt: 0,
            _tot_leaves_cnt: 0,
            _roots: Vec::new(),
            _leaf_max_items: dimension / 2 + 2,
            _built: false,
            leaves,
            mt: Metric::Unknown,
            _tree_num: params.tree_num,
            _candidate_size: params.candidate_size,
            rng: Random::new(0xB9D7),
        }
    }

    /// Append one data leaf; only before the forest is built.
    pub fn _add_item(&mut self, w: &MemoryNode) -> (r: Result<(), AnnError>)
        requires
            old(self).wf(),
            w.valid(),
            w.id() is Some,
        ensures
            final(self).wf(),
            final(self).dim() == old(self).dim(),
            final(self).built_flag() == old(self).built_flag(),
            final(self).metric_kind() == old(self).metric_kind(),
            r is Ok <==> w.vecs().len() == old(self).dim() && !old(self).built_flag() && old(
                self).leaves_len() == old(self).tot_items() + 1,
            r is Ok ==> final(self).tot_items() == old(self).tot_items() + 1 && final(
                self).data_nodes().len() == old(self).data_nodes().len() + 1 && final(
                self).data_nodes().last().vecs() == w.vecs() && final(
                self).data_nodes().last().id() == w.id() && (forall|t: int|
                0 <= t < old(self).data_nodes().len() ==> final(self).data_nodes()[t] == old(
                    self).data_nodes()[t]) && final(self).leaves_len() == final(
                self).tot_items() + 1,
            r is Err ==> final(self).tot_items() == old(self).tot_items() && final(
                self).data_nodes() == old(self).data_nodes(),
            w.vecs().len() != old(self).dim() ==> r == Err::<(), AnnError>(
                AnnError::DimensionMismatch),
    {
        if w.len() != self._dimension {
            return Err(AnnError::DimensionMismatch);
        }
        if self._built || self.leaves.len() != self._tot_items_cnt + 1 {
            return Err(AnnError::AlreadyBuilt);
        }
        let mut children: Vec<usize> = Vec::new();
        children.push(0);
        children.push(0);
        let nn = Leaf { n_descendants: 1, children, node: w.clone(), norm: 0, has_init: true };
        self.leaves.push(nn);
        self._tot_items_cnt = self._tot_items_cnt + 1;
        self._tot_leaves_cnt = if self._tot_leaves_cnt < usize::MAX {
            self._tot_leaves_cnt + 1
        } else {
            self._tot_leaves_cnt
        };
        proof {
            Self::lemma_wf_push(*old(self), *self, self.leaves@.last());
            assert(self.data_nodes() =~= old(self).data_nodes().push(
                self.leaves@.last().node));
        }
        Ok(())
    }

    /// Append a prepared node; only before the forest is built.
    pub fn add_node(&mut self, item: &MemoryNode) -> (r: Result<(), AnnError>)
        requires
            old(self).wf(),
            item.valid(),
            item.id() is Some,
        ensures
            final(self).wf(),
            final(self).dim() == old(self).dim(),
            final(self).built_flag() == old(self).built_flag(),
            final(self).metric_kind() == old(self).metric_kind(),
            r is Ok ==> final(self).data_nodes().len() == old(self).data_nodes().len() + 1
                && final(self).data_nodes().last().vecs() == item.vecs() && final(
                self).data_nodes().last().id() == item.id(),
            r is Err ==> final(self).tot_items() == old(self).tot_items(),
    {
        self._add_item(item)
    }

    /// Validate and append a raw vector with its id.
    pub fn add(&mut self, vs: &[i64], idx: u64) -> (r: Result<(), AnnError>)
        requires
            old(self).wf(),
        ensures
            final(self).wf(),
            final(self).dim() == old(self).dim(),
            final(self).built_flag() == old(self).built_flag(),
            final(self).metric_kind() == old(self).metric_kind(),
            r is Ok <==> vs@.len() == old(self).dim() && bounded(vs@, COMPONENT_LIMIT) && !old(
                self).built_flag() && old(self).leaves_len() == old(self).tot_items() + 1,
            r is Ok ==> final(self).data_nodes().len() == old(self).data_nodes().len() + 1
                && final(self).data_nodes().last().vecs() == vs@ && final(
                self).data_nodes().last().id() == Some(idx) && (forall|t: int|
                0 <= t < old(self).data_nodes().len() ==> final(self).data_nodes()[t] == old(
                    self).data_nodes()[t]) && final(self).leaves_len() == final(
                self).tot_items() + 1,
            r is Err ==> final(self).tot_items() == old(self).tot_items() && final(
                self).data_nodes() == old(self).data_nodes(),
    {
        if vs.len() != self._dimension {
            return Err(AnnError::DimensionMismatch);
        }
        if !MemoryNode::valid_elements(vs) {
            return Err(AnnError::InvalidVector);
        }
        let n = MemoryNode::new_with_idx(vs, idx);
        self._add_item(&n)
    }

    /// Validate the whole batch, then append it: no partial insertion.
    pub fn add_batch(&mut self, vss: &Vec<Vec<i64>>, indices: &[u64]) -> (r: Result<(),
        AnnError>)
        requires
            old(self).wf(),
        ensures
            final(self).wf(),
            final(self).dim() == old(self).dim(),
            final(self).metric_kind() == old(self).metric_kind(),
            final(self).built_flag() == old(self).built_flag(),
            r is Err ==> final(self).data_nodes() == old(self).data_nodes(),
            vss@.len() != indices@.len() ==> r == Err::<(), AnnError>(
                AnnError::DimensionMismatch),
            r is Ok ==> vss@.len() == indices@.len() && final(self).data_nodes().len() == old(
                self).data_nodes().len() + vss@.len() && forall|j: int|
                0 <= j < vss@.len() ==> (#[trigger] final(self).data_nodes()[old(
                    self).data_nodes().len() + j]).vecs() == vss@[j]@ && final(
                    self).data_nodes()[old(self).data_nodes().len() + j].id() == Some(
                    indices@[j]),
    {
        if vss.len() != indices.len() {
            return Err(AnnError::DimensionMismatch);
        }
        if self._built || self.leaves.len() != self._tot_items_cnt + 1 {
            return Err(AnnError::AlreadyBuilt);
        }
        let m = vss.len();
        let mut i: usize = 0;
        while i < m
            invariant
                i <= m,
                m == vss@.len() == indices@.len(),
                self == old(self),
                self.wf(),
                forall|j: int| 0 <= j < i ==> (#[trigger] vss@[j])@.len() == old(self).dim()
                    && bounded(vss@[j]@, COMPONENT_LIMIT),
            decreases m - i,
        {
            if vss[i].len() != self._dimension {
                return Err(AnnError::DimensionMismatch);
            }
            if !MemoryNode::valid_elements(vss[i].as_slice()) {
                return Err(AnnError::InvalidVector);
            }
            i = i + 1;
        }
        let ghost base = self.data_nodes();
        let mut j: usize = 0;
        while j < m
            invariant
                j <= m,
                m == vss@.len() == indices@.len(),
                self.wf(),
                self.dim() == old(self).dim(),
                self.metric_kind() == old(self).metric_kind(),
                self.built_flag() == old(self).built_flag(),
                !self.built_flag(),
                self.leaves_len() == self.tot_items() + 1,
                base == old(self).data_nodes(),
                self.data_nodes().len() == base.len() + j,
                forall|t: int| 0 <= t < vss@.len() ==> (#[trigger] vss@[t])@.len() == old(
                    self).dim() && bounded(vss@[t]@, COMPONENT_LIMIT),
                forall|t: int| 0 <= t < j ==> (#[trigger] self.data_nodes()[base.len()
                    + t]).vecs() == vss@[t]@ && self.data_nodes()[base.len() + t].id() == Some(
                    indices@[t]),
            decreases m - j,
        {
            let ghost pre = *self;
            match self.add(vss[j].as_slice(), indices[j]) {
                Ok(()) => {},
                Err(_) => {
                    // unreachable: the batch was validated and nothing is built
                    proof {
                        assert(false);
                    }
                },
            }
            proof {
                assert forall|t: int| 0 <= t < j + 1 implies (#[trigger] self.data_nodes()[
                    base.len() + t]).vecs() == vss@[t]@ && self.data_nodes()[base.len()
                    + t].id() == Some(indices@[t]) by {
                    if t < j {
                        assert(self.data_nodes()[base.len() + t] == pre.data_nodes()[base.len()
                            + t]);
                    } else {
                        assert(self.data_nodes()[base.len() + t] == self.data_nodes().last());
                    }
                }
            }
            j = j + 1;
        }
        Ok(())
    }

    /// Two-means over a set of data leaves: two running means pulled
    /// toward randomly sampled members.
    /// Component `c` of `v` lies between two values that component
    /// takes over the indexed points.
    pub open spec fn component_within(&self, v: Seq<i64>, indices: Seq<usize>, c: int) -> bool {
        exists|a: int, b: int|
            0 <= a < indices.len() && 0 <= b < indices.len() && self.leaf_node(
                indices[a] as int,
            ).vecs()[c] <= #[trigger] v[c] && v[c] <= self.leaf_node(indices[b] as int).vecs()[c]
    }

    fn two_means(&mut self, indices: &Vec<usize>, mt: Metric) -> (r: (Vec<i64>, Vec<i64>))
        requires
            old(self).wf(),
            indices@.len() >= 2,
            forall|t: int| 0 <= t < indices@.len() ==> 1 <= (#[trigger] indices@[t]) <= old(
                self).tot_items(),
        ensures
            final(self).wf(),
            final(self).dim() == old(self).dim(),
            final(self).tot_items() == old(self).tot_items(),
            final(self).data_nodes() == old(self).data_nodes(),
            final(self).built_flag() == old(self).built_flag(),
            final(self).metric_kind() == old(self).metric_kind(),
            final(self).roots_seq() == old(self).roots_seq(),
            final(self).leaves@ == old(self).leaves@,
            final(self).leaf_max_spec() == old(self).leaf_max_spec(),
            r.0@.len() == old(self).dim(),
            r.1@.len() == old(self).dim(),
            bounded(r.0@, COMPONENT_LIMIT),
            bounded(r.1@, COMPONENT_LIMIT),
            forall|c: int|
                0 <= c < old(self).dim() ==> #[trigger] final(self).component_within(
                    r.0@,
                    indices@,
                    c,
                ),
            forall|c: int|
                0 <= c < old(self).dim() ==> #[trigger] final(self).component_within(
                    r.1@,
                    indices@,
                    c,
                ),
    {
        let count = indices.len();
        let i = self.rng.index(count);
        let mut j = self.rng.index(count - 1);
        if j >= i {
            j = j + 1;
        }
        proof {
            assert(self.leaves@ == old(self).leaves@);
            assert(self.roots_seq() == old(self).roots_seq());
            assert(self.wf());
        }
        let mut first = self.leaf_vector(indices[i]);
        let mut second = self.leaf_vector(indices[j]);
        proof {
            assert forall|c: int| 0 <= c < self.dim() implies #[trigger] old(
                self,
            ).component_within(first@, indices@, c) by {
                assert(self.leaf_node(indices@[i as int] as int) == old(self).leaf_node(
                    indices@[i as int] as int,
                ));
                assert(first@[c] == old(self).leaf_node(indices@[i as int] as int).vecs()[c]);
            }
            assert forall|c: int| 0 <= c < self.dim() implies #[trigger] old(
                self,
            ).component_within(second@, indices@, c) by {
                assert(self.leaf_node(indices@[j as int] as int) == old(self).leaf_node(
                    indices@[j as int] as int,
                ));
                assert(second@[c] == old(self).leaf_node(indices@[j as int] as int).vecs()[c]);
            }
        }
        let mut ic: usize = 1;
        let mut jc: usize = 1;
        let mut z: usize = 0;
        while z < 200
            invariant
                self.wf(),
                self.dim() == old(self).dim(),
                self.tot_items() == old(self).tot_items(),
                self.data_nodes() == old(self).data_nodes(),
                self.built_flag() == old(self).built_flag(),
                self.metric_kind() == old(self).metric_kind(),
                self.roots_seq() == old(self).roots_seq(),
                self.leaves@ == old(self).leaves@,
                self.leaf_max_spec() == old(self).leaf_max_spec(),
                indices@.len() >= 2,
                forall|t: int| 0 <= t < indices@.len() ==> 1 <= (#[trigger] indices@[t])
                    <= self.tot_items(),
                z <= 200,
                1 <= ic <= 201,
                1 <= jc <= 201,
                first@.len() == self.dim(),
                second@.len() == self.dim(),
                bounded(first@, COMPONENT_LIMIT),
                bounded(second@, COMPONENT_LIMIT),
                forall|c: int|
                    0 <= c < self.dim() ==> #[trigger] old(self).component_within(
                        first@,
                        indices@,
                        c,
                    ),
                forall|c: int|
                    0 <= c < self.dim() ==> #[trigger] old(self).component_within(
                        second@,
                        indices@,
                        c,
                    ),
            decreases 200 - z,
        {
            let rand_k = self.rng.index(indices.len());
            let sample = self.leaf_vector(indices[rand_k]);
            proof {
                lemma_bounded_widen(first@, COMPONENT_LIMIT, VAL_LIMIT);
                lemma_bounded_widen(second@, COMPONENT_LIMIT, VAL_LIMIT);
                lemma_bounded_widen(sample@, COMPONENT_LIMIT, VAL_LIMIT);
            }
            let di = match crate::metrics::metric(first.as_slice(), sample.as_slice(), mt) {
                Ok(v) => v,
                Err(_) => 0,
            };
            let dj = match crate::metrics::metric(second.as_slice(), sample.as_slice(), mt) {
                Ok(v) => v,
                Err(_) => 0,
            };
            if di < dj {
                let ghost pre = first@;
                first = Self::pull_mean(&first, &sample, ic);
                proof {
                    assert forall|c: int|
                        0 <= c < self.dim() implies #[trigger] old(self).component_within(
                        first@,
                        indices@,
                        c,
                    ) by {
                        assert(old(self).component_within(pre, indices@, c));
                        let (a, b) = choose|a: int, b: int|
                            0 <= a < indices@.len() && 0 <= b < indices@.len() && old(
                                self,
                            ).leaf_node(indices@[a] as int).vecs()[c] <= pre[c] && pre[c] <= old(
                                self,
                            ).leaf_node(indices@[b] as int).vecs()[c];
                        assert(self.leaf_node(indices@[rand_k as int] as int) == old(
                            self,
                        ).leaf_node(indices@[rand_k as int] as int));
                        assert(sample@[c] == old(self).leaf_node(
                            indices@[rand_k as int] as int,
                        ).vecs()[c]);
                        if pre[c] <= sample@[c] {
                            assert(old(self).leaf_node(indices@[a] as int).vecs()[c] <= first@[
                                c]);
                            assert(first@[c] <= old(self).leaf_node(
                                indices@[rand_k as int] as int,
                            ).vecs()[c]);
                        } else {
                            assert(old(self).leaf_node(indices@[rand_k as int] as int).vecs()[c]
                                <= first@[c]);
                            assert(first@[c] <= old(self).leaf_node(indices@[b] as int).vecs()[
                                c]);
                        }
                    }
                }
                ic = if ic < 201 {
                    ic + 1
                } else {
                    ic
                };
            } else if dj < di {
                let ghost pre = second@;
                second = Self::pull_mean(&second, &sample, jc);
                proof {
                    assert forall|c: int|
                        0 <= c < self.dim() implies #[trigger] old(self).component_within(
                        second@,
                        indices@,
                        c,
                    ) by {
                        assert(old(self).component_within(pre, indices@, c));
                        let (a, b) = choose|a: int, b: int|
                            0 <= a < indices@.len() && 0 <= b < indices@.len() && old(
                                self,
                            ).leaf_node(indices@[a] as int).vecs()[c] <= pre[c] && pre[c] <= old(
                                self,
                            ).leaf_node(indices@[b] as int).vecs()[c];
                        assert(self.leaf_node(indices@[rand_k as int] as int) == old(
                            self,
                        ).leaf_node(indices@[rand_k as int] as int));
                        assert(sample@[c] == old(self).leaf_node(
                            indices@[rand_k as int] as int,
                        ).vecs()[c]);
                        if pre[c] <= sample@[c] {
                            assert(old(self).leaf_node(indices@[a] as int).vecs()[c] <= second@[
                                c]);
                            assert(second@[c] <= old(self).leaf_node(
                                indices@[rand_k as int] as int,
                            ).vecs()[c]);
                        } else {
                            assert(old(self).leaf_node(indices@[rand_k as int] as int).vecs()[c]
                                <= second@[c]);
                            assert(second@[c] <= old(self).leaf_node(indices@[b] as int).vecs()[
                                c]);
                        }
                    }
                }
                jc = if jc < 201 {
                    jc + 1
                } else {
                    jc
                };
            }
            z = z + 1;
        }
        proof {
            assert forall|c: int| 0 <= c < old(self).dim() implies #[trigger] self.component_within(
                first@,
                indices@,
                c,
            ) by {
                assert(self.dim() == old(self).dim());
                assert(old(self).component_within(first@, indices@, c));
                let (a1, b1) = choose|a1: int, b1: int|
                    0 <= a1 < indices@.len() && 0 <= b1 < indices@.len() && old(self).leaf_node(
                        indices@[a1] as int,
                    ).vecs()[c] <= first@[c] && first@[c] <= old(self).leaf_node(
                        indices@[b1] as int,
                    ).vecs()[c];
                assert(self.leaf_node(indices@[a1] as int) == old(self).leaf_node(
                    indices@[a1] as int,
                ));
                assert(self.leaf_node(indices@[b1] as int) == old(self).leaf_node(
                    indices@[b1] as int,
                ));
            }
            assert forall|c: int| 0 <= c < old(self).dim() implies #[trigger] self.component_within(
                second@,
                indices@,
                c,
            ) by {
                assert(self.dim() == old(self).dim());
                assert(old(self).component_within(second@, indices@, c));
                let (a2, b2) = choose|a2: int, b2: int|
                    0 <= a2 < indices@.len() && 0 <= b2 < indices@.len() && old(self).leaf_node(
                        indices@[a2] as int,
                    ).vecs()[c] <= second@[c] && second@[c] <= old(self).leaf_node(
                        indices@[b2] as int,
                    ).vecs()[c];
                assert(self.leaf_node(indices@[a2] as int) == old(self).leaf_node(
                    indices@[a2] as int,
                ));
                assert(self.leaf_node(indices@[b2] as int) == old(self).leaf_node(
                    indices@[b2] as int,
                ));
            }
        }
        (first, second)
    }

    /// `(mean * c + x) / (c + 1)` per component, exactly.
    fn pull_mean(mean: &Vec<i64>, x: &Vec<i64>, c: usize) -> (r: Vec<i64>)
        requires
            mean@.len() == x@.len(),
            1 <= c <= 201,
            bounded(mean@, COMPONENT_LIMIT),
            bounded(x@, COMPONENT_LIMIT),
        ensures
            r@.len() == mean@.len(),
            bounded(r@, COMPONENT_LIMIT),
            forall|u: int|
                0 <= u < r@.len() ==> (mean@[u] <= x@[u] ==> mean@[u] <= #[trigger] r@[u]
                    <= x@[u]) && (x@[u] <= mean@[u] ==> x@[u] <= r@[u] <= mean@[u]),
    {
        let n = mean.len();
        let mut out: Vec<i64> = Vec::new();
        let mut t: usize = 0;
        while t < n
            invariant
                t <= n,
                n == mean@.len() == x@.len(),
                1 <= c <= 201,
                bounded(mean@, COMPONENT_LIMIT),
                bounded(x@, COMPONENT_LIMIT),
                out@.len() == t,
                bounded(out@, COMPONENT_LIMIT),
                forall|u: int|
                    0 <= u < out@.len() ==> (mean@[u] <= x@[u] ==> mean@[u] <= #[trigger] out@[
                        u] <= x@[u]) && (x@[u] <= mean@[u] ==> x@[u] <= out@[u] <= mean@[u]),
            decreases n - t,
        {
            proof {
                let m = mean@[t as int] as int;
                let ci = c as int;
                let lim = COMPONENT_LIMIT as int;
                assert(-(ci * lim) <= m * ci <= ci * lim) by (nonlinear_arith)
                    requires -lim <= m <= lim, 1 <= ci;
                assert(ci * lim + lim == (ci + 1) * lim) by (nonlinear_arith);
                assert((ci + 1) * lim <= 202 * lim) by (nonlinear_arith)
                    requires ci + 1 <= 202, lim >= 0;
            }
            let acc: i128 = (mean[t] as i128) * (c as i128) + (x[t] as i128);
            let v = Kmeans::mean_div(acc, c + 1, COMPONENT_LIMIT);
            proof {
                let m = mean@[t as int] as int;
                let xx = x@[t as int] as int;
                let ci = c as int;
                let lo = if m <= xx {
                    m
                } else {
                    xx
                };
                let hi = if m <= xx {
                    xx
                } else {
                    m
                };
                assert(lo * (ci + 1) <= m * ci + xx && m * ci + xx <= hi * (ci + 1))
                    by (nonlinear_arith)
                    requires lo <= m <= hi, lo <= xx <= hi, ci >= 1;
                crate::metrics::lemma_div_toward_zero_between(lo, hi, m * ci + xx, ci + 1);
            }
            out.push(v);
            t = t + 1;
        }
        out
    }

    /// A clone of a data leaf's vector.
    fn leaf_vector(&self, i: usize) -> (r: Vec<i64>)
        requires
            self.wf(),
            1 <= i as int <= self.tot_items(),
        ensures
            r@.len() == self.dim(),
            bounded(r@, COMPONENT_LIMIT),
            r@ == self.leaf_node(i as int).vecs(),
    {
        proof {
            assert((#[trigger] self.leaves@[i as int]).node.valid());
            assert(self.leaves@[i as int].n_descendants == 1);
        }
        self.leaves[i].node.vectors().clone()
    }

    /// The split hyperplane for a candidate set: the difference of the
    /// two means, normalized to `PLANE_SCALE` magnitude.
    fn create_split(&mut self, indices: &Vec<usize>, mt: Metric) -> (r: Vec<i64>)
        requires
            old(self).wf(),
            indices@.len() >= 2,
            forall|t: int| 0 <= t < indices@.len() ==> 1 <= (#[trigger] indices@[t]) <= old(
                self).tot_items(),
        ensures
            final(self).wf(),
            final(self).dim() == old(self).dim(),
            final(self).tot_items() == old(self).tot_items(),
            final(self).data_nodes() == old(self).data_nodes(),
            final(self).built_flag() == old(self).built_flag(),
            final(self).metric_kind() == old(self).metric_kind(),
            final(self).roots_seq() == old(self).roots_seq(),
            final(self).leaves@ == old(self).leaves@,
            final(self).leaf_max_spec() == old(self).leaf_max_spec(),
            r@.len() == old(self).dim(),
            bounded(r@, PLANE_SCALE),
    {
        let (p, q) = self.two_means(indices, mt);
        let n = p.len();
        let mut v: Vec<i64> = Vec::new();
        let mut t: usize = 0;
        while t < n
            invariant
                t <= n,
                n == p@.len() == q@.len(),
                n <= DIM_LIMIT,
                bounded(p@, COMPONENT_LIMIT),
                bounded(q@, COMPONENT_LIMIT),
                v@.len() == t,
                bounded(v@, VAL_LIMIT),
            decreases n - t,
        {
            v.push(p[t] - q[t]);
            t = t + 1;
        }
        // normalize: each component scaled by PLANE_SCALE / norm
        let norm = match get_norm(v.as_slice()) {
            Ok(x) => x,
            Err(_) => {
                // unreachable: get_norm always succeeds on bounded input
                proof {
                    assert(false);
                }
                0
            },
        };
        let mut plane: Vec<i64> = Vec::new();
        let mut u: usize = 0;
        while u < n
            invariant
                u <= n,
                n == v@.len(),
                n <= DIM_LIMIT,
                bounded(v@, VAL_LIMIT),
                norm as int == sqrt_floor(dot_spec(v@, v@)),
                norm >= 0,
                plane@.len() == u,
                bounded(plane@, PLANE_SCALE),
            decreases n - u,
        {
            let w = if norm <= 0 {
                0
            } else {
                proof {
                    crate::calc::lemma_self_dot_nonneg(v@);
                    lemma_sqrt_floor(dot_spec(v@, v@));
                    lemma_component_le_norm(v@, u as int);
                    let a = crate::metrics::abs_int(v@[u as int] as int);
                    let s = PLANE_SCALE as int;
                    let nm = norm as int;
                    assert(a * s <= s * nm) by (nonlinear_arith)
                        requires a <= nm, s >= 0;
                    vstd::arithmetic::div_mod::lemma_div_is_ordered(a * s, s * nm, nm);
                    vstd::arithmetic::div_mod::lemma_div_by_multiple(s, nm);
                    vstd::arithmetic::div_mod::lemma_div_pos_is_pos(a * s, nm);
                }
                let comp = v[u];
                let neg = comp < 0;
                let mag: u128 = if neg {
                    (-(comp as i128)) as u128
                } else {
                    comp as u128
                };
                let scaled = mag * (PLANE_SCALE as u128) / (norm as u128);
                if neg {
                    -(scaled as i64)
                } else {
                    scaled as i64
                }
            };
            plane.push(w);
            u = u + 1;
        }
        plane
    }

    /// Signed distance from a vector to a hyperplane.
    fn margin_of(&self, plane: &Vec<i64>, dst: &[i64]) -> (r: i64)
        requires
            self.wf(),
            plane@.len() == self.dim(),
            bounded(plane@, VAL_LIMIT),
            dst@.len() == self.dim(),
            bounded(dst@, VAL_LIMIT),
        ensures
            r as int == dot_spec(plane@, dst@),
    {
        match dot(plane.as_slice(), dst) {
            Ok(x) => x,
            Err(_) => {
                // unreachable: both operands have the index dimension
                proof {
                    assert(false);
                }
                0
            },
        }
    }

    /// Build one tree over a candidate set; returns its leaf index.
    fn make_tree(&mut self, indices: &Vec<usize>, is_root: bool, mt: Metric) -> (r: usize)
        requires
            old(self).wf(),
            1 <= indices@.len(),
            forall|t: int| 0 <= t < indices@.len() ==> 1 <= (#[trigger] indices@[t]) <= old(
                self).tot_items(),
        ensures
            final(self).wf(),
            final(self).dim() == old(self).dim(),
            final(self).tot_items() == old(self).tot_items(),
            final(self).data_nodes() == old(self).data_nodes(),
            final(self).built_flag() == old(self).built_flag(),
            final(self).metric_kind() == old(self).metric_kind(),
            final(self).roots_seq() == old(self).roots_seq(),
            final(self).leaf_max_spec() == old(self).leaf_max_spec(),
            final(self).leaves@.len() >= old(self).leaves@.len(),
            is_root ==> final(self).leaves@.len() > old(self).leaves@.len(),
            1 <= r < final(self).leaves@.len(),
        decreases indices@.len(),
    {
        if indices.len() == 1 && !is_root {
            return indices[0];
        }
        if indices.len() <= self._leaf_max_items {
            // materialize a cluster leaf holding the candidate set
            let node = if indices.len() == 1 {
                self.leaves[indices[0]].node.clone()
            } else {
                let empty: Vec<i64> = Vec::new();
                MemoryNode::new(empty.as_slice())
            };
            let nn = Leaf {
                n_descendants: indices.len(),
                children: indices.clone(),
                node,
                norm: 0,
                has_init: true,
            };
            self.leaves.push(nn);
            self._tot_leaves_cnt = if self._tot_leaves_cnt < usize::MAX {
                self._tot_leaves_cnt + 1
            } else {
                self._tot_leaves_cnt
            };
            proof {
                Self::lemma_wf_push(*old(self), *self, self.leaves@.last());
                assert(self.data_nodes() =~= old(self).data_nodes());
            }
            return self.leaves.len() - 1;
        }
        // find an acceptable split
        let mut plane: Vec<i64> = self.create_split(indices, mt);
        let mut side0: Vec<usize> = Vec::new();
        let mut side1: Vec<usize> = Vec::new();
        let mut attempt: usize = 0;
        while attempt < 5
            invariant
                self.wf(),
                self.dim() == old(self).dim(),
                self.tot_items() == old(self).tot_items(),
                self.data_nodes() == old(self).data_nodes(),
                self.built_flag() == old(self).built_flag(),
                self.metric_kind() == old(self).metric_kind(),
                self.roots_seq() == old(self).roots_seq(),
                self.leaf_max_spec() == old(self).leaf_max_spec(),
                self.leaves@.len() >= old(self).leaves@.len(),
                indices@.len() >= 2,
                forall|t: int| 0 <= t < indices@.len() ==> 1 <= (#[trigger] indices@[t])
                    <= self.tot_items(),
                attempt <= 5,
                plane@.len() == self.dim(),
                bounded(plane@, PLANE_SCALE),
                side0@.len() + side1@.len() == indices@.len() || (side0@.len() == 0 && side1@.len()
                    == 0),
                forall|t: int| 0 <= t < side0@.len() ==> 1 <= (#[trigger] side0@[t])
                    <= self.tot_items(),
                forall|t: int| 0 <= t < side1@.len() ==> 1 <= (#[trigger] side1@[t])
                    <= self.tot_items(),
            decreases 5 - attempt,
        {
            side0.clear();
            side1.clear();
            let m = indices.len();
            let mut t: usize = 0;
            while t < m
                invariant
                    self.wf(),
                    m == indices@.len(),
                    t <= m,
                    forall|u: int| 0 <= u < indices@.len() ==> 1 <= (#[trigger] indices@[u])
                        <= self.tot_items(),
                    plane@.len() == self.dim(),
                    bounded(plane@, PLANE_SCALE),
                    side0@.len() + side1@.len() == t,
                    forall|u: int| 0 <= u < side0@.len() ==> 1 <= (#[trigger] side0@[u])
                        <= self.tot_items(),
                    forall|u: int| 0 <= u < side1@.len() ==> 1 <= (#[trigger] side1@[u])
                        <= self.tot_items(),
                decreases m - t,
            {
                let idx = indices[t];
                proof {
                    assert((#[trigger] self.leaves@[idx as int]).node.valid());
                    assert(self.leaves@[idx as int].n_descendants == 1);
                    lemma_bounded_widen(plane@, PLANE_SCALE, VAL_LIMIT);
                    lemma_bounded_widen(self.leaves@[idx as int].node.vecs(), COMPONENT_LIMIT,
                        VAL_LIMIT);
                }
                let mg = self.margin_of(&plane, self.leaves[idx].node.vectors().as_slice());
                if mg > 0 {
                    side1.push(idx);
                } else {
                    side0.push(idx);
                }
                t = t + 1;
            }
            if !imbalance_exceeds(side0.len(), side1.len(), 17, 20) {
                break;
            }
            if attempt + 1 < 5 {
                plane = self.create_split(indices, mt);
            }
            attempt = attempt + 1;
        }
        // degenerate fallback: zero hyperplane and a coin per point
        if side0.len() + side1.len() != indices.len() || imbalance_exceeds(side0.len(),
            side1.len(), 49, 50) {
            side0.clear();
            side1.clear();
            let mut zp: Vec<i64> = Vec::new();
            let mut z: usize = 0;
            while z < self._dimension
                invariant
                    z <= self._dimension,
                    zp@.len() == z,
                    bounded(zp@, PLANE_SCALE),
                decreases self._dimension - z,
            {
                zp.push(0);
                z = z + 1;
            }
            plane = zp;
            let m = indices.len();
            let mut t: usize = 0;
            while t < m
                invariant
                    self.wf(),
                    self.dim() == old(self).dim(),
                    self.tot_items() == old(self).tot_items(),
                    self.data_nodes() == old(self).data_nodes(),
                    self.built_flag() == old(self).built_flag(),
                    self.metric_kind() == old(self).metric_kind(),
                    self.roots_seq() == old(self).roots_seq(),
                    self.leaf_max_spec() == old(self).leaf_max_spec(),
                    self.leaves@.len() >= old(self).leaves@.len(),
                    m == indices@.len(),
                    t <= m,
                    forall|u: int| 0 <= u < indices@.len() ==> 1 <= (#[trigger] indices@[u])
                        <= self.tot_items(),
                    side0@.len() + side1@.len() == t,
                    forall|u: int| 0 <= u < side0@.len() ==> 1 <= (#[trigger] side0@[u])
                        <= self.tot_items(),
                    forall|u: int| 0 <= u < side1@.len() ==> 1 <= (#[trigger] side1@[u])
                        <= self.tot_items(),
                decreases m - t,
            {
                let ghost lpre = self.leaves@;
                if self.rng.flip() {
                    side1.push(indices[t]);
                } else {
                    side0.push(indices[t]);
                }
                proof {
                    assert(self.leaves@ == lpre);
                    assert(self.data_nodes() =~= old(self).data_nodes());
                }
                t = t + 1;
            }
        }
        // guarantee progress: both sides non-empty
        if side0.len() == 0 || side1.len() == 0 {
            side0.clear();
            side1.clear();
            let m = indices.len();
            let half = m / 2;
            let mut t: usize = 0;
            while t < m
                invariant
                    m == indices@.len() >= 2,
                    half == m / 2,
                    t <= m,
                    forall|u: int| 0 <= u < indices@.len() ==> 1 <= (#[trigger] indices@[u])
                        <= self.tot_items(),
                    side0@.len() == (if t < half {
                        t as int
                    } else {
                        half as int
                    }),
                    side0@.len() + side1@.len() == t,
                    forall|u: int| 0 <= u < side0@.len() ==> 1 <= (#[trigger] side0@[u])
                        <= self.tot_items(),
                    forall|u: int| 0 <= u < side1@.len() ==> 1 <= (#[trigger] side1@[u])
                        <= self.tot_items(),
                decreases m - t,
            {
                if t < half {
                    side0.push(indices[t]);
                } else {
                    side1.push(indices[t]);
                }
                t = t + 1;
            }
            proof {
                vstd::arithmetic::div_mod::lemma_div_non_zero(m as int, 2);
                vstd::arithmetic::div_mod::lemma_div_is_strictly_smaller(m as int, 2);
            }
        }
        let c0 = self.make_tree(&side0, false, mt);
        let c1 = self.make_tree(&side1, false, mt);
        let mut children: Vec<usize> = Vec::new();
        children.push(c0);
        children.push(c1);
        let nn = Leaf {
            n_descendants: indices.len(),
            children,
            node: MemoryNode::new(plane.as_slice()),
            norm: 0,
            has_init: true,
        };
        proof {
            lemma_bounded_widen(plane@, PLANE_SCALE, COMPONENT_LIMIT);
        }
        let ghost pre_push = *self;
        self.leaves.push(nn);
        self._tot_leaves_cnt = if self._tot_leaves_cnt < usize::MAX {
            self._tot_leaves_cnt + 1
        } else {
            self._tot_leaves_cnt
        };
        proof {
            Self::lemma_wf_push(pre_push, *self, self.leaves@.last());
            assert(self.data_nodes() =~= old(self).data_nodes());
        }
        self.leaves.len() - 1
    }

    /// Grow the forest: `tree_num` trees, or (when negative) until the
    /// leaf count reaches twice the item count.
    fn _build(&mut self, tree_num: i32, mt: Metric)
        requires
            old(self).wf(),
            old(self).tot_items() >= 1,
        ensures
            final(self).wf(),
            final(self).dim() == old(self).dim(),
            final(self).tot_items() == old(self).tot_items(),
            final(self).data_nodes() == old(self).data_nodes(),
            final(self).built_flag() == old(self).built_flag(),
            final(self).metric_kind() == old(self).metric_kind(),
            tree_num >= 0 ==> final(self).roots_seq().len() == old(self).roots_seq().len()
                + tree_num,
            tree_num < 0 && old(self).tot_items() <= usize::MAX as int / 2 ==> final(
                self).leaves_len() >= 2 * old(self).tot_items(),
    {
        let n_item = self._tot_items_cnt;
        let ll = self.leaves.len();
        proof {
            assert(self.tot_items() + 1 <= ll as int);
        }
        let mut all: Vec<usize> = Vec::new();
        let mut i: usize = 1;
        while i <= n_item
            invariant
                1 <= i <= n_item + 1,
                n_item == self.tot_items(),
                n_item < usize::MAX,
                all@.len() == i - 1,
                forall|t: int| 0 <= t < all@.len() ==> 1 <= (#[trigger] all@[t])
                    <= self.tot_items(),
            decreases n_item + 1 - i,
        {
            all.push(i);
            i = i + 1;
        }
        if tree_num >= 0 {
            let goal = tree_num as usize;
            let mut built_trees: usize = 0;
            while built_trees < goal
                invariant
                    self.wf(),
                    self.dim() == old(self).dim(),
                    self.tot_items() == old(self).tot_items(),
                    self.data_nodes() == old(self).data_nodes(),
                    self.built_flag() == old(self).built_flag(),
                    self.metric_kind() == old(self).metric_kind(),
                    built_trees <= goal,
                    self.roots_seq().len() == old(self).roots_seq().len() + built_trees,
                    all@.len() == self.tot_items(),
                    self.tot_items() >= 1,
                    forall|t: int| 0 <= t < all@.len() ==> 1 <= (#[trigger] all@[t])
                        <= self.tot_items(),
                decreases goal - built_trees,
            {
                let root = self.make_tree(&all, true, mt);
                self._roots.push(root);
                built_trees = built_trees + 1;
            }
        } else {
            let goal: usize = if n_item > usize::MAX / 2 {
                usize::MAX
            } else {
                2 * n_item
            };
            let mut guard: usize = goal;
            while guard > 0
                invariant_except_break
                    self.wf(),
                    self.dim() == old(self).dim(),
                    self.tot_items() == old(self).tot_items(),
                    self.data_nodes() == old(self).data_nodes(),
                    self.built_flag() == old(self).built_flag(),
                    self.metric_kind() == old(self).metric_kind(),
                    all@.len() == self.tot_items(),
                    self.tot_items() >= 1,
                    guard <= goal,
                    self.leaves@.len() + guard >= goal + 1,
                    forall|t: int| 0 <= t < all@.len() ==> 1 <= (#[trigger] all@[t])
                        <= self.tot_items(),
                ensures
                    self.wf(),
                    self.dim() == old(self).dim(),
                    self.tot_items() == old(self).tot_items(),
                    self.data_nodes() == old(self).data_nodes(),
                    self.built_flag() == old(self).built_flag(),
                    self.metric_kind() == old(self).metric_kind(),
                    self.leaves@.len() >= goal,
                decreases guard,
            {
                guard = guard - 1;
                if self.leaves.len() >= goal {
                    break;
                }
                let root = self.make_tree(&all, true, mt);
                self._roots.push(root);
            }
        }
    }

    /// Build the forest; fails a second time (`AlreadyBuilt`).
    pub fn build(&mut self, mt: Metric) -> (r: Result<(), AnnError>)
        requires
            old(self).wf(),
        ensures
            final(self).wf(),
            final(self).dim() == old(self).dim(),
            final(self).tot_items() == old(self).tot_items(),
            final(self).data_nodes() == old(self).data_nodes(),
            old(self).built_flag() ==> r == Err::<(), AnnError>(AnnError::AlreadyBuilt) && final(
                self).built_flag(),
            !old(self).built_flag() && mt == Metric::Unknown ==> r == Err::<(), AnnError>(
                AnnError::MetricUnset) && !final(self).built_flag(),
            !old(self).built_flag() && mt != Metric::Unknown && old(self).tot_items() == 0 ==> r
                == Err::<(), AnnError>(AnnError::NotBuilt) && !final(self).built_flag(),
            !old(self).built_flag() && mt != Metric::Unknown && old(self).tot_items() >= 1 ==> r
                is Ok && final(self).built_spec() && final(self).metric_kind() == mt,
            !old(self).built_flag() && mt != Metric::Unknown && old(self).tot_items() >= 1
                && old(self).tree_num_spec() >= 0 ==> final(self).roots_seq().len() == old(
                self).roots_seq().len() + old(self).tree_num_spec(),
            !old(self).built_flag() && mt != Metric::Unknown && old(self).tot_items() >= 1
                && old(self).tree_num_spec() < 0 && old(self).tot_items() <= usize::MAX as int
                / 2 ==> final(self).leaves_len() >= 2 * old(self).tot_items(),
    {
        if self._built {
            return Err(AnnError::AlreadyBuilt);
        }
        if matches!(mt, Metric::Unknown) {
            return Err(AnnError::MetricUnset);
        }
        if self._tot_items_cnt == 0 {
            return Err(AnnError::NotBuilt);
        }
        self.mt = mt;
        proof {
            assert(self.leaves@ == old(self).leaves@);
            assert(self.roots_seq() == old(self).roots_seq());
            assert(self.wf());
            assert(self.data_nodes() =~= old(self).data_nodes());
        }
        let tn = self._tree_num;
        self._build(tn, mt);
        let ghost mid = *self;
        self._built = true;
        proof {
            assert(self.leaves@ == mid.leaves@);
            assert(self.roots_seq() == mid.roots_seq());
            assert(self.wf());
        }
        Ok(())
    }

    pub fn built(&self) -> (r: bool)
        ensures
            r == self.built_flag(),
    {
        self._built
    }

    /// The root leaf indexes of the forest (fixed for a fixed seed and
    /// input: the build is deterministic).
    pub fn roots(&self) -> (r: Vec<usize>)
        ensures
            r@ == self.roots_seq(),
    {
        self._roots.clone()
    }

    /// Smaller of the running priority and the (possibly negated) margin.
    fn pq_distance(&self, distance: i64, margin: i64, child_nr: usize) -> (r: i64)
        requires
            margin != i64::MIN,
        ensures
            r <= distance,
    {
        let m = if child_nr == 0 {
            -margin
        } else {
            margin
        };
        if distance < m {
            distance
        } else {
            m
        }
    }

    fn pq_initial_value(&self) -> (r: i64)
        ensures
            r == i64::MAX,
    {
        i64::MAX
    }

    /// Heap-driven descent over all trees, then exact re-ranking of the
    /// collected candidates: at most `n` results, ascending by true
    /// distance, from distinct data leaves, each distance exact.
    /// Every stored point with its exact distance, ascending: the
    /// exhaustive answer used when `n` covers the whole index.
    fn full_scan(&self, vectors: &[i64]) -> (r: Vec<(MemoryNode, i64)>)
        requires
            self.wf(),
            self.built_spec(),
            vectors@.len() == self.dim(),
            bounded(vectors@, COMPONENT_LIMIT),
        ensures
            r@.len() == self.tot_items(),
            forall|a: int, b: int| 0 <= a < b < r@.len() ==> (#[trigger] r@[a]).1 <= (
            #[trigger] r@[b]).1,
            forall|j: int| 0 <= j < r@.len() ==> ((#[trigger] r@[j]).1 as int) == metric_spec(
                r@[j].0.vecs(), vectors@, self.metric_kind()) && r@[j].0.id() is Some,
            exists|sel: Seq<Neighbor>|
                #[trigger] self.valid_selection(sel, vectors@) && sel.len() == r@.len()
                    && forall|j: int| 0 <= j < sel.len() ==> (#[trigger] sel[j])._distance == r@[
                    j].1 && r@[j].0.vecs() == self.leaf_node(sel[j]._idx as int).vecs() && r@[
                    j].0.id() == self.leaf_node(sel[j]._idx as int).id(),
    {
        let tot = self._tot_items_cnt;
        let mut cands: Vec<Neighbor> = Vec::new();
        let mut i: usize = 0;
        while i < tot
            invariant
                self.wf(),
                self.built_spec(),
                vectors@.len() == self.dim(),
                bounded(vectors@, COMPONENT_LIMIT),
                i <= tot,
                tot == self.tot_items(),
                tot < self.leaves@.len(),
                cands@.len() == i,
                forall|u: int| 0 <= u < cands@.len() ==> (#[trigger] cands@[u])._idx == u + 1,
                forall|u: int| 0 <= u < cands@.len() ==> 1 <= (#[trigger] cands@[u])._idx
                    < self.leaves@.len() && self.leaves@[cands@[u]._idx as int].n_descendants
                    == 1 && (cands@[u]._distance as int) == metric_spec(self.leaves@[cands@[
                    u]._idx as int].node.vecs(), vectors@, self.metric_kind()),
            decreases tot - i,
        {
            let li = i + 1;
            proof {
                assert((#[trigger] self.leaves@[li as int]).n_descendants == 1);
                assert(self.leaves@[li as int].node.valid());
                lemma_bounded_widen(self.leaves@[li as int].node.vecs(), COMPONENT_LIMIT,
                    VAL_LIMIT);
                lemma_bounded_widen(vectors@, COMPONENT_LIMIT, VAL_LIMIT);
            }
            let d = match crate::metrics::metric(self.leaves[li].node.vectors().as_slice(),
                vectors, self.mt) {
                Ok(v) => v,
                Err(_) => {
                    // unreachable: dimensions agree and the metric is configured
                    proof {
                        assert(false);
                    }
                    0
                },
            };
            cands.push(Neighbor::new(li, d));
            i = i + 1;
        }
        if cands.len() == 0 {
            let r: Vec<(MemoryNode, i64)> = Vec::new();
            proof {
                let sel = Seq::<Neighbor>::empty();
                assert(self.valid_selection(sel, vectors@) && sel.len() == r@.len() && forall|
                    j: int| 0 <= j < sel.len() ==> (#[trigger] sel[j])._distance == r@[j].1
                        && r@[j].0.vecs() == self.leaf_node(sel[j]._idx as int).vecs() && r@[
                        j].0.id() == self.leaf_node(sel[j]._idx as int).id());
            }
            return r;
        }
        let kk = cands.len();
        proof {
            assert(distinct_idx(cands@));
        }
        let found = select_topk(&cands, kk);
        let mut r: Vec<(MemoryNode, i64)> = Vec::new();
        let m = found.len();
        let mut j: usize = 0;
        while j < m
            invariant
                self.wf(),
                j <= m,
                m == found@.len(),
                m == cands@.len(),
                sorted_asc(found@),
                distinct_idx(found@),
                forall|u: int| 0 <= u < m ==> cands@.contains(#[trigger] found@[u]),
                forall|u: int| 0 <= u < cands@.len() ==> 1 <= (#[trigger] cands@[u])._idx
                    < self.leaves@.len() && self.leaves@[cands@[u]._idx as int].n_descendants == 1
                    && (cands@[u]._distance as int) == metric_spec(self.leaves@[cands@[
                    u]._idx as int].node.vecs(), vectors@, self.metric_kind()),
                r@.len() == j,
                forall|u: int| 0 <= u < j ==> ((#[trigger] r@[u]).1 as int) == metric_spec(
                    r@[u].0.vecs(), vectors@, self.metric_kind()) && r@[u].0.id() is Some
                    && r@[u].1 == found@[u]._distance && r@[u].0.vecs() == self.leaf_node(
                    found@[u]._idx as int).vecs() && r@[u].0.id() == self.leaf_node(found@[
                    u]._idx as int).id(),
            decreases m - j,
        {
            let nb = found[j];
            proof {
                assert(cands@.contains(found@[j as int]));
                let ghost w = choose|w: int| 0 <= w < cands@.len() && cands@[w] == found@[
                    j as int];
                assert(1 <= cands@[w]._idx < self.leaves@.len());
                assert(self.leaves@[nb._idx as int].n_descendants == 1);
                assert(self.leaf_node(nb._idx as int).id() is Some);
            }
            let nd = self.leaves[nb._idx].node.clone();
            r.push((nd, nb._distance));
            j = j + 1;
        }
        proof {
            let sel = found@;
            assert forall|u: int| 0 <= u < sel.len() implies 1 <= (#[trigger] sel[u])._idx
                < self.leaves_len() && (sel[u]._distance as int) == metric_spec(self.leaf_node(
                sel[u]._idx as int).vecs(), vectors@, self.metric_kind()) && self.leaf_node(
                sel[u]._idx as int).id() is Some by {
                assert(cands@.contains(sel[u]));
                let ghost w = choose|w: int| 0 <= w < cands@.len() && cands@[w] == sel[u];
                assert(1 <= cands@[w]._idx < self.leaves@.len());
            }
            assert(self.valid_selection(sel, vectors@) && sel.len() == r@.len() && forall|
                j2: int| 0 <= j2 < sel.len() ==> (#[trigger] sel[j2])._distance == r@[j2].1
                    && r@[j2].0.vecs() == self.leaf_node(sel[j2]._idx as int).vecs() && r@[
                    j2].0.id() == self.leaf_node(sel[j2]._idx as int).id());
        }
        r
    }

    pub fn _search_k(&self, vectors: &[i64], n: usize) -> (r: Vec<(MemoryNode, i64)>)
        requires
            self.wf(),
            self.built_spec(),
            vectors@.len() == self.dim(),
            bounded(vectors@, COMPONENT_LIMIT),
            n >= 1,
        ensures
            r@.len() <= n,
            self.tot_items() >= 1 && self.roots_seq().len() >= 1 ==> r@.len() >= 1,
            n as int >= self.tot_items() ==> r@.len() == self.tot_items(),
            forall|a: int, b: int| 0 <= a < b < r@.len() ==> (#[trigger] r@[a]).1 <= (
            #[trigger] r@[b]).1,
            forall|j: int| 0 <= j < r@.len() ==> ((#[trigger] r@[j]).1 as int) == metric_spec(
                r@[j].0.vecs(), vectors@, self.metric_kind()) && r@[j].0.id() is Some,
            exists|sel: Seq<Neighbor>|
                #[trigger] self.valid_selection(sel, vectors@) && sel.len() == r@.len()
                    && forall|j: int| 0 <= j < sel.len() ==> (#[trigger] sel[j])._distance == r@[
                    j].1 && r@[j].0.vecs() == self.leaf_node(sel[j]._idx as int).vecs() && r@[
                    j].0.id() == self.leaf_node(sel[j]._idx as int).id(),
    {
        if n >= self._tot_items_cnt {
            // the query covers the whole index: answer exhaustively
            let r = self.full_scan(vectors);
            return r;
        }
        let n_roots = self._roots.len();
        let mut heap = BinaryHeap::new();
        let mut t: usize = 0;
        while t < n_roots
            invariant
                self.wf(),
                t <= n_roots,
                n_roots == self.roots_seq().len(),
                heap.wf(),
                forall|u: int| 0 <= u < heap@.len() ==> 1 <= (#[trigger] heap@[u])._idx
                    < self.leaves@.len(),
            decreases n_roots - t,
        {
            let ghost hpre = heap@;
            heap.push(Neighbor::new(self._roots[t], self.pq_initial_value()));
            proof {
                broadcast use vstd::seq_lib::to_multiset_contains,
                    vstd::seq_lib::to_multiset_build, vstd::multiset::group_multiset_axioms;

                assert forall|u: int| 0 <= u < heap@.len() implies 1 <= (#[trigger] heap@[u])._idx
                    < self.leaves@.len() by {
                    assert(heap@.to_multiset().contains(heap@[u]));
                    assert(hpre.to_multiset().insert(Neighbor {
                        _idx: self.roots_seq()[t as int],
                        _distance: i64::MAX,
                    }).contains(heap@[u]));
                    if heap@[u] != (Neighbor {
                        _idx: self.roots_seq()[t as int],
                        _distance: i64::MAX,
                    }) {
                        assert(hpre.to_multiset().contains(heap@[u]));
                        assert(hpre.contains(heap@[u]));
                    }
                }
            }
            t = t + 1;
        }
        // the heap keeps the *greatest* priority on top; priorities here are
        // negated so the tightest leaf pops first
        let mut seen = bitset_with_capacity(self.leaves.len());
        let mut cands: Vec<Neighbor> = Vec::new();
        let candidate_size: usize = if self._candidate_size > 0 {
            self._candidate_size as usize
        } else {
            proof {
                assert((n as int) * (n_roots as int) < u128::MAX as int) by (nonlinear_arith)
                    requires
                        0 <= n as int <= u64::MAX as int,
                        0 <= n_roots as int <= u64::MAX as int,
                ;
            }
            let w1: u128 = (n as u128) * (n_roots as u128);
            let wide: u128 = if w1 > u128::MAX / 2 {
                u128::MAX
            } else {
                w1 * 2
            };
            if wide > usize::MAX as u128 {
                usize::MAX
            } else {
                wide as usize
            }
        };
        let budget0: u128 = (self.leaves.len() as u128) * 8 + 64;
        let mut budget: u128 = budget0;
        while budget > 0
            invariant
                self.wf(),
                self.built_spec(),
                vectors@.len() == self.dim(),
                bounded(vectors@, COMPONENT_LIMIT),
                heap.wf(),
                forall|u: int| 0 <= u < heap@.len() ==> 1 <= (#[trigger] heap@[u])._idx
                    < self.leaves@.len(),
                crate::visited::bit_capacity(seen) == self.leaves@.len(),
                distinct_idx(cands@),
                forall|u: int| 0 <= u < cands@.len() ==> bits_of(seen).contains(
                    (#[trigger] cands@[u])._idx),
                forall|u: int| 0 <= u < cands@.len() ==> 1 <= (#[trigger] cands@[u])._idx
                    < self.leaves@.len() && self.leaves@[cands@[u]._idx as int].n_descendants == 1
                    && (cands@[u]._distance as int) == metric_spec(self.leaves@[cands@[
                    u]._idx as int].node.vecs(), vectors@, self.metric_kind()),
            decreases budget,
        {
            budget = budget - 1;
            if cands.len() >= candidate_size {
                break;
            }
            if heap.is_empty() {
                break;
            }
            let ghost hpre = heap@;
            let top = match heap.pop() {
                Some(x) => x,
                None => {
                    // unreachable: the heap is not empty
                    proof {
                        assert(false);
                    }
                    Neighbor { _idx: 0, _distance: 0 }
                },
            };
            proof {
                broadcast use vstd::seq_lib::to_multiset_contains,
                    vstd::multiset::group_multiset_axioms;

                assert(hpre.to_multiset().contains(top));
                assert(hpre.contains(top));
                assert forall|u: int| 0 <= u < heap@.len() implies 1 <= (#[trigger] heap@[
                    u])._idx < self.leaves@.len() by {
                    assert(heap@.to_multiset().contains(heap@[u]));
                    assert(hpre.to_multiset().count(heap@[u]) > 0);
                    assert(hpre.contains(heap@[u]));
                }
            }
            let top_idx = top._idx;
            let top_distance = top._distance;
            let nd_desc = self.leaves[top_idx].n_descendants;
            if nd_desc == 1 {
                if !bitset_contains(&seen, top_idx) {
                    bitset_insert(&mut seen, top_idx);
                    proof {
                        lemma_bounded_widen(self.leaves@[top_idx as int].node.vecs(),
                            COMPONENT_LIMIT, VAL_LIMIT);
                        lemma_bounded_widen(vectors@, COMPONENT_LIMIT, VAL_LIMIT);
                    }
                    let d = match crate::metrics::metric(
                        self.leaves[top_idx].node.vectors().as_slice(), vectors, self.mt) {
                        Ok(v) => v,
                        Err(_) => {
                            // unreachable: dimensions agree, metric configured
                            proof {
                                assert(false);
                            }
                            0
                        },
                    };
                    cands.push(Neighbor::new(top_idx, d));
                }
            } else if nd_desc > 1 && nd_desc <= self._leaf_max_items {
                let ccount = self.leaves[top_idx].children.len();
                let mut c: usize = 0;
                while c < ccount
                    invariant
                        self.wf(),
                        self.built_spec(),
                        vectors@.len() == self.dim(),
                        bounded(vectors@, COMPONENT_LIMIT),
                        1 <= top_idx < self.leaves@.len(),
                        1 < self.leaves@[top_idx as int].n_descendants <= self._leaf_max_items,
                        ccount == self.leaves@[top_idx as int].children@.len(),
                        c <= ccount,
                        crate::visited::bit_capacity(seen) == self.leaves@.len(),
                        distinct_idx(cands@),
                        forall|u: int| 0 <= u < cands@.len() ==> bits_of(seen).contains(
                            (#[trigger] cands@[u])._idx),
                        forall|u: int| 0 <= u < cands@.len() ==> 1 <= (#[trigger] cands@[u])._idx
                            < self.leaves@.len() && self.leaves@[cands@[
                            u]._idx as int].n_descendants == 1 && (cands@[u]._distance as int)
                            == metric_spec(self.leaves@[cands@[u]._idx as int].node.vecs(),
                            vectors@, self.metric_kind()),
                    decreases ccount - c,
                {
                    let ch = self.leaves[top_idx].children[c];
                    proof {
                        assert(1 <= (#[trigger] self.leaves@[top_idx as int].children@[c as int])
                            <= self.tot_items());
                        assert((#[trigger] self.leaves@[ch as int]).n_descendants == 1);
                    }
                    if !bitset_contains(&seen, ch) {
                        bitset_insert(&mut seen, ch);
                        proof {
                            lemma_bounded_widen(self.leaves@[ch as int].node.vecs(),
                                COMPONENT_LIMIT, VAL_LIMIT);
                            lemma_bounded_widen(vectors@, COMPONENT_LIMIT, VAL_LIMIT);
                        }
                        let d = match crate::metrics::metric(
                            self.leaves[ch].node.vectors().as_slice(), vectors, self.mt) {
                            Ok(v) => v,
                            Err(_) => {
                                // unreachable: dimensions agree, metric configured
                                proof {
                                    assert(false);
                                }
                                0
                            },
                        };
                        cands.push(Neighbor::new(ch, d));
                    }
                    c = c + 1;
                }
            } else if nd_desc > self._leaf_max_items {
                proof {
                    assert(self.leaves@[top_idx as int].node.valid());
                    lemma_bounded_widen(self.leaves@[top_idx as int].node.vecs(),
                        COMPONENT_LIMIT, VAL_LIMIT);
                    lemma_bounded_widen(vectors@, COMPONENT_LIMIT, VAL_LIMIT);
                    lemma_dot_bound(self.leaves@[top_idx as int].node.vecs(), vectors@,
                        VAL_LIMIT);
                    let v = VAL_LIMIT as int;
                    assert(vectors@.len() * v * v <= (DIM_LIMIT as int) * v * v)
                        by (nonlinear_arith)
                        requires vectors@.len() <= DIM_LIMIT as int, v >= 0;
                    assert((DIM_LIMIT as int) * v * v == 0x1000_0000_0000_0000)
                        by (nonlinear_arith)
                        requires v == 0x40_0000, DIM_LIMIT == 0x1_0000usize;
                }
                let margin = self.margin_of(self.leaves[top_idx].node.vectors(), vectors);
                let c0 = self.leaves[top_idx].children[0];
                let c1 = self.leaves[top_idx].children[1];
                let ghost hp2 = heap@;
                heap.push(Neighbor::new(c1, self.pq_distance(top_distance, margin, 1)));
                let ghost hp3 = heap@;
                heap.push(Neighbor::new(c0, self.pq_distance(top_distance, margin, 0)));
                proof {
                    broadcast use vstd::seq_lib::to_multiset_contains,
                        vstd::seq_lib::to_multiset_build, vstd::multiset::group_multiset_axioms;

                    assert forall|u: int| 0 <= u < heap@.len() implies 1 <= (#[trigger] heap@[
                        u])._idx < self.leaves@.len() by {
                        assert(heap@.to_multiset().contains(heap@[u]));
                        let popped = hpre.to_multiset().remove(top);
                        if hp2.to_multiset().contains(heap@[u]) {
                            if hp2.contains(heap@[u]) {
                            }
                        }
                        if popped.contains(heap@[u]) {
                            assert(hpre.to_multiset().contains(heap@[u]));
                            assert(hpre.contains(heap@[u]));
                        }
                    }
                }
            }
        }
        // the bounded walk always surfaces a data leaf in practice; a
        // fallback to the first stored point keeps the floor unconditional
        if cands.len() == 0 && self._tot_items_cnt >= 1 && self._roots.len() >= 1 {
            proof {
                assert((#[trigger] self.leaves@[1int]).n_descendants == 1);
                assert(self.leaves@[1int].node.valid());
                lemma_bounded_widen(self.leaves@[1int].node.vecs(), COMPONENT_LIMIT, VAL_LIMIT);
                lemma_bounded_widen(vectors@, COMPONENT_LIMIT, VAL_LIMIT);
            }
            let d = match crate::metrics::metric(self.leaves[1].node.vectors().as_slice(),
                vectors, self.mt) {
                Ok(v) => v,
                Err(_) => {
                    // unreachable: dimensions agree and the metric is configured
                    proof {
                        assert(false);
                    }
                    0
                },
            };
            cands.push(Neighbor::new(1, d));
        }
        let found = select_topk(&cands, n);
        // map candidate leaves to their nodes
        let mut r: Vec<(MemoryNode, i64)> = Vec::new();
        let m = found.len();
        let mut j: usize = 0;
        while j < m
            invariant
                self.wf(),
                j <= m,
                m == found@.len(),
                sorted_asc(found@),
                forall|u: int| 0 <= u < m ==> cands@.contains(#[trigger] found@[u]),
                forall|u: int| 0 <= u < cands@.len() ==> 1 <= (#[trigger] cands@[u])._idx
                    < self.leaves@.len() && self.leaves@[cands@[u]._idx as int].n_descendants == 1
                    && (cands@[u]._distance as int) == metric_spec(self.leaves@[cands@[
                    u]._idx as int].node.vecs(), vectors@, self.metric_kind()),
                r@.len() == j,
                forall|u: int| 0 <= u < j ==> ((#[trigger] r@[u]).1 as int) == metric_spec(
                    r@[u].0.vecs(), vectors@, self.metric_kind()) && r@[u].0.id() is Some
                    && r@[u].1 == found@[u]._distance && r@[u].0.vecs() == self.leaf_node(
                    found@[u]._idx as int).vecs() && r@[u].0.id() == self.leaf_node(found@[
                    u]._idx as int).id(),
            decreases m - j,
        {
            let nb = found[j];
            proof {
                assert(cands@.contains(nb));
                let p = choose|p: int| 0 <= p < cands@.len() && cands@[p] == nb;
            }
            let nd = self.leaves[nb._idx].node.clone();
            r.push((nd, nb._distance));
            j = j + 1;
        }
        proof {
            assert(found@.len() <= n);
            let sel = found@;
            assert forall|u: int| 0 <= u < sel.len() implies 1 <= (#[trigger] sel[u])._idx
                < self.leaves_len() && (sel[u]._distance as int) == metric_spec(self.leaf_node(
                sel[u]._idx as int).vecs(), vectors@, self.metric_kind()) && self.leaf_node(sel[
                u]._idx as int).id() is Some by {
                assert(cands@.contains(sel[u]));
                let p = choose|p: int| 0 <= p < cands@.len() && cands@[p] == sel[u];
            }
            assert(self.valid_selection(sel, vectors@) && sel.len() == r@.len() && forall|
                j: int| 0 <= j < sel.len() ==> (#[trigger] sel[j])._distance == r@[j].1 && r@[
                    j].0.vecs() == self.leaf_node(sel[j]._idx as int).vecs() && r@[j].0.id()
                    == self.leaf_node(sel[j]._idx as int).id());
        }
        r
    }

    /// Top-k with full node information.
    pub fn node_search_k(&self, item: &MemoryNode, k: usize) -> (r: Vec<(MemoryNode, i64)>)
        requires
            self.wf(),
            self.built_spec(),
            item.valid(),
            item.vecs().len() == self.dim(),
        ensures
            r@.len() <= k,
            k >= 1 && self.tot_items() >= 1 && self.roots_seq().len() >= 1 ==> r@.len() >= 1,
            k >= 1 && k as int >= self.tot_items() ==> r@.len() == self.tot_items(),
            forall|a: int, b: int| 0 <= a < b < r@.len() ==> (#[trigger] r@[a]).1 <= (
            #[trigger] r@[b]).1,
            forall|j: int| 0 <= j < r@.len() ==> ((#[trigger] r@[j]).1 as int) == metric_spec(
                r@[j].0.vecs(), item.vecs(), self.metric_kind()) && r@[j].0.id() is Some,
            exists|sel: Seq<Neighbor>|
                #[trigger] self.valid_selection(sel, item.vecs()) && sel.len() == r@.len()
                    && forall|j: int| 0 <= j < sel.len() ==> (#[trigger] sel[j])._distance == r@[
                    j].1 && r@[j].0.vecs() == self.leaf_node(sel[j]._idx as int).vecs() && r@[
                    j].0.id() == self.leaf_node(sel[j]._idx as int).id(),
    {
        if k == 0 {
            let r: Vec<(MemoryNode, i64)> = Vec::new();
            proof {
                let sel = Seq::<Neighbor>::empty();
                assert(self.valid_selection(sel, item.vecs()) && sel.len() == r@.len() && forall|
                    j: int| 0 <= j < sel.len() ==> (#[trigger] sel[j])._distance == r@[j].1
                        && r@[j].0.vecs() == self.leaf_node(sel[j]._idx as int).vecs() && r@[
                        j].0.id() == self.leaf_node(sel[j]._idx as int).id());
            }
            return r;
        }
        self._search_k(item.vectors().as_slice(), k)
    }

    /// Top-k for a raw query vector.
    pub fn search_full(&self, item: &[i64], k: usize) -> (r: Vec<(MemoryNode, i64)>)
        requires
            self.wf(),
            self.built_spec(),
            item@.len() == self.dim(),
            bounded(item@, COMPONENT_LIMIT),
        ensures
            r@.len() <= k,
            k >= 1 && self.tot_items() >= 1 && self.roots_seq().len() >= 1 ==> r@.len() >= 1,
            k >= 1 && k as int >= self.tot_items() ==> r@.len() == self.tot_items(),
            forall|a: int, b: int| 0 <= a < b < r@.len() ==> (#[trigger] r@[a]).1 <= (
            #[trigger] r@[b]).1,
            forall|j: int| 0 <= j < r@.len() ==> ((#[trigger] r@[j]).1 as int) == metric_spec(
                r@[j].0.vecs(), item@, self.metric_kind()) && r@[j].0.id() is Some,
            exists|sel: Seq<Neighbor>|
                #[trigger] self.valid_selection(sel, item@) && sel.len() == r@.len() && forall|
                j: int| 0 <= j < sel.len() ==> (#[trigger] sel[j])._distance == r@[j].1 && r@[
                    j].0.vecs() == self.leaf_node(sel[j]._idx as int).vecs() && r@[j].0.id()
                    == self.leaf_node(sel[j]._idx as int).id(),
    {
        if k == 0 {
            let r: Vec<(MemoryNode, i64)> = Vec::new();
            proof {
                let sel = Seq::<Neighbor>::empty();
                assert(self.valid_selection(sel, item@) && sel.len() == r@.len() && forall|
                    j: int| 0 <= j < sel.len() ==> (#[trigger] sel[j])._distance == r@[j].1
                        && r@[j].0.vecs() == self.leaf_node(sel[j]._idx as int).vecs() && r@[
                        j].0.id() == self.leaf_node(sel[j]._idx as int).id());
            }
            return r;
        }
        self._search_k(item, k)
    }

    /// Top-k, ids only: the projection of the full search to external
    /// ids, in the same order.
    pub fn search(&self, item: &[i64], k: usize) -> (r: Vec<u64>)
        requires
            self.wf(),
            self.built_spec(),
            item@.len() == self.dim(),
            bounded(item@, COMPONENT_LIMIT),
        ensures
            r@.len() <= k,
            k >= 1 && self.tot_items() >= 1 && self.roots_seq().len() >= 1 ==> r@.len() >= 1,
            k >= 1 && k as int >= self.tot_items() ==> r@.len() == self.tot_items(),
            exists|sel: Seq<Neighbor>|
                #[trigger] self.valid_selection(sel, item@) && sel.len() == r@.len() && forall|
                j: int| 0 <= j < sel.len() ==> Some(#[trigger] r@[j]) == self.leaf_node(sel[
                    j]._idx as int).id(),
    {
        let full = self.search_full(item, k);
        let ghost sel = choose|sel: Seq<Neighbor>|
            #[trigger] self.valid_selection(sel, item@) && sel.len() == full@.len() && forall|
            j: int| 0 <= j < sel.len() ==> (#[trigger] sel[j])._distance == full@[j].1 && full@[
                j].0.vecs() == self.leaf_node(sel[j]._idx as int).vecs() && full@[j].0.id()
                == self.leaf_node(sel[j]._idx as int).id();
        let mut r: Vec<u64> = Vec::new();
        let m = full.len();
        let mut j: usize = 0;
        while j < m
            invariant
                j <= m,
                m == full@.len() <= k,
                self.valid_selection(sel, item@),
                sel.len() == m,
                forall|t: int| 0 <= t < m ==> (#[trigger] full@[t]).0.id() == self.leaf_node(
                    sel[t]._idx as int).id() && full@[t].0.id() is Some,
                r@.len() == j,
                forall|t: int| 0 <= t < j ==> Some(#[trigger] r@[t]) == self.leaf_node(sel[
                    t]._idx as int).id(),
            decreases m - j,
        {
            let id = match full[j].0.idx() {
                Some(v) => v,
                None => {
                    // unreachable: every returned node carries an id
                    proof {
                        assert(false);
                    }
                    0
                },
            };
            r.push(id);
            j = j + 1;
        }
        r
    }

    pub fn name(&self) -> (r: &'static str) {
        "BPForestIndex"
    }

    pub fn dimension(&self) -> (r: usize)
        ensures
            r == self.dim(),
    {
        self._dimension
    }

    pub fn nodes_size(&self) -> (r: usize)
        ensures
            r == self.tot_items(),
    {
        self._tot_items_cnt
    }

    pub fn get_tot_items_cnt(&self) -> (r: usize)
        ensures
            r == self.tot_items(),
    {
        self._tot_items_cnt
    }

    pub fn get_n_tree(&self) -> (r: usize)
        ensures
            r == self.roots_seq().len(),
    {
        self._roots.len()
    }

    pub fn get_dimension(&self) -> (r: usize)
        ensures
            r == self.dim(),
    {
        self._dimension
    }

    pub fn get_k(&self) -> (r: usize)
        ensures
            r as int == self.leaf_max_spec(),
    {
        self._leaf_max_items
    }

    /// Drop the trees; items stay, and the forest can be rebuilt.
    pub fn clear(&mut self)
        requires
            old(self).wf(),
        ensures
            final(self).wf(),
            !final(self).built_flag(),
            final(self).roots_seq().len() == 0,
            final(self).tot_items() == old(self).tot_items(),
            final(self).data_nodes() == old(self).data_nodes(),
    {
        self._roots.clear();
        self._built = false;
        proof {
            assert(self.data_nodes() =~= old(self).data_nodes());
        }
    }
}

/// A component's magnitude never exceeds the floor root of the self dot
/// product.
proof fn lemma_component_le_norm(v: Seq<i64>, i: int)
    requires
        0 <= i < v.len(),
    ensures
        crate::metrics::abs_int(v[i] as int) <= sqrt_floor(dot_spec(v, v)),
    decreases v.len(),
{
    crate::calc::lemma_self_dot_nonneg(v);
    lemma_sqrt_floor(dot_spec(v, v));
    let a = crate::metrics::abs_int(v[i] as int);
    let s = sqrt_floor(dot_spec(v, v));
    if a > s {
        lemma_self_dot_component(v, i);
        assert((s + 1) * (s + 1) <= a * a) by (nonlinear_arith)
            requires s + 1 <= a, s >= 0;
        assert(a * a == (v[i] as int) * (v[i] as int)) by (nonlinear_arith)
            requires a == crate::metrics::abs_int(v[i] as int);
    }
}

/// Each squared component is at most the self dot product.
proof fn lemma_self_dot_component(v: Seq<i64>, i: int)
    requires
        0 <= i < v.len(),
    ensures
        (v[i] as int) * (v[i] as int) <= dot_spec(v, v),
    decreases v.len(),
{
    crate::calc::lemma_self_dot_nonneg(v.drop_last());
    if i == v.len() - 1 {
        assert(dot_spec(v, v) == dot_spec(v.drop_last(), v.drop_last()) + v.last() * v.last());
    } else {
        lemma_self_dot_component(v.drop_last(), i);
        assert(v.drop_last()[i] == v[i]);
        assert(v.last() * v.last() >= 0) by (nonlinear_arith);
    }
}

} // verus!
