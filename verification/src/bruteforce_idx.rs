//! The brute-force index: exhaustive scan with the bounded top-k heap.
//! It is exact, and serves as the recall oracle for the other indexes.

use crate::bruteforce_params::BruteForceParams;
use crate::calc::bounded;
use crate::heap::{lemma_topk_selection, BoundedTopK};
use crate::metrics::{metric_spec, Metric};
use crate::neighbor::{exact_topk, Neighbor};
use crate::node::MemoryNode;
use crate::{AnnError, COMPONENT_LIMIT, DIM_LIMIT};
use vstd::multiset::Multiset;
use vstd::prelude::*;
use vstd::seq_lib::{to_multiset_build, to_multiset_len};

verus! {

/// The exhaustive-scan index.
pub struct BruteForceIndex {
    nodes: Vec<MemoryNode>,
    mt: Metric,
    dimension: usize,
}

impl BruteForceIndex {
    /// The stored points, in insertion order.
    pub closed spec fn nodes_seq(&self) -> Seq<MemoryNode> {
        self.nodes@
    }

    /// The configured metric.
    pub closed spec fn metric_kind(&self) -> Metric {
        self.mt
    }

    /// The configured dimension.
    pub closed spec fn dim(&self) -> int {
        self.dimension as int
    }

    /// Every stored node is valid, of the configured dimension, with an id.
    pub open spec fn wf(&self) -> bool {
        &&& self.dim() <= DIM_LIMIT as int
        &&& forall|i: int| 0 <= i < self.nodes_seq().len() ==> (#[trigger] self.nodes_seq()[i]).valid()
            && self.nodes_seq()[i].vecs().len() == self.dim() && self.nodes_seq()[i].id() is Some
    }

    /// A usable metric has been configured.
    pub open spec fn built_spec(&self) -> bool {
        self.metric_kind() != Metric::Unknown
    }

    /// The score table for a query: entry `i` is node `i` with its exact
    /// distance from the query under the configured metric.
    pub open spec fn scores(&self, q: Seq<i64>) -> Seq<Neighbor> {
        Seq::new(self.nodes_seq().len(), |i: int| Neighbor {
            _idx: i as usize,
            _distance: metric_spec(self.nodes_seq()[i].vecs(), q, self.metric_kind()) as i64,
        })
    }

    pub fn new(dimension: usize, _params: &BruteForceParams) -> (r: BruteForceIndex)
        requires
            dimension <= DIM_LIMIT,
        ensures
            r.wf(),
            r.nodes_seq().len() == 0,
            r.metric_kind() == Metric::Unknown,
            r.dim() == dimension,
    {
        BruteForceIndex { nodes: Vec::new(), mt: Metric::Unknown, dimension }
    }

    /// Append a prepared node; fails only on a dimension mismatch.
    pub fn add_node(&mut self, item: &MemoryNode) -> (r: Result<(), AnnError>)
        requires
            old(self).wf(),
            item.valid(),
            item.id() is Some,
        ensures
            final(self).wf(),
            final(self).metric_kind() == old(self).metric_kind(),
            final(self).dim() == old(self).dim(),
            item.vecs().len() == old(self).dim() ==> r is Ok && final(self).nodes_seq().len()
                == old(self).nodes_seq().len() + 1 && final(self).nodes_seq().last().vecs()
                == item.vecs() && final(self).nodes_seq().last().id() == item.id() && final(
                self).nodes_seq().drop_last() == old(self).nodes_seq(),
            item.vecs().len() != old(self).dim() ==> r == Err::<(), AnnError>(
                AnnError::DimensionMismatch) && final(self).nodes_seq() == old(self).nodes_seq(),
    {
        if item.len() != self.dimension {
            return Err(AnnError::DimensionMismatch);
        }
        self.nodes.push(item.clone());
        proof {
            assert(final(self).nodes_seq().drop_last() =~= old(self).nodes_seq());
        }
        Ok(())
    }

    /// Validate and append a raw vector with its id.  Rejects
    /// out-of-range components (`InvalidVector`) and wrong dimensions
    /// (`DimensionMismatch`); on failure the index is unchanged.
    pub fn add(&mut self, vs: &[i64], idx: u64) -> (r: Result<(), AnnError>)
        requires
            old(self).wf(),
        ensures
            final(self).wf(),
            final(self).metric_kind() == old(self).metric_kind(),
            final(self).dim() == old(self).dim(),
            vs@.len() != old(self).dim() ==> r == Err::<(), AnnError>(AnnError::DimensionMismatch)
                && final(self).nodes_seq() == old(self).nodes_seq(),
            vs@.len() == old(self).dim() && !bounded(vs@, COMPONENT_LIMIT) ==> r == Err::<(),
                AnnError>(AnnError::InvalidVector) && final(self).nodes_seq() == old(
                self).nodes_seq(),
            vs@.len() == old(self).dim() && bounded(vs@, COMPONENT_LIMIT) ==> r is Ok
                && final(self).nodes_seq().len() == old(self).nodes_seq().len() + 1
                && final(self).nodes_seq().last().vecs() == vs@
                && final(self).nodes_seq().last().id() == Some(idx)
                && final(self).nodes_seq().drop_last() == old(self).nodes_seq(),
    {
        if vs.len() != self.dimension {
            return Err(AnnError::DimensionMismatch);
        }
        if !MemoryNode::valid_elements(vs) {
            return Err(AnnError::InvalidVector);
        }
        let n = MemoryNode::new_with_idx(vs, idx);
        let res = self.add_node(&n);
        proof {
            assert(final(self).nodes_seq().drop_last() =~= old(self).nodes_seq());
        }
        res
    }

    /// Append a batch; validates everything before mutating anything.
    pub fn add_batch(&mut self, vss: &Vec<Vec<i64>>, indices: &[u64]) -> (r: Result<(), AnnError>)
        requires
            old(self).wf(),
        ensures
            final(self).wf(),
            final(self).metric_kind() == old(self).metric_kind(),
            final(self).dim() == old(self).dim(),
            r is Err ==> final(self).nodes_seq() == old(self).nodes_seq(),
            vss@.len() != indices@.len() ==> r == Err::<(), AnnError>(AnnError::DimensionMismatch),
            r is Ok ==> vss@.len() == indices@.len() && final(self).nodes_seq().len()
                == old(self).nodes_seq().len() + vss@.len() && forall|j: int|
                0 <= j < vss@.len() ==> (#[trigger] final(self).nodes_seq()[old(
                    self).nodes_seq().len() + j]).vecs() == vss@[j]@ && final(self).nodes_seq()[old(
                    self).nodes_seq().len() + j].id() == Some(indices@[j]),
    {
        if vss.len() != indices.len() {
            return Err(AnnError::DimensionMismatch);
        }
        let m = vss.len();
        let mut i: usize = 0;
        while i < m
            invariant
                i <= m,
                m == vss@.len() == indices@.len(),
                self == old(self),
                self.wf(),
                forall|j: int| 0 <= j < i ==> (#[trigger] vss@[j])@.len() == old(self).dim()
                    && bounded(vss@[j]@, COMPONENT_LIMIT),
            decreases m - i,
        {
            if vss[i].len() != self.dimension {
                return Err(AnnError::DimensionMismatch);
            }
            if !MemoryNode::valid_elements(vss[i].as_slice()) {
                return Err(AnnError::InvalidVector);
            }
            i = i + 1;
        }
        let ghost base = self.nodes@;
        let mut j: usize = 0;
        while j < m
            invariant
                j <= m,
                m == vss@.len() == indices@.len(),
                self.wf(),
                self.metric_kind() == old(self).metric_kind(),
                self.dim() == old(self).dim(),
                base == old(self).nodes_seq(),
                self.nodes_seq().len() == base.len() + j,
                forall|t: int| 0 <= t < vss@.len() ==> (#[trigger] vss@[t])@.len() == old(
                    self).dim() && bounded(vss@[t]@, COMPONENT_LIMIT),
                forall|t: int| 0 <= t < j ==> (#[trigger] self.nodes_seq()[base.len() + t]).vecs()
                    == vss@[t]@ && self.nodes_seq()[base.len() + t].id() == Some(indices@[t]),
            decreases m - j,
        {
            let nd = MemoryNode::new_with_idx(vss[j].as_slice(), indices[j]);
            self.nodes.push(nd);
            j = j + 1;
        }
        Ok(())
    }

    /// Store the metric.  Rejects `Unknown`, which would leave every
    /// later search without a usable distance.
    pub fn build(&mut self, mt: Metric) -> (r: Result<(), AnnError>)
        requires
            old(self).wf(),
        ensures
            final(self).wf(),
            final(self).nodes_seq() == old(self).nodes_seq(),
            final(self).dim() == old(self).dim(),
            mt != Metric::Unknown ==> r is Ok && final(self).metric_kind() == mt
                && final(self).built_spec(),
            mt == Metric::Unknown ==> r == Err::<(), AnnError>(AnnError::MetricUnset)
                && final(self).metric_kind() == old(self).metric_kind(),
    {
        if matches!(mt, Metric::Unknown) {
            return Err(AnnError::MetricUnset);
        }
        self.mt = mt;
        Ok(())
    }

    pub fn built(&self) -> (r: bool)
        ensures
            r == self.built_spec(),
    {
        !matches!(self.mt, Metric::Unknown)
    }

    /// Exact top-k as `Neighbor` records over the score table.
    pub fn search_neighbors(&self, item: &MemoryNode, k: usize) -> (r: Vec<Neighbor>)
        requires
            self.wf(),
            self.built_spec(),
            item.valid(),
            item.vecs().len() == self.dim(),
            k >= 1,
        ensures
            exact_topk(r@, self.scores(item.vecs()), k as int),
    {
        proof {
            broadcast use to_multiset_build, to_multiset_len,
                vstd::multiset::group_multiset_axioms, vstd::multiset::lemma_multiset_empty_len;

        }
        let ghost sc = self.scores(item.vecs());
        let mut topk = BoundedTopK::new(k);
        let n = self.nodes.len();
        let mut i: usize = 0;
        proof {
            assert(sc.subrange(0, 0) =~= Seq::<Neighbor>::empty());
            assert(sc.subrange(0, 0).to_multiset().len() == 0);
            assert(sc.subrange(0, 0).to_multiset() =~= Multiset::<Neighbor>::empty());
        }
        while i < n
            invariant
                i <= n,
                n == self.nodes_seq().len(),
                self.wf(),
                self.built_spec(),
                item.valid(),
                item.vecs().len() == self.dim(),
                k >= 1,
                sc == self.scores(item.vecs()),
                topk.wf(),
                topk.spec_k() == k,
                topk.pushed_ms() == sc.subrange(0, i as int).to_multiset(),
            decreases n - i,
        {
            let d = match self.nodes[i].metric(item, self.mt) {
                Ok(v) => v,
                Err(_) => {
                    // unreachable: lengths agree and the metric is configured
                    proof {
                        assert(false);
                    }
                    0
                },
            };
            topk.push(Neighbor::new(i, d));
            proof {
                broadcast use to_multiset_build;

                assert(Neighbor { _idx: i, _distance: d } == sc[i as int]);
                assert(sc.subrange(0, i + 1) =~= sc.subrange(0, i as int).push(sc[i as int]));
                assert(sc.subrange(0, i + 1).to_multiset() == sc.subrange(
                    0, i as int).to_multiset().insert(sc[i as int]));
            }
            i = i + 1;
        }
        proof {
            broadcast use to_multiset_len;

            assert(sc.subrange(0, n as int) =~= sc);
            assert(sc.to_multiset().len() == sc.len());
        }
        let r = topk.into_sorted_vec();
        proof {
            lemma_topk_selection(r@, sc, k as int);
        }
        r
    }

    /// Exact top-k with full node information, ascending by distance.
    pub fn node_search_k(&self, item: &MemoryNode, k: usize) -> (r: Vec<(MemoryNode, i64)>)
        requires
            self.wf(),
            self.built_spec(),
            item.valid(),
            item.vecs().len() == self.dim(),
        ensures
            exists|sel: Seq<Neighbor>|
                {
                    &&& #[trigger] exact_topk(sel, self.scores(item.vecs()), k as int)
                    &&& r@.len() == sel.len()
                    &&& forall|j: int| 0 <= j < sel.len() ==> (#[trigger] r@[j]).1
                        == sel[j]._distance && r@[j].0.vecs() == self.nodes_seq()[sel[
                        j]._idx as int].vecs() && r@[j].0.id() == self.nodes_seq()[sel[
                        j]._idx as int].id()
                },
    {
        let ghost sc = self.scores(item.vecs());
        if k == 0 {
            let r: Vec<(MemoryNode, i64)> = Vec::new();
            proof {
                let sel = Seq::<Neighbor>::empty();
                assert(exact_topk(sel, sc, 0));
            }
            return r;
        }
        let found = self.search_neighbors(item, k);
        let mut r: Vec<(MemoryNode, i64)> = Vec::new();
        let m = found.len();
        let mut j: usize = 0;
        while j < m
            invariant
                j <= m,
                m == found@.len(),
                self.wf(),
                exact_topk(found@, sc, k as int),
                sc == self.scores(item.vecs()),
                sc.len() == self.nodes_seq().len(),
                r@.len() == j,
                forall|t: int| 0 <= t < j ==> (#[trigger] r@[t]).1 == found@[t]._distance
                    && r@[t].0.vecs() == self.nodes_seq()[found@[t]._idx as int].vecs()
                    && r@[t].0.id() == self.nodes_seq()[found@[t]._idx as int].id(),
            decreases m - j,
        {
            let nb = found[j];
            let nd = self.nodes[nb._idx].clone();
            r.push((nd, nb._distance));
            j = j + 1;
        }
        proof {
            let sel = found@;
            assert(exact_topk(sel, self.scores(item.vecs()), k as int));
        }
        r
    }

    /// Exact top-k for a raw query vector; the query must have the
    /// configured dimension.
    pub fn search_full(&self, item: &[i64], k: usize) -> (r: Vec<(MemoryNode, i64)>)
        requires
            self.wf(),
            self.built_spec(),
            item@.len() == self.dim(),
            bounded(item@, COMPONENT_LIMIT),
        ensures
            exists|sel: Seq<Neighbor>|
                {
                    &&& #[trigger] exact_topk(sel, self.scores(item@), k as int)
                    &&& r@.len() == sel.len()
                    &&& forall|j: int| 0 <= j < sel.len() ==> (#[trigger] r@[j]).1
                        == sel[j]._distance && r@[j].0.vecs() == self.nodes_seq()[sel[
                        j]._idx as int].vecs() && r@[j].0.id() == self.nodes_seq()[sel[
                        j]._idx as int].id()
                },
    {
        let q = MemoryNode::new(item);
        self.node_search_k(&q, k)
    }

    /// Exact top-k, ids only.
    pub fn search(&self, item: &[i64], k: usize) -> (r: Vec<u64>)
        requires
            self.wf(),
            self.built_spec(),
            item@.len() == self.dim(),
            bounded(item@, COMPONENT_LIMIT),
        ensures
            exists|sel: Seq<Neighbor>|
                {
                    &&& #[trigger] exact_topk(sel, self.scores(item@), k as int)
                    &&& r@.len() == sel.len()
                    &&& forall|j: int| 0 <= j < sel.len() ==> Some(#[trigger] r@[j])
                        == self.nodes_seq()[sel[j]._idx as int].id()
                },
    {
        let full = self.search_full(item, k);
        let mut r: Vec<u64> = Vec::new();
        let ghost sel = choose|sel: Seq<Neighbor>|
            {
                &&& #[trigger] exact_topk(sel, self.scores(item@), k as int)
                &&& full@.len() == sel.len()
                &&& forall|j: int| 0 <= j < sel.len() ==> (#[trigger] full@[j]).1
                    == sel[j]._distance && full@[j].0.vecs() == self.nodes_seq()[sel[
                    j]._idx as int].vecs() && full@[j].0.id() == self.nodes_seq()[sel[
                    j]._idx as int].id()
            };
        let m = full.len();
        let mut j: usize = 0;
        while j < m
            invariant
                j <= m,
                m == full@.len() == sel.len(),
                self.wf(),
                exact_topk(sel, self.scores(item@), k as int),
                forall|t: int| 0 <= t < sel.len() ==> (#[trigger] full@[t]).0.id()
                    == self.nodes_seq()[sel[t]._idx as int].id(),
                r@.len() == j,
                forall|t: int| 0 <= t < j ==> Some(#[trigger] r@[t]) == self.nodes_seq()[sel[
                    t]._idx as int].id(),
            decreases m - j,
        {
            let id = match full[j].0.idx() {
                Some(v) => v,
                None => {
                    // unreachable: every stored node carries an id
                    proof {
                        assert(self.nodes_seq()[sel[j as int]._idx as int].id() is Some);
                        assert(false);
                    }
                    0
                },
            };
            r.push(id);
            j = j + 1;
        }
        r
    }

    pub fn name(&self) -> (r: &'static str) {
        "BruteForceIndex"
    }

    pub fn dimension(&self) -> (r: usize)
        ensures
            r == self.dim(),
    {
        self.dimension
    }

    pub fn nodes_size(&self) -> (r: usize)
        ensures
            r == self.nodes_seq().len(),
    {
        self.nodes.len()
    }

    /// Hand out the whole state as plain values, for persistence:
    /// vectors, ids, dimension and the metric code.
    pub fn to_parts(&self) -> (r: (Vec<Vec<i64>>, Vec<u64>, usize, u8))
        requires
            self.wf(),
        ensures
            r.0@.len() == self.nodes_seq().len(),
            r.1@.len() == self.nodes_seq().len(),
            forall|i: int| 0 <= i < self.nodes_seq().len() ==> (#[trigger] r.0@[i])@
                == self.nodes_seq()[i].vecs() && Some(r.1@[i]) == self.nodes_seq()[i].id(),
            r.2 == self.dim(),
            r.3 == crate::metrics::metric_code_spec(self.metric_kind()),
    {
        let mut vecs: Vec<Vec<i64>> = Vec::new();
        let mut ids: Vec<u64> = Vec::new();
        let n = self.nodes.len();
        let mut i: usize = 0;
        while i < n
            invariant
                i <= n,
                n == self.nodes_seq().len(),
                self.wf(),
                vecs@.len() == i,
                ids@.len() == i,
                forall|t: int| 0 <= t < i ==> (#[trigger] vecs@[t])@ == self.nodes_seq()[t].vecs()
                    && Some(ids@[t]) == self.nodes_seq()[t].id(),
            decreases n - i,
        {
            vecs.push(self.nodes[i].vectors().clone());
            let id = match self.nodes[i].idx() {
                Some(v) => v,
                None => {
                    // unreachable: every stored node carries an id
                    proof {
                        assert(false);
                    }
                    0
                },
            };
            ids.push(id);
            i = i + 1;
        }
        (vecs, ids, self.dimension, crate::metrics::metric_code(self.mt))
    }

    /// Rebuild an index from persisted plain values, validating them all.
    pub fn from_parts(vecs: &Vec<Vec<i64>>, ids: &Vec<u64>, dimension: usize, code: u8) -> (r:
        Result<BruteForceIndex, AnnError>)
        ensures
            r is Ok ==> {
                let idx = r->Ok_0;
                &&& idx.wf()
                &&& idx.dim() == dimension
                &&& idx.metric_kind() == crate::metrics::metric_from_code_spec(code)
                &&& idx.nodes_seq().len() == vecs@.len()
                &&& vecs@.len() == ids@.len()
                &&& forall|i: int| 0 <= i < vecs@.len() ==> (#[trigger] idx.nodes_seq()[i]).vecs()
                    == vecs@[i]@ && idx.nodes_seq()[i].id() == Some(ids@[i])
            },
            r is Err ==> dimension > DIM_LIMIT || vecs@.len() != ids@.len() || exists|i: int|
                0 <= i < vecs@.len() && !((#[trigger] vecs@[i])@.len() == dimension && bounded(
                    vecs@[i]@, COMPONENT_LIMIT)),
    {
        if dimension > DIM_LIMIT {
            return Err(AnnError::ParameterOutOfRange);
        }
        if vecs.len() != ids.len() {
            return Err(AnnError::DimensionMismatch);
        }
        let mut idx = BruteForceIndex {
            nodes: Vec::new(),
            mt: crate::metrics::metric_from_code(code),
            dimension,
        };
        let n = vecs.len();
        let mut i: usize = 0;
        while i < n
            invariant
                i <= n,
                n == vecs@.len() == ids@.len(),
                dimension <= DIM_LIMIT,
                idx.dim() == dimension,
                idx.metric_kind() == crate::metrics::metric_from_code_spec(code),
                idx.wf(),
                idx.nodes_seq().len() == i,
                forall|t: int| 0 <= t < i ==> (#[trigger] idx.nodes_seq()[t]).vecs() == vecs@[t]@
                    && idx.nodes_seq()[t].id() == Some(ids@[t]),
            decreases n - i,
        {
            if vecs[i].len() != dimension {
                return Err(AnnError::DimensionMismatch);
            }
            if !MemoryNode::valid_elements(vecs[i].as_slice()) {
                return Err(AnnError::InvalidVector);
            }
            let nd = MemoryNode::new_with_idx(vecs[i].as_slice(), ids[i]);
            idx.nodes.push(nd);
            i = i + 1;
        }
        Ok(idx)
    }

    /// Drop all nodes and the metric.
    pub fn clear(&mut self)
        requires
            old(self).wf(),
        ensures
            final(self).wf(),
            final(self).nodes_seq().len() == 0,
            final(self).metric_kind() == Metric::Unknown,
            final(self).dim() == old(self).dim(),
    {
        self.nodes.clear();
        self.mt = Metric::Unknown;
    }
}

/// Law: two indexes holding the same vectors under the same metric give
/// every query the same score table, so a dumped and reloaded index is
/// query-indistinguishable from the original up to equal-distance ties.
pub proof fn lemma_state_determines_search(a: &BruteForceIndex, b: &BruteForceIndex, q: Seq<i64>)
    requires
        a.nodes_seq().len() == b.nodes_seq().len(),
        forall|i: int| 0 <= i < a.nodes_seq().len() ==> (#[trigger] a.nodes_seq()[i]).vecs()
            == b.nodes_seq()[i].vecs(),
        a.metric_kind() == b.metric_kind(),
    ensures
        a.scores(q) == b.scores(q),
{
    assert(a.scores(q) =~= b.scores(q));
}

} // verus!
