//! The satellite-system graph index: an exact k-NN graph pruned by an
//! angular occlusion rule, repaired for connectivity, searched by
//! multi-seed best-first expansion.

use crate::calc::bounded;
use crate::heap::{select_topk_keep_all, BoundedTopK};
use crate::kmeans::general_kmeans;
use crate::metrics::{metric_spec, Metric};
use crate::neighbor::{sorted_asc, Neighbor};
use crate::node::MemoryNode;
use crate::random::Random;
use crate::ssg_params::SSGParams;
use crate::visited::{bits_of, bitset_contains, bitset_insert, bitset_with_capacity};
use crate::{AnnError, COMPONENT_LIMIT, COS_SCALE, DIM_LIMIT};
use vstd::multiset::Multiset;
use vstd::prelude::*;

verus! {

/// Micro-radian measure of one degree.
pub const MICRO_RAD_PER_DEG: i64 = 17453;

/// Cosine of an angle in degrees, in `COS_SCALE` units, by a truncated
/// series on the acute range and reflection above it.
pub open spec fn cos_micro_spec(deg: int) -> int {
    let d = if deg < 0 {
        0
    } else if deg > 180 {
        180
    } else {
        deg
    };
    if d <= 90 {
        cos_micro_acute_spec(d)
    } else {
        -cos_micro_acute_spec(180 - d)
    }
}

pub open spec fn cos_micro_acute_spec(d: int) -> int {
    let x = d * (MICRO_RAD_PER_DEG as int);
    let x2 = x * x;
    let x4 = x2 * x2;
    let x6 = x4 * x2;
    (COS_SCALE as int) - x2 / 2000000 + x4 / 24000000000000000000 - x6
        / 720000000000000000000000000000000
}

/// Exact evaluation of `cos_micro_spec`.
pub fn cos_micro(deg: i64) -> (r: i64)
    ensures
        r as int == cos_micro_spec(deg as int),
{
    let d: i64 = if deg < 0 {
        0
    } else if deg > 180 {
        180
    } else {
        deg
    };
    let (a, neg) = if d <= 90 {
        (d, false)
    } else {
        (180 - d, true)
    };
    proof {
        assert((a as int) * (MICRO_RAD_PER_DEG as int) <= 1570770) by (nonlinear_arith)
            requires 0 <= a as int <= 90, MICRO_RAD_PER_DEG == 17453i64;
        assert((a as int) * (MICRO_RAD_PER_DEG as int) >= 0) by (nonlinear_arith)
            requires 0 <= a as int, MICRO_RAD_PER_DEG == 17453i64;
    }
    let x: u128 = (a as u128) * (MICRO_RAD_PER_DEG as u128);
    proof {
        assert((x as int) * (x as int) <= 1570770int * 1570770) by (nonlinear_arith)
            requires 0 <= x as int <= 1570770;
    }
    let x2: u128 = x * x;
    proof {
        assert((x2 as int) * (x2 as int) <= (1570770int * 1570770) * (1570770int * 1570770))
            by (nonlinear_arith)
            requires 0 <= x2 as int <= 1570770int * 1570770;
    }
    let x4: u128 = x2 * x2;
    proof {
        assert((x4 as int) * (x2 as int) <= ((1570770int * 1570770) * (1570770int * 1570770)) * (
        1570770int * 1570770)) by (nonlinear_arith)
            requires
                0 <= x4 as int <= (1570770int * 1570770) * (1570770int * 1570770),
                0 <= x2 as int <= 1570770int * 1570770,
        ;
    }
    let x6: u128 = x4 * x2;
    let t2: u128 = x2 / 2000000;
    let t4: u128 = x4 / 24000000000000000000;
    let t6: u128 = x6 / 720000000000000000000000000000000;
    proof {
        vstd::arithmetic::div_mod::lemma_div_pos_is_pos(x2 as int, 2000000);
        vstd::arithmetic::div_mod::lemma_div_pos_is_pos(x4 as int, 24000000000000000000int);
        vstd::arithmetic::div_mod::lemma_div_pos_is_pos(x6 as int,
            720000000000000000000000000000000int);
        vstd::arithmetic::div_mod::lemma_div_is_ordered(x2 as int, 1570770int * 1570770,
            2000000);
        vstd::arithmetic::div_mod::lemma_div_is_ordered(x4 as int, (1570770int * 1570770) * (
        1570770int * 1570770), 24000000000000000000int);
        vstd::arithmetic::div_mod::lemma_div_is_ordered(x6 as int, ((1570770int * 1570770) * (
        1570770int * 1570770)) * (1570770int * 1570770), 720000000000000000000000000000000int);
    }
    let c: i128 = (crate::COS_SCALE as i128) - (t2 as i128) + (t4 as i128) - (t6 as i128);
    let v = c as i64;
    if neg {
        -v
    } else {
        v
    }
}

/// The occlusion test: candidate at squared distance `dp` from the
/// query is occluded by an accepted neighbour at `dr` when the cosine
/// of the angle between them (law of cosines over `djk`) exceeds the
/// threshold (in `COS_SCALE` units).
pub open spec fn occludes_spec(dp: int, dr: int, djk: int, threshold: int) -> bool {
    let prod = dp * dr;
    if prod <= 0 {
        false
    } else {
        (dp + dr - djk) * (COS_SCALE as int) > threshold * 2 * crate::calc::sqrt_floor(prod)
    }
}

pub fn occludes(dp: i64, dr: i64, djk: i64, threshold: i64) -> (r: bool)
    requires
        -1600000 <= threshold <= 1600000,
    ensures
        r == occludes_spec(dp as int, dr as int, djk as int, threshold as int),
{
    proof {
        let big = 0x8000_0000_0000_0000int;
        assert(-(big * big) <= (dp as int) * (dr as int) <= big * big) by (nonlinear_arith)
            requires -big <= dp as int <= big, -big <= dr as int <= big;
    }
    let prod: i128 = (dp as i128) * (dr as i128);
    if prod <= 0 {
        return false;
    }
    let den = crate::calc::isqrt(prod as u128);
    proof {
        crate::calc::lemma_sqrt_floor(prod as int);
        let s = crate::calc::sqrt_floor(prod as int);
        let big = 0x8000_0000_0000_0000int;
        if s > 0x1_0000_0000_0000_0000int {
            assert(s * s > big * big) by (nonlinear_arith)
                requires s > 0x1_0000_0000_0000_0000int, big == 0x8000_0000_0000_0000int;
        }
        assert(s <= 0x1_0000_0000_0000_0000int);
        assert((threshold as int) * 2 * s >= -(0x400000int * 0x1_0000_0000_0000_0000)
            && (threshold as int) * 2 * s <= 0x400000int * 0x1_0000_0000_0000_0000)
            by (nonlinear_arith)
            requires
                -1600000 <= threshold as int <= 1600000,
                0 <= s <= 0x1_0000_0000_0000_0000int,
        ;
        let w = (dp as int) + (dr as int) - (djk as int);
        assert(-(0x2_0000_0000_0000_0000int * 2000000) <= w * (COS_SCALE as int)
            && w * (COS_SCALE as int) <= 0x2_0000_0000_0000_0000int * 2000000)
            by (nonlinear_arith)
            requires
                -0x2_0000_0000_0000_0000int <= w <= 0x2_0000_0000_0000_0000int,
                COS_SCALE == 1000000i64,
        ;
    }
    let lhs: i128 = ((dp as i128) + (dr as i128) - (djk as i128)) * (COS_SCALE as i128);
    let rhs: i128 = (threshold as i128) * 2 * (den as i128);
    lhs > rhs
}

pub struct SSGIndex {
    nodes: Vec<MemoryNode>,
    mt: Metric,
    dimension: usize,
    neighbor_neighbor_size: usize,
    index_size: usize,
    graph: Vec<Vec<usize>>,
    knn_graph: Vec<Vec<usize>>,
    init_k: usize,
    root_nodes: Vec<usize>,
    width: usize,
    angle: i64,
    threshold: i64,
    root_size: usize,
    rng: Random,
}

impl SSGIndex {
    pub closed spec fn dim(&self) -> int {
        self.dimension as int
    }

    pub closed spec fn nodes_seq(&self) -> Seq<MemoryNode> {
        self.nodes@
    }

    pub closed spec fn metric_kind(&self) -> Metric {
        self.mt
    }

    pub closed spec fn graph_seq(&self) -> Seq<Seq<usize>> {
        Seq::new(self.graph@.len(), |i: int| self.graph@[i]@)
    }

    pub closed spec fn roots_seq(&self) -> Seq<usize> {
        self.root_nodes@
    }

    pub open spec fn wf(&self) -> bool {
        &&& 1 <= self.dim() <= DIM_LIMIT as int
        &&& forall|i: int| 0 <= i < self.nodes_seq().len() ==> (#[trigger] self.nodes_seq()[
            i]).valid() && self.nodes_seq()[i].vecs().len() == self.dim() && self.nodes_seq()[
            i].id() is Some
        &&& self.adjacency_ok()
        &&& forall|t: int| 0 <= t < self.roots_seq().len() ==> (#[trigger] self.roots_seq()[t])
            < self.nodes_seq().len()
    }

    pub closed spec fn adjacency_ok(&self) -> bool {
        forall|i: int, t: int|
            #![trigger self.graph@[i]@[t]]
            0 <= i < self.graph@.len() && 0 <= t < self.graph@[i]@.len() ==> self.graph@[i]@[t]
                < self.nodes_seq().len()
    }

    pub open spec fn built_spec(&self) -> bool {
        &&& self.metric_kind() != Metric::Unknown
        &&& self.graph_seq().len() == self.nodes_seq().len()
        &&& self.roots_seq().len() >= 1
    }

    /// `sel` certifies a search result for query `q`: distinct stored
    /// nodes in ascending order of their exact distances to `q`.
    pub open spec fn valid_selection(&self, sel: Seq<Neighbor>, q: Seq<i64>) -> bool {
        &&& sorted_asc(sel)
        &&& crate::neighbor::distinct_idx(sel)
        &&& forall|j: int| 0 <= j < sel.len() ==> (#[trigger] sel[j])._idx < self.nodes_seq().len()
            && (sel[j]._distance as int) == metric_spec(self.nodes_seq()[sel[
            j]._idx as int].vecs(), q, self.metric_kind())
    }

    /// Re-establish well-formedness from per-part facts.
    proof fn lemma_wf_parts(pre: SSGIndex, post: SSGIndex)
        requires
            pre.wf(),
            post.dimension == pre.dimension,
            post.nodes@.len() >= pre.nodes@.len(),
            forall|i: int| 0 <= i < pre.nodes@.len() ==> post.nodes@[i] == pre.nodes@[i],
            forall|i: int| pre.nodes@.len() <= i < post.nodes@.len() ==> (#[trigger] post.nodes@[
                i]).valid() && post.nodes@[i].vecs().len() == post.dim() && post.nodes@[
                i].id() is Some,
            post.graph@ == pre.graph@,
            post.root_nodes@ == pre.root_nodes@,
        ensures
            post.wf(),
    {
        assert forall|i: int| 0 <= i < post.nodes_seq().len() implies (
        #[trigger] post.nodes_seq()[i]).valid() && post.nodes_seq()[i].vecs().len() == post.dim()
            && post.nodes_seq()[i].id() is Some by {
            if i < pre.nodes@.len() {
                assert(post.nodes@[i] == pre.nodes@[i]);
                assert((#[trigger] pre.nodes_seq()[i]).valid());
            }
        }
        assert forall|i: int, t: int|
            #![trigger post.graph@[i]@[t]]
            0 <= i < post.graph@.len() && 0 <= t < post.graph@[i]@.len() implies post.graph@[i]@[
            t] < post.nodes_seq().len() by {
            assert(pre.graph@[i]@[t] < pre.nodes_seq().len());
        }
        assert forall|t: int| 0 <= t < post.roots_seq().len() implies (
        #[trigger] post.roots_seq()[t]) < post.nodes_seq().len() by {
            assert(pre.roots_seq()[t] < pre.nodes_seq().len());
        }
    }

    pub fn new(dimension: usize, params: &SSGParams) -> (r: SSGIndex)
        requires
            1 <= dimension <= DIM_LIMIT,
        ensures
            r.wf(),
            r.dim() == dimension,
            r.nodes_seq().len() == 0,
            r.graph_seq().len() == 0,
            r.roots_seq().len() == 0,
            r.metric_kind() == Metric::Unknown,
    {
        let threshold = cos_micro(params.angle);
        SSGIndex {
            nodes: Vec::new(),
            mt: Metric::Unknown,
            dimension,
            neighbor_neighbor_size: params.neighbor_neighbor_size,
            index_size: if params.index_size == 0 {
                1
            } else {
                params.index_size
            },
            graph: Vec::new(),
            knn_graph: Vec::new(),
            init_k: if params.init_k == 0 {
                1
            } else {
                params.init_k
            },
            root_nodes: Vec::new(),
            width: 0,
            angle: params.angle,
            threshold,
            root_size: if params.root_size == 0 {
                1
            } else {
                params.root_size
            },
            rng: Random::new(0x55C1),
        }
    }

    /// Validate and append a raw vector with its id.
    pub fn add(&mut self, vs: &[i64], idx: u64) -> (r: Result<(), AnnError>)
        requires
            old(self).wf(),
        ensures
            final(self).wf(),
            final(self).dim() == old(self).dim(),
            final(self).metric_kind() == old(self).metric_kind(),
            r is Ok <==> vs@.len() == old(self).dim() && bounded(vs@, COMPONENT_LIMIT),
            r is Ok ==> final(self).nodes_seq().len() == old(self).nodes_seq().len() + 1
                && final(self).nodes_seq().last().vecs() == vs@ && final(
                self).nodes_seq().last().id() == Some(idx) && forall|t: int|
                0 <= t < old(self).nodes_seq().len() ==> final(self).nodes_seq()[t] == old(
                    self).nodes_seq()[t],
            r is Err ==> final(self).nodes_seq() == old(self).nodes_seq(),
    {
        if vs.len() != self.dimension {
            return Err(AnnError::DimensionMismatch);
        }
        if !MemoryNode::valid_elements(vs) {
            return Err(AnnError::InvalidVector);
        }
        let n = MemoryNode::new_with_idx(vs, idx);
        self.add_node(&n)
    }

    /// Validate the whole batch, then append it: no partial insertion.
    pub fn add_batch(&mut self, vss: &Vec<Vec<i64>>, indices: &[u64]) -> (r: Result<(),
        AnnError>)
        requires
            old(self).wf(),
        ensures
            final(self).wf(),
            final(self).metric_kind() == old(self).metric_kind(),
            final(self).dim() == old(self).dim(),
            r is Err ==> final(self).nodes_seq() == old(self).nodes_seq(),
            vss@.len() != indices@.len() ==> r == Err::<(), AnnError>(
                AnnError::DimensionMismatch),
            r is Ok ==> vss@.len() == indices@.len() && final(self).nodes_seq().len() == old(
                self).nodes_seq().len() + vss@.len() && forall|j: int|
                0 <= j < vss@.len() ==> (#[trigger] final(self).nodes_seq()[old(
                    self).nodes_seq().len() + j]).vecs() == vss@[j]@ && final(
                    self).nodes_seq()[old(self).nodes_seq().len() + j].id() == Some(
                    indices@[j]),
    {
        if vss.len() != indices.len() {
            return Err(AnnError::DimensionMismatch);
        }
        let m = vss.len();
        let mut i: usize = 0;
        while i < m
            invariant
                i <= m,
                m == vss@.len() == indices@.len(),
                self == old(self),
                self.wf(),
                forall|j: int| 0 <= j < i ==> (#[trigger] vss@[j])@.len() == old(self).dim()
                    && bounded(vss@[j]@, COMPONENT_LIMIT),
            decreases m - i,
        {
            if vss[i].len() != self.dimension {
                return Err(AnnError::DimensionMismatch);
            }
            if !MemoryNode::valid_elements(vss[i].as_slice()) {
                return Err(AnnError::InvalidVector);
            }
            i = i + 1;
        }
        let ghost base = self.nodes_seq();
        let mut j: usize = 0;
        while j < m
            invariant
                j <= m,
                m == vss@.len() == indices@.len(),
                self.wf(),
                self.metric_kind() == old(self).metric_kind(),
                self.dim() == old(self).dim(),
                base == old(self).nodes_seq(),
                self.nodes_seq().len() == base.len() + j,
                forall|t: int| 0 <= t < vss@.len() ==> (#[trigger] vss@[t])@.len() == old(
                    self).dim() && bounded(vss@[t]@, COMPONENT_LIMIT),
                forall|t: int| 0 <= t < j ==> (#[trigger] self.nodes_seq()[base.len()
                    + t]).vecs() == vss@[t]@ && self.nodes_seq()[base.len() + t].id() == Some(
                    indices@[t]),
            decreases m - j,
        {
            let ghost pre = *self;
            match self.add(vss[j].as_slice(), indices[j]) {
                Ok(()) => {},
                Err(_) => {
                    // unreachable: the batch was validated
                    proof {
                        assert(false);
                    }
                },
            }
            proof {
                assert forall|t: int| 0 <= t < j + 1 implies (#[trigger] self.nodes_seq()[
                    base.len() + t]).vecs() == vss@[t]@ && self.nodes_seq()[base.len()
                    + t].id() == Some(indices@[t]) by {
                    if t < j {
                        assert(self.nodes_seq()[base.len() + t] == pre.nodes_seq()[base.len()
                            + t]);
                    } else {
                        assert(self.nodes_seq()[base.len() + t] == self.nodes_seq().last());
                    }
                }
            }
            j = j + 1;
        }
        Ok(())
    }

    /// Append a prepared node.
    pub fn add_node(&mut self, item: &MemoryNode) -> (r: Result<(), AnnError>)
        requires
            old(self).wf(),
            item.valid(),
            item.id() is Some,
        ensures
            final(self).wf(),
            final(self).dim() == old(self).dim(),
            final(self).metric_kind() == old(self).metric_kind(),
            r is Ok <==> item.vecs().len() == old(self).dim(),
            r is Ok ==> final(self).nodes_seq().len() == old(self).nodes_seq().len() + 1
                && final(self).nodes_seq().last().vecs() == item.vecs() && final(
                self).nodes_seq().last().id() == item.id() && forall|t: int|
                0 <= t < old(self).nodes_seq().len() ==> final(self).nodes_seq()[t] == old(
                    self).nodes_seq()[t],
            r is Err ==> final(self).nodes_seq() == old(self).nodes_seq(),
    {
        if item.len() != self.dimension {
            return Err(AnnError::DimensionMismatch);
        }
        self.nodes.push(item.clone());
        proof {
            Self::lemma_wf_parts(*old(self), *self);
        }
        Ok(())
    }

    /// Exact distance between two stored nodes.
    fn dist_id(&self, x: usize, y: usize) -> (r: i64)
        requires
            self.wf(),
            self.metric_kind() != Metric::Unknown,
            x < self.nodes_seq().len(),
            y < self.nodes_seq().len(),
        ensures
            r as int == metric_spec(self.nodes_seq()[x as int].vecs(),
                self.nodes_seq()[y as int].vecs(), self.metric_kind()),
    {
        proof {
            assert((#[trigger] self.nodes_seq()[x as int]).valid());
            assert((#[trigger] self.nodes_seq()[y as int]).valid());
        }
        match self.nodes[x].metric(&self.nodes[y], self.mt) {
            Ok(v) => v,
            Err(_) => {
                // unreachable: dimensions agree and the metric is configured
                proof {
                    assert(false);
                }
                0
            },
        }
    }

    /// Candidate `p` is occluded by the kept set: some earlier
    /// acceptance repeats its node or passes the angular occlusion test
    /// against it.
    pub open spec fn occluded_by(&self, kept: Seq<Neighbor>, p: Neighbor) -> bool {
        exists|t: int|
            0 <= t < kept.len() && ((#[trigger] kept[t])._idx == p._idx || occludes_spec(
                p._distance as int, kept[t]._distance as int, metric_spec(self.nodes_seq()[kept[
                t]._idx as int].vecs(), self.nodes_seq()[p._idx as int].vecs(),
                self.metric_kind()), self.threshold_spec()))
    }

    /// The greedy occlusion filter over an ascending candidate list:
    /// skip the query itself, keep each candidate not occluded by an
    /// earlier acceptance, stop at `cap`.
    pub open spec fn occlusion_filter(&self, cands: Seq<Neighbor>, kept: Seq<Neighbor>, q: int,
        cap: int) -> Seq<Neighbor>
        decreases cands.len(),
    {
        if cands.len() == 0 || kept.len() >= cap {
            kept
        } else if cands[0]._idx == q || self.occluded_by(kept, cands[0]) {
            self.occlusion_filter(cands.drop_first(), kept, q, cap)
        } else {
            self.occlusion_filter(cands.drop_first(), kept.push(cands[0]), q, cap)
        }
    }

    /// Occlusion pass over candidates sorted by ascending distance to
    /// `q`: exactly the greedy occlusion filter.
    fn prune_candidates(&self, q: usize, sorted_cands: &Vec<Neighbor>, limit: usize) -> (r: Vec<
        Neighbor>)
        requires
            self.wf(),
            self.metric_kind() != Metric::Unknown,
            q < self.nodes_seq().len(),
            limit >= 1,
            -1600000 <= self.threshold_spec() <= 1600000,
            forall|t: int| 0 <= t < sorted_cands@.len() ==> (#[trigger] sorted_cands@[t])._idx
                < self.nodes_seq().len(),
        ensures
            r@.len() <= limit,
            forall|t: int| 0 <= t < r@.len() ==> (#[trigger] r@[t])._idx < self.nodes_seq().len(),
            r@ == self.occlusion_filter(sorted_cands@, Seq::<Neighbor>::empty(), q as int,
                limit as int),
    {
        let n = sorted_cands.len();
        let mut result: Vec<Neighbor> = Vec::new();
        let mut i: usize = 0;
        proof {
            assert(sorted_cands@.subrange(0, n as int) =~= sorted_cands@);
        }
        while i < n && result.len() < limit
            invariant
                self.wf(),
                self.metric_kind() != Metric::Unknown,
                -1600000 <= self.threshold_spec() <= 1600000,
                q < self.nodes_seq().len(),
                i <= n,
                n == sorted_cands@.len(),
                forall|t: int| 0 <= t < sorted_cands@.len() ==> (#[trigger] sorted_cands@[
                    t])._idx < self.nodes_seq().len(),
                result@.len() <= limit,
                forall|t: int| 0 <= t < result@.len() ==> (#[trigger] result@[t])._idx < self.nodes_seq().len(),
                self.occlusion_filter(sorted_cands@, Seq::<Neighbor>::empty(), q as int,
                    limit as int) == self.occlusion_filter(sorted_cands@.subrange(i as int,
                    n as int), result@, q as int, limit as int),
            decreases n - i,
        {
            let p = sorted_cands[i];
            let ghost kept_pre = result@;
            if p._idx != q {
                let mut occ = false;
                let m = result.len();
                let mut j: usize = 0;
                while j < m && !occ
                    invariant
                        self.wf(),
                        self.metric_kind() != Metric::Unknown,
                        -1600000 <= self.threshold_spec() <= 1600000,
                        j <= m,
                        m == result@.len(),
                        p._idx < self.nodes_seq().len(),
                        forall|t: int| 0 <= t < result@.len() ==> (#[trigger] result@[t])._idx
                            < self.nodes_seq().len(),
                        !occ ==> forall|t: int|
                            0 <= t < j ==> !((#[trigger] result@[t])._idx == p._idx
                                || occludes_spec(p._distance as int, result@[t]._distance as int,
                                metric_spec(self.nodes_seq()[result@[t]._idx as int].vecs(),
                                self.nodes_seq()[p._idx as int].vecs(), self.metric_kind()),
                                self.threshold_spec())),
                        occ ==> self.occluded_by(result@, p),
                    decreases m - j, (if occ {
                        0int
                    } else {
                        1int
                    }),
                {
                    let rt = result[j];
                    if rt._idx == p._idx {
                        occ = true;
                    } else {
                        let djk = self.dist_id(rt._idx, p._idx);
                        if occludes(p._distance, rt._distance, djk, self.threshold) {
                            occ = true;
                        } else {
                            j = j + 1;
                        }
                    }
                }
                proof {
                    if !occ {
                        assert(j == m);
                        assert(!self.occluded_by(result@, p));
                    }
                }
                if !occ {
                    result.push(p);
                }
            }
            proof {
                let rem = sorted_cands@.subrange(i as int, n as int);
                assert(rem.len() > 0);
                assert(rem[0] == p);
                assert(rem.drop_first() =~= sorted_cands@.subrange(i + 1, n as int));
                if p._idx == q as usize || self.occluded_by(kept_pre, p) {
                    assert(result@ == kept_pre);
                    assert(self.occlusion_filter(rem, kept_pre, q as int, limit as int)
                        == self.occlusion_filter(rem.drop_first(), kept_pre, q as int,
                        limit as int));
                } else {
                    assert(result@ == kept_pre.push(p));
                    assert(self.occlusion_filter(rem, kept_pre, q as int, limit as int)
                        == self.occlusion_filter(rem.drop_first(), kept_pre.push(p), q as int,
                        limit as int));
                }
            }
            i = i + 1;
        }
        proof {
            let rem = sorted_cands@.subrange(i as int, n as int);
            if i == n {
                assert(rem =~= Seq::<Neighbor>::empty());
            }
            assert(self.occlusion_filter(rem, result@, q as int, limit as int) == result@);
        }
        result
    }

    pub closed spec fn threshold_spec(&self) -> int {
        self.threshold as int
    }

    pub closed spec fn angle_spec(&self) -> int {
        self.angle as int
    }

    pub closed spec fn init_k_spec(&self) -> int {
        self.init_k as int
    }

    pub closed spec fn index_size_spec(&self) -> int {
        self.index_size as int
    }

    /// The out-degree cap actually used (a zero parameter means one).
    pub open spec fn effective_index_size(&self) -> int {
        if self.index_size_spec() == 0 {
            1
        } else {
            self.index_size_spec()
        }
    }

    pub closed spec fn knn_graph_seq(&self) -> Seq<Seq<usize>> {
        Seq::new(self.knn_graph@.len(), |i: int| self.knn_graph@[i]@)
    }

    /// The neighbour-count cap actually used (a zero parameter means one).
    pub open spec fn effective_init_k(&self) -> int {
        if self.init_k_spec() == 0 {
            1
        } else {
            self.init_k_spec()
        }
    }

    /// Exact distance between two stored nodes, at the spec level.
    pub open spec fn node_dist(&self, i: int, x: int) -> int {
        metric_spec(self.nodes_seq()[i].vecs(), self.nodes_seq()[x].vecs(), self.metric_kind())
    }

    /// Every node-to-node distance fits the fixed-point range.
    proof fn lemma_node_dist_fits(&self, i: int, x: int)
        requires
            self.wf(),
            0 <= i < self.nodes_seq().len(),
            0 <= x < self.nodes_seq().len(),
        ensures
            -0x7fff_ffff_ffff_ffff < self.node_dist(i, x) < 0x7fff_ffff_ffff_ffff,
            (self.node_dist(i, x) as i64) as int == self.node_dist(i, x),
    {
        crate::calc::lemma_bounded_widen(self.nodes_seq()[i].vecs(), COMPONENT_LIMIT,
            crate::VAL_LIMIT);
        crate::calc::lemma_bounded_widen(self.nodes_seq()[x].vecs(), COMPONENT_LIMIT,
            crate::VAL_LIMIT);
        crate::metrics::lemma_metric_bound(self.nodes_seq()[i].vecs(),
            self.nodes_seq()[x].vecs(), self.metric_kind(), crate::VAL_LIMIT);
        let v = crate::VAL_LIMIT as int;
        assert(self.nodes_seq()[i].vecs().len() * (4 * v * v) <= (DIM_LIMIT as int) * (4 * v
            * v)) by (nonlinear_arith)
            requires self.nodes_seq()[i].vecs().len() <= DIM_LIMIT as int, v >= 0;
        assert((DIM_LIMIT as int) * (4 * v * v) == 0x4000_0000_0000_0000) by (nonlinear_arith)
            requires v == 0x40_0000, DIM_LIMIT == 0x1_0000usize;
    }

    /// The candidate table of node `i`: every other node with its exact
    /// distance, in index order.
    pub open spec fn knn_scores(&self, i: int) -> Seq<Neighbor> {
        Seq::new((self.nodes_seq().len() - 1) as nat, |t: int|
            {
                let j = if t < i {
                    t
                } else {
                    t + 1
                };
                Neighbor { _idx: j as usize, _distance: self.node_dist(i, j) as i64 }
            })
    }

    /// `row` is exactly the `init_k` nearest neighbours of node `i`
    /// (itself excluded): full length, distinct, ascending by exact
    /// distance, and no left-out node closer than a listed one.
    pub open spec fn knn_row_exact(&self, i: int, row: Seq<usize>) -> bool {
        let n = self.nodes_seq().len() as int;
        &&& row.len() == crate::heap::min_int(self.effective_init_k(), n - 1)
        &&& forall|t: int| 0 <= t < row.len() ==> (#[trigger] row[t]) < n && row[t] != i
        &&& forall|a: int, b: int|
            #![trigger row[a], row[b]]
            0 <= a < b < row.len() ==> row[a] != row[b] && self.node_dist(i, row[a] as int)
                <= self.node_dist(i, row[b] as int)
        &&& forall|p: int, t: int|
            #![trigger self.nodes_seq()[p], row[t]]
            0 <= p < n && p != i && 0 <= t < row.len() && (forall|u: int|
                0 <= u < row.len() ==> (#[trigger] row[u]) != p) ==> self.node_dist(i,
                row[t] as int) <= self.node_dist(i, p)
    }

    /// Exact `init_k`-nearest-neighbour lists for every node.
    fn build_knn_graph(&mut self)
        requires
            old(self).wf(),
            old(self).metric_kind() != Metric::Unknown,
        ensures
            final(self).wf(),
            final(self).same_data(*old(self)),
            final(self).graph_seq().len() == final(self).nodes_seq().len(),
            final(self).threshold_spec() == old(self).threshold_spec(),
            final(self).angle_spec() == old(self).angle_spec(),
            final(self).knn_graph_seq() == final(self).graph_seq(),
            forall|a: int| 0 <= a < final(self).nodes_seq().len() ==> final(self).knn_row_exact(
                a, (#[trigger] final(self).graph_seq()[a])),
    {
        let n = self.nodes.len();
        let mut new_graph: Vec<Vec<usize>> = Vec::new();
        let mut new_knn: Vec<Vec<usize>> = Vec::new();
        let mut i: usize = 0;
        while i < n
            invariant
                self == old(self),
                self.wf(),
                self.metric_kind() != Metric::Unknown,
                i <= n,
                n == self.nodes_seq().len(),
                new_graph@.len() == i,
                new_knn@.len() == i,
                forall|a: int, t: int|
                    #![trigger new_graph@[a]@[t]]
                    0 <= a < i && 0 <= t < new_graph@[a]@.len() ==> new_graph@[a]@[t] < n,
                forall|a: int| 0 <= a < i ==> (#[trigger] new_knn@[a])@ == new_graph@[a]@,
                forall|a: int| 0 <= a < i ==> self.knn_row_exact(a, (#[trigger] new_graph@[
                    a])@),
            decreases n - i,
        {
            let ghost sc = self.knn_scores(i as int);
            let kk = if self.init_k == 0 {
                1
            } else {
                self.init_k
            };
            let mut topk = BoundedTopK::new(kk);
            proof {
                broadcast use vstd::seq_lib::to_multiset_len,
                    vstd::multiset::group_multiset_axioms,
                    vstd::multiset::lemma_multiset_empty_len;

                assert(sc.subrange(0, 0) =~= Seq::<Neighbor>::empty());
                assert(sc.subrange(0, 0).to_multiset().len() == 0);
                assert(sc.subrange(0, 0).to_multiset() =~= Multiset::<Neighbor>::empty());
            }
            let mut j: usize = 0;
            while j < n
                invariant
                    self == old(self),
                    self.wf(),
                    self.metric_kind() != Metric::Unknown,
                    i < n == self.nodes_seq().len(),
                    j <= n,
                    sc == self.knn_scores(i as int),
                    sc.len() == n - 1,
                    topk.wf(),
                    topk.spec_k() == kk,
                    kk >= 1,
                    topk.pushed_ms() == sc.subrange(0, if j <= i {
                        j as int
                    } else {
                        j as int - 1
                    }).to_multiset(),
                decreases n - j,
            {
                if j != i {
                    let ghost adj: int = if j <= i {
                        j as int
                    } else {
                        j as int - 1
                    };
                    let d = self.dist_id(i, j);
                    proof {
                        assert(sc[adj] == (Neighbor { _idx: j, _distance: d }));
                    }
                    topk.push(Neighbor::new(j, d));
                    proof {
                        broadcast use vstd::seq_lib::to_multiset_build;

                        assert(sc.subrange(0, adj + 1) =~= sc.subrange(0, adj).push(sc[adj]));
                        assert(sc.subrange(0, adj + 1).to_multiset() == sc.subrange(
                            0, adj).to_multiset().insert(sc[adj]));
                    }
                }
                j = j + 1;
            }
            proof {
                broadcast use vstd::seq_lib::to_multiset_len;

                assert(sc.subrange(0, (n - 1) as int) =~= sc);
                assert(sc.to_multiset().len() == sc.len());
            }
            let found = topk.into_sorted_vec();
            proof {
                // the table's entries carry strictly increasing node indexes
                assert forall|a: int, b: int| 0 <= a < b < sc.len() implies sc[a]._idx != sc[
                    b]._idx by {
                    if a < i as int {
                        assert(sc[a]._idx == a);
                    } else {
                        assert(sc[a]._idx == a + 1);
                    }
                    if b < i as int {
                        assert(sc[b]._idx == b);
                    } else {
                        assert(sc[b]._idx == b + 1);
                    }
                }
                crate::heap::lemma_topk_selection_keyed(found@, sc, kk as int);
                // so every selected entry is a table entry with its exact distance
                assert forall|t: int| 0 <= t < found@.len() implies (#[trigger] found@[t])._idx
                    < n && found@[t]._idx != i && (found@[t]._distance as int)
                    == self.node_dist(i as int, found@[t]._idx as int) by {
                    assert(sc.contains(found@[t]));
                    let p = choose|p: int| 0 <= p < sc.len() && sc[p] == found@[t];
                    let jj: int = if p < i as int {
                        p
                    } else {
                        p + 1
                    };
                    assert(sc[p]._idx == jj);
                    assert(0 <= jj < n);
                    self.lemma_node_dist_fits(i as int, jj);
                    assert(sc[p]._distance == self.node_dist(i as int, jj) as i64);
                }
            }
            let mut ids: Vec<usize> = Vec::new();
            let fn_ = found.len();
            let mut t: usize = 0;
            while t < fn_
                invariant
                    t <= fn_,
                    fn_ == found@.len(),
                    n == self.nodes_seq().len(),
                    forall|u: int| 0 <= u < found@.len() ==> (#[trigger] found@[u])._idx < n,
                    ids@.len() == t,
                    forall|u: int| 0 <= u < t ==> (#[trigger] ids@[u]) == found@[u]._idx,
                decreases fn_ - t,
            {
                ids.push(found[t]._idx);
                t = t + 1;
            }
            proof {
                // the completed row is exactly the init_k nearest neighbours
                assert(found@.len() == crate::heap::min_int(kk as int, (n - 1) as int));
                assert forall|p: int, t2: int|
                    #![trigger self.nodes_seq()[p], ids@[t2]]
                    0 <= p < n && p != i as int && 0 <= t2 < ids@.len() && (forall|u: int|
                        0 <= u < ids@.len() ==> (#[trigger] ids@[u]) != p) implies
                    self.node_dist(i as int, ids@[t2] as int) <= self.node_dist(i as int,
                    p) by {
                    let padj: int = if p < i as int {
                        p
                    } else {
                        p - 1
                    };
                    assert(0 <= padj < sc.len());
                    self.lemma_node_dist_fits(i as int, p);
                    assert(sc[padj] == (Neighbor {
                        _idx: p as usize,
                        _distance: self.node_dist(i as int, p) as i64,
                    }));
                    assert forall|u: int| 0 <= u < found@.len() implies (#[trigger] found@[
                        u])._idx != sc[padj]._idx by {
                        assert(ids@[u] == found@[u]._idx);
                    }
                    assert(found@[t2]._distance <= sc[padj]._distance);
                }
                assert(self.knn_row_exact(i as int, ids@));
            }
            let ids2 = ids.clone();
            proof {
                assert(ids2@ =~= ids@);
            }
            new_graph.push(ids);
            new_knn.push(ids2);
            i = i + 1;
        }
        let ghost pre = *self;
        self.graph = new_graph;
        self.knn_graph = new_knn;
        proof {
            assert(self.nodes@ == pre.nodes@);
            assert(self.root_nodes@ == pre.root_nodes@);
            assert forall|i: int| 0 <= i < self.nodes_seq().len() implies (
            #[trigger] self.nodes_seq()[i]).valid() && self.nodes_seq()[i].vecs().len()
                == self.dim() && self.nodes_seq()[i].id() is Some by {
                assert((#[trigger] pre.nodes_seq()[i]).valid());
            }
            assert forall|i: int, t: int|
                #![trigger self.graph@[i]@[t]]
                0 <= i < self.graph@.len() && 0 <= t < self.graph@[i]@.len() implies self.graph@[
                i]@[t] < self.nodes_seq().len() by {
                assert(new_graph@[i]@[t] < n);
            }
            assert forall|t: int| 0 <= t < self.roots_seq().len() implies (
            #[trigger] self.roots_seq()[t]) < self.nodes_seq().len() by {
                assert(pre.roots_seq()[t] < pre.nodes_seq().len());
            }
            assert(self.wf());
            assert(self.knn_graph_seq() =~= self.graph_seq());
            assert forall|a: int| 0 <= a < self.nodes_seq().len() implies self.knn_row_exact(
                a, (#[trigger] self.graph_seq()[a])) by {
                assert(self.graph_seq()[a] == new_graph@[a]@);
                assert(pre.knn_row_exact(a, new_graph@[a]@));
                assert(self.nodes_seq() == pre.nodes_seq());
                assert(self.metric_kind() == pre.metric_kind());
                assert forall|x: int, y: int| true implies #[trigger] self.node_dist(x, y)
                    == pre.node_dist(x, y) by {
                }
            }
        }
    }

    /// Everything but the graphs and seeds is unchanged.
    pub open spec fn same_data(&self, other: SSGIndex) -> bool {
        &&& self.dim() == other.dim()
        &&& self.nodes_seq() == other.nodes_seq()
        &&& self.metric_kind() == other.metric_kind()
    }

    /// Occlusion-prune every node's candidate pool, then insert reverse
    /// edges, re-pruning full lists.
    fn link_each_nodes(&mut self, pruned: &mut Vec<Vec<Neighbor>>)
        requires
            old(self).wf(),
            old(self).metric_kind() != Metric::Unknown,
            -1600000 <= old(self).threshold_spec() <= 1600000,
            old(self).graph_seq().len() == old(self).nodes_seq().len(),
            old(pruned)@.len() == 0,
        ensures
            final(self).wf(),
            final(self).same_data(*old(self)),
            final(self).graph_seq().len() == old(self).graph_seq().len(),
            final(pruned)@.len() == old(self).nodes_seq().len(),
            forall|a: int, t: int|
                #![trigger final(pruned)@[a]@[t]]
                0 <= a < final(pruned)@.len() && 0 <= t < final(pruned)@[a]@.len() ==> (final(
                    pruned)@[a]@[t])._idx < final(self).nodes_seq().len(),
            forall|a: int| 0 <= a < final(pruned)@.len() ==> (#[trigger] final(pruned)@[
                a])@.len() <= old(self).effective_index_size(),
            final(self).effective_index_size() == old(self).effective_index_size(),
        decreases 0int,
    {
        let n = self.nodes.len();
        let isz = if self.index_size == 0 {
            1
        } else {
            self.index_size
        };
        let nnsz = self.neighbor_neighbor_size;
        let mut q: usize = 0;
        while q < n
            invariant
                self == old(self),
                self.wf(),
                self.metric_kind() != Metric::Unknown,
                -1600000 <= self.threshold_spec() <= 1600000,
                self.graph_seq().len() == self.nodes_seq().len(),
                isz >= 1,
                q <= n,
                n == self.nodes_seq().len(),
                pruned@.len() == q,
                isz as int == self.effective_index_size(),
                forall|a: int, t: int|
                    #![trigger pruned@[a]@[t]]
                    0 <= a < q && 0 <= t < pruned@[a]@.len() ==> (pruned@[a]@[t])._idx < n,
                forall|a: int| 0 <= a < q ==> (#[trigger] pruned@[a])@.len() <= isz as int,
            decreases n - q,
        {
            // candidate pool: neighbours of neighbours, then own list
            let mut seen = bitset_with_capacity(n);
            bitset_insert(&mut seen, q);
            let mut cands: Vec<Neighbor> = Vec::new();
            let deg = self.graph[q].len();
            let mut a: usize = 0;
            while a < deg
                invariant
                    self == old(self),
                    self.wf(),
                    self.metric_kind() != Metric::Unknown,
                    q < n == self.nodes_seq().len(),
                    self.graph_seq().len() == n,
                    deg == self.graph@[q as int]@.len(),
                    a <= deg,
                    crate::visited::bit_capacity(seen) == n,
                    forall|t: int| 0 <= t < cands@.len() ==> (#[trigger] cands@[t])._idx < n,
                decreases deg - a,
            {
                let nb = self.graph[q][a];
                proof {
                    assert(self.graph@[q as int]@[a as int] < self.nodes_seq().len());
                }
                let deg2 = self.graph[nb].len();
                let mut b: usize = 0;
                while b < deg2
                    invariant
                        self == old(self),
                        self.wf(),
                        self.metric_kind() != Metric::Unknown,
                        q < n == self.nodes_seq().len(),
                        self.graph_seq().len() == n,
                        nb < n,
                        deg2 == self.graph@[nb as int]@.len(),
                        b <= deg2,
                        crate::visited::bit_capacity(seen) == n,
                        forall|t: int| 0 <= t < cands@.len() ==> (#[trigger] cands@[t])._idx
                            < n,
                    decreases deg2 - b,
                {
                    if cands.len() >= nnsz {
                        break;
                    }
                    let nn = self.graph[nb][b];
                    proof {
                        assert(self.graph@[nb as int]@[b as int] < self.nodes_seq().len());
                    }
                    if !bitset_contains(&seen, nn) {
                        bitset_insert(&mut seen, nn);
                        let d = self.dist_id(q, nn);
                        cands.push(Neighbor::new(nn, d));
                    }
                    b = b + 1;
                }
                a = a + 1;
            }
            let mut a2: usize = 0;
            while a2 < deg
                invariant
                    self == old(self),
                    self.wf(),
                    self.metric_kind() != Metric::Unknown,
                    q < n == self.nodes_seq().len(),
                    self.graph_seq().len() == n,
                    deg == self.graph@[q as int]@.len(),
                    a2 <= deg,
                    crate::visited::bit_capacity(seen) == n,
                    forall|t: int| 0 <= t < cands@.len() ==> (#[trigger] cands@[t])._idx < n,
                decreases deg - a2,
            {
                let nb = self.graph[q][a2];
                proof {
                    assert(self.graph@[q as int]@[a2 as int] < self.nodes_seq().len());
                }
                if !bitset_contains(&seen, nb) {
                    bitset_insert(&mut seen, nb);
                    let d = self.dist_id(q, nb);
                    cands.push(Neighbor::new(nb, d));
                }
                a2 = a2 + 1;
            }
            let sorted = select_topk_keep_all(&cands);
            proof {
                assert forall|t: int| 0 <= t < sorted@.len() implies (#[trigger] sorted@[
                    t])._idx < n by {
                    assert(cands@.contains(sorted@[t]));
                    let pidx = choose|p: int| 0 <= p < cands@.len() && cands@[p] == sorted@[t];
                }
            }
            let row = self.prune_candidates(q, &sorted, isz);
            pruned.push(row);
            q = q + 1;
        }
        // reverse edges
        let mut i: usize = 0;
        while i < n
            invariant
                self == old(self),
                self.wf(),
                self.metric_kind() != Metric::Unknown,
                -1600000 <= self.threshold_spec() <= 1600000,
                self.graph_seq().len() == self.nodes_seq().len(),
                isz >= 1,
                i <= n,
                n == self.nodes_seq().len(),
                pruned@.len() == n,
                isz as int == self.effective_index_size(),
                forall|a: int, t: int|
                    #![trigger pruned@[a]@[t]]
                    0 <= a < n && 0 <= t < pruned@[a]@.len() ==> (pruned@[a]@[t])._idx < n,
                forall|a: int| 0 <= a < n ==> (#[trigger] pruned@[a])@.len() <= isz as int,
            decreases n - i,
        {
            let row = pruned[i].clone();
            let rl = row.len();
            let mut t: usize = 0;
            while t < rl
                invariant
                    self == old(self),
                    self.wf(),
                    self.metric_kind() != Metric::Unknown,
                    -1600000 <= self.threshold_spec() <= 1600000,
                    self.graph_seq().len() == self.nodes_seq().len(),
                    isz >= 1,
                    i < n == self.nodes_seq().len(),
                    t <= rl,
                    rl == row@.len(),
                    forall|u: int| 0 <= u < row@.len() ==> (#[trigger] row@[u])._idx < n,
                    pruned@.len() == n,
                    isz as int == self.effective_index_size(),
                    forall|a: int, u: int|
                        #![trigger pruned@[a]@[u]]
                        0 <= a < n && 0 <= u < pruned@[a]@.len() ==> (pruned@[a]@[u])._idx < n,
                    forall|a: int| 0 <= a < n ==> (#[trigger] pruned@[a])@.len() <= isz as int,
                decreases rl - t,
            {
                let des = row[t]._idx;
                if des != i {
                    // look for the reverse edge
                    let mut dup = false;
                    let dl = pruned[des].len();
                    let mut u: usize = 0;
                    while u < dl
                        invariant
                            u <= dl,
                            des < n,
                            i < n,
                            pruned@.len() == n,
                            dl == pruned@[des as int]@.len(),
                        decreases dl - u,
                    {
                        if pruned[des][u]._idx == i {
                            dup = true;
                            break;
                        }
                        u = u + 1;
                    }
                    if !dup {
                        let d = self.dist_id(i, des);
                        if pruned[des].len() < isz {
                            let mut drow = pruned[des].clone();
                            drow.push(Neighbor::new(i, d));
                            pruned[des] = drow;
                        } else {
                            let mut pool = pruned[des].clone();
                            pool.push(Neighbor::new(i, d));
                            let sorted = select_topk_keep_all(&pool);
                            proof {
                                assert forall|v: int| 0 <= v < sorted@.len() implies (
                                #[trigger] sorted@[v])._idx < n by {
                                    assert(pool@.contains(sorted@[v]));
                                    let pidx = choose|p: int|
                                        0 <= p < pool@.len() && pool@[p] == sorted@[v];
                                }
                            }
                            let repruned = self.prune_candidates(des, &sorted, isz);
                            pruned[des] = repruned;
                        }
                        proof {
                            assert forall|a: int, u2: int|
                                #![trigger pruned@[a]@[u2]]
                                0 <= a < n && 0 <= u2 < pruned@[a]@.len() implies (pruned@[a]@[
                                u2])._idx < n by {
                                if a != des {
                                }
                            }
                        }
                    }
                }
                t = t + 1;
            }
            i = i + 1;
        }
    }

    /// Connectivity repair: breadth-first sweeps from random seeds, and
    /// an extra edge toward any node left unreached.
    fn expand_connectivity(&mut self)
        requires
            old(self).wf(),
            old(self).metric_kind() != Metric::Unknown,
            old(self).graph_seq().len() == old(self).nodes_seq().len(),
            old(self).nodes_seq().len() >= 1,
            forall|a: int| 0 <= a < old(self).graph_seq().len() ==> (#[trigger] old(
                self).graph_seq()[a]).len() <= old(self).effective_index_size(),
        ensures
            final(self).wf(),
            final(self).same_data(*old(self)),
            final(self).graph_seq().len() == old(self).graph_seq().len(),
            final(self).effective_index_size() == old(self).effective_index_size(),
            forall|a: int| 0 <= a < final(self).graph_seq().len() ==> (#[trigger] final(
                self).graph_seq()[a]).len() <= final(self).effective_index_size(),
    {
        let n = self.nodes.len();
        let rs = self.root_size;
        let isz = if self.index_size == 0 {
            1
        } else {
            self.index_size
        };
        let mut s: usize = 0;
        while s < rs
            invariant
                self.wf(),
                self.same_data(*old(self)),
                self.metric_kind() != Metric::Unknown,
                self.graph_seq().len() == self.nodes_seq().len(),
                n == self.nodes_seq().len() >= 1,
                s <= rs,
                isz as int == self.effective_index_size(),
                forall|a: int| 0 <= a < self.graph_seq().len() ==> (#[trigger] self.graph_seq()[
                    a]).len() <= isz as int,
            decreases rs - s,
        {
            let ghost pre_draw = *self;
            let root_id = self.rng.index(n);
            proof {
                assert(self.nodes@ == pre_draw.nodes@);
                assert(self.graph@ == pre_draw.graph@);
                assert(self.root_nodes@ == pre_draw.root_nodes@);
                Self::lemma_wf_parts(pre_draw, *self);
            }
            let mut flags = bitset_with_capacity(n);
            bitset_insert(&mut flags, root_id);
            let mut queue: Vec<usize> = Vec::new();
            queue.push(root_id);
            let mut head: usize = 0;
            let mut rounds: u128 = (n as u128) + 1;
            while rounds > 0
                invariant
                    self.wf(),
                    self.same_data(*old(self)),
                    self.metric_kind() != Metric::Unknown,
                    self.graph_seq().len() == self.nodes_seq().len(),
                    n == self.nodes_seq().len() >= 1,
                    crate::visited::bit_capacity(flags) == n,
                    head <= queue@.len(),
                    isz as int == self.effective_index_size(),
                    forall|a: int| 0 <= a < self.graph_seq().len() ==> (
                    #[trigger] self.graph_seq()[a]).len() <= isz as int,
                    forall|t: int| 0 <= t < queue@.len() ==> (#[trigger] queue@[t]) < n,
                decreases rounds,
            {
                rounds = rounds - 1;
                // breadth-first sweep
                let nc: u128 = if n > 0xFFFF_FFFFusize {
                    0xFFFF_FFFFu128
                } else {
                    n as u128
                };
                proof {
                    assert((nc as int) * (nc as int) <= 0xFFFF_FFFFint * 0xFFFF_FFFF)
                        by (nonlinear_arith)
                        requires 0 <= nc as int <= 0xFFFF_FFFFint;
                }
                let mut steps: u128 = nc * nc + (n as u128) + 1;
                while head < queue.len() && steps > 0
                    invariant
                        self.wf(),
                        self.same_data(*old(self)),
                        self.metric_kind() != Metric::Unknown,
                        self.graph_seq().len() == self.nodes_seq().len(),
                        n == self.nodes_seq().len(),
                        crate::visited::bit_capacity(flags) == n,
                        head <= queue@.len(),
                        forall|t: int| 0 <= t < queue@.len() ==> (#[trigger] queue@[t]) < n,
                    decreases steps,
                {
                    steps = steps - 1;
                    let id = queue[head];
                    head = head + 1;
                    let deg = self.graph[id].len();
                    let mut c: usize = 0;
                    while c < deg
                        invariant
                            self.wf(),
                            self.same_data(*old(self)),
                            self.graph_seq().len() == self.nodes_seq().len(),
                            n == self.nodes_seq().len(),
                            id < n,
                            deg == self.graph@[id as int]@.len(),
                            c <= deg,
                            crate::visited::bit_capacity(flags) == n,
                            head <= queue@.len(),
                            forall|t: int| 0 <= t < queue@.len() ==> (#[trigger] queue@[t])
                                < n,
                        decreases deg - c,
                    {
                        let child = self.graph[id][c];
                        proof {
                            assert(self.graph@[id as int]@[c as int] < self.nodes_seq().len());
                        }
                        if !bitset_contains(&flags, child) {
                            bitset_insert(&mut flags, child);
                            queue.push(child);
                        }
                        c = c + 1;
                    }
                }
                // find a node the sweep missed
                let mut missing: usize = n;
                let mut v: usize = 0;
                while v < n
                    invariant
                        v <= n,
                        missing == n || missing < n,
                        crate::visited::bit_capacity(flags) == n,
                    decreases n - v,
                {
                    if !bitset_contains(&flags, v) {
                        missing = v;
                        break;
                    }
                    v = v + 1;
                }
                if missing >= n {
                    break;
                }
                // attach it to some reached node with spare capacity
                let mut w: usize = 0;
                let mut attached = false;
                while w < n
                    invariant
                        self.wf(),
                        self.same_data(*old(self)),
                        self.metric_kind() != Metric::Unknown,
                        self.graph_seq().len() == self.nodes_seq().len(),
                        n == self.nodes_seq().len(),
                        missing < n,
                        w <= n,
                        crate::visited::bit_capacity(flags) == n,
                        isz as int == self.effective_index_size(),
                        forall|a: int| 0 <= a < self.graph_seq().len() ==> (
                        #[trigger] self.graph_seq()[a]).len() <= isz as int,
                    decreases n - w,
                {
                    if bitset_contains(&flags, w) && self.graph[w].len() < isz {
                        let mut grow = self.graph[w].clone();
                        grow.push(missing);
                        self.set_graph_row(w, grow);
                        attached = true;
                        break;
                    }
                    w = w + 1;
                }
                bitset_insert(&mut flags, missing);
                queue.push(missing);
            }
            s = s + 1;
        }
    }

    /// Write one adjacency row, keeping well-formedness.
    fn set_graph_row(&mut self, i: usize, row: Vec<usize>)
        requires
            old(self).wf(),
            i < old(self).graph_seq().len(),
            forall|t: int| 0 <= t < row@.len() ==> (#[trigger] row@[t]) < old(
                self).nodes_seq().len(),
        ensures
            final(self).wf(),
            final(self).same_data(*old(self)),
            final(self).metric_kind() == old(self).metric_kind(),
            final(self).graph_seq().len() == old(self).graph_seq().len(),
            final(self).roots_seq() == old(self).roots_seq(),
            final(self).threshold_spec() == old(self).threshold_spec(),
            final(self).graph_seq()[i as int] == row@,
            forall|a: int| 0 <= a < old(self).graph_seq().len() && a != i ==> (#[trigger] final(
                self).graph_seq()[a]) == old(self).graph_seq()[a],
            final(self).effective_index_size() == old(self).effective_index_size(),
    {
        self.graph[i] = row;
        proof {
            assert(self.nodes@ == old(self).nodes@);
            assert(self.root_nodes@ == old(self).root_nodes@);
            assert forall|a: int, t: int|
                #![trigger self.graph@[a]@[t]]
                0 <= a < self.graph@.len() && 0 <= t < self.graph@[a]@.len() implies self.graph@[
                a]@[t] < self.nodes_seq().len() by {
                if a != i {
                    assert(self.graph@[a] == old(self).graph@[a]);
                    assert(old(self).graph@[a]@[t] < old(self).nodes_seq().len());
                }
            }
            assert forall|a: int| 0 <= a < self.nodes_seq().len() implies (
            #[trigger] self.nodes_seq()[a]).valid() && self.nodes_seq()[a].vecs().len()
                == self.dim() && self.nodes_seq()[a].id() is Some by {
                assert((#[trigger] old(self).nodes_seq()[a]).valid());
            }
            assert forall|t: int| 0 <= t < self.roots_seq().len() implies (
            #[trigger] self.roots_seq()[t]) < self.nodes_seq().len() by {
                assert(old(self).roots_seq()[t] < old(self).nodes_seq().len());
            }
        }
    }

    /// Full build: exact k-NN graph, occlusion pruning, reverse edges,
    /// connectivity repair, and k-means seed selection.
    pub fn build(&mut self, mt: Metric) -> (r: Result<(), AnnError>)
        requires
            old(self).wf(),
        ensures
            final(self).wf(),
            final(self).same_data(*old(self)) || final(self).metric_kind() == mt,
            final(self).nodes_seq() == old(self).nodes_seq(),
            final(self).dim() == old(self).dim(),
            mt == Metric::Unknown ==> r == Err::<(), AnnError>(AnnError::MetricUnset),
            mt != Metric::Unknown && old(self).nodes_seq().len() == 0 ==> r == Err::<(),
                AnnError>(AnnError::NotBuilt),
            mt != Metric::Unknown && old(self).nodes_seq().len() >= 1 ==> r is Ok && final(
                self).built_spec() && final(self).metric_kind() == mt,
            mt != Metric::Unknown && old(self).nodes_seq().len() >= 1 ==> forall|a: int|
                0 <= a < final(self).graph_seq().len() ==> (#[trigger] final(self).graph_seq()[
                a]).len() <= final(self).effective_index_size(),
    {
        if matches!(mt, Metric::Unknown) {
            return Err(AnnError::MetricUnset);
        }
        if self.nodes.len() == 0 {
            return Err(AnnError::NotBuilt);
        }
        self.mt = mt;
        let thr = cos_micro(self.angle);
        self.threshold = thr;
        proof {
            assert(self.nodes@ == old(self).nodes@);
            assert(self.graph@ == old(self).graph@);
            assert(self.root_nodes@ == old(self).root_nodes@);
            Self::lemma_wf_parts(*old(self), *self);
        }
        self.build_knn_graph();
        let mut pruned: Vec<Vec<Neighbor>> = Vec::new();
        proof {
            assert(-1600000 <= self.threshold_spec() <= 1600000) by {
                assert(self.threshold_spec() == cos_micro_spec(self.angle as int));
                lemma_cos_micro_range(self.angle as int);
            }
        }
        self.link_each_nodes(&mut pruned);
        // adopt the pruned lists as the graph
        let isz = if self.index_size == 0 {
            1
        } else {
            self.index_size
        };
        let n = self.nodes.len();
        let mut i: usize = 0;
        while i < n
            invariant
                self.wf(),
                self.nodes_seq() == old(self).nodes_seq(),
                self.dim() == old(self).dim(),
                self.metric_kind() == mt,
                mt != Metric::Unknown,
                i <= n,
                n == self.nodes_seq().len(),
                self.graph_seq().len() == n,
                pruned@.len() == n,
                isz as int == self.effective_index_size(),
                forall|a: int, t: int|
                    #![trigger pruned@[a]@[t]]
                    0 <= a < n && 0 <= t < pruned@[a]@.len() ==> (pruned@[a]@[t])._idx < n,
                forall|a: int| 0 <= a < n ==> (#[trigger] pruned@[a])@.len() <= isz as int,
                forall|a: int| 0 <= a < i ==> (#[trigger] self.graph_seq()[a]).len()
                    <= isz as int,
            decreases n - i,
        {
            let prow = pruned[i].clone();
            let mut ids: Vec<usize> = Vec::new();
            let pl = prow.len();
            let mut t: usize = 0;
            while t < pl
                invariant
                    t <= pl,
                    pl == prow@.len(),
                    n == self.nodes_seq().len(),
                    forall|u: int| 0 <= u < prow@.len() ==> (#[trigger] prow@[u])._idx < n,
                    ids@.len() == t,
                    forall|u: int| 0 <= u < ids@.len() ==> (#[trigger] ids@[u]) < n,
                decreases pl - t,
            {
                ids.push(prow[t]._idx);
                t = t + 1;
            }
            self.set_graph_row(i, ids);
            i = i + 1;
        }
        self.expand_connectivity();
        // seed selection by whole-node k-means
        let rs = if self.root_size == 0 {
            1
        } else {
            self.root_size
        };
        proof {
            assert forall|t: int| 0 <= t < self.nodes@.len() implies (#[trigger] self.nodes@[
                t]).valid() && self.nodes@[t].vecs().len() == self.nodes@[0].vecs().len()
                && self.nodes@[t].vecs().len() >= 1 by {
                assert((#[trigger] self.nodes_seq()[t]).valid());
                assert(self.nodes_seq()[t].vecs().len() == self.dim());
                assert(self.nodes_seq()[0].vecs().len() == self.dim());
            }
        }
        let seeds = general_kmeans(rs, 256, &self.nodes, mt);
        proof {
            assert(self.nodes_seq().len() >= 1);
        }
        self.root_nodes = seeds;
        proof {
            assert forall|t: int| 0 <= t < self.roots_seq().len() implies (
            #[trigger] self.roots_seq()[t]) < self.nodes_seq().len() by {
            }
        }
        Ok(())
    }

    pub fn built(&self) -> (r: bool)
        requires
            self.wf(),
        ensures
            r == self.built_spec(),
    {
        self.graph.len() == self.nodes.len() && !matches!(self.mt, Metric::Unknown)
            && self.root_nodes.len() >= 1
    }

    /// Multi-seed best-first expansion: at most `k` stored nodes with
    /// exact distances, ascending, distinct.
    /// Every stored node with its exact distance, ascending: the
    /// exhaustive answer used when `k` covers the whole index.
    fn full_scan(&self, query: &MemoryNode) -> (r: Vec<Neighbor>)
        requires
            self.wf(),
            self.metric_kind() != Metric::Unknown,
            query.valid(),
            query.vecs().len() == self.dim(),
        ensures
            self.valid_selection(r@, query.vecs()),
            r@.len() == self.nodes_seq().len(),
    {
        let n = self.nodes.len();
        let mut cands: Vec<Neighbor> = Vec::new();
        let mut i: usize = 0;
        while i < n
            invariant
                self.wf(),
                self.metric_kind() != Metric::Unknown,
                query.valid(),
                query.vecs().len() == self.dim(),
                i <= n,
                n == self.nodes_seq().len(),
                cands@.len() == i,
                forall|j: int| 0 <= j < cands@.len() ==> (#[trigger] cands@[j])._idx == j && (
                cands@[j]._distance as int) == metric_spec(self.nodes_seq()[cands@[
                    j]._idx as int].vecs(), query.vecs(), self.metric_kind()),
            decreases n - i,
        {
            let d = self.dist_id_query(i, query);
            cands.push(Neighbor::new(i, d));
            i = i + 1;
        }
        if cands.len() == 0 {
            return cands;
        }
        let kk = cands.len();
        proof {
            assert(crate::neighbor::distinct_idx(cands@));
        }
        let r = crate::heap::select_topk(&cands, kk);
        proof {
            assert forall|j: int| 0 <= j < r@.len() implies (#[trigger] r@[j])._idx
                < self.nodes_seq().len() && (r@[j]._distance as int) == metric_spec(
                self.nodes_seq()[r@[j]._idx as int].vecs(), query.vecs(), self.metric_kind(),
            ) by {
                assert(cands@.contains(r@[j]));
                let ghost w = choose|w: int| 0 <= w < cands@.len() && cands@[w] == r@[j];
                assert(cands@[w]._idx == w);
            }
        }
        r
    }

    pub fn search_neighbors(&self, query: &MemoryNode, k: usize) -> (r: Vec<Neighbor>)
        requires
            self.wf(),
            self.built_spec(),
            query.valid(),
            query.vecs().len() == self.dim(),
            k >= 1,
        ensures
            self.valid_selection(r@, query.vecs()),
            r@.len() <= k,
            r@.len() >= 1,
            k as int >= self.nodes_seq().len() ==> r@.len() == self.nodes_seq().len(),
    {
        if k >= self.nodes.len() {
            // the query covers the whole index: answer exhaustively
            proof {
                assert(self.roots_seq().len() >= 1);
                assert(self.roots_seq()[0] < self.nodes_seq().len());
            }
            let r = self.full_scan(query);
            return r;
        }
        let n = self.nodes.len();
        let ghost good = |v: Neighbor|
            v._idx < self.nodes_seq().len() && (v._distance as int) == metric_spec(
                self.nodes_seq()[v._idx as int].vecs(), query.vecs(), self.metric_kind());
        let mut heap = BoundedTopK::new(k);
        let mut seen = bitset_with_capacity(n);
        let mut queue: Vec<usize> = Vec::new();
        let mut head: usize = 0;
        let rn = self.root_nodes.len();
        let mut t: usize = 0;
        while t < rn
            invariant
                self.wf(),
                self.built_spec(),
                query.valid(),
                query.vecs().len() == self.dim(),
                k >= 1,
                t <= rn,
                rn == self.roots_seq().len(),
                n == self.nodes_seq().len(),
                crate::visited::bit_capacity(seen) == n,
                heap.wf(),
                heap.spec_k() == k,
                good == (|v: Neighbor|
                    v._idx < self.nodes_seq().len() && (v._distance as int) == metric_spec(
                        self.nodes_seq()[v._idx as int].vecs(), query.vecs(),
                        self.metric_kind())),
                forall|v: Neighbor| heap.pushed_ms().contains(v) ==> #[trigger] good(v),
                t == 0 ==> bits_of(seen) == Set::<usize>::empty(),
                t >= 1 ==> heap.pushed_ms().len() >= 1,
                forall|u: int| 0 <= u < queue@.len() ==> (#[trigger] queue@[u]) < n,
                head <= queue@.len(),
            decreases rn - t,
        {
            let root = self.root_nodes[t];
            proof {
                assert(self.roots_seq()[t as int] < self.nodes_seq().len());
            }
            if !bitset_contains(&seen, root) {
                bitset_insert(&mut seen, root);
                let d = self.dist_id_query(root, query);
                heap.push(Neighbor::new(root, d));
                queue.push(root);
            }
            t = t + 1;
        }
        let mut budget: u128 = (n as u128) + (rn as u128) + 1;
        while budget > 0
            invariant
                self.wf(),
                self.built_spec(),
                query.valid(),
                query.vecs().len() == self.dim(),
                k >= 1,
                n == self.nodes_seq().len(),
                crate::visited::bit_capacity(seen) == n,
                heap.wf(),
                heap.spec_k() == k,
                good == (|v: Neighbor|
                    v._idx < self.nodes_seq().len() && (v._distance as int) == metric_spec(
                        self.nodes_seq()[v._idx as int].vecs(), query.vecs(),
                        self.metric_kind())),
                forall|v: Neighbor| heap.pushed_ms().contains(v) ==> #[trigger] good(v),
                heap.pushed_ms().len() >= 1,
                forall|u: int| 0 <= u < queue@.len() ==> (#[trigger] queue@[u]) < n,
                head <= queue@.len(),
            decreases budget,
        {
            budget = budget - 1;
            if head >= queue.len() {
                break;
            }
            let id = queue[head];
            head = head + 1;
            // gather unvisited neighbours with their distances
            let deg = self.graph[id].len();
            let mut local: Vec<Neighbor> = Vec::new();
            let mut c: usize = 0;
            while c < deg
                invariant
                    self.wf(),
                    self.built_spec(),
                    query.valid(),
                    query.vecs().len() == self.dim(),
                    id < n == self.nodes_seq().len(),
                    deg == self.graph@[id as int]@.len(),
                    c <= deg,
                    crate::visited::bit_capacity(seen) == n,
                    good == (|v: Neighbor|
                        v._idx < self.nodes_seq().len() && (v._distance as int) == metric_spec(
                            self.nodes_seq()[v._idx as int].vecs(), query.vecs(),
                            self.metric_kind())),
                    forall|u: int| 0 <= u < local@.len() ==> #[trigger] good(local@[u]),
                decreases deg - c,
            {
                let nb = self.graph[id][c];
                proof {
                    assert(self.graph@[id as int]@[c as int] < self.nodes_seq().len());
                }
                if !bitset_contains(&seen, nb) {
                    bitset_insert(&mut seen, nb);
                    let d = self.dist_id_query(nb, query);
                    local.push(Neighbor::new(nb, d));
                }
                c = c + 1;
            }
            // visit them in ascending order, stopping at the current worst
            let ordered = select_topk_keep_all(&local);
            let on = ordered.len();
            let mut u: usize = 0;
            while u < on
                invariant
                    self.wf(),
                    self.built_spec(),
                    query.valid(),
                    query.vecs().len() == self.dim(),
                    k >= 1,
                    n == self.nodes_seq().len(),
                    u <= on,
                    on == ordered@.len(),
                    forall|v2: int| 0 <= v2 < local@.len() ==> #[trigger] good(local@[v2]),
                    forall|v2: int| 0 <= v2 < ordered@.len() ==> local@.contains(
                        #[trigger] ordered@[v2]),
                    heap.wf(),
                    heap.spec_k() == k,
                    good == (|v: Neighbor|
                        v._idx < self.nodes_seq().len() && (v._distance as int) == metric_spec(
                            self.nodes_seq()[v._idx as int].vecs(), query.vecs(),
                            self.metric_kind())),
                    forall|v: Neighbor| heap.pushed_ms().contains(v) ==> #[trigger] good(v),
                    heap.pushed_ms().len() >= 1,
                    forall|u2: int| 0 <= u2 < queue@.len() ==> (#[trigger] queue@[u2]) < n,
                    head <= queue@.len(),
                decreases on - u,
            {
                let item = ordered[u];
                proof {
                    assert(local@.contains(item));
                    let p = choose|p: int| 0 <= p < local@.len() && local@[p] == item;
                    assert(good(local@[p]));
                }
                let mut full = false;
                let mut worst = i64::MAX;
                if heap.len() >= k {
                    full = true;
                }
                match heap.peek() {
                    Some(w) => {
                        worst = w._distance;
                    },
                    None => {},
                }
                if full && item._distance > worst {
                    break;
                }
                heap.push(item);
                queue.push(item._idx);
                u = u + 1;
            }
        }
        let raw = heap.into_sorted_vec();
        proof {
            broadcast use vstd::multiset::group_multiset_axioms,
                vstd::seq_lib::to_multiset_contains;

            assert forall|j: int| 0 <= j < raw@.len() implies #[trigger] good(raw@[j]) by {
                assert(raw@.to_multiset().contains(raw@[j]));
                assert(heap.pushed_ms().count(raw@[j]) > 0);
            }
        }
        // dedup, keep ascending order, cut to k
        proof {
            assert forall|j: int| 0 <= j < raw@.len() implies (#[trigger] raw@[j])._idx < self.nodes_seq().len()
                && (raw@[j]._distance as int) == metric_spec(self.nodes_seq()[raw@[
                j]._idx as int].vecs(), query.vecs(), self.metric_kind()) by {
                assert(good(raw@[j]));
            }
        }
        let mut seen2 = bitset_with_capacity(n);
        let mut out: Vec<Neighbor> = Vec::new();
        let rl = raw.len();
        let mut w: usize = 0;
        while w < rl && out.len() < k
            invariant
                self.wf(),
                k >= 1,
                w <= rl,
                rl == raw@.len(),
                sorted_asc(raw@),
                n == self.nodes_seq().len(),
                w == 0 ==> bits_of(seen2) == Set::<usize>::empty(),
                w >= 1 ==> out@.len() >= 1,
                forall|j: int| 0 <= j < raw@.len() ==> (#[trigger] raw@[j])._idx < self.nodes_seq().len()
                    && (raw@[j]._distance as int) == metric_spec(self.nodes_seq()[raw@[
                    j]._idx as int].vecs(), query.vecs(), self.metric_kind()),
                crate::visited::bit_capacity(seen2) == n,
                out@.len() <= k,
                sorted_asc(out@),
                crate::neighbor::distinct_idx(out@),
                forall|j: int| 0 <= j < out@.len() ==> bits_of(seen2).contains(
                    (#[trigger] out@[j])._idx),
                forall|j: int| 0 <= j < out@.len() ==> (#[trigger] out@[j])._idx < self.nodes_seq().len()
                    && (out@[j]._distance as int) == metric_spec(self.nodes_seq()[out@[
                    j]._idx as int].vecs(), query.vecs(), self.metric_kind()),
                forall|j: int, u2: int|
                    #![trigger out@[j], raw@[u2]]
                    0 <= j < out@.len() && w <= u2 < raw@.len() ==> out@[j]._distance <= raw@[
                        u2]._distance,
            decreases rl - w,
        {
            let nb = raw[w];
            if !bitset_contains(&seen2, nb._idx) {
                bitset_insert(&mut seen2, nb._idx);
                out.push(nb);
            }
            w = w + 1;
        }
        out
    }

    /// Exact distance from a stored node to the query.
    fn dist_id_query(&self, x: usize, q: &MemoryNode) -> (r: i64)
        requires
            self.wf(),
            self.metric_kind() != Metric::Unknown,
            x < self.nodes_seq().len(),
            q.valid(),
            q.vecs().len() == self.dim(),
        ensures
            r as int == metric_spec(self.nodes_seq()[x as int].vecs(), q.vecs(),
                self.metric_kind()),
    {
        proof {
            assert((#[trigger] self.nodes_seq()[x as int]).valid());
        }
        match self.nodes[x].metric(q, self.mt) {
            Ok(v) => v,
            Err(_) => {
                // unreachable: dimensions agree and the metric is configured
                proof {
                    assert(false);
                }
                0
            },
        }
    }

    /// Top-k with full node information.
    pub fn node_search_k(&self, item: &MemoryNode, k: usize) -> (r: Vec<(MemoryNode, i64)>)
        requires
            self.wf(),
            self.built_spec(),
            item.valid(),
            item.vecs().len() == self.dim(),
        ensures
            r@.len() <= k,
            k >= 1 ==> r@.len() >= 1,
            k as int >= self.nodes_seq().len() ==> r@.len() == self.nodes_seq().len(),
            forall|a: int, b: int| 0 <= a < b < r@.len() ==> (#[trigger] r@[a]).1 <= (
            #[trigger] r@[b]).1,
            forall|j: int| 0 <= j < r@.len() ==> ((#[trigger] r@[j]).1 as int) == metric_spec(
                r@[j].0.vecs(), item.vecs(), self.metric_kind()) && r@[j].0.id() is Some,
            exists|sel: Seq<Neighbor>|
                #[trigger] self.valid_selection(sel, item.vecs()) && sel.len() == r@.len()
                    && forall|j: int| 0 <= j < sel.len() ==> (#[trigger] sel[j])._distance == r@[
                    j].1 && r@[j].0.vecs() == self.nodes_seq()[sel[j]._idx as int].vecs() && r@[
                    j].0.id() == self.nodes_seq()[sel[j]._idx as int].id(),
    {
        if k == 0 {
            let r: Vec<(MemoryNode, i64)> = Vec::new();
            proof {
                let sel = Seq::<Neighbor>::empty();
                assert(self.valid_selection(sel, item.vecs()) && sel.len() == r@.len() && forall|
                    j: int| 0 <= j < sel.len() ==> (#[trigger] sel[j])._distance == r@[j].1
                        && r@[j].0.vecs() == self.nodes_seq()[sel[j]._idx as int].vecs() && r@[
                        j].0.id() == self.nodes_seq()[sel[j]._idx as int].id());
            }
            return r;
        }
        let found = self.search_neighbors(item, k);
        let mut r: Vec<(MemoryNode, i64)> = Vec::new();
        let m = found.len();
        let mut j: usize = 0;
        while j < m
            invariant
                self.wf(),
                j <= m,
                m == found@.len() <= k,
                self.valid_selection(found@, item.vecs()),
                r@.len() == j,
                forall|t: int| 0 <= t < j ==> ((#[trigger] r@[t]).1 as int) == metric_spec(
                    r@[t].0.vecs(), item.vecs(), self.metric_kind()) && r@[t].0.id() is Some
                    && r@[t].1 == found@[t]._distance && r@[t].0.vecs() == self.nodes_seq()[
                    found@[t]._idx as int].vecs() && r@[t].0.id() == self.nodes_seq()[found@[
                    t]._idx as int].id(),
            decreases m - j,
        {
            let nb = found[j];
            let nd = self.nodes[nb._idx].clone();
            r.push((nd, nb._distance));
            j = j + 1;
        }
        proof {
            let sel = found@;
            assert(self.valid_selection(sel, item.vecs()) && sel.len() == r@.len() && forall|
                j: int| 0 <= j < sel.len() ==> (#[trigger] sel[j])._distance == r@[j].1
                    && r@[j].0.vecs() == self.nodes_seq()[sel[j]._idx as int].vecs() && r@[
                    j].0.id() == self.nodes_seq()[sel[j]._idx as int].id());
        }
        r
    }

    /// Top-k for a raw query vector.
    pub fn search_full(&self, item: &[i64], k: usize) -> (r: Vec<(MemoryNode, i64)>)
        requires
            self.wf(),
            self.built_spec(),
            item@.len() == self.dim(),
            bounded(item@, COMPONENT_LIMIT),
        ensures
            r@.len() <= k,
            k >= 1 ==> r@.len() >= 1,
            k as int >= self.nodes_seq().len() ==> r@.len() == self.nodes_seq().len(),
            forall|a: int, b: int| 0 <= a < b < r@.len() ==> (#[trigger] r@[a]).1 <= (
            #[trigger] r@[b]).1,
            forall|j: int| 0 <= j < r@.len() ==> ((#[trigger] r@[j]).1 as int) == metric_spec(
                r@[j].0.vecs(), item@, self.metric_kind()) && r@[j].0.id() is Some,
            exists|sel: Seq<Neighbor>|
                #[trigger] self.valid_selection(sel, item@) && sel.len() == r@.len() && forall|
                j: int| 0 <= j < sel.len() ==> (#[trigger] sel[j])._distance == r@[j].1 && r@[
                    j].0.vecs() == self.nodes_seq()[sel[j]._idx as int].vecs() && r@[j].0.id()
                    == self.nodes_seq()[sel[j]._idx as int].id(),
    {
        let q = MemoryNode::new(item);
        self.node_search_k(&q, k)
    }

    /// Top-k, ids only: the projection of the full search to external
    /// ids, in the same order.
    pub fn search(&self, item: &[i64], k: usize) -> (r: Vec<u64>)
        requires
            self.wf(),
            self.built_spec(),
            item@.len() == self.dim(),
            bounded(item@, COMPONENT_LIMIT),
        ensures
            r@.len() <= k,
            k >= 1 ==> r@.len() >= 1,
            k as int >= self.nodes_seq().len() ==> r@.len() == self.nodes_seq().len(),
            exists|sel: Seq<Neighbor>|
                #[trigger] self.valid_selection(sel, item@) && sel.len() == r@.len() && forall|
                j: int| 0 <= j < sel.len() ==> Some(#[trigger] r@[j]) == self.nodes_seq()[sel[
                    j]._idx as int].id(),
    {
        if k == 0 {
            let r: Vec<u64> = Vec::new();
            proof {
                let sel = Seq::<Neighbor>::empty();
                assert(self.valid_selection(sel, item@) && sel.len() == r@.len() && forall|
                    j: int| 0 <= j < sel.len() ==> Some(#[trigger] r@[j]) == self.nodes_seq()[
                    sel[j]._idx as int].id());
            }
            return r;
        }
        let q = MemoryNode::new(item);
        let found = self.search_neighbors(&q, k);
        let mut r: Vec<u64> = Vec::new();
        let m = found.len();
        let mut j: usize = 0;
        while j < m
            invariant
                self.wf(),
                j <= m,
                m == found@.len() <= k,
                self.valid_selection(found@, item@),
                r@.len() == j,
                forall|t: int| 0 <= t < j ==> Some(#[trigger] r@[t]) == self.nodes_seq()[found@[
                    t]._idx as int].id(),
            decreases m - j,
        {
            let nb = found[j];
            proof {
                assert(self.nodes_seq()[nb._idx as int].id() is Some);
            }
            let id = match self.nodes[nb._idx].idx() {
                Some(v) => v,
                None => {
                    // unreachable: every stored node carries an id
                    proof {
                        assert(false);
                    }
                    0
                },
            };
            r.push(id);
            j = j + 1;
        }
        proof {
            let sel = found@;
            assert(self.valid_selection(sel, item@) && sel.len() == r@.len() && forall|j: int|
                0 <= j < sel.len() ==> Some(#[trigger] r@[j]) == self.nodes_seq()[sel[
                j]._idx as int].id());
        }
        r
    }

    pub fn name(&self) -> (r: &'static str) {
        "SSGIndex"
    }

    pub fn dimension(&self) -> (r: usize)
        ensures
            r == self.dim(),
    {
        self.dimension
    }

    pub fn nodes_size(&self) -> (r: usize)
        ensures
            r == self.nodes_seq().len(),
    {
        self.nodes.len()
    }

    /// Hand out the whole searchable state as plain values, for
    /// persistence: vectors, ids, pruned graph, roots, dimension and
    /// the metric code.
    pub fn to_parts(&self) -> (r: (
        Vec<Vec<i64>>,
        Vec<u64>,
        Vec<Vec<usize>>,
        Vec<usize>,
        usize,
        u8,
    ))
        requires
            self.wf(),
        ensures
            r.0@.len() == self.nodes_seq().len(),
            r.1@.len() == self.nodes_seq().len(),
            forall|i: int| 0 <= i < self.nodes_seq().len() ==> (#[trigger] r.0@[i])@
                == self.nodes_seq()[i].vecs() && Some(r.1@[i]) == self.nodes_seq()[i].id(),
            r.2@.len() == self.graph_seq().len(),
            forall|i: int| 0 <= i < self.graph_seq().len() ==> (#[trigger] r.2@[i])@
                == self.graph_seq()[i],
            r.3@ == self.roots_seq(),
            r.4 == self.dim(),
            r.5 == crate::metrics::metric_code_spec(self.metric_kind()),
    {
        let mut vecs: Vec<Vec<i64>> = Vec::new();
        let mut ids: Vec<u64> = Vec::new();
        let n = self.nodes.len();
        let mut i: usize = 0;
        while i < n
            invariant
                i <= n,
                n == self.nodes_seq().len(),
                self.wf(),
                vecs@.len() == i,
                ids@.len() == i,
                forall|t: int| 0 <= t < i ==> (#[trigger] vecs@[t])@ == self.nodes_seq()[t].vecs()
                    && Some(ids@[t]) == self.nodes_seq()[t].id(),
            decreases n - i,
        {
            vecs.push(self.nodes[i].vectors().clone());
            let id = match self.nodes[i].idx() {
                Some(v) => v,
                None => {
                    // unreachable: every stored node carries an id
                    proof {
                        assert(false);
                    }
                    0
                },
            };
            ids.push(id);
            i = i + 1;
        }
        let mut gout: Vec<Vec<usize>> = Vec::new();
        let gn = self.graph.len();
        let mut g: usize = 0;
        while g < gn
            invariant
                g <= gn,
                gn == self.graph_seq().len(),
                gout@.len() == g,
                forall|t: int| 0 <= t < g ==> (#[trigger] gout@[t])@ == self.graph_seq()[t],
            decreases gn - g,
        {
            gout.push(self.graph[g].clone());
            g = g + 1;
        }
        (vecs, ids, gout, self.root_nodes.clone(), self.dimension, crate::metrics::metric_code(
            self.mt,
        ))
    }

    /// Rebuild an index from persisted plain values, validating them all:
    /// every vector must have the given dimension and bounded entries, and
    /// every graph edge and root must name a stored node.
    pub fn from_parts(
        vecs: &Vec<Vec<i64>>,
        ids: &Vec<u64>,
        graph: &Vec<Vec<usize>>,
        roots: &Vec<usize>,
        dimension: usize,
        code: u8,
        params: &SSGParams,
    ) -> (r: Result<SSGIndex, AnnError>)
        ensures
            r is Ok ==> {
                let idx = r->Ok_0;
                &&& idx.wf()
                &&& idx.dim() == dimension
                &&& idx.metric_kind() == crate::metrics::metric_from_code_spec(code)
                &&& idx.nodes_seq().len() == vecs@.len()
                &&& vecs@.len() == ids@.len()
                &&& forall|i: int| 0 <= i < vecs@.len() ==> (#[trigger] idx.nodes_seq()[i]).vecs()
                    == vecs@[i]@ && idx.nodes_seq()[i].id() == Some(ids@[i])
                &&& idx.graph_seq().len() == graph@.len()
                &&& forall|i: int| 0 <= i < graph@.len() ==> (#[trigger] idx.graph_seq()[i])
                    == graph@[i]@
                &&& idx.roots_seq() == roots@
            },
            r is Err ==> dimension < 1 || dimension > DIM_LIMIT || vecs@.len() != ids@.len()
                || (exists|i: int|
                0 <= i < vecs@.len() && !((#[trigger] vecs@[i])@.len() == dimension && bounded(
                    vecs@[i]@,
                    COMPONENT_LIMIT,
                ))) || (exists|a: int, b: int|
                #![trigger graph@[a]@[b]]
                0 <= a < graph@.len() && 0 <= b < graph@[a]@.len() && graph@[a]@[b]
                    >= vecs@.len()) || (exists|t: int|
                0 <= t < roots@.len() && (#[trigger] roots@[t]) >= vecs@.len()),
    {
        if dimension < 1 || dimension > DIM_LIMIT {
            return Err(AnnError::ParameterOutOfRange);
        }
        if vecs.len() != ids.len() {
            return Err(AnnError::DimensionMismatch);
        }
        let n = vecs.len();
        let gn = graph.len();
        let mut g: usize = 0;
        while g < gn
            invariant
                g <= gn,
                gn == graph@.len(),
                n == vecs@.len(),
                forall|a: int, b: int|
                    #![trigger graph@[a]@[b]]
                    0 <= a < g && 0 <= b < graph@[a]@.len() ==> graph@[a]@[b] < n,
            decreases gn - g,
        {
            let row_len = graph[g].len();
            let mut b: usize = 0;
            while b < row_len
                invariant
                    b <= row_len,
                    g < gn,
                    gn == graph@.len(),
                    n == vecs@.len(),
                    row_len == graph@[g as int]@.len(),
                    forall|t: int| 0 <= t < b ==> graph@[g as int]@[t] < n,
                decreases row_len - b,
            {
                if graph[g][b] >= n {
                    return Err(AnnError::ParameterOutOfRange);
                }
                b = b + 1;
            }
            g = g + 1;
        }
        let rn = roots.len();
        let mut t: usize = 0;
        while t < rn
            invariant
                t <= rn,
                rn == roots@.len(),
                n == vecs@.len(),
                forall|u: int| 0 <= u < t ==> (#[trigger] roots@[u]) < n,
            decreases rn - t,
        {
            if roots[t] >= n {
                return Err(AnnError::ParameterOutOfRange);
            }
            t = t + 1;
        }
        let mut idx = SSGIndex::new(dimension, params);
        let mut i: usize = 0;
        while i < n
            invariant
                i <= n,
                n == vecs@.len() == ids@.len(),
                1 <= dimension <= DIM_LIMIT,
                idx.dim() == dimension,
                idx.wf(),
                idx.graph_seq().len() == 0,
                idx.roots_seq().len() == 0,
                idx.nodes_seq().len() == i,
                forall|u: int| 0 <= u < i ==> (#[trigger] idx.nodes_seq()[u]).vecs() == vecs@[u]@
                    && idx.nodes_seq()[u].id() == Some(ids@[u]),
            decreases n - i,
        {
            if vecs[i].len() != dimension {
                return Err(AnnError::DimensionMismatch);
            }
            if !MemoryNode::valid_elements(vecs[i].as_slice()) {
                return Err(AnnError::InvalidVector);
            }
            let nd = MemoryNode::new_with_idx(vecs[i].as_slice(), ids[i]);
            idx.nodes.push(nd);
            i = i + 1;
        }
        let mut gcopy: Vec<Vec<usize>> = Vec::new();
        let mut g2: usize = 0;
        while g2 < gn
            invariant
                g2 <= gn,
                gn == graph@.len(),
                gcopy@.len() == g2,
                forall|u: int| 0 <= u < g2 ==> (#[trigger] gcopy@[u])@ == graph@[u]@,
            decreases gn - g2,
        {
            gcopy.push(graph[g2].clone());
            g2 = g2 + 1;
        }
        idx.graph = gcopy;
        idx.root_nodes = roots.clone();
        idx.mt = crate::metrics::metric_from_code(code);
        proof {
            assert forall|a: int, b: int|
                #![trigger idx.graph@[a]@[b]]
                0 <= a < idx.graph@.len() && 0 <= b < idx.graph@[a]@.len() implies idx.graph@[a]@[
                b] < idx.nodes_seq().len() by {
                assert(idx.graph@[a]@ == graph@[a]@);
                assert(graph@[a]@[b] < n);
            }
            assert(idx.wf());
        }
        Ok(idx)
    }
}

/// The series cosine stays within one unit of scale.
proof fn lemma_cos_micro_range(deg: int)
    ensures
        -1600000 <= cos_micro_spec(deg) <= 1600000,
{
    let d = if deg < 0 {
        0
    } else if deg > 180 {
        180
    } else {
        deg
    };
    if d <= 90 {
        lemma_cos_micro_acute_range(d);
    } else {
        lemma_cos_micro_acute_range(180 - d);
    }
}

proof fn lemma_cos_micro_acute_range(d: int)
    requires
        0 <= d <= 90,
    ensures
        -1600000 <= cos_micro_acute_spec(d) <= 1600000,
{
    let x = d * (MICRO_RAD_PER_DEG as int);
    assert(0 <= x <= 1570770) by (nonlinear_arith)
        requires 0 <= d <= 90, x == d * (MICRO_RAD_PER_DEG as int), MICRO_RAD_PER_DEG == 17453i64;
    let x2 = x * x;
    let x4 = x2 * x2;
    let x6 = x4 * x2;
    assert(0 <= x2 <= 1570770int * 1570770) by (nonlinear_arith)
        requires 0 <= x <= 1570770, x2 == x * x;
    assert(0 <= x4 <= (1570770int * 1570770) * (1570770int * 1570770)) by (nonlinear_arith)
        requires 0 <= x2 <= 1570770int * 1570770, x4 == x2 * x2;
    assert(0 <= x6 <= ((1570770int * 1570770) * (1570770int * 1570770)) * (1570770int * 1570770))
        by (nonlinear_arith)
        requires
            0 <= x4 <= (1570770int * 1570770) * (1570770int * 1570770),
            0 <= x2 <= 1570770int * 1570770,
            x6 == x4 * x2,
    ;
    vstd::arithmetic::div_mod::lemma_div_pos_is_pos(x2, 2000000);
    vstd::arithmetic::div_mod::lemma_div_pos_is_pos(x4, 24000000000000000000int);
    vstd::arithmetic::div_mod::lemma_div_pos_is_pos(x6, 720000000000000000000000000000000int);
    vstd::arithmetic::div_mod::lemma_div_is_ordered(x2, 1570770int * 1570770, 2000000);
    vstd::arithmetic::div_mod::lemma_div_is_ordered(x4, (1570770int * 1570770) * (1570770int
        * 1570770), 24000000000000000000int);
    vstd::arithmetic::div_mod::lemma_div_is_ordered(x6, ((1570770int * 1570770) * (1570770int
        * 1570770)) * (1570770int * 1570770), 720000000000000000000000000000000int);
}

} // verus!
