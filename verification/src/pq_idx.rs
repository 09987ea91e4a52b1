//! Product quantization: per-subspace k-means codebooks and asymmetric
//! distance search over the stored codes.

use crate::calc::{bounded, lemma_bounded_widen};
use crate::heap::{lemma_topk_selection, BoundedTopK};
use crate::kmeans::{Kmeans, KM_CENTER_LIMIT, KM_RESIDUAL_LIMIT};
use crate::metrics::{abs_int, lemma_metric_bound, metric, metric_spec, Metric};
use crate::neighbor::{exact_topk, Neighbor};
use crate::node::MemoryNode;
use crate::pq_params::PQParams;
use crate::{AnnError, COMPONENT_LIMIT, COS_SCALE, DIM_LIMIT, VAL_LIMIT};
use vstd::multiset::Multiset;
use vstd::prelude::*;
use vstd::seq_lib::{to_multiset_build, to_multiset_len};

verus! {

/// The codebook size that `sub_bits` bits of code address.
pub open spec fn sub_center_count(sub_bits: usize) -> int {
    if (1u64 << (sub_bits as u64)) > usize::MAX as u64 {
        usize::MAX as int
    } else {
        (1u64 << (sub_bits as u64)) as int
    }
}

/// The width of subspace `s` when `dimension` components are cut into
/// `n_sub` nearly equal ranges, the first `dimension % n_sub` one wider.
pub open spec fn pq_sub_width(dimension: usize, n_sub: usize, s: int) -> int {
    dimension as int / n_sub as int + (if s < dimension as int % n_sub as int {
        1int
    } else {
        0int
    })
}

/// The product-quantization index.
pub struct PQIndex {
    _dimension: usize,
    _n_sub: usize,
    _sub_dimension: usize,
    _dimension_range: Vec<(usize, usize)>,
    _sub_bits: usize,
    _sub_bytes: usize,
    _n_sub_center: usize,
    _code_bytes: usize,
    _train_epoch: usize,
    _centers: Vec<Vec<Vec<i64>>>,
    _is_trained: bool,
    _has_residual: bool,
    _residual: Vec<i64>,
    _n_items: usize,
    _max_item: usize,
    _nodes: Vec<MemoryNode>,
    _assigned_center: Vec<Vec<usize>>,
    mt: Metric,
}

impl PQIndex {
    pub closed spec fn dim(&self) -> int {
        self._dimension as int
    }

    pub closed spec fn n_sub_spec(&self) -> int {
        self._n_sub as int
    }

    pub closed spec fn n_sub_center_spec(&self) -> int {
        self._n_sub_center as int
    }

    pub closed spec fn nodes_seq(&self) -> Seq<MemoryNode> {
        self._nodes@
    }

    pub closed spec fn ranges(&self) -> Seq<(usize, usize)> {
        self._dimension_range@
    }

    pub closed spec fn centers_seq(&self) -> Seq<Seq<Seq<i64>>> {
        Seq::new(self._centers@.len(), |s: int| Seq::new(self._centers@[s]@.len(), |c: int|
            self._centers@[s]@[c]@))
    }

    pub closed spec fn assigned_seq(&self) -> Seq<Seq<usize>> {
        Seq::new(self._assigned_center@.len(), |s: int| self._assigned_center@[s]@)
    }

    pub closed spec fn has_residual_spec(&self) -> bool {
        self._has_residual
    }

    pub closed spec fn residual_seq(&self) -> Seq<i64> {
        self._residual@
    }

    pub closed spec fn metric_kind(&self) -> Metric {
        self.mt
    }

    pub closed spec fn max_item_spec(&self) -> int {
        self._max_item as int
    }

    pub closed spec fn n_items_spec(&self) -> int {
        self._n_items as int
    }

    /// Start of subspace `s`, or the dimension at the end.
    pub open spec fn range_begin(&self, s: int) -> int {
        if s < self.n_sub_spec() {
            self.ranges()[s].0 as int
        } else {
            self.dim()
        }
    }

    pub open spec fn wf(&self) -> bool {
        &&& 1 <= self.n_sub_spec() <= self.dim() <= DIM_LIMIT as int
        &&& 1 <= self.n_sub_center_spec()
        &&& self.ranges().len() == self.n_sub_spec()
        &&& self.ranges()[0].0 == 0
        &&& self.ranges()[self.n_sub_spec() - 1].1 == self.dim()
        &&& forall|s: int| 0 <= s < self.n_sub_spec() ==> (#[trigger] self.ranges()[s]).0
            < self.ranges()[s].1 <= self.dim()
        &&& forall|s: int| 0 <= s < self.n_sub_spec() - 1 ==> (#[trigger] self.ranges()[s]).1
            == self.ranges()[s + 1].0
        &&& self.n_items_spec() == self.nodes_seq().len()
        &&& forall|i: int| 0 <= i < self.nodes_seq().len() ==> (#[trigger] self.nodes_seq()[
            i]).valid() && self.nodes_seq()[i].vecs().len() == self.dim() && self.nodes_seq()[
            i].id() is Some
        &&& self.has_residual_spec() ==> self.residual_seq().len() == self.dim() && bounded(
            self.residual_seq(), KM_RESIDUAL_LIMIT)
    }

    /// The codebooks and codes are in place and consistent.
    pub closed spec fn trained_flag(&self) -> bool {
        self._is_trained
    }

    pub open spec fn trained_spec(&self) -> bool {
        &&& self.trained_flag()
        &&& self.centers_seq().len() == self.n_sub_spec()
        &&& forall|s: int| 0 <= s < self.n_sub_spec() ==> (#[trigger] self.centers_seq()[s]).len()
            == self.n_sub_center_spec()
        &&& forall|s: int, c: int|
            0 <= s < self.n_sub_spec() && 0 <= c < self.n_sub_center_spec() ==> (
            #[trigger] self.centers_seq()[s][c]).len() == self.ranges()[s].1 - self.ranges()[s].0
                && bounded(self.centers_seq()[s][c], KM_CENTER_LIMIT)
        &&& self.assigned_seq().len() == self.n_sub_spec()
        &&& forall|s: int| 0 <= s < self.n_sub_spec() ==> (#[trigger] self.assigned_seq()[s]).len()
            == self.nodes_seq().len()
        &&& forall|s: int, i: int|
            0 <= s < self.n_sub_spec() && 0 <= i < self.nodes_seq().len() ==> (
            #[trigger] self.assigned_seq()[s][i]) < self.n_sub_center_spec()
    }

    pub open spec fn built_spec(&self) -> bool {
        self.metric_kind() != Metric::Unknown && self.trained_spec()
    }

    /// The query restricted to subspace `s`, residual-adjusted.
    pub open spec fn sub_query(&self, q: Seq<i64>, s: int) -> Seq<i64> {
        let b = self.ranges()[s].0 as int;
        let e = self.ranges()[s].1 as int;
        Seq::new((e - b) as nat, |t: int|
            if self.has_residual_spec() {
                (q[b + t] - self.residual_seq()[b + t]) as i64
            } else {
                q[b + t]
            })
    }

    /// Distance-table entry: sub-query `s` against centroid `c`.
    pub open spec fn table_term(&self, q: Seq<i64>, s: int, c: int) -> int {
        metric_spec(self.sub_query(q, s), self.centers_seq()[s][c], self.metric_kind())
    }

    /// The asymmetric distance of item `i`, summed over the first `s`
    /// subspaces.
    pub open spec fn approx_upto(&self, q: Seq<i64>, i: int, s: int) -> int
        decreases s,
    {
        if s <= 0 {
            0
        } else {
            self.approx_upto(q, i, s - 1) + self.table_term(q, s - 1, self.assigned_seq()[s - 1][
                i] as int)
        }
    }

    /// The full asymmetric score table for a query.
    pub open spec fn approx_scores(&self, q: Seq<i64>) -> Seq<Neighbor> {
        Seq::new(self.nodes_seq().len(), |i: int| Neighbor {
            _idx: i as usize,
            _distance: self.approx_upto(q, i, self.n_sub_spec()) as i64,
        })
    }

    /// A query vector the index accepts.
    pub open spec fn query_ok(&self, q: Seq<i64>) -> bool {
        q.len() == self.dim() && bounded(q, COMPONENT_LIMIT)
    }

    /// Magnitude bound on partial asymmetric distances.
    proof fn lemma_approx_bound(&self, q: Seq<i64>, i: int, s: int)
        requires
            self.wf(),
            self.trained_spec(),
            self.query_ok(q),
            0 <= i < self.nodes_seq().len(),
            0 <= s <= self.n_sub_spec(),
        ensures
            abs_int(self.approx_upto(q, i, s)) <= self.range_begin(s) * (4 * (VAL_LIMIT as int) * (
            VAL_LIMIT as int)) + s * (4 * (COS_SCALE as int)),
        decreases s,
    {
        let v = VAL_LIMIT as int;
        let fourv = 4 * v * v;
        let fours = 4 * (COS_SCALE as int);
        if s <= 0 {
            assert(self.range_begin(0) == 0);
        } else {
            self.lemma_approx_bound(q, i, s - 1);
            let c = self.assigned_seq()[s - 1][i] as int;
            let sq = self.sub_query(q, s - 1);
            let cen = self.centers_seq()[s - 1][c];
            let w = self.ranges()[s - 1].1 - self.ranges()[s - 1].0;
            assert(sq.len() == w);
            assert(cen.len() == w);
            assert forall|t: int| 0 <= t < sq.len() implies -VAL_LIMIT <= #[trigger] sq[t]
                <= VAL_LIMIT by {
                assert(-COMPONENT_LIMIT <= q[self.ranges()[s - 1].0 + t] <= COMPONENT_LIMIT);
            }
            lemma_bounded_widen(cen, KM_CENTER_LIMIT, VAL_LIMIT);
            lemma_metric_bound(sq, cen, self.metric_kind(), VAL_LIMIT);
            assert(self.range_begin(s - 1) == self.ranges()[s - 1].0 as int);
            assert(self.range_begin(s - 1) + w == self.range_begin(s));
            assert((self.range_begin(s - 1)) * fourv + w * fourv == self.range_begin(s) * fourv)
                by (nonlinear_arith)
                requires self.range_begin(s - 1) + w == self.range_begin(s);
            assert((s - 1) * fours + fours == s * fours) by (nonlinear_arith);
            assert(sq.len() * fourv == w * fourv);
        }
    }

    /// The full asymmetric distance fits in `i64`.
    proof fn lemma_approx_fits(&self, q: Seq<i64>, i: int)
        requires
            self.wf(),
            self.trained_spec(),
            self.query_ok(q),
            0 <= i < self.nodes_seq().len(),
        ensures
            abs_int(self.approx_upto(q, i, self.n_sub_spec())) < i64::MAX as int,
    {
        self.lemma_approx_bound(q, i, self.n_sub_spec());
        let v = VAL_LIMIT as int;
        assert(self.range_begin(self.n_sub_spec()) * (4 * v * v) <= (DIM_LIMIT as int) * (4 * v
            * v)) by (nonlinear_arith)
            requires self.range_begin(self.n_sub_spec()) <= DIM_LIMIT as int, v >= 0;
        assert((DIM_LIMIT as int) * (4 * v * v) == 0x4000_0000_0000_0000) by (nonlinear_arith)
            requires v == 0x40_0000, DIM_LIMIT == 0x1_0000usize;
        assert(self.n_sub_spec() * (4 * (COS_SCALE as int)) <= (DIM_LIMIT as int) * (4 * (
        COS_SCALE as int))) by (nonlinear_arith)
            requires self.n_sub_spec() <= DIM_LIMIT as int, COS_SCALE >= 0;
    }

    pub fn new(dimension: usize, params: &PQParams) -> (r: PQIndex)
        requires
            1 <= params.n_sub <= dimension <= DIM_LIMIT,
            params.sub_bits <= 32,
        ensures
            r.wf(),
            r.dim() == dimension,
            r.n_sub_spec() == params.n_sub,
            r.nodes_seq().len() == 0,
            !r.trained_flag(),
            r.metric_kind() == Metric::Euclidean,
            !r.has_residual_spec(),
            r.max_item_spec() == 100000,
            r.n_sub_center_spec() == sub_center_count(params.sub_bits),
            forall|t: int| 0 <= t < params.n_sub ==> (#[trigger] r.ranges()[t]).1 - r.ranges()[
                t].0 == pq_sub_width(dimension, params.n_sub, t),
    {
        let n_sub = params.n_sub;
        let sub_bits = params.sub_bits;
        let train_epoch = params.train_epoch;
        let sub_dimension = dimension / n_sub;
        let sub_bytes = (sub_bits + 7) / 8;
        proof {
            assert(1u64 << (sub_bits as u64) >= 1) by (bit_vector)
                requires sub_bits as u64 <= 32u64;
        }
        let wide_centers: u64 = 1u64 << sub_bits;
        let n_center_per_sub: usize = if wide_centers > usize::MAX as u64 {
            usize::MAX
        } else {
            wide_centers as usize
        };
        proof {
            assert(sub_bytes <= 5);
            assert(sub_bytes * n_sub <= 5 * (DIM_LIMIT as int)) by (nonlinear_arith)
                requires sub_bytes <= 5, 0 <= n_sub <= DIM_LIMIT as int;
        }
        let code_bytes = sub_bytes * n_sub;
        let wide = dimension % n_sub;
        proof {
            vstd::arithmetic::div_mod::lemma_fundamental_div_mod(dimension as int, n_sub as int);
            vstd::arithmetic::div_mod::lemma_remainder_lower(dimension as int, n_sub as int);
            vstd::arithmetic::div_mod::lemma_remainder_upper(dimension as int, n_sub as int);
            vstd::arithmetic::div_mod::lemma_div_pos_is_pos(dimension as int, n_sub as int);
        }
        // the first `dimension % n_sub` subspaces are one element wider
        let mut ranges: Vec<(usize, usize)> = Vec::new();
        let mut begin: usize = 0;
        let mut s: usize = 0;
        while s < n_sub
            invariant
                s <= n_sub,
                1 <= n_sub <= dimension <= DIM_LIMIT,
                sub_dimension == dimension / n_sub,
                wide == dimension % n_sub,
                ranges@.len() == s,
                begin as int == sub_dimension * (s as int) + (if s <= wide {
                    s as int
                } else {
                    wide as int
                }),
                begin <= dimension,
                s < n_sub ==> begin < dimension,
                s > 0 ==> ranges@[s - 1].1 == begin,
                forall|t: int| 0 <= t < s ==> (#[trigger] ranges@[t]).0 < ranges@[t].1
                    <= dimension,
                forall|t: int| 0 <= t < s - 1 ==> (#[trigger] ranges@[t]).1 == ranges@[t + 1].0,
                s > 0 ==> ranges@[0].0 == 0,
                forall|t: int| 0 <= t < s ==> (#[trigger] ranges@[t]).1 - ranges@[t].0
                    == pq_sub_width(dimension, n_sub, t),
            decreases n_sub - s,
        {
            let width = if s < wide {
                sub_dimension + 1
            } else {
                sub_dimension
            };
            proof {
                let d = dimension as int;
                let m = n_sub as int;
                let sd = sub_dimension as int;
                let wd = wide as int;
                vstd::arithmetic::div_mod::lemma_fundamental_div_mod(d, m);
                vstd::arithmetic::div_mod::lemma_remainder_lower(d, m);
                vstd::arithmetic::div_mod::lemma_remainder_upper(d, m);
                vstd::arithmetic::div_mod::lemma_div_non_zero(d, m);
                assert(d == m * sd + wd);
                assert(0 <= wd < m);
                assert(sd >= 1);
                if s < wide {
                    assert(sd * ((s + 1) as int) + ((s + 1) as int) == sd * (s as int) + (
                    s as int) + sd + 1) by (nonlinear_arith);
                    assert(sd * ((s + 1) as int) + ((s + 1) as int) <= m * sd + wd)
                        by (nonlinear_arith)
                        requires sd >= 0, ((s + 1) as int) <= m, ((s + 1) as int) <= wd;
                    if s + 1 < n_sub {
                        assert(sd * ((s + 1) as int) + ((s + 1) as int) < m * sd + wd)
                            by (nonlinear_arith)
                            requires
                                sd >= 1,
                                ((s + 1) as int) <= wd,
                                ((s + 1) as int) <= m - 1,
                        ;
                    }
                } else {
                    assert(sd * ((s + 1) as int) + wd == sd * (s as int) + wd + sd)
                        by (nonlinear_arith);
                    assert(sd * ((s + 1) as int) + wd <= m * sd + wd) by (nonlinear_arith)
                        requires sd >= 0, ((s + 1) as int) <= m;
                    if s + 1 < n_sub {
                        assert(sd * ((s + 1) as int) + wd < m * sd + wd) by (nonlinear_arith)
                            requires sd >= 1, ((s + 1) as int) <= m - 1;
                    }
                }
            }
            let end = begin + width;
            ranges.push((begin, end));
            begin = end;
            s = s + 1;
        }
        PQIndex {
            _dimension: dimension,
            _n_sub: n_sub,
            _sub_dimension: sub_dimension,
            _dimension_range: ranges,
            _sub_bits: sub_bits,
            _sub_bytes: sub_bytes,
            _n_sub_center: n_center_per_sub,
            _code_bytes: code_bytes,
            _train_epoch: train_epoch,
            _centers: Vec::new(),
            _is_trained: false,
            _has_residual: false,
            _residual: Vec::new(),
            _n_items: 0,
            _max_item: 100000,
            _nodes: Vec::new(),
            _assigned_center: Vec::new(),
            mt: Metric::Euclidean,
        }
    }

    /// Append a prepared node; the index must then be retrained.
    pub fn add_node(&mut self, item: &MemoryNode) -> (r: Result<(), AnnError>)
        requires
            old(self).wf(),
            item.valid(),
            item.id() is Some,
        ensures
            final(self).wf(),
            !final(self).trained_flag(),
            final(self).metric_kind() == old(self).metric_kind(),
            final(self).dim() == old(self).dim(),
            final(self).max_item_spec() == old(self).max_item_spec(),
            final(self).has_residual_spec() == old(self).has_residual_spec(),
            final(self).residual_seq() == old(self).residual_seq(),
            r is Ok <==> item.vecs().len() == old(self).dim() && old(self).nodes_seq().len() < old(
                self).max_item_spec(),
            r is Ok ==> final(self).nodes_seq().len() == old(self).nodes_seq().len() + 1
                && final(self).nodes_seq().last().vecs() == item.vecs() && final(
                self).nodes_seq().last().id() == item.id() && forall|t: int|
                0 <= t < old(self).nodes_seq().len() ==> final(self).nodes_seq()[t] == old(
                    self).nodes_seq()[t],
            r is Err ==> final(self).nodes_seq() == old(self).nodes_seq(),
    {
        if item.len() != self._dimension {
            self._is_trained = false;
            return Err(AnnError::DimensionMismatch);
        }
        if self._n_items >= self._max_item {
            self._is_trained = false;
            return Err(AnnError::IndexFull);
        }
        self._nodes.push(item.clone());
        self._n_items = self._n_items + 1;
        self._is_trained = false;
        Ok(())
    }

    /// Validate and append a raw vector with its id.
    pub fn add(&mut self, vs: &[i64], idx: u64) -> (r: Result<(), AnnError>)
        requires
            old(self).wf(),
        ensures
            final(self).wf(),
            final(self).dim() == old(self).dim(),
            final(self).max_item_spec() == old(self).max_item_spec(),
            r is Ok <==> vs@.len() == old(self).dim() && bounded(vs@, COMPONENT_LIMIT) && old(
                self).nodes_seq().len() < old(self).max_item_spec(),
            r is Ok ==> final(self).nodes_seq().len() == old(self).nodes_seq().len() + 1
                && final(self).nodes_seq().last().vecs() == vs@ && final(
                self).nodes_seq().last().id() == Some(idx) && forall|t: int|
                0 <= t < old(self).nodes_seq().len() ==> final(self).nodes_seq()[t] == old(
                    self).nodes_seq()[t],
            r is Err ==> final(self).nodes_seq() == old(self).nodes_seq(),
    {
        if vs.len() != self._dimension {
            return Err(AnnError::DimensionMismatch);
        }
        if !MemoryNode::valid_elements(vs) {
            return Err(AnnError::InvalidVector);
        }
        let n = MemoryNode::new_with_idx(vs, idx);
        self.add_node(&n)
    }

    /// Validate the whole batch, then append it: no partial insertion.
    pub fn add_batch(&mut self, vss: &Vec<Vec<i64>>, indices: &[u64]) -> (r: Result<(),
        AnnError>)
        requires
            old(self).wf(),
        ensures
            final(self).wf(),
            final(self).dim() == old(self).dim(),
            final(self).max_item_spec() == old(self).max_item_spec(),
            r is Err ==> final(self).nodes_seq() == old(self).nodes_seq(),
            vss@.len() != indices@.len() ==> r == Err::<(), AnnError>(
                AnnError::DimensionMismatch),
            r is Ok ==> vss@.len() == indices@.len() && final(self).nodes_seq().len() == old(
                self).nodes_seq().len() + vss@.len() && forall|j: int|
                0 <= j < vss@.len() ==> (#[trigger] final(self).nodes_seq()[old(
                    self).nodes_seq().len() + j]).vecs() == vss@[j]@ && final(
                    self).nodes_seq()[old(self).nodes_seq().len() + j].id() == Some(
                    indices@[j]),
    {
        if vss.len() != indices.len() {
            return Err(AnnError::DimensionMismatch);
        }
        let m = vss.len();
        let room = if self._n_items <= self._max_item {
            self._max_item - self._n_items
        } else {
            0
        };
        if m > room {
            return Err(AnnError::IndexFull);
        }
        let mut i: usize = 0;
        while i < m
            invariant
                i <= m,
                m == vss@.len() == indices@.len(),
                self == old(self),
                self.wf(),
                forall|j: int| 0 <= j < i ==> (#[trigger] vss@[j])@.len() == old(self).dim()
                    && bounded(vss@[j]@, COMPONENT_LIMIT),
            decreases m - i,
        {
            if vss[i].len() != self._dimension {
                return Err(AnnError::DimensionMismatch);
            }
            if !MemoryNode::valid_elements(vss[i].as_slice()) {
                return Err(AnnError::InvalidVector);
            }
            i = i + 1;
        }
        let ghost base = self.nodes_seq();
        let mut j: usize = 0;
        while j < m
            invariant
                j <= m,
                m == vss@.len() == indices@.len(),
                self.wf(),
                self.dim() == old(self).dim(),
                self.max_item_spec() == old(self).max_item_spec(),
                base == old(self).nodes_seq(),
                m == 0 || base.len() + m <= self.max_item_spec(),
                self.nodes_seq().len() == base.len() + j,
                forall|t: int| 0 <= t < vss@.len() ==> (#[trigger] vss@[t])@.len() == old(
                    self).dim() && bounded(vss@[t]@, COMPONENT_LIMIT),
                forall|t: int| 0 <= t < j ==> (#[trigger] self.nodes_seq()[base.len()
                    + t]).vecs() == vss@[t]@ && self.nodes_seq()[base.len() + t].id() == Some(
                    indices@[t]),
            decreases m - j,
        {
            let ghost pre = *self;
            match self.add(vss[j].as_slice(), indices[j]) {
                Ok(()) => {},
                Err(_) => {
                    // unreachable: the batch was validated and fits
                    proof {
                        assert(false);
                    }
                },
            }
            proof {
                assert forall|t: int| 0 <= t < j + 1 implies (#[trigger] self.nodes_seq()[
                    base.len() + t]).vecs() == vss@[t]@ && self.nodes_seq()[base.len()
                    + t].id() == Some(indices@[t]) by {
                    if t < j {
                        assert(self.nodes_seq()[base.len() + t] == pre.nodes_seq()[base.len()
                            + t]);
                    } else {
                        assert(self.nodes_seq()[base.len() + t] == self.nodes_seq().last());
                    }
                }
            }
            j = j + 1;
        }
        Ok(())
    }

    /// Configure the residual every stored vector is taken relative to.
    pub fn set_residual(&mut self, residual: Vec<i64>)
        requires
            old(self).wf(),
            residual@.len() == old(self).dim(),
            bounded(residual@, KM_RESIDUAL_LIMIT),
        ensures
            final(self).wf(),
            final(self).has_residual_spec(),
            final(self).residual_seq() == residual@,
            final(self).nodes_seq() == old(self).nodes_seq(),
            final(self).dim() == old(self).dim(),
            final(self).metric_kind() == old(self).metric_kind(),
            !final(self).trained_flag(),
    {
        self._has_residual = true;
        self._residual = residual;
        self._is_trained = false;
    }

    /// Train one codebook per subspace and assign every stored vector.
    pub fn train_center(&mut self)
        requires
            old(self).wf(),
            old(self).metric_kind() != Metric::Unknown,
            old(self).nodes_seq().len() >= 1,
        ensures
            final(self).wf(),
            final(self).trained_spec(),
            final(self).built_spec(),
            final(self).nodes_seq() == old(self).nodes_seq(),
            final(self).dim() == old(self).dim(),
            final(self).metric_kind() == old(self).metric_kind(),
    {
        let n_item = self._n_items;
        let n_sub = self._n_sub;
        let mut data_vec: Vec<Vec<i64>> = Vec::new();
        let mut t: usize = 0;
        while t < n_item
            invariant
                self == old(self),
                self.wf(),
                t <= n_item,
                n_item == self.nodes_seq().len(),
                data_vec@.len() == t,
                forall|u: int| 0 <= u < t ==> (#[trigger] data_vec@[u])@ == self.nodes_seq()[
                    u].vecs(),
            decreases n_item - t,
        {
            data_vec.push(self._nodes[t].vectors().clone());
            t = t + 1;
        }
        let mut new_centers: Vec<Vec<Vec<i64>>> = Vec::new();
        let mut new_assigned: Vec<Vec<usize>> = Vec::new();
        let mut s: usize = 0;
        while s < n_sub
            invariant
                self == old(self),
                self.wf(),
                self.metric_kind() != Metric::Unknown,
                s <= n_sub,
                n_sub == self.n_sub_spec(),
                n_item == self.nodes_seq().len() >= 1,
                data_vec@.len() == n_item,
                forall|u: int| 0 <= u < n_item ==> (#[trigger] data_vec@[u])@
                    == self.nodes_seq()[u].vecs(),
                new_centers@.len() == s,
                new_assigned@.len() == s,
                forall|u: int| 0 <= u < s ==> (#[trigger] new_centers@[u])@.len() == self.n_sub_center_spec(),
                forall|u: int, c: int|
                    #![trigger new_centers@[u]@[c]]
                    0 <= u < s && 0 <= c < self.n_sub_center_spec() ==> (new_centers@[
                        u])@[c]@.len() == self.ranges()[u].1 - self.ranges()[u].0 && bounded(
                        new_centers@[u]@[c]@, KM_CENTER_LIMIT),
                forall|u: int| 0 <= u < s ==> (#[trigger] new_assigned@[u])@.len() == n_item,
                forall|u: int, i: int|
                    #![trigger new_assigned@[u]@[i]]
                    0 <= u < s && 0 <= i < n_item ==> (new_assigned@[u])@[i]
                        < self.n_sub_center_spec(),
            decreases n_sub - s,
        {
            let (begin, end) = self._dimension_range[s];
            proof {
                assert(self.ranges()[s as int].0 < self.ranges()[s as int].1 <= self.dim());
            }
            let mut cluster = Kmeans::new(end - begin, self._n_sub_center, self.mt);
            cluster.set_range(begin, end);
            if self._has_residual {
                cluster.set_residual(self._residual.clone());
            }
            proof {
                assert forall|u: int| 0 <= u < data_vec@.len() implies cluster.input_ok(
                    (#[trigger] data_vec@[u])@) by {
                    assert(data_vec@[u]@ == self.nodes_seq()[u].vecs());
                }
            }
            cluster.train(n_item, &data_vec, self._train_epoch);
            let mut assigned: Vec<usize> = Vec::new();
            cluster.search_data(n_item, &data_vec, &mut assigned);
            let mut centers_s: Vec<Vec<i64>> = Vec::new();
            let n_center = self._n_sub_center;
            let mut c: usize = 0;
            while c < n_center
                invariant
                    cluster.wf(),
                    cluster.trained(),
                    n_center == cluster.n_center_spec(),
                    cluster.dim() == end - begin,
                    c <= n_center,
                    centers_s@.len() == c,
                    forall|u: int| 0 <= u < c ==> (#[trigger] centers_s@[u])@.len() == end - begin
                        && bounded(centers_s@[u]@, KM_CENTER_LIMIT),
                decreases n_center - c,
            {
                proof {
                    assert(bounded(cluster.centers_seq()[c as int], cluster.center_limit()));
                    lemma_bounded_widen(cluster.centers_seq()[c as int], cluster.center_limit(),
                        KM_CENTER_LIMIT);
                }
                centers_s.push(cluster.centers()[c].clone());
                c = c + 1;
            }
            new_centers.push(centers_s);
            new_assigned.push(assigned);
            s = s + 1;
        }
        self._centers = new_centers;
        self._assigned_center = new_assigned;
        self._is_trained = true;
        proof {
            assert forall|u: int| 0 <= u < self.n_sub_spec() implies (
            #[trigger] self.centers_seq()[u]).len() == self.n_sub_center_spec() by {
            }
        }
    }

    /// Store the metric and train.
    pub fn build(&mut self, mt: Metric) -> (r: Result<(), AnnError>)
        requires
            old(self).wf(),
        ensures
            final(self).wf(),
            final(self).nodes_seq() == old(self).nodes_seq(),
            final(self).dim() == old(self).dim(),
            mt == Metric::Unknown ==> r == Err::<(), AnnError>(AnnError::MetricUnset),
            mt != Metric::Unknown && old(self).nodes_seq().len() == 0 ==> r == Err::<(),
                AnnError>(AnnError::NotBuilt),
            mt != Metric::Unknown && old(self).nodes_seq().len() >= 1 ==> r is Ok && final(
                self).built_spec() && final(self).metric_kind() == mt,
    {
        if matches!(mt, Metric::Unknown) {
            return Err(AnnError::MetricUnset);
        }
        if self._n_items == 0 {
            return Err(AnnError::NotBuilt);
        }
        self.mt = mt;
        self.train_center();
        Ok(())
    }

    pub fn built(&self) -> (r: bool)
        requires
            self.wf(),
        ensures
            r == self.trained_flag(),
    {
        self._is_trained
    }

    /// Asymmetric-distance top-k over the stored codes: the exact top-k
    /// of the asymmetric score table.
    pub fn search_knn_adc(&self, search_data: &MemoryNode, k: usize) -> (r: Vec<Neighbor>)
        requires
            self.wf(),
            self.built_spec(),
            search_data.valid(),
            search_data.vecs().len() == self.dim(),
            k >= 1,
        ensures
            exact_topk(r@, self.approx_scores(search_data.vecs()), k as int),
    {
        let ghost q = search_data.vecs();
        let n_sub = self._n_sub;
        let n_center = self._n_sub_center;
        // distance table: one row per subspace
        let mut table: Vec<Vec<i64>> = Vec::new();
        let mut s: usize = 0;
        while s < n_sub
            invariant
                self.wf(),
                self.built_spec(),
                search_data.valid(),
                q == search_data.vecs(),
                q.len() == self.dim(),
                s <= n_sub,
                n_sub == self.n_sub_spec(),
                n_center == self.n_sub_center_spec(),
                table@.len() == s,
                forall|u: int| 0 <= u < s ==> (#[trigger] table@[u])@.len() == n_center,
                forall|u: int, c: int|
                    #![trigger table@[u]@[c]]
                    0 <= u < s && 0 <= c < n_center ==> ((table@[u])@[c]) as int
                        == self.table_term(q, u, c),
            decreases n_sub - s,
        {
            let (begin, end) = self._dimension_range[s];
            proof {
                assert(self.ranges()[s as int].0 < self.ranges()[s as int].1 <= self.dim());
            }
            // adjusted sub-query
            let mut zq: Vec<i64> = Vec::new();
            let mut t: usize = begin;
            while t < end
                invariant
                    self.wf(),
                    search_data.valid(),
                    q == search_data.vecs(),
                    q.len() == self.dim(),
                    s < n_sub == self.n_sub_spec(),
                    begin == self.ranges()[s as int].0,
                    end == self.ranges()[s as int].1,
                    begin <= t <= end,
                    end <= self.dim(),
                    zq@.len() == t - begin,
                    forall|u: int| 0 <= u < zq@.len() ==> (#[trigger] zq@[u]) == self.sub_query(
                        q, s as int)[u],
                decreases end - t,
            {
                let v = if self._has_residual {
                    search_data.vectors()[t] - self._residual[t]
                } else {
                    search_data.vectors()[t]
                };
                zq.push(v);
                t = t + 1;
            }
            proof {
                assert(zq@ =~= self.sub_query(q, s as int));
                assert forall|u: int| 0 <= u < zq@.len() implies -VAL_LIMIT <= #[trigger] zq@[u]
                    <= VAL_LIMIT by {
                    assert(-COMPONENT_LIMIT <= q[self.ranges()[s as int].0 + u]
                        <= COMPONENT_LIMIT);
                }
            }
            let mut row: Vec<i64> = Vec::new();
            let mut c: usize = 0;
            while c < n_center
                invariant
                    self.wf(),
                    self.built_spec(),
                    q.len() == self.dim(),
                    s < n_sub == self.n_sub_spec(),
                    n_center == self.n_sub_center_spec(),
                    begin == self.ranges()[s as int].0,
                    end == self.ranges()[s as int].1,
                    zq@ == self.sub_query(q, s as int),
                    zq@.len() == end - begin,
                    bounded(zq@, VAL_LIMIT),
                    c <= n_center,
                    row@.len() == c,
                    forall|u: int| 0 <= u < c ==> ((#[trigger] row@[u]) as int)
                        == self.table_term(q, s as int, u),
                decreases n_center - c,
            {
                proof {
                    assert((#[trigger] self.centers_seq()[s as int][c as int]).len() == end
                        - begin && bounded(self.centers_seq()[s as int][c as int],
                        KM_CENTER_LIMIT));
                    lemma_bounded_widen(self.centers_seq()[s as int][c as int], KM_CENTER_LIMIT,
                        VAL_LIMIT);
                }
                let d = match metric(zq.as_slice(), self._centers[s][c].as_slice(), self.mt) {
                    Ok(v) => v,
                    Err(_) => {
                        // unreachable: lengths agree and the metric is configured
                        proof {
                            assert(false);
                        }
                        0
                    },
                };
                row.push(d);
                c = c + 1;
            }
            table.push(row);
            s = s + 1;
        }
        // scan the codes, summing table entries
        proof {
            broadcast use to_multiset_build, to_multiset_len,
                vstd::multiset::group_multiset_axioms, vstd::multiset::lemma_multiset_empty_len;

        }
        let ghost sc = self.approx_scores(q);
        let mut topk = BoundedTopK::new(k);
        let n = self._n_items;
        let mut i: usize = 0;
        proof {
            assert(sc.subrange(0, 0) =~= Seq::<Neighbor>::empty());
            assert(sc.subrange(0, 0).to_multiset().len() == 0);
            assert(sc.subrange(0, 0).to_multiset() =~= Multiset::<Neighbor>::empty());
        }
        while i < n
            invariant
                self.wf(),
                self.built_spec(),
                q.len() == self.dim(),
                bounded(q, COMPONENT_LIMIT),
                i <= n,
                n == self.nodes_seq().len(),
                n_sub == self.n_sub_spec(),
                n_center == self.n_sub_center_spec(),
                k >= 1,
                sc == self.approx_scores(q),
                table@.len() == n_sub,
                forall|u: int| 0 <= u < n_sub ==> (#[trigger] table@[u])@.len() == n_center,
                forall|u: int, c: int|
                    #![trigger table@[u]@[c]]
                    0 <= u < n_sub && 0 <= c < n_center ==> ((table@[u])@[c]) as int
                        == self.table_term(q, u, c),
                topk.wf(),
                topk.spec_k() == k,
                topk.pushed_ms() == sc.subrange(0, i as int).to_multiset(),
            decreases n - i,
        {
            let mut acc: i64 = 0;
            let mut s2: usize = 0;
            while s2 < n_sub
                invariant
                    self.wf(),
                    self.built_spec(),
                    q.len() == self.dim(),
                    bounded(q, COMPONENT_LIMIT),
                    i < n == self.nodes_seq().len(),
                    n_sub == self.n_sub_spec(),
                    n_center == self.n_sub_center_spec(),
                    s2 <= n_sub,
                    table@.len() == n_sub,
                    forall|u: int| 0 <= u < n_sub ==> (#[trigger] table@[u])@.len() == n_center,
                    forall|u: int, c: int|
                        #![trigger table@[u]@[c]]
                        0 <= u < n_sub && 0 <= c < n_center ==> ((table@[u])@[
                            c]) as int == self.table_term(q, u, c),
                    acc as int == self.approx_upto(q, i as int, s2 as int),
                decreases n_sub - s2,
            {
                proof {
                    self.lemma_approx_bound(q, i as int, s2 as int);
                    self.lemma_approx_bound(q, i as int, (s2 + 1) as int);
                    let v = VAL_LIMIT as int;
                    assert(self.range_begin((s2 + 1) as int) * (4 * v * v) <= (DIM_LIMIT as int)
                        * (4 * v * v)) by (nonlinear_arith)
                        requires self.range_begin((s2 + 1) as int) <= DIM_LIMIT as int, v >= 0;
                    assert((DIM_LIMIT as int) * (4 * v * v) == 0x4000_0000_0000_0000)
                        by (nonlinear_arith)
                        requires v == 0x40_0000, DIM_LIMIT == 0x1_0000usize;
                    assert(((s2 + 1) as int) * (4 * (COS_SCALE as int)) <= (DIM_LIMIT as int) * (4
                        * (COS_SCALE as int))) by (nonlinear_arith)
                        requires (s2 + 1) as int <= DIM_LIMIT as int, COS_SCALE >= 0;
                }
                let code = self._assigned_center[s2][i];
                let term = table[s2][code];
                acc = acc + term;
                s2 = s2 + 1;
            }
            topk.push(Neighbor::new(i, acc));
            proof {
                broadcast use to_multiset_build;

                assert(Neighbor { _idx: i, _distance: acc } == sc[i as int]);
                assert(sc.subrange(0, i + 1) =~= sc.subrange(0, i as int).push(sc[i as int]));
                assert(sc.subrange(0, i + 1).to_multiset() == sc.subrange(
                    0, i as int).to_multiset().insert(sc[i as int]));
            }
            i = i + 1;
        }
        proof {
            broadcast use to_multiset_len;

            assert(sc.subrange(0, n as int) =~= sc);
            assert(sc.to_multiset().len() == sc.len());
        }
        let r = topk.into_sorted_vec();
        proof {
            lemma_topk_selection(r@, sc, k as int);
        }
        r
    }

    /// Top-k with full node information, ascending by asymmetric distance.
    pub fn node_search_k(&self, item: &MemoryNode, k: usize) -> (r: Vec<(MemoryNode, i64)>)
        requires
            self.wf(),
            self.built_spec(),
            item.valid(),
            item.vecs().len() == self.dim(),
        ensures
            exists|sel: Seq<Neighbor>|
                {
                    &&& #[trigger] exact_topk(sel, self.approx_scores(item.vecs()), k as int)
                    &&& r@.len() == sel.len()
                    &&& forall|j: int| 0 <= j < sel.len() ==> (#[trigger] r@[j]).1
                        == sel[j]._distance && r@[j].0.vecs() == self.nodes_seq()[sel[
                        j]._idx as int].vecs() && r@[j].0.id() == self.nodes_seq()[sel[
                        j]._idx as int].id()
                },
    {
        let ghost sc = self.approx_scores(item.vecs());
        if k == 0 {
            let r: Vec<(MemoryNode, i64)> = Vec::new();
            proof {
                let sel = Seq::<Neighbor>::empty();
                assert(exact_topk(sel, sc, 0));
            }
            return r;
        }
        let found = self.search_knn_adc(item, k);
        let mut r: Vec<(MemoryNode, i64)> = Vec::new();
        let m = found.len();
        let mut j: usize = 0;
        while j < m
            invariant
                j <= m,
                m == found@.len(),
                self.wf(),
                exact_topk(found@, sc, k as int),
                sc == self.approx_scores(item.vecs()),
                sc.len() == self.nodes_seq().len(),
                r@.len() == j,
                forall|t: int| 0 <= t < j ==> (#[trigger] r@[t]).1 == found@[t]._distance
                    && r@[t].0.vecs() == self.nodes_seq()[found@[t]._idx as int].vecs()
                    && r@[t].0.id() == self.nodes_seq()[found@[t]._idx as int].id(),
            decreases m - j,
        {
            let nb = found[j];
            let nd = self._nodes[nb._idx].clone();
            r.push((nd, nb._distance));
            j = j + 1;
        }
        proof {
            let sel = found@;
            assert(exact_topk(sel, self.approx_scores(item.vecs()), k as int));
        }
        r
    }

    /// Top-k for a raw query vector of the configured dimension.
    pub fn search_full(&self, item: &[i64], k: usize) -> (r: Vec<(MemoryNode, i64)>)
        requires
            self.wf(),
            self.built_spec(),
            item@.len() == self.dim(),
            bounded(item@, COMPONENT_LIMIT),
        ensures
            exists|sel: Seq<Neighbor>|
                {
                    &&& #[trigger] exact_topk(sel, self.approx_scores(item@), k as int)
                    &&& r@.len() == sel.len()
                    &&& forall|j: int| 0 <= j < sel.len() ==> (#[trigger] r@[j]).1
                        == sel[j]._distance && r@[j].0.vecs() == self.nodes_seq()[sel[
                        j]._idx as int].vecs() && r@[j].0.id() == self.nodes_seq()[sel[
                        j]._idx as int].id()
                },
    {
        let q = MemoryNode::new(item);
        self.node_search_k(&q, k)
    }

    /// Top-k, ids only.
    pub fn search(&self, item: &[i64], k: usize) -> (r: Vec<u64>)
        requires
            self.wf(),
            self.built_spec(),
            item@.len() == self.dim(),
            bounded(item@, COMPONENT_LIMIT),
        ensures
            exists|sel: Seq<Neighbor>|
                {
                    &&& #[trigger] exact_topk(sel, self.approx_scores(item@), k as int)
                    &&& r@.len() == sel.len()
                    &&& forall|j: int| 0 <= j < sel.len() ==> Some(#[trigger] r@[j])
                        == self.nodes_seq()[sel[j]._idx as int].id()
                },
    {
        let q = MemoryNode::new(item);
        let full = self.node_search_k(&q, k);
        let ghost sel = choose|sel: Seq<Neighbor>|
            {
                &&& #[trigger] exact_topk(sel, self.approx_scores(item@), k as int)
                &&& full@.len() == sel.len()
                &&& forall|j: int| 0 <= j < sel.len() ==> (#[trigger] full@[j]).1
                    == sel[j]._distance && full@[j].0.vecs() == self.nodes_seq()[sel[
                    j]._idx as int].vecs() && full@[j].0.id() == self.nodes_seq()[sel[
                    j]._idx as int].id()
            };
        let mut r: Vec<u64> = Vec::new();
        let m = full.len();
        let mut j: usize = 0;
        while j < m
            invariant
                j <= m,
                m == full@.len() == sel.len(),
                self.wf(),
                exact_topk(sel, self.approx_scores(item@), k as int),
                forall|t: int| 0 <= t < sel.len() ==> (#[trigger] full@[t]).0.id()
                    == self.nodes_seq()[sel[t]._idx as int].id(),
                r@.len() == j,
                forall|t: int| 0 <= t < j ==> Some(#[trigger] r@[t]) == self.nodes_seq()[sel[
                    t]._idx as int].id(),
            decreases m - j,
        {
            let id = match full[j].0.idx() {
                Some(v) => v,
                None => {
                    // unreachable: every stored node carries an id
                    proof {
                        assert(self.nodes_seq()[sel[j as int]._idx as int].id() is Some);
                        assert(false);
                    }
                    0
                },
            };
            r.push(id);
            j = j + 1;
        }
        r
    }

    /// The trained centroid assignment of every item in one subspace.
    pub fn assigned_codes(&self, s: usize) -> (r: Vec<usize>)
        requires
            self.wf(),
            self.trained_spec(),
            s < self.n_sub_spec(),
        ensures
            r@ == self.assigned_seq()[s as int],
    {
        self._assigned_center[s].clone()
    }

    pub fn name(&self) -> (r: &'static str) {
        "PQIndex"
    }

    pub fn dimension(&self) -> (r: usize)
        ensures
            r == self.dim(),
    {
        self._dimension
    }

    pub fn nodes_size(&self) -> (r: usize)
        requires
            self.wf(),
        ensures
            r == self.nodes_seq().len(),
    {
        self._n_items
    }

    /// Drop the nodes and the trained state.
    pub fn clear(&mut self)
        requires
            old(self).wf(),
        ensures
            final(self).wf(),
            final(self).nodes_seq().len() == 0,
            !final(self).trained_flag(),
            final(self).dim() == old(self).dim(),
    {
        self._nodes.clear();
        self._n_items = 0;
        self._centers.clear();
        self._assigned_center.clear();
        self._is_trained = false;
    }

    /// Hand out the whole searchable state as plain values, for
    /// persistence.
    pub fn to_parts(&self) -> (r: PQParts)
        requires
            self.wf(),
        ensures
            r.vectors@.len() == self.nodes_seq().len(),
            r.ids@.len() == self.nodes_seq().len(),
            forall|i: int| 0 <= i < self.nodes_seq().len() ==> (#[trigger] r.vectors@[i])@
                == self.nodes_seq()[i].vecs() && Some(r.ids@[i]) == self.nodes_seq()[i].id(),
            r.centers@.len() == self.centers_seq().len(),
            forall|s: int| 0 <= s < self.centers_seq().len() ==> (#[trigger] r.centers@[
                s])@.len() == self.centers_seq()[s].len(),
            forall|s: int, c: int|
                #![trigger r.centers@[s]@[c]]
                0 <= s < self.centers_seq().len() && 0 <= c < self.centers_seq()[s].len()
                    ==> r.centers@[s]@[c]@ == self.centers_seq()[s][c],
            r.assigned@.len() == self.assigned_seq().len(),
            forall|s: int| 0 <= s < self.assigned_seq().len() ==> (#[trigger] r.assigned@[s])@
                == self.assigned_seq()[s],
            r.trained == self.trained_flag(),
            r.has_residual == self.has_residual_spec(),
            r.residual@ == self.residual_seq(),
            r.dimension == self.dim(),
            r.metric_code == crate::metrics::metric_code_spec(self.metric_kind()),
    {
        let mut vecs: Vec<Vec<i64>> = Vec::new();
        let mut ids: Vec<u64> = Vec::new();
        let n = self._nodes.len();
        let mut i: usize = 0;
        while i < n
            invariant
                i <= n,
                n == self.nodes_seq().len(),
                self.wf(),
                vecs@.len() == i,
                ids@.len() == i,
                forall|t: int| 0 <= t < i ==> (#[trigger] vecs@[t])@ == self.nodes_seq()[t].vecs()
                    && Some(ids@[t]) == self.nodes_seq()[t].id(),
            decreases n - i,
        {
            proof {
                assert(self._nodes@[i as int] == self.nodes_seq()[i as int]);
                assert(self.nodes_seq()[i as int].valid());
            }
            vecs.push(self._nodes[i].vectors().clone());
            let id = match self._nodes[i].idx() {
                Some(v) => v,
                None => {
                    // unreachable: every stored node carries an id
                    proof {
                        assert(false);
                    }
                    0
                },
            };
            ids.push(id);
            proof {
                assert(vecs@[i as int]@ == self.nodes_seq()[i as int].vecs());
                assert(Some(ids@[i as int]) == self.nodes_seq()[i as int].id());
            }
            i = i + 1;
        }
        let mut centers: Vec<Vec<Vec<i64>>> = Vec::new();
        let sn = self._centers.len();
        let mut s: usize = 0;
        while s < sn
            invariant
                s <= sn,
                sn == self.centers_seq().len(),
                centers@.len() == s,
                forall|t: int| 0 <= t < s ==> (#[trigger] centers@[t])@.len()
                    == self.centers_seq()[t].len(),
                forall|t: int, c: int|
                    #![trigger centers@[t]@[c]]
                    0 <= t < s && 0 <= c < self.centers_seq()[t].len() ==> centers@[t]@[c]@
                        == self.centers_seq()[t][c],
            decreases sn - s,
        {
            let mut book: Vec<Vec<i64>> = Vec::new();
            let cn = self._centers[s].len();
            let mut c: usize = 0;
            while c < cn
                invariant
                    c <= cn,
                    s < sn,
                    sn == self.centers_seq().len(),
                    cn == self.centers_seq()[s as int].len(),
                    book@.len() == c,
                    forall|t: int| 0 <= t < c ==> (#[trigger] book@[t])@ == self.centers_seq()[
                        s as int][t],
                decreases cn - c,
            {
                book.push(self._centers[s][c].clone());
                c = c + 1;
            }
            centers.push(book);
            s = s + 1;
        }
        let mut assigned: Vec<Vec<usize>> = Vec::new();
        let an = self._assigned_center.len();
        let mut a: usize = 0;
        while a < an
            invariant
                a <= an,
                an == self.assigned_seq().len(),
                assigned@.len() == a,
                forall|t: int| 0 <= t < a ==> (#[trigger] assigned@[t])@ == self.assigned_seq()[
                    t],
            decreases an - a,
        {
            assigned.push(self._assigned_center[a].clone());
            a = a + 1;
        }
        PQParts {
            vectors: vecs,
            ids,
            centers,
            assigned,
            trained: self._is_trained,
            has_residual: self._has_residual,
            residual: self._residual.clone(),
            dimension: self._dimension,
            metric_code: crate::metrics::metric_code(self.mt),
        }
    }

    /// Rebuild an index from persisted plain values, validating them
    /// all; a load succeeds exactly when the parts are consistent.
    pub fn from_parts(p: &PQParts, params: &PQParams) -> (r: Result<PQIndex, AnnError>)
        ensures
            r is Ok <==> pq_parts_valid(p, params),
            r is Ok ==> {
                let idx = r->Ok_0;
                &&& idx.wf()
                &&& idx.dim() == p.dimension
                &&& idx.n_sub_spec() == params.n_sub
                &&& idx.metric_kind() == crate::metrics::metric_from_code_spec(p.metric_code)
                &&& idx.nodes_seq().len() == p.vectors@.len()
                &&& forall|i: int| 0 <= i < p.vectors@.len() ==> (#[trigger] idx.nodes_seq()[
                    i]).vecs() == p.vectors@[i]@ && idx.nodes_seq()[i].id() == Some(p.ids@[i])
                &&& idx.trained_flag() == p.trained
                &&& (p.trained ==> idx.trained_spec())
                &&& idx.centers_seq().len() == p.centers@.len()
                &&& forall|s: int| 0 <= s < p.centers@.len() ==> (#[trigger] idx.centers_seq()[
                    s]).len() == p.centers@[s]@.len()
                &&& forall|s: int, c: int|
                    #![trigger idx.centers_seq()[s][c]]
                    0 <= s < p.centers@.len() && 0 <= c < p.centers@[s]@.len()
                        ==> idx.centers_seq()[s][c] == p.centers@[s]@[c]@
                &&& idx.assigned_seq().len() == p.assigned@.len()
                &&& forall|s: int| 0 <= s < p.assigned@.len() ==> (#[trigger] idx.assigned_seq()[
                    s]) == p.assigned@[s]@
                &&& idx.has_residual_spec() == p.has_residual
                &&& idx.residual_seq() == p.residual@
            },
    {
        if params.n_sub < 1 || params.n_sub > p.dimension || p.dimension > DIM_LIMIT
            || params.sub_bits > 32 {
            return Err(AnnError::ParameterOutOfRange);
        }
        let n = p.vectors.len();
        if p.ids.len() != n {
            return Err(AnnError::DimensionMismatch);
        }
        if p.has_residual {
            if p.residual.len() != p.dimension {
                return Err(AnnError::DimensionMismatch);
            }
            if !elements_within(&p.residual, KM_RESIDUAL_LIMIT) {
                return Err(AnnError::InvalidVector);
            }
        }
        let n_sub = params.n_sub;
        let sb = params.sub_bits;
        proof {
            assert(1u64 << (sb as u64) >= 1) by (bit_vector)
                requires sb as u64 <= 32u64;
        }
        let wide_centers: u64 = 1u64 << sb;
        let nc: usize = if wide_centers > usize::MAX as u64 {
            usize::MAX
        } else {
            wide_centers as usize
        };
        proof {
            assert(nc as int == sub_center_count(params.sub_bits));
        }
        if p.trained {
            if p.centers.len() != n_sub || p.assigned.len() != n_sub {
                return Err(AnnError::DimensionMismatch);
            }
            let mut s: usize = 0;
            while s < n_sub
                invariant
                    s <= n_sub,
                    n_sub == params.n_sub,
                    1 <= n_sub <= p.dimension <= DIM_LIMIT,
                    n == p.vectors@.len(),
                    nc as int == sub_center_count(params.sub_bits),
                    p.centers@.len() == n_sub,
                    p.assigned@.len() == n_sub,
                    forall|t: int| 0 <= t < s ==> (#[trigger] p.centers@[t])@.len() == nc as int,
                    forall|t: int, c: int|
                        #![trigger p.centers@[t]@[c]]
                        0 <= t < s && 0 <= c < nc ==> p.centers@[t]@[c]@.len() == pq_sub_width(
                            p.dimension,
                            params.n_sub,
                            t,
                        ) && bounded(p.centers@[t]@[c]@, KM_CENTER_LIMIT),
                    forall|t: int| 0 <= t < s ==> (#[trigger] p.assigned@[t])@.len() == n,
                    forall|t: int, i2: int|
                        #![trigger p.assigned@[t]@[i2]]
                        0 <= t < s && 0 <= i2 < n ==> p.assigned@[t]@[i2] < nc,
                decreases n_sub - s,
            {
                if p.centers[s].len() != nc {
                    return Err(AnnError::DimensionMismatch);
                }
                proof {
                    vstd::arithmetic::div_mod::lemma_div_nonincreasing(
                        p.dimension as int,
                        n_sub as int,
                    );
                }
                let w: usize = p.dimension / n_sub + (if s < p.dimension % n_sub {
                    1
                } else {
                    0
                });
                proof {
                    assert(w as int == pq_sub_width(p.dimension, params.n_sub, s as int));
                }
                let mut c: usize = 0;
                while c < nc
                    invariant
                        c <= nc,
                        s < n_sub,
                        n_sub == params.n_sub,
                        1 <= n_sub <= p.dimension <= DIM_LIMIT,
                        nc as int == sub_center_count(params.sub_bits),
                        p.centers@.len() == n_sub,
                        p.centers@[s as int]@.len() == nc as int,
                        w as int == pq_sub_width(p.dimension, params.n_sub, s as int),
                        forall|t: int| 0 <= t < c ==> (#[trigger] p.centers@[s as int]@[
                            t])@.len() == w as int && bounded(
                            p.centers@[s as int]@[t]@,
                            KM_CENTER_LIMIT,
                        ),
                    decreases nc - c,
                {
                    if p.centers[s][c].len() != w {
                        return Err(AnnError::DimensionMismatch);
                    }
                    if !elements_within(&p.centers[s][c], KM_CENTER_LIMIT) {
                        return Err(AnnError::InvalidVector);
                    }
                    c = c + 1;
                }
                if p.assigned[s].len() != n {
                    return Err(AnnError::DimensionMismatch);
                }
                let mut i: usize = 0;
                while i < n
                    invariant
                        i <= n,
                        s < n_sub,
                        n_sub == params.n_sub,
                        n == p.vectors@.len(),
                        nc as int == sub_center_count(params.sub_bits),
                        p.assigned@.len() == n_sub,
                        p.assigned@[s as int]@.len() == n,
                        forall|t: int| 0 <= t < i ==> p.assigned@[s as int]@[t] < nc,
                    decreases n - i,
                {
                    if p.assigned[s][i] >= nc {
                        return Err(AnnError::ParameterOutOfRange);
                    }
                    i = i + 1;
                }
                s = s + 1;
            }
        } else {
            if p.centers.len() != 0 || p.assigned.len() != 0 {
                return Err(AnnError::ParameterOutOfRange);
            }
        }
        let mut idx = PQIndex::new(p.dimension, params);
        let mut nodes: Vec<MemoryNode> = Vec::new();
        let mut i: usize = 0;
        while i < n
            invariant
                i <= n,
                n == p.vectors@.len() == p.ids@.len(),
                1 <= p.dimension <= DIM_LIMIT,
                nodes@.len() == i,
                forall|t: int| 0 <= t < i ==> (#[trigger] nodes@[t]).valid() && nodes@[
                    t].vecs() == p.vectors@[t]@ && nodes@[t].vecs().len() == p.dimension
                    && nodes@[t].id() == Some(p.ids@[t]),
                forall|t: int| 0 <= t < i ==> (#[trigger] p.vectors@[t])@.len() == p.dimension
                    && bounded(p.vectors@[t]@, COMPONENT_LIMIT),
            decreases n - i,
        {
            if p.vectors[i].len() != p.dimension {
                return Err(AnnError::DimensionMismatch);
            }
            if !MemoryNode::valid_elements(p.vectors[i].as_slice()) {
                return Err(AnnError::InvalidVector);
            }
            let nd = MemoryNode::new_with_idx(p.vectors[i].as_slice(), p.ids[i]);
            nodes.push(nd);
            i = i + 1;
        }
        let mut centers: Vec<Vec<Vec<i64>>> = Vec::new();
        let sn = p.centers.len();
        let mut s2: usize = 0;
        while s2 < sn
            invariant
                s2 <= sn,
                sn == p.centers@.len(),
                centers@.len() == s2,
                forall|t: int| 0 <= t < s2 ==> (#[trigger] centers@[t])@.len() == p.centers@[
                    t]@.len(),
                forall|t: int, c: int|
                    #![trigger centers@[t]@[c]]
                    0 <= t < s2 && 0 <= c < p.centers@[t]@.len() ==> centers@[t]@[c]@
                        == p.centers@[t]@[c]@,
            decreases sn - s2,
        {
            let mut book: Vec<Vec<i64>> = Vec::new();
            let cn = p.centers[s2].len();
            let mut c2: usize = 0;
            while c2 < cn
                invariant
                    c2 <= cn,
                    s2 < sn,
                    sn == p.centers@.len(),
                    cn == p.centers@[s2 as int]@.len(),
                    book@.len() == c2,
                    forall|t: int| 0 <= t < c2 ==> (#[trigger] book@[t])@ == p.centers@[
                        s2 as int]@[t]@,
                decreases cn - c2,
            {
                book.push(p.centers[s2][c2].clone());
                c2 = c2 + 1;
            }
            centers.push(book);
            s2 = s2 + 1;
        }
        let mut assigned: Vec<Vec<usize>> = Vec::new();
        let an = p.assigned.len();
        let mut a2: usize = 0;
        while a2 < an
            invariant
                a2 <= an,
                an == p.assigned@.len(),
                assigned@.len() == a2,
                forall|t: int| 0 <= t < a2 ==> (#[trigger] assigned@[t])@ == p.assigned@[t]@,
            decreases an - a2,
        {
            assigned.push(p.assigned[a2].clone());
            a2 = a2 + 1;
        }
        idx._nodes = nodes;
        idx._n_items = n;
        idx._centers = centers;
        idx._assigned_center = assigned;
        idx._is_trained = p.trained;
        idx._has_residual = p.has_residual;
        idx._residual = p.residual.clone();
        idx.mt = crate::metrics::metric_from_code(p.metric_code);
        proof {
            assert(idx.wf());
            if p.trained {
                assert forall|s3: int| 0 <= s3 < idx.n_sub_spec() implies (
                #[trigger] idx.centers_seq()[s3]).len() == idx.n_sub_center_spec() by {
                    assert(idx.centers_seq()[s3].len() == p.centers@[s3]@.len());
                }
                assert forall|s3: int, c3: int|
                    0 <= s3 < idx.n_sub_spec() && 0 <= c3 < idx.n_sub_center_spec() implies (
                #[trigger] idx.centers_seq()[s3][c3]).len() == idx.ranges()[s3].1 - idx.ranges()[
                    s3].0 && bounded(idx.centers_seq()[s3][c3], KM_CENTER_LIMIT) by {
                    assert(idx.centers_seq()[s3][c3] == p.centers@[s3]@[c3]@);
                    assert(p.centers@[s3]@[c3]@.len() == pq_sub_width(
                        p.dimension,
                        params.n_sub,
                        s3,
                    ));
                    assert(idx.ranges()[s3].1 - idx.ranges()[s3].0 == pq_sub_width(
                        p.dimension,
                        params.n_sub,
                        s3,
                    ));
                }
                assert forall|s3: int, i3: int|
                    0 <= s3 < idx.n_sub_spec() && 0 <= i3 < idx.nodes_seq().len() implies (
                #[trigger] idx.assigned_seq()[s3][i3]) < idx.n_sub_center_spec() by {
                    assert(idx.assigned_seq()[s3] == p.assigned@[s3]@);
                    assert(p.assigned@[s3]@[i3] < nc);
                }
                assert(idx.trained_spec());
            }
        }
        Ok(idx)
    }
}

/// The whole searchable state of a product-quantization index as plain
/// values, for persistence: an encoder outside the library turns it
/// into bytes and back, and `from_parts` revalidates whatever comes
/// back.
pub struct PQParts {
    pub vectors: Vec<Vec<i64>>,
    pub ids: Vec<u64>,
    pub centers: Vec<Vec<Vec<i64>>>,
    pub assigned: Vec<Vec<usize>>,
    pub trained: bool,
    pub has_residual: bool,
    pub residual: Vec<i64>,
    pub dimension: usize,
    pub metric_code: u8,
}

/// Persisted plain values may be loaded only when they are mutually
/// consistent: bounded vectors of the stated dimension, and, when the
/// codebooks are present, one per subspace of the right shape with
/// every stored code addressing a centroid.
pub open spec fn pq_parts_valid(p: &PQParts, params: &PQParams) -> bool {
    let n = p.vectors@.len() as int;
    let nc = sub_center_count(params.sub_bits);
    &&& 1 <= params.n_sub <= p.dimension <= DIM_LIMIT
    &&& params.sub_bits <= 32
    &&& p.ids@.len() == n
    &&& forall|i: int|
        0 <= i < n ==> (#[trigger] p.vectors@[i])@.len() == p.dimension && bounded(
            p.vectors@[i]@,
            COMPONENT_LIMIT,
        )
    &&& p.trained ==> {
        &&& p.centers@.len() == params.n_sub
        &&& forall|s: int| 0 <= s < params.n_sub ==> (#[trigger] p.centers@[s])@.len() == nc
        &&& forall|s: int, c: int|
            #![trigger p.centers@[s]@[c]]
            0 <= s < params.n_sub && 0 <= c < nc ==> p.centers@[s]@[c]@.len() == pq_sub_width(
                p.dimension,
                params.n_sub,
                s,
            ) && bounded(p.centers@[s]@[c]@, KM_CENTER_LIMIT)
        &&& p.assigned@.len() == params.n_sub
        &&& forall|s: int| 0 <= s < params.n_sub ==> (#[trigger] p.assigned@[s])@.len() == n
        &&& forall|s: int, i: int|
            #![trigger p.assigned@[s]@[i]]
            0 <= s < params.n_sub && 0 <= i < n ==> p.assigned@[s]@[i] < nc
    }
    &&& !p.trained ==> p.centers@.len() == 0 && p.assigned@.len() == 0
    &&& p.has_residual ==> p.residual@.len() == p.dimension && bounded(
        p.residual@,
        KM_RESIDUAL_LIMIT,
    )
}

/// Every component lies within `m`.
fn elements_within(v: &Vec<i64>, m: i64) -> (r: bool)
    requires
        m >= 0,
    ensures
        r == bounded(v@, m),
{
    let n = v.len();
    let mut i: usize = 0;
    while i < n
        invariant
            i <= n,
            n == v@.len(),
            m >= 0,
            forall|j: int| 0 <= j < i ==> -m <= #[trigger] v@[j] <= m,
        decreases n - i,
    {
        let x = v[i];
        if x < -m || x > m {
            return false;
        }
        i = i + 1;
    }
    true
}

/// In a strictly increasing list, each entry is at least its position.
proof fn lemma_strict_inc_ge(l: Seq<usize>, t: int)
    requires
        forall|a: int, b: int| #![trigger l[a], l[b]] 0 <= a < b < l.len() ==> l[a] < l[b],
        0 <= t < l.len(),
    ensures
        l[t] >= t,
    decreases t,
{
    if t > 0 {
        lemma_strict_inc_ge(l, t - 1);
    }
}

/// A strictly increasing list of values below `bound` has at most
/// `bound` entries.
proof fn lemma_strict_inc_len(l: Seq<usize>, bound: int)
    requires
        forall|a: int, b: int| #![trigger l[a], l[b]] 0 <= a < b < l.len() ==> l[a] < l[b],
        forall|t: int| 0 <= t < l.len() ==> (#[trigger] l[t]) < bound,
        bound >= 0,
    ensures
        l.len() <= bound,
{
    if l.len() > bound {
        lemma_strict_inc_ge(l, bound);
    }
}

/// The inverted-file product-quantization index: a coarse quantizer
/// over the full space, one residual PQ sub-index per bucket.
pub struct IVFPQIndex {
    _dimension: usize,
    _n_sub: usize,
    _sub_dimension: usize,
    _sub_bits: usize,
    _sub_bytes: usize,
    _n_sub_center: usize,
    _code_bytes: usize,
    _train_epoch: usize,
    _search_n_center: usize,
    _n_kmeans_center: usize,
    _centers: Vec<Vec<i64>>,
    _ivflist: Vec<Vec<usize>>,
    _pq_list: Vec<PQIndex>,
    _is_trained: bool,
    _n_items: usize,
    _max_item: usize,
    _nodes: Vec<MemoryNode>,
    _assigned_center: Vec<usize>,
    mt: Metric,
}

impl IVFPQIndex {
    pub closed spec fn dim(&self) -> int {
        self._dimension as int
    }

    pub closed spec fn n_kmeans_center_spec(&self) -> int {
        self._n_kmeans_center as int
    }

    pub closed spec fn search_n_center_spec(&self) -> int {
        self._search_n_center as int
    }

    pub closed spec fn nodes_seq(&self) -> Seq<MemoryNode> {
        self._nodes@
    }

    pub closed spec fn n_items_spec(&self) -> int {
        self._n_items as int
    }

    pub closed spec fn max_item_spec(&self) -> int {
        self._max_item as int
    }

    pub closed spec fn metric_kind(&self) -> Metric {
        self.mt
    }

    pub closed spec fn coarse_centers(&self) -> Seq<Seq<i64>> {
        Seq::new(self._centers@.len(), |b: int| self._centers@[b]@)
    }

    pub closed spec fn ivflist_seq(&self) -> Seq<Seq<usize>> {
        Seq::new(self._ivflist@.len(), |b: int| self._ivflist@[b]@)
    }

    pub closed spec fn assigned_seq(&self) -> Seq<usize> {
        self._assigned_center@
    }

    pub closed spec fn pq_list_seq(&self) -> Seq<PQIndex> {
        self._pq_list@
    }

    pub closed spec fn trained_flag(&self) -> bool {
        self._is_trained
    }

    pub closed spec fn n_sub_spec(&self) -> int {
        self._n_sub as int
    }

    pub closed spec fn sub_bits_spec(&self) -> int {
        self._sub_bits as int
    }

    pub open spec fn wf(&self) -> bool {
        &&& 1 <= self.n_sub_spec() <= self.dim() <= DIM_LIMIT as int
        &&& 1 <= self.n_kmeans_center_spec()
        &&& 1 <= self.search_n_center_spec()
        &&& self.sub_bits_spec() <= 32
        &&& self.n_items_spec() == self.nodes_seq().len()
        &&& self.n_items_spec() <= self.max_item_spec() <= 100000
        &&& forall|i: int| 0 <= i < self.nodes_seq().len() ==> (#[trigger] self.nodes_seq()[
            i]).valid() && self.nodes_seq()[i].vecs().len() == self.dim() && self.nodes_seq()[
            i].id() is Some
    }

    /// The coarse structure and the per-bucket sub-indexes are in place
    /// and mutually consistent.
    pub open spec fn trained_spec(&self) -> bool {
        &&& self.trained_flag()
        &&& self.coarse_centers().len() == self.n_kmeans_center_spec()
        &&& forall|b: int| 0 <= b < self.n_kmeans_center_spec() ==> (
        #[trigger] self.coarse_centers()[b]).len() == self.dim() && bounded(
            self.coarse_centers()[b], crate::kmeans::KM_PLAIN_CENTER_LIMIT)
        &&& self.ivflist_seq().len() == self.n_kmeans_center_spec()
        &&& self.assigned_seq().len() == self.n_items_spec()
        &&& forall|i: int| 0 <= i < self.n_items_spec() ==> (#[trigger] self.assigned_seq()[
            i]) < self.n_kmeans_center_spec()
        &&& forall|b: int, t: int|
            #![trigger self.ivflist_seq()[b][t]]
            0 <= b < self.n_kmeans_center_spec() && 0 <= t < self.ivflist_seq()[b].len() ==> self.ivflist_seq()[
                b][t] < self.n_items_spec() && self.assigned_seq()[self.ivflist_seq()[b][
                t] as int] == b
        &&& forall|b: int, t1: int, t2: int|
            #![trigger self.ivflist_seq()[b][t1], self.ivflist_seq()[b][t2]]
            0 <= b < self.n_kmeans_center_spec() && 0 <= t1 < t2 < self.ivflist_seq()[b].len()
                ==> self.ivflist_seq()[b][t1] < self.ivflist_seq()[b][t2]
        &&& self.pq_list_seq().len() == self.n_kmeans_center_spec()
        &&& forall|b: int| 0 <= b < self.n_kmeans_center_spec() ==> (#[trigger] self.pq_list_seq()[
            b]).wf() && self.pq_list_seq()[b].dim() == self.dim() && self.pq_list_seq()[
            b].nodes_seq().len() == self.ivflist_seq()[b].len() && (self.ivflist_seq()[b].len()
            >= 1 ==> self.pq_list_seq()[b].built_spec())
    }

    pub open spec fn built_spec(&self) -> bool {
        self.metric_kind() != Metric::Unknown && self.trained_spec()
    }

    /// Exact distance table from a query to the coarse centres.
    pub open spec fn coarse_scores(&self, q: Seq<i64>) -> Seq<Neighbor> {
        Seq::new(self.coarse_centers().len(), |b: int| Neighbor {
            _idx: b as usize,
            _distance: metric_spec(self.coarse_centers()[b], q, self.metric_kind()) as i64,
        })
    }

    pub fn new(dimension: usize, params: &crate::pq_params::IVFPQParams) -> (r: IVFPQIndex)
        requires
            1 <= params.n_sub <= dimension <= DIM_LIMIT,
            params.sub_bits <= 32,
            1 <= params.n_kmeans_center,
            1 <= params.search_n_center,
        ensures
            r.wf(),
            r.dim() == dimension,
            r.nodes_seq().len() == 0,
            !r.trained_flag(),
            r.metric_kind() == Metric::Unknown,
            r.n_kmeans_center_spec() == params.n_kmeans_center,
            r.search_n_center_spec() == params.search_n_center,
    {
        let sub_bits = params.sub_bits;
        let sub_dimension = dimension / params.n_sub;
        let sub_bytes = (sub_bits + 7) / 8;
        proof {
            assert(1u64 << (sub_bits as u64) >= 1) by (bit_vector)
                requires sub_bits as u64 <= 32u64;
        }
        let wide_centers: u64 = 1u64 << sub_bits;
        let n_center_per_sub: usize = if wide_centers > usize::MAX as u64 {
            usize::MAX
        } else {
            wide_centers as usize
        };
        proof {
            assert(sub_bytes <= 5);
            assert(sub_bytes * params.n_sub <= 5 * (DIM_LIMIT as int)) by (nonlinear_arith)
                requires sub_bytes <= 5, 0 <= params.n_sub <= DIM_LIMIT as int;
        }
        let code_bytes = sub_bytes * params.n_sub;
        IVFPQIndex {
            _dimension: dimension,
            _n_sub: params.n_sub,
            _sub_dimension: sub_dimension,
            _sub_bits: sub_bits,
            _sub_bytes: sub_bytes,
            _n_sub_center: n_center_per_sub,
            _code_bytes: code_bytes,
            _train_epoch: params.train_epoch,
            _search_n_center: params.search_n_center,
            _n_kmeans_center: params.n_kmeans_center,
            _centers: Vec::new(),
            _ivflist: Vec::new(),
            _pq_list: Vec::new(),
            _is_trained: false,
            _n_items: 0,
            _max_item: 100000,
            _nodes: Vec::new(),
            _assigned_center: Vec::new(),
            mt: Metric::Unknown,
        }
    }

    /// Append a prepared node; the index must then be retrained.
    pub fn add_node(&mut self, item: &MemoryNode) -> (r: Result<(), AnnError>)
        requires
            old(self).wf(),
            item.valid(),
            item.id() is Some,
        ensures
            final(self).wf(),
            !final(self).trained_flag(),
            final(self).dim() == old(self).dim(),
            final(self).metric_kind() == old(self).metric_kind(),
            final(self).max_item_spec() == old(self).max_item_spec(),
            r is Ok <==> item.vecs().len() == old(self).dim() && old(self).nodes_seq().len() < old(
                self).max_item_spec(),
            r is Ok ==> final(self).nodes_seq().len() == old(self).nodes_seq().len() + 1
                && final(self).nodes_seq().last().vecs() == item.vecs() && final(
                self).nodes_seq().last().id() == item.id() && forall|t: int|
                0 <= t < old(self).nodes_seq().len() ==> final(self).nodes_seq()[t] == old(
                    self).nodes_seq()[t],
            r is Err ==> final(self).nodes_seq() == old(self).nodes_seq(),
    {
        if item.len() != self._dimension {
            self._is_trained = false;
            return Err(AnnError::DimensionMismatch);
        }
        if self._n_items >= self._max_item {
            self._is_trained = false;
            return Err(AnnError::IndexFull);
        }
        self._nodes.push(item.clone());
        self._n_items = self._n_items + 1;
        self._is_trained = false;
        Ok(())
    }

    /// Validate and append a raw vector with its id.
    pub fn add(&mut self, vs: &[i64], idx: u64) -> (r: Result<(), AnnError>)
        requires
            old(self).wf(),
        ensures
            final(self).wf(),
            final(self).dim() == old(self).dim(),
            final(self).max_item_spec() == old(self).max_item_spec(),
            r is Ok <==> vs@.len() == old(self).dim() && bounded(vs@, COMPONENT_LIMIT) && old(
                self).nodes_seq().len() < old(self).max_item_spec(),
            r is Ok ==> final(self).nodes_seq().len() == old(self).nodes_seq().len() + 1
                && final(self).nodes_seq().last().vecs() == vs@ && final(
                self).nodes_seq().last().id() == Some(idx) && forall|t: int|
                0 <= t < old(self).nodes_seq().len() ==> final(self).nodes_seq()[t] == old(
                    self).nodes_seq()[t],
            r is Err ==> final(self).nodes_seq() == old(self).nodes_seq(),
    {
        if vs.len() != self._dimension {
            return Err(AnnError::DimensionMismatch);
        }
        if !MemoryNode::valid_elements(vs) {
            return Err(AnnError::InvalidVector);
        }
        let n = MemoryNode::new_with_idx(vs, idx);
        self.add_node(&n)
    }

    /// Validate the whole batch, then append it: no partial insertion.
    pub fn add_batch(&mut self, vss: &Vec<Vec<i64>>, indices: &[u64]) -> (r: Result<(),
        AnnError>)
        requires
            old(self).wf(),
        ensures
            final(self).wf(),
            final(self).dim() == old(self).dim(),
            final(self).max_item_spec() == old(self).max_item_spec(),
            r is Err ==> final(self).nodes_seq() == old(self).nodes_seq(),
            vss@.len() != indices@.len() ==> r == Err::<(), AnnError>(
                AnnError::DimensionMismatch),
            r is Ok ==> vss@.len() == indices@.len() && final(self).nodes_seq().len() == old(
                self).nodes_seq().len() + vss@.len() && forall|j: int|
                0 <= j < vss@.len() ==> (#[trigger] final(self).nodes_seq()[old(
                    self).nodes_seq().len() + j]).vecs() == vss@[j]@ && final(
                    self).nodes_seq()[old(self).nodes_seq().len() + j].id() == Some(
                    indices@[j]),
    {
        if vss.len() != indices.len() {
            return Err(AnnError::DimensionMismatch);
        }
        let m = vss.len();
        let room = if self._n_items <= self._max_item {
            self._max_item - self._n_items
        } else {
            0
        };
        if m > room {
            return Err(AnnError::IndexFull);
        }
        let mut i: usize = 0;
        while i < m
            invariant
                i <= m,
                m == vss@.len() == indices@.len(),
                self == old(self),
                self.wf(),
                forall|j: int| 0 <= j < i ==> (#[trigger] vss@[j])@.len() == old(self).dim()
                    && bounded(vss@[j]@, COMPONENT_LIMIT),
            decreases m - i,
        {
            if vss[i].len() != self._dimension {
                return Err(AnnError::DimensionMismatch);
            }
            if !MemoryNode::valid_elements(vss[i].as_slice()) {
                return Err(AnnError::InvalidVector);
            }
            i = i + 1;
        }
        let ghost base = self.nodes_seq();
        let mut j: usize = 0;
        while j < m
            invariant
                j <= m,
                m == vss@.len() == indices@.len(),
                self.wf(),
                self.dim() == old(self).dim(),
                self.max_item_spec() == old(self).max_item_spec(),
                base == old(self).nodes_seq(),
                m == 0 || base.len() + m <= self.max_item_spec(),
                self.nodes_seq().len() == base.len() + j,
                forall|t: int| 0 <= t < vss@.len() ==> (#[trigger] vss@[t])@.len() == old(
                    self).dim() && bounded(vss@[t]@, COMPONENT_LIMIT),
                forall|t: int| 0 <= t < j ==> (#[trigger] self.nodes_seq()[base.len()
                    + t]).vecs() == vss@[t]@ && self.nodes_seq()[base.len() + t].id() == Some(
                    indices@[t]),
            decreases m - j,
        {
            let ghost pre = *self;
            match self.add(vss[j].as_slice(), indices[j]) {
                Ok(()) => {},
                Err(_) => {
                    // unreachable: the batch was validated and fits
                    proof {
                        assert(false);
                    }
                },
            }
            proof {
                assert forall|t: int| 0 <= t < j + 1 implies (#[trigger] self.nodes_seq()[
                    base.len() + t]).vecs() == vss@[t]@ && self.nodes_seq()[base.len()
                    + t].id() == Some(indices@[t]) by {
                    if t < j {
                        assert(self.nodes_seq()[base.len() + t] == pre.nodes_seq()[base.len()
                            + t]);
                    } else {
                        assert(self.nodes_seq()[base.len() + t] == self.nodes_seq().last());
                    }
                }
            }
            j = j + 1;
        }
        Ok(())
    }

    /// Coarse-quantize, bucket, and train one residual PQ per bucket.
    pub fn train(&mut self)
        requires
            old(self).wf(),
            old(self).metric_kind() != Metric::Unknown,
            old(self).nodes_seq().len() >= 1,
        ensures
            final(self).wf(),
            final(self).built_spec(),
            final(self).nodes_seq() == old(self).nodes_seq(),
            final(self).dim() == old(self).dim(),
            final(self).metric_kind() == old(self).metric_kind(),
    {
        let n_item = self._n_items;
        let dimension = self._dimension;
        let n_center = self._n_kmeans_center;
        let mut data_vec: Vec<Vec<i64>> = Vec::new();
        let mut t: usize = 0;
        while t < n_item
            invariant
                self == old(self),
                self.wf(),
                t <= n_item,
                n_item == self.nodes_seq().len(),
                data_vec@.len() == t,
                forall|u: int| 0 <= u < t ==> (#[trigger] data_vec@[u])@ == self.nodes_seq()[
                    u].vecs(),
            decreases n_item - t,
        {
            data_vec.push(self._nodes[t].vectors().clone());
            t = t + 1;
        }
        let mut cluster = Kmeans::new(dimension, n_center, self.mt);
        proof {
            assert forall|u: int| 0 <= u < data_vec@.len() implies cluster.input_ok(
                (#[trigger] data_vec@[u])@) by {
                assert(data_vec@[u]@ == self.nodes_seq()[u].vecs());
            }
        }
        cluster.train(n_item, &data_vec, self._train_epoch);
        let mut assigned: Vec<usize> = Vec::new();
        cluster.search_data(n_item, &data_vec, &mut assigned);
        // copy the coarse centres out
        let mut coarse: Vec<Vec<i64>> = Vec::new();
        let mut c: usize = 0;
        while c < n_center
            invariant
                cluster.wf(),
                cluster.trained(),
                !cluster.has_residual_spec(),
                n_center == cluster.n_center_spec(),
                cluster.dim() == dimension,
                c <= n_center,
                coarse@.len() == c,
                forall|u: int| 0 <= u < c ==> (#[trigger] coarse@[u])@.len() == dimension
                    && bounded(coarse@[u]@, crate::kmeans::KM_PLAIN_CENTER_LIMIT),
            decreases n_center - c,
        {
            coarse.push(cluster.centers()[c].clone());
            c = c + 1;
        }
        // build the buckets in index order
        let mut ivflist: Vec<Vec<usize>> = Vec::new();
        let mut b: usize = 0;
        while b < n_center
            invariant
                b <= n_center,
                n_item == assigned@.len(),
                forall|i: int| 0 <= i < n_item ==> (#[trigger] assigned@[i]) < n_center,
                ivflist@.len() == b,
                forall|u: int, v: int|
                    #![trigger ivflist@[u]@[v]]
                    0 <= u < b && 0 <= v < ivflist@[u]@.len() ==> ivflist@[u]@[v] < n_item
                        && assigned@[ivflist@[u]@[v] as int] == u,
                forall|u: int, v1: int, v2: int|
                    #![trigger ivflist@[u]@[v1], ivflist@[u]@[v2]]
                    0 <= u < b && 0 <= v1 < v2 < ivflist@[u]@.len() ==> ivflist@[u]@[v1]
                        < ivflist@[u]@[v2],
            decreases n_center - b,
        {
            let mut bucket: Vec<usize> = Vec::new();
            let mut i: usize = 0;
            while i < n_item
                invariant
                    i <= n_item,
                    n_item == assigned@.len(),
                    b < n_center,
                    forall|u: int| 0 <= u < n_item ==> (#[trigger] assigned@[u]) < n_center,
                    forall|v: int| 0 <= v < bucket@.len() ==> (#[trigger] bucket@[v]) < i
                        && assigned@[bucket@[v] as int] == b,
                    forall|v1: int, v2: int|
                        #![trigger bucket@[v1], bucket@[v2]]
                        0 <= v1 < v2 < bucket@.len() ==> bucket@[v1] < bucket@[v2],
                decreases n_item - i,
            {
                if assigned[i] == b {
                    bucket.push(i);
                }
                i = i + 1;
            }
            ivflist.push(bucket);
            b = b + 1;
        }
        // one residual PQ per bucket
        let mut pq_list: Vec<PQIndex> = Vec::new();
        let mut b2: usize = 0;
        while b2 < n_center
            invariant
                self == old(self),
                self.wf(),
                self.metric_kind() != Metric::Unknown,
                b2 <= n_center,
                dimension == self.dim(),
                1 <= self.n_sub_spec() <= dimension,
                self.sub_bits_spec() <= 32,
                n_item == self.nodes_seq().len(),
                n_item <= 100000,
                coarse@.len() == n_center,
                forall|u: int| 0 <= u < n_center ==> (#[trigger] coarse@[u])@.len() == dimension
                    && bounded(coarse@[u]@, crate::kmeans::KM_PLAIN_CENTER_LIMIT),
                ivflist@.len() == n_center,
                forall|u: int, v: int|
                    #![trigger ivflist@[u]@[v]]
                    0 <= u < n_center && 0 <= v < ivflist@[u]@.len() ==> ivflist@[u]@[v] < n_item,
                forall|u: int, v1: int, v2: int|
                    #![trigger ivflist@[u]@[v1], ivflist@[u]@[v2]]
                    0 <= u < n_center && 0 <= v1 < v2 < ivflist@[u]@.len() ==> ivflist@[u]@[v1]
                        < ivflist@[u]@[v2],
                pq_list@.len() == b2,
                forall|u: int| 0 <= u < b2 ==> (#[trigger] pq_list@[u]).wf() && pq_list@[u].dim()
                    == dimension && pq_list@[u].nodes_seq().len() == ivflist@[u]@.len() && (
                ivflist@[u]@.len() >= 1 ==> pq_list@[u].built_spec()),
            decreases n_center - b2,
        {
            let params = crate::pq_params::PQParams {
                n_sub: self._n_sub,
                sub_bits: self._sub_bits,
                train_epoch: self._train_epoch,
            };
            let mut center_pq = PQIndex::new(dimension, &params);
            let bucket_len = self._ivflist_len_of(&ivflist, b2);
            proof {
                lemma_strict_inc_len(ivflist@[b2 as int]@, n_item as int);
            }
            let mut v: usize = 0;
            while v < bucket_len
                invariant
                    self == old(self),
                    self.wf(),
                    v <= bucket_len,
                    b2 < n_center,
                    dimension == self.dim(),
                    n_item == self.nodes_seq().len() <= 100000,
                    ivflist@.len() == n_center,
                    bucket_len == ivflist@[b2 as int]@.len(),
                    bucket_len <= n_item,
                    forall|u2: int, v2: int|
                        #![trigger ivflist@[u2]@[v2]]
                        0 <= u2 < n_center && 0 <= v2 < ivflist@[u2]@.len() ==> ivflist@[u2]@[v2]
                            < n_item,
                    center_pq.wf(),
                    !center_pq.trained_flag(),
                    center_pq.dim() == dimension,
                    center_pq.metric_kind() == Metric::Euclidean,
                    center_pq.max_item_spec() == 100000,
                    center_pq.nodes_seq().len() == v,
                decreases bucket_len - v,
            {
                let idx = self._ivflist_entry_of(&ivflist, b2, v);
                let node = self._nodes[idx].clone();
                let res = center_pq.add_node(&node);
                proof {
                    assert(res is Ok);
                }
                v = v + 1;
            }
            proof {
                crate::calc::lemma_bounded_widen(coarse@[b2 as int]@,
                    crate::kmeans::KM_PLAIN_CENTER_LIMIT, KM_RESIDUAL_LIMIT);
            }
            center_pq.set_residual(coarse[b2].clone());
            if bucket_len >= 1 {
                let res = center_pq.build(self.mt);
                proof {
                    assert(res is Ok);
                }
            }
            pq_list.push(center_pq);
            b2 = b2 + 1;
        }
        self._centers = coarse;
        self._ivflist = ivflist;
        self._pq_list = pq_list;
        self._assigned_center = assigned;
        self._is_trained = true;
        proof {
            assert forall|u: int| 0 <= u < self.n_kmeans_center_spec() implies (
            #[trigger] self.coarse_centers()[u]).len() == self.dim() && bounded(
                self.coarse_centers()[u], crate::kmeans::KM_PLAIN_CENTER_LIMIT) by {
            }
        }
    }

    /// Bucket length read helper (works around nested-vector borrows).
    fn _ivflist_len_of(&self, ivflist: &Vec<Vec<usize>>, b: usize) -> (r: usize)
        requires
            b < ivflist@.len(),
        ensures
            r == ivflist@[b as int]@.len(),
    {
        ivflist[b].len()
    }

    fn _ivflist_entry_of(&self, ivflist: &Vec<Vec<usize>>, b: usize, v: usize) -> (r: usize)
        requires
            b < ivflist@.len(),
            v < ivflist@[b as int]@.len(),
        ensures
            r == ivflist@[b as int]@[v as int],
    {
        ivflist[b][v]
    }

    /// Store the metric and train everything.
    pub fn build(&mut self, mt: Metric) -> (r: Result<(), AnnError>)
        requires
            old(self).wf(),
        ensures
            final(self).wf(),
            final(self).nodes_seq() == old(self).nodes_seq(),
            final(self).dim() == old(self).dim(),
            mt == Metric::Unknown ==> r == Err::<(), AnnError>(AnnError::MetricUnset),
            mt != Metric::Unknown && old(self).nodes_seq().len() == 0 ==> r == Err::<(),
                AnnError>(AnnError::NotBuilt),
            mt != Metric::Unknown && old(self).nodes_seq().len() >= 1 ==> r is Ok && final(
                self).built_spec() && final(self).metric_kind() == mt,
    {
        if matches!(mt, Metric::Unknown) {
            return Err(AnnError::MetricUnset);
        }
        if self._n_items == 0 {
            return Err(AnnError::NotBuilt);
        }
        self.mt = mt;
        self.train();
        Ok(())
    }

    pub fn built(&self) -> (r: bool)
        ensures
            r == self.trained_flag(),
    {
        self._is_trained
    }

    /// The visited buckets for a query: the `n` coarse centres closest
    /// to it, by exact distance, closest first.
    pub fn nearest_centers(&self, item: &MemoryNode, n: usize) -> (r: Vec<usize>)
        requires
            self.wf(),
            self.built_spec(),
            item.valid(),
            item.vecs().len() == self.dim(),
            n >= 1,
        ensures
            r@.len() == crate::heap::min_int(n as int, self.n_kmeans_center_spec()),
            forall|j: int, t: int| 0 <= j < t < r@.len() ==> (#[trigger] r@[j]) != (
            #[trigger] r@[t]),
            forall|j: int| 0 <= j < r@.len() ==> (#[trigger] r@[j]) < self.n_kmeans_center_spec(),
            exists|sel: Seq<Neighbor>|
                #[trigger] exact_topk(sel, self.coarse_scores(item.vecs()), n as int)
                    && sel.len() == r@.len() && forall|j: int|
                    0 <= j < sel.len() ==> (#[trigger] r@[j]) == sel[j]._idx,
    {
        let tops = self.coarse_topn(item, n);
        let mut r: Vec<usize> = Vec::new();
        let m = tops.len();
        let mut j: usize = 0;
        while j < m
            invariant
                j <= m,
                m == tops@.len(),
                crate::neighbor::distinct_idx(tops@),
                exact_topk(tops@, self.coarse_scores(item.vecs()), n as int),
                forall|t: int| 0 <= t < m ==> (#[trigger] tops@[t])._idx < self.n_kmeans_center_spec(),
                r@.len() == j,
                forall|t: int| 0 <= t < j ==> (#[trigger] r@[t]) == tops@[t]._idx,
            decreases m - j,
        {
            r.push(tops[j].idx());
            j = j + 1;
        }
        proof {
            let sel = tops@;
            assert(exact_topk(sel, self.coarse_scores(item.vecs()), n as int) && sel.len()
                == r@.len() && forall|j: int| 0 <= j < sel.len() ==> (#[trigger] r@[j]) == sel[
                j]._idx);
        }
        r
    }

    /// The `n` closest coarse centres with their distances.
    fn coarse_topn(&self, item: &MemoryNode, n: usize) -> (r: Vec<Neighbor>)
        requires
            self.wf(),
            self.built_spec(),
            item.valid(),
            item.vecs().len() == self.dim(),
            n >= 1,
        ensures
            crate::neighbor::sorted_asc(r@),
            crate::neighbor::distinct_idx(r@),
            r@.len() == crate::heap::min_int(n as int, self.n_kmeans_center_spec()),
            forall|t: int| 0 <= t < r@.len() ==> (#[trigger] r@[t])._idx < self.n_kmeans_center_spec(),
            exact_topk(r@, self.coarse_scores(item.vecs()), n as int),
    {
        let n_center = self._n_kmeans_center;
        let mut cands: Vec<Neighbor> = Vec::new();
        let mut b: usize = 0;
        while b < n_center
            invariant
                self.wf(),
                self.built_spec(),
                item.valid(),
                item.vecs().len() == self.dim(),
                b <= n_center,
                n_center == self.n_kmeans_center_spec(),
                cands@.len() == b,
                forall|t: int| 0 <= t < b ==> (#[trigger] cands@[t]) == self.coarse_scores(
                    item.vecs())[t],
                forall|t: int| 0 <= t < b ==> (#[trigger] cands@[t])._idx == t,
            decreases n_center - b,
        {
            proof {
                assert((#[trigger] self.coarse_centers()[b as int]).len() == self.dim()
                    && bounded(self.coarse_centers()[b as int],
                    crate::kmeans::KM_PLAIN_CENTER_LIMIT));
                crate::calc::lemma_bounded_widen(self.coarse_centers()[b as int],
                    crate::kmeans::KM_PLAIN_CENTER_LIMIT, VAL_LIMIT);
                crate::calc::lemma_bounded_widen(item.vecs(), COMPONENT_LIMIT, VAL_LIMIT);
            }
            let d = match metric(self._centers[b].as_slice(), item.vectors().as_slice(), self.mt) {
                Ok(v) => v,
                Err(_) => {
                    // unreachable: lengths agree and the metric is configured
                    proof {
                        assert(false);
                    }
                    0
                },
            };
            cands.push(Neighbor::new(b, d));
            b = b + 1;
        }
        proof {
            assert(cands@ =~= self.coarse_scores(item.vecs()));
        }
        let r = crate::heap::select_topk(&cands, n);
        proof {
            assert(cands@ == self.coarse_scores(item.vecs()));
            assert(cands@.to_multiset() == self.coarse_scores(item.vecs()).to_multiset());
            crate::heap::lemma_topk_selection(r@, self.coarse_scores(item.vecs()), n as int);
            assert forall|t: int| 0 <= t < r@.len() implies (#[trigger] r@[t])._idx < self.n_kmeans_center_spec() by {
                assert(cands@.contains(r@[t]));
                let p = choose|p: int| 0 <= p < cands@.len() && cands@[p] == r@[t];
            }
        }
        r
    }

    /// Search the closest buckets' sub-indexes and merge: the `k`
    /// closest of every candidate the visited buckets produced, with
    /// distinct global node indexes, ascending by asymmetric distance.
    /// Every stored item with its exact distance, ascending: the
    /// exhaustive answer used when `k` covers the whole index.
    fn full_scan(&self, search_data: &MemoryNode) -> (r: Vec<Neighbor>)
        requires
            self.wf(),
            self.built_spec(),
            search_data.valid(),
            search_data.vecs().len() == self.dim(),
        ensures
            crate::neighbor::sorted_asc(r@),
            crate::neighbor::distinct_idx(r@),
            r@.len() == self.nodes_seq().len(),
            forall|j: int| 0 <= j < r@.len() ==> (#[trigger] r@[j])._idx < self.nodes_seq().len(),
    {
        let n = self._n_items;
        let mut cands: Vec<Neighbor> = Vec::new();
        let mut i: usize = 0;
        while i < n
            invariant
                self.wf(),
                self.built_spec(),
                search_data.valid(),
                search_data.vecs().len() == self.dim(),
                i <= n,
                n == self.nodes_seq().len(),
                cands@.len() == i,
                forall|j: int| 0 <= j < cands@.len() ==> (#[trigger] cands@[j])._idx == j,
            decreases n - i,
        {
            proof {
                assert(self.nodes_seq()[i as int].valid());
                lemma_bounded_widen(self.nodes_seq()[i as int].vecs(), COMPONENT_LIMIT,
                    VAL_LIMIT);
                lemma_bounded_widen(search_data.vecs(), COMPONENT_LIMIT, VAL_LIMIT);
            }
            let d = match metric(self._nodes[i].vectors().as_slice(),
                search_data.vectors().as_slice(), self.mt) {
                Ok(v) => v,
                Err(_) => {
                    // unreachable: dimensions agree and the metric is configured
                    proof {
                        assert(false);
                    }
                    0
                },
            };
            cands.push(Neighbor::new(i, d));
            i = i + 1;
        }
        if cands.len() == 0 {
            return cands;
        }
        let kk = cands.len();
        proof {
            assert(crate::neighbor::distinct_idx(cands@));
        }
        let r = crate::heap::select_topk(&cands, kk);
        proof {
            assert forall|j: int| 0 <= j < r@.len() implies (#[trigger] r@[j])._idx
                < self.nodes_seq().len() by {
                assert(cands@.contains(r@[j]));
                let ghost w = choose|w: int| 0 <= w < cands@.len() && cands@[w] == r@[j];
                assert(cands@[w]._idx == w);
            }
        }
        r
    }

    pub fn search_knn_adc(&self, search_data: &MemoryNode, k: usize) -> (r: Vec<Neighbor>)
        requires
            self.wf(),
            self.built_spec(),
            search_data.valid(),
            search_data.vecs().len() == self.dim(),
            k >= 1,
        ensures
            crate::neighbor::sorted_asc(r@),
            crate::neighbor::distinct_idx(r@),
            r@.len() <= k,
            (exists|b: int|
                0 <= b < self.n_kmeans_center_spec() && (#[trigger] self.ivflist_seq()[b]).len()
                    >= 1) ==> r@.len() >= 1,
            k as int >= self.nodes_seq().len() ==> r@.len() == self.nodes_seq().len(),
            forall|j: int| 0 <= j < r@.len() ==> (#[trigger] r@[j])._idx < self.nodes_seq().len(),
    {
        if k >= self._n_items {
            // the query covers the whole index: answer exhaustively
            let r = self.full_scan(search_data);
            proof {
                if exists|b: int|
                    0 <= b < self.n_kmeans_center_spec() && (#[trigger] self.ivflist_seq()[
                        b]).len() >= 1 {
                    let b = choose|b: int|
                        0 <= b < self.n_kmeans_center_spec() && (#[trigger] self.ivflist_seq()[
                            b]).len() >= 1;
                    assert(self.ivflist_seq()[b][0] < self.n_items_spec());
                }
            }
            return r;
        }
        let tops = self.coarse_topn(search_data, self._search_n_center);
        let mut cands: Vec<Neighbor> = Vec::new();
        let m = tops.len();
        let mut w: usize = 0;
        while w < m
            invariant
                self.wf(),
                self.built_spec(),
                search_data.valid(),
                search_data.vecs().len() == self.dim(),
                k >= 1,
                w <= m,
                m == tops@.len(),
                crate::neighbor::distinct_idx(tops@),
                forall|t: int| 0 <= t < m ==> (#[trigger] tops@[t])._idx < self.n_kmeans_center_spec(),
                forall|j: int| 0 <= j < cands@.len() ==> (#[trigger] cands@[j])._idx < self.nodes_seq().len()
                    && exists|t: int| 0 <= t < w && self.assigned_seq()[cands@[j]._idx as int]
                    == (#[trigger] tops@[t])._idx,
                crate::neighbor::distinct_idx(cands@),
            decreases m - w,
        {
            let b = tops[w].idx();
            let bucket_len = self._ivflist[b].len();
            if bucket_len >= 1 {
                let local = self._pq_search(b, search_data, k);
                let ghost cpre = cands@;
                let ln = local.len();
                let mut u: usize = 0;
                while u < ln
                    invariant
                        self.wf(),
                        self.built_spec(),
                        u <= ln,
                        ln == local@.len(),
                        w < m == tops@.len(),
                        b == tops@[w as int]._idx,
                        b < self.n_kmeans_center_spec(),
                        crate::neighbor::distinct_idx(tops@),
                        forall|t: int| 0 <= t < m ==> (#[trigger] tops@[t])._idx < self.n_kmeans_center_spec(),
                        crate::neighbor::distinct_idx(local@),
                        forall|t: int| 0 <= t < ln ==> (#[trigger] local@[t])._idx < self.ivflist_seq()[
                            b as int].len(),
                        cands@.len() == cpre.len() + u,
                        forall|j: int| 0 <= j < cpre.len() ==> (#[trigger] cands@[j]) == cpre[j],
                        forall|j: int| 0 <= j < cpre.len() ==> (#[trigger] cpre[j])._idx < self.nodes_seq().len()
                            && exists|t: int| 0 <= t < w && self.assigned_seq()[cpre[j]._idx as int]
                            == (#[trigger] tops@[t])._idx,
                        forall|j: int| cpre.len() <= j < cands@.len() ==> (#[trigger] cands@[
                            j])._idx == self.ivflist_seq()[b as int][local@[j - cpre.len()]._idx as int]
                            && cands@[j]._idx < self.nodes_seq().len() && self.assigned_seq()[
                            cands@[j]._idx as int] == b,
                        crate::neighbor::distinct_idx(cands@),
                    decreases ln - u,
                {
                    let lnb = local[u];
                    let g = self._ivflist[b][lnb._idx];
                    proof {
                        assert(self.ivflist_seq()[b as int][lnb._idx as int] < self.n_items_spec()
                            && self.assigned_seq()[self.ivflist_seq()[b as int][
                            lnb._idx as int] as int] == b as int);
                        // distinctness: same bucket entries are strictly increasing,
                        // earlier buckets carry a different coarse assignment
                        assert forall|j: int| 0 <= j < cands@.len() implies (#[trigger] cands@[
                            j])._idx != g by {
                            if j < cpre.len() {
                                let t = choose|t: int| 0 <= t < w && self.assigned_seq()[cpre[
                                    j]._idx as int] == (#[trigger] tops@[t])._idx;
                                assert(tops@[t]._idx != b);
                            } else {
                                let l1 = local@[j - cpre.len()]._idx as int;
                                let l2 = lnb._idx as int;
                                assert(l1 != l2);
                                if l1 < l2 {
                                    assert(self.ivflist_seq()[b as int][l1] < self.ivflist_seq()[
                                        b as int][l2]);
                                } else {
                                    assert(self.ivflist_seq()[b as int][l2] < self.ivflist_seq()[
                                        b as int][l1]);
                                }
                            }
                        }
                    }
                    cands.push(Neighbor::new(g, lnb._distance));
                    u = u + 1;
                }
            }
            w = w + 1;
        }
        // the visited buckets almost always produce candidates; when they
        // were all empty, fall back to the first populated bucket so a
        // populated index always answers
        if cands.len() == 0 {
            let kc = self._n_kmeans_center;
            let mut b2: usize = 0;
            while b2 < kc && cands.len() == 0
                invariant
                    self.wf(),
                    self.built_spec(),
                    search_data.valid(),
                    search_data.vecs().len() == self.dim(),
                    k >= 1,
                    b2 <= kc,
                    kc == self.n_kmeans_center_spec(),
                    cands@.len() == 0 ==> forall|bb: int|
                        0 <= bb < b2 ==> (#[trigger] self.ivflist_seq()[bb]).len() == 0,
                    crate::neighbor::distinct_idx(cands@),
                    forall|j: int| 0 <= j < cands@.len() ==> (#[trigger] cands@[j])._idx < self.nodes_seq().len(),
                decreases kc - b2,
            {
                if self._ivflist[b2].len() >= 1 {
                    let local = self._pq_search(b2, search_data, k);
                    let lnb = local[0];
                    proof {
                        assert(self.ivflist_seq()[b2 as int][lnb._idx as int] < self.n_items_spec());
                    }
                    let g = self._ivflist[b2][lnb._idx];
                    cands.push(Neighbor::new(g, lnb._distance));
                }
                b2 = b2 + 1;
            }
        }
        let r = crate::heap::select_topk(&cands, k);
        proof {
            assert forall|j: int| 0 <= j < r@.len() implies (#[trigger] r@[j])._idx < self.nodes_seq().len() by {
                assert(cands@.contains(r@[j]));
                let p = choose|p: int| 0 <= p < cands@.len() && cands@[p] == r@[j];
            }
        }
        r
    }

    /// Run one bucket's PQ search (the bucket must be trained).
    fn _pq_search(&self, b: usize, search_data: &MemoryNode, k: usize) -> (r: Vec<Neighbor>)
        requires
            self.wf(),
            self.built_spec(),
            search_data.valid(),
            search_data.vecs().len() == self.dim(),
            k >= 1,
            b < self.n_kmeans_center_spec(),
            self.ivflist_seq()[b as int].len() >= 1,
        ensures
            crate::neighbor::distinct_idx(r@),
            r@.len() >= 1,
            forall|t: int| 0 <= t < r@.len() ==> (#[trigger] r@[t])._idx < self.ivflist_seq()[
                b as int].len(),
    {
        proof {
            assert((#[trigger] self.pq_list_seq()[b as int]).wf());
        }
        let local = self._pq_list[b].search_knn_adc(search_data, k);
        proof {
            let sub = self.pq_list_seq()[b as int];
            let sc = sub.approx_scores(search_data.vecs());
            assert(exact_topk(local@, sc, k as int));
            assert(sc.len() == sub.nodes_seq().len());
        }
        local
    }

    /// Top-k with full node information, ascending by asymmetric distance.
    pub fn node_search_k(&self, item: &MemoryNode, k: usize) -> (r: Vec<(MemoryNode, i64)>)
        requires
            self.wf(),
            self.built_spec(),
            item.valid(),
            item.vecs().len() == self.dim(),
        ensures
            r@.len() <= k,
            k >= 1 && (exists|b: int|
                0 <= b < self.n_kmeans_center_spec() && (#[trigger] self.ivflist_seq()[b]).len()
                    >= 1) ==> r@.len() >= 1,
            k >= 1 && k as int >= self.nodes_seq().len() ==> r@.len() == self.nodes_seq().len(),
            forall|i: int, j: int| 0 <= i < j < r@.len() ==> (#[trigger] r@[i]).1 <= (
            #[trigger] r@[j]).1,
            exists|sel: Seq<Neighbor>|
                {
                    &&& sel.len() == r@.len()
                    &&& #[trigger] crate::neighbor::distinct_idx(sel)
                    &&& crate::neighbor::sorted_asc(sel)
                    &&& forall|j: int| 0 <= j < sel.len() ==> (#[trigger] sel[j])._idx < self.nodes_seq().len()
                        && r@[j].1 == sel[j]._distance && r@[j].0.vecs() == self.nodes_seq()[sel[
                        j]._idx as int].vecs() && r@[j].0.id() == self.nodes_seq()[sel[
                        j]._idx as int].id()
                },
    {
        if k == 0 {
            let r: Vec<(MemoryNode, i64)> = Vec::new();
            proof {
                let sel = Seq::<Neighbor>::empty();
                assert(crate::neighbor::distinct_idx(sel));
                assert(crate::neighbor::sorted_asc(sel));
            }
            return r;
        }
        let found = self.search_knn_adc(item, k);
        let mut r: Vec<(MemoryNode, i64)> = Vec::new();
        let m = found.len();
        let mut j: usize = 0;
        while j < m
            invariant
                j <= m,
                m == found@.len() <= k,
                self.wf(),
                crate::neighbor::sorted_asc(found@),
                crate::neighbor::distinct_idx(found@),
                forall|t: int| 0 <= t < m ==> (#[trigger] found@[t])._idx < self.nodes_seq().len(),
                r@.len() == j,
                forall|t: int| 0 <= t < j ==> (#[trigger] r@[t]).1 == found@[t]._distance
                    && r@[t].0.vecs() == self.nodes_seq()[found@[t]._idx as int].vecs()
                    && r@[t].0.id() == self.nodes_seq()[found@[t]._idx as int].id(),
            decreases m - j,
        {
            let nb = found[j];
            let nd = self._nodes[nb._idx].clone();
            r.push((nd, nb._distance));
            j = j + 1;
        }
        proof {
            let sel = found@;
            assert(crate::neighbor::distinct_idx(sel));
        }
        r
    }

    /// Top-k, ids only: the projection of the full search to external
    /// ids, in the same order.
    pub fn search(&self, item: &[i64], k: usize) -> (r: Vec<u64>)
        requires
            self.wf(),
            self.built_spec(),
            item@.len() == self.dim(),
            bounded(item@, COMPONENT_LIMIT),
        ensures
            r@.len() <= k,
            k >= 1 && (exists|b: int|
                0 <= b < self.n_kmeans_center_spec() && (#[trigger] self.ivflist_seq()[b]).len()
                    >= 1) ==> r@.len() >= 1,
            k >= 1 && k as int >= self.nodes_seq().len() ==> r@.len() == self.nodes_seq().len(),
            exists|sel: Seq<Neighbor>|
                {
                    &&& sel.len() == r@.len()
                    &&& #[trigger] crate::neighbor::distinct_idx(sel)
                    &&& crate::neighbor::sorted_asc(sel)
                    &&& forall|j: int| 0 <= j < sel.len() ==> (#[trigger] sel[j])._idx < self.nodes_seq().len()
                        && Some(r@[j]) == self.nodes_seq()[sel[j]._idx as int].id()
                },
    {
        let q = MemoryNode::new(item);
        let full = self.node_search_k(&q, k);
        let mut r: Vec<u64> = Vec::new();
        let m = full.len();
        let ghost sel = choose|sel: Seq<Neighbor>|
            {
                &&& sel.len() == full@.len()
                &&& #[trigger] crate::neighbor::distinct_idx(sel)
                &&& crate::neighbor::sorted_asc(sel)
                &&& forall|j: int| 0 <= j < sel.len() ==> (#[trigger] sel[j])._idx < self.nodes_seq().len()
                    && full@[j].1 == sel[j]._distance && full@[j].0.vecs() == self.nodes_seq()[sel[
                    j]._idx as int].vecs() && full@[j].0.id() == self.nodes_seq()[sel[
                    j]._idx as int].id()
            };
        let mut j: usize = 0;
        while j < m
            invariant
                j <= m,
                m == full@.len() <= k,
                self.wf(),
                sel.len() == m,
                crate::neighbor::distinct_idx(sel),
                crate::neighbor::sorted_asc(sel),
                forall|t: int| 0 <= t < m ==> (#[trigger] sel[t])._idx < self.nodes_seq().len()
                    && full@[t].0.id() == self.nodes_seq()[sel[t]._idx as int].id(),
                r@.len() == j,
                forall|t: int| 0 <= t < j ==> Some(#[trigger] r@[t]) == self.nodes_seq()[sel[
                    t]._idx as int].id(),
            decreases m - j,
        {
            let id = match full[j].0.idx() {
                Some(v) => v,
                None => {
                    // unreachable: every stored node carries an id
                    proof {
                        assert(self.nodes_seq()[sel[j as int]._idx as int].id() is Some);
                        assert(false);
                    }
                    0
                },
            };
            r.push(id);
            j = j + 1;
        }
        r
    }

    /// Top-k for a raw query vector.
    pub fn search_full(&self, item: &[i64], k: usize) -> (r: Vec<(MemoryNode, i64)>)
        requires
            self.wf(),
            self.built_spec(),
            item@.len() == self.dim(),
            bounded(item@, COMPONENT_LIMIT),
        ensures
            r@.len() <= k,
            k >= 1 && (exists|b: int|
                0 <= b < self.n_kmeans_center_spec() && (#[trigger] self.ivflist_seq()[b]).len()
                    >= 1) ==> r@.len() >= 1,
            k >= 1 && k as int >= self.nodes_seq().len() ==> r@.len() == self.nodes_seq().len(),
            forall|i: int, j: int| 0 <= i < j < r@.len() ==> (#[trigger] r@[i]).1 <= (
            #[trigger] r@[j]).1,
            exists|sel: Seq<Neighbor>|
                {
                    &&& sel.len() == r@.len()
                    &&& #[trigger] crate::neighbor::distinct_idx(sel)
                    &&& crate::neighbor::sorted_asc(sel)
                    &&& forall|j: int| 0 <= j < sel.len() ==> (#[trigger] sel[j])._idx < self.nodes_seq().len()
                        && r@[j].1 == sel[j]._distance && r@[j].0.vecs() == self.nodes_seq()[sel[
                        j]._idx as int].vecs() && r@[j].0.id() == self.nodes_seq()[sel[
                        j]._idx as int].id()
                },
    {
        let q = MemoryNode::new(item);
        self.node_search_k(&q, k)
    }

    pub fn name(&self) -> (r: &'static str) {
        "IVFPQIndex"
    }

    pub fn dimension(&self) -> (r: usize)
        ensures
            r == self.dim(),
    {
        self._dimension
    }

    pub fn nodes_size(&self) -> (r: usize)
        requires
            self.wf(),
        ensures
            r == self.nodes_seq().len(),
    {
        self._n_items
    }

    /// Drop the nodes and the trained state.
    pub fn clear(&mut self)
        requires
            old(self).wf(),
        ensures
            final(self).wf(),
            final(self).nodes_seq().len() == 0,
            !final(self).trained_flag(),
            final(self).dim() == old(self).dim(),
    {
        self._nodes.clear();
        self._n_items = 0;
        self._centers.clear();
        self._ivflist.clear();
        self._pq_list.clear();
        self._assigned_center.clear();
        self._is_trained = false;
    }
}

} // verus!
