//! Lloyd-style k-means over a dimension range, with the split-empty-cluster
//! rescue rule.  Used by the product-quantization indexes and for seeding
//! the satellite-system graph.

use crate::calc::bounded;
use crate::metrics::{metric, metric_spec, Metric};
use crate::node::MemoryNode;
use crate::random::Random;
use crate::{AnnError, COMPONENT_LIMIT, DIM_LIMIT, VAL_LIMIT};
use vstd::arithmetic::div_mod::{lemma_div_by_multiple, lemma_div_is_ordered};
use vstd::prelude::*;

verus! {

/// Bound on a configured residual's components (coarse centres satisfy it).
pub const KM_RESIDUAL_LIMIT: i64 = 2097152;

/// Bound on centre components when no residual is configured.
pub const KM_PLAIN_CENTER_LIMIT: i64 = 1052672;

/// Bound on centre components when a residual is configured.
pub const KM_CENTER_LIMIT: i64 = 3200000;

/// Bound on an input component after residual subtraction.
pub const KM_DIFF_LIMIT: i64 = 3145728;

pub struct Kmeans {
    _dimension: usize,
    _n_center: usize,
    _centers: Vec<Vec<i64>>,
    _data_range_begin: usize,
    _data_range_end: usize,
    _has_residual: bool,
    _residual: Vec<i64>,
    mt: Metric,
    rng: Random,
}

impl Kmeans {
    pub closed spec fn dim(&self) -> int {
        self._dimension as int
    }

    pub closed spec fn n_center_spec(&self) -> int {
        self._n_center as int
    }

    pub closed spec fn centers_seq(&self) -> Seq<Seq<i64>> {
        Seq::new(self._centers@.len(), |i: int| self._centers@[i]@)
    }

    pub closed spec fn range_begin(&self) -> int {
        self._data_range_begin as int
    }

    pub closed spec fn range_end(&self) -> int {
        self._data_range_end as int
    }

    pub closed spec fn has_residual_spec(&self) -> bool {
        self._has_residual
    }

    pub closed spec fn residual_seq(&self) -> Seq<i64> {
        self._residual@
    }

    pub closed spec fn metric_kind(&self) -> Metric {
        self.mt
    }

    /// Bound on adjusted inputs: raw components, or components minus a
    /// residual component.
    pub open spec fn input_limit(&self) -> i64 {
        if self.has_residual_spec() {
            KM_DIFF_LIMIT
        } else {
            COMPONENT_LIMIT
        }
    }

    /// Bound the centres respect.
    pub open spec fn center_limit(&self) -> i64 {
        if self.has_residual_spec() {
            KM_CENTER_LIMIT
        } else {
            KM_PLAIN_CENTER_LIMIT
        }
    }

    pub open spec fn wf(&self) -> bool {
        &&& 1 <= self.dim()
        &&& self.range_begin() + self.dim() == self.range_end()
        &&& self.range_end() <= DIM_LIMIT as int
        &&& 1 <= self.n_center_spec()
        &&& self.metric_kind() != Metric::Unknown
        &&& forall|c: int| 0 <= c < self.centers_seq().len() ==> (#[trigger] self.centers_seq()[
            c]).len() == self.dim() && bounded(self.centers_seq()[c], self.center_limit())
        &&& self.has_residual_spec() ==> self.residual_seq().len() >= self.range_end() && bounded(
            self.residual_seq(), KM_RESIDUAL_LIMIT)
    }

    /// All centres are in place.
    pub open spec fn trained(&self) -> bool {
        self.centers_seq().len() == self.n_center_spec()
    }

    /// A data vector the engine accepts.
    pub open spec fn input_ok(&self, v: Seq<i64>) -> bool {
        v.len() >= self.range_end() && bounded(v, COMPONENT_LIMIT)
    }

    /// The slice of `v` the engine actually clusters: the configured
    /// range, with the residual subtracted when one is set.
    pub open spec fn adjusted(&self, v: Seq<i64>) -> Seq<i64> {
        Seq::new(self.dim() as nat, |i: int|
            if self.has_residual_spec() {
                (v[self.range_begin() + i] - self.residual_seq()[self.range_begin() + i]) as i64
            } else {
                v[self.range_begin() + i]
            })
    }

    pub fn new(dimension: usize, n_center: usize, mt: Metric) -> (r: Kmeans)
        requires
            1 <= dimension <= DIM_LIMIT,
            1 <= n_center,
            mt != Metric::Unknown,
        ensures
            r.wf(),
            r.dim() == dimension,
            r.n_center_spec() == n_center,
            r.range_begin() == 0,
            r.range_end() == dimension,
            r.metric_kind() == mt,
            !r.has_residual_spec(),
            r.centers_seq().len() == 0,
    {
        let r = Kmeans {
            _dimension: dimension,
            _n_center: n_center,
            _centers: Vec::new(),
            _data_range_begin: 0,
            _data_range_end: dimension,
            _has_residual: false,
            _residual: Vec::new(),
            mt,
            rng: Random::new(0x5EED),
        };
        proof {
            assert(r.centers_seq() =~= Seq::<Seq<i64>>::empty());
        }
        r
    }

    pub fn centers(&self) -> (r: &Vec<Vec<i64>>)
        ensures
            r@.len() == self.centers_seq().len(),
            forall|c: int| 0 <= c < r@.len() ==> (#[trigger] r@[c])@ == self.centers_seq()[c],
    {
        &self._centers
    }

    pub fn set_residual(&mut self, residual: Vec<i64>)
        requires
            old(self).wf(),
            residual@.len() >= old(self).range_end(),
            bounded(residual@, KM_RESIDUAL_LIMIT),
            old(self).centers_seq().len() == 0,
        ensures
            final(self).wf(),
            final(self).has_residual_spec(),
            final(self).residual_seq() == residual@,
            final(self).dim() == old(self).dim(),
            final(self).n_center_spec() == old(self).n_center_spec(),
            final(self).range_begin() == old(self).range_begin(),
            final(self).range_end() == old(self).range_end(),
            final(self).metric_kind() == old(self).metric_kind(),
            final(self).centers_seq().len() == 0,
    {
        self._has_residual = true;
        self._residual = residual;
    }

    pub fn set_range(&mut self, begin: usize, end: usize)
        requires
            old(self).wf(),
            end - begin == old(self).dim(),
            begin <= end <= DIM_LIMIT,
            old(self).centers_seq().len() == 0,
            old(self).has_residual_spec() ==> old(self).residual_seq().len() >= end,
        ensures
            final(self).wf(),
            final(self).range_begin() == begin,
            final(self).range_end() == end,
            final(self).dim() == old(self).dim(),
            final(self).n_center_spec() == old(self).n_center_spec(),
            final(self).has_residual_spec() == old(self).has_residual_spec(),
            final(self).residual_seq() == old(self).residual_seq(),
            final(self).metric_kind() == old(self).metric_kind(),
            final(self).centers_seq().len() == 0,
    {
        self._data_range_begin = begin;
        self._data_range_end = end;
    }

    /// The adjusted range of `x`, as an owned vector.
    fn adjusted_vec(&self, x: &Vec<i64>) -> (r: Vec<i64>)
        requires
            self.wf(),
            self.input_ok(x@),
        ensures
            r@ == self.adjusted(x@),
            r@.len() == self.dim(),
            bounded(r@, self.input_limit()),
    {
        let mut out: Vec<i64> = Vec::new();
        let mut i: usize = self._data_range_begin;
        while i < self._data_range_end
            invariant
                self.wf(),
                self.input_ok(x@),
                self.range_begin() <= i <= self.range_end(),
                out@.len() == i - self.range_begin(),
                forall|t: int| 0 <= t < out@.len() ==> out@[t] == self.adjusted(x@)[t],
            decreases self._data_range_end - i,
        {
            let v = if self._has_residual {
                x[i] - self._residual[i]
            } else {
                x[i]
            };
            out.push(v);
            i = i + 1;
        }
        proof {
            assert(out@ =~= self.adjusted(x@));
        }
        out
    }

    /// Exact distance between the adjusted range of `x` and a centre
    /// vector `y`, under the configured metric.
    pub fn get_distance_from_vec(&self, x: &Vec<i64>, y: &Vec<i64>) -> (r: i64)
        requires
            self.wf(),
            self.input_ok(x@),
            y@.len() == self.dim(),
            bounded(y@, VAL_LIMIT),
        ensures
            r as int == metric_spec(self.adjusted(x@), y@, self.metric_kind()),
    {
        let z = self.adjusted_vec(x);
        proof {
            crate::calc::lemma_bounded_widen(z@, self.input_limit(), VAL_LIMIT);
        }
        let d = match metric(z.as_slice(), y.as_slice(), self.mt) {
            Ok(v) => v,
            Err(_) => {
                // unreachable: lengths agree and the metric is configured
                proof {
                    assert(false);
                }
                0
            },
        };
        d
    }

    /// Truncating division of a bounded accumulator by a positive count,
    /// staying within the per-component bound.
    pub fn mean_div(sum: i128, n: usize, bound: i64) -> (r: i64)
        requires
            n > 0,
            0 <= bound <= 0x4000_0000,
            -((n as int) * (bound as int)) <= sum as int <= (n as int) * (bound as int),
        ensures
            -bound <= r <= bound,
            r as int == crate::metrics::div_toward_zero(sum as int, n as int),
    {
        proof {
            assert((n as int) * (bound as int) <= (usize::MAX as int) * 0x4000_0000)
                by (nonlinear_arith)
                requires 0 <= n as int <= usize::MAX as int, 0 <= bound as int <= 0x4000_0000;
        }
        let neg = sum < 0;
        let mag: u128 = if neg {
            (-sum) as u128
        } else {
            sum as u128
        };
        let q = mag / (n as u128);
        proof {
            let b = bound as int;
            let ni = n as int;
            assert(mag as int <= ni * b);
            lemma_div_is_ordered(mag as int, ni * b, ni);
            lemma_div_by_multiple(b, ni);
            assert((b * ni) / ni == b);
            assert(ni * b == b * ni) by (nonlinear_arith);
            vstd::arithmetic::div_mod::lemma_div_pos_is_pos(mag as int, ni);
        }
        if neg {
            -(q as i64)
        } else {
            q as i64
        }
    }

    /// Sum of adjusted component `j` over the first `i` batch points.
    pub open spec fn component_sum(&self, data: Seq<Vec<i64>>, j: int, i: int) -> int
        decreases i,
    {
        if i <= 0 {
            0
        } else {
            self.component_sum(data, j, i - 1) + self.adjusted(data[i - 1]@)[j] as int
        }
    }

    /// What seeding puts in centre `c`, component `j`: the truncated
    /// batch mean, nudged one unit up or down by bit `j` of `c`.
    pub open spec fn seed_center_at(&self, data: Seq<Vec<i64>>, c: int, j: int, bs: int) -> int {
        let mean = crate::metrics::div_toward_zero(self.component_sum(data, j, bs), bs);
        if ((c as u64) >> ((j as u64) % 64)) & 1 == 1 {
            mean + 1
        } else {
            mean - 1
        }
    }

    /// Seed the centres: the batch mean over the range, nudged by one
    /// unit per coordinate according to the centre index's bits.
    pub fn init_center(&mut self, batch_size: usize, batch_data: &Vec<Vec<i64>>)
        requires
            old(self).wf(),
            1 <= batch_size <= batch_data@.len(),
            forall|i: int| 0 <= i < batch_data@.len() ==> old(self).input_ok(
                (#[trigger] batch_data@[i])@),
        ensures
            final(self).wf(),
            final(self).trained(),
            final(self).same_config(*old(self)),
            forall|c: int, j: int|
                #![trigger final(self).centers_seq()[c][j]]
                0 <= c < final(self).n_center_spec() && 0 <= j < final(self).dim()
                    ==> final(self).centers_seq()[c][j] as int == old(self).seed_center_at(
                    batch_data@, c, j, batch_size as int),
    {
        let dimension = self._dimension;
        let n_center = self._n_center;
        let mut mean_center: Vec<i64> = Vec::new();
        let mut j: usize = 0;
        while j < dimension
            invariant
                self == old(self),
                self.wf(),
                j <= dimension,
                dimension == self.dim(),
                1 <= batch_size <= batch_data@.len(),
                forall|i: int| 0 <= i < batch_data@.len() ==> self.input_ok(
                    (#[trigger] batch_data@[i])@),
                mean_center@.len() == j,
                bounded(mean_center@, self.input_limit()),
                forall|u: int| 0 <= u < j ==> (#[trigger] mean_center@[u]) as int
                    == crate::metrics::div_toward_zero(self.component_sum(batch_data@, u,
                    batch_size as int), batch_size as int),
            decreases dimension - j,
        {
            let mut acc: i128 = 0;
            let mut i: usize = 0;
            while i < batch_size
                invariant
                    self == old(self),
                    self.wf(),
                    j < dimension,
                    dimension == self.dim(),
                    i <= batch_size,
                    batch_size <= batch_data@.len(),
                    forall|t: int| 0 <= t < batch_data@.len() ==> self.input_ok(
                        (#[trigger] batch_data@[t])@),
                    -((i as int) * (self.input_limit() as int)) <= acc as int <= (i as int) * (
                    self.input_limit() as int),
                    acc as int == self.component_sum(batch_data@, j as int, i as int),
                decreases batch_size - i,
            {
                let z = if self._has_residual {
                    batch_data[i][self._data_range_begin + j]
                        - self._residual[self._data_range_begin + j]
                } else {
                    batch_data[i][self._data_range_begin + j]
                };
                proof {
                    assert(z == self.adjusted(batch_data@[i as int]@)[j as int]);
                    let lim = self.input_limit() as int;
                    assert((i as int) * lim + lim == ((i + 1) as int) * lim) by (nonlinear_arith);
                    assert(((i + 1) as int) * lim <= (batch_size as int) * lim)
                        by (nonlinear_arith)
                        requires (i + 1) as int <= batch_size as int, lim >= 0;
                    assert((batch_size as int) * lim < i128::MAX as int) by (nonlinear_arith)
                        requires batch_size <= usize::MAX, lim <= KM_DIFF_LIMIT as int;
                }
                acc = acc + (z as i128);
                i = i + 1;
            }
            let m = Kmeans::mean_div(acc, batch_size, if self._has_residual {
                KM_DIFF_LIMIT
            } else {
                COMPONENT_LIMIT
            });
            mean_center.push(m);
            j = j + 1;
        }
        let mut new_centers: Vec<Vec<i64>> = Vec::new();
        let mut c: usize = 0;
        while c < n_center
            invariant
                self == old(self),
                self.wf(),
                c <= n_center,
                dimension == self.dim(),
                mean_center@.len() == dimension,
                bounded(mean_center@, self.input_limit()),
                1 <= batch_size <= batch_data@.len(),
                forall|u: int| 0 <= u < dimension ==> (#[trigger] mean_center@[u]) as int
                    == crate::metrics::div_toward_zero(self.component_sum(batch_data@, u,
                    batch_size as int), batch_size as int),
                new_centers@.len() == c,
                forall|t: int| 0 <= t < c ==> (#[trigger] new_centers@[t])@.len() == self.dim()
                    && bounded(new_centers@[t]@, self.center_limit()),
                forall|t: int, u: int|
                    #![trigger new_centers@[t]@[u]]
                    0 <= t < c && 0 <= u < dimension ==> new_centers@[t]@[u] as int
                        == self.seed_center_at(batch_data@, t, u, batch_size as int),
            decreases n_center - c,
        {
            let mut cur: Vec<i64> = Vec::new();
            let mut j2: usize = 0;
            while j2 < dimension
                invariant
                    self == old(self),
                    self.wf(),
                    j2 <= dimension,
                    dimension == self.dim(),
                    mean_center@.len() == dimension,
                    bounded(mean_center@, self.input_limit()),
                    1 <= batch_size <= batch_data@.len(),
                    c < n_center,
                    forall|u: int| 0 <= u < dimension ==> (#[trigger] mean_center@[u]) as int
                        == crate::metrics::div_toward_zero(self.component_sum(batch_data@, u,
                        batch_size as int), batch_size as int),
                    cur@.len() == j2,
                    bounded(cur@, self.center_limit()),
                    forall|u: int| 0 <= u < j2 ==> (#[trigger] cur@[u]) as int
                        == self.seed_center_at(batch_data@, c as int, u, batch_size as int),
                decreases dimension - j2,
            {
                let bit = ((c as u64) >> ((j2 as u64) % 64)) & 1;
                let v = if bit == 1 {
                    mean_center[j2] + 1
                } else {
                    mean_center[j2] - 1
                };
                cur.push(v);
                j2 = j2 + 1;
            }
            new_centers.push(cur);
            c = c + 1;
        }
        self._centers = new_centers;
        proof {
            assert forall|t: int| 0 <= t < self.centers_seq().len() implies (
            #[trigger] self.centers_seq()[t]).len() == self.dim() && bounded(
                self.centers_seq()[t], self.center_limit()) by {
            }
            assert forall|c2: int, j3: int|
                #![trigger self.centers_seq()[c2][j3]]
                0 <= c2 < self.n_center_spec() && 0 <= j3 < self.dim() implies
                self.centers_seq()[c2][j3] as int == old(self).seed_center_at(batch_data@, c2,
                j3, batch_size as int) by {
                assert(self.centers_seq()[c2] == new_centers@[c2]@);
                assert(new_centers@[c2]@[j3] as int == old(self).seed_center_at(batch_data@, c2,
                    j3, batch_size as int));
            }
        }
    }

    /// Everything but the centres is unchanged.
    pub open spec fn same_config(&self, other: Kmeans) -> bool {
        &&& self.dim() == other.dim()
        &&& self.n_center_spec() == other.n_center_spec()
        &&& self.range_begin() == other.range_begin()
        &&& self.range_end() == other.range_end()
        &&& self.has_residual_spec() == other.has_residual_spec()
        &&& self.residual_seq() == other.residual_seq()
        &&& self.metric_kind() == other.metric_kind()
    }

    /// Assign every batch point to its nearest centre (first wins ties).
    pub fn search_data(&self, batch_size: usize, batch_data: &Vec<Vec<i64>>, assigned_center:
        &mut Vec<usize>)
        requires
            self.wf(),
            self.trained(),
            batch_size <= batch_data@.len(),
            forall|i: int| 0 <= i < batch_data@.len() ==> self.input_ok(
                (#[trigger] batch_data@[i])@),
            old(assigned_center)@.len() == 0,
        ensures
            final(assigned_center)@.len() == batch_size,
            forall|i: int| 0 <= i < batch_size ==> (#[trigger] final(assigned_center)@[i]) < self.n_center_spec(),
            forall|i: int, c: int|
                0 <= i < batch_size && 0 <= c < self.n_center_spec() ==> metric_spec(
                    self.adjusted(batch_data@[i]@), self.centers_seq()[
                    (#[trigger] final(assigned_center)@[i]) as int], self.metric_kind())
                    <= metric_spec(self.adjusted(batch_data@[i]@), (#[trigger] self.centers_seq()[
                    c]), self.metric_kind()),
    {
        let n_center = self._n_center;
        let mut i: usize = 0;
        while i < batch_size
            invariant
                self.wf(),
                self.trained(),
                n_center == self.n_center_spec(),
                i <= batch_size,
                batch_size <= batch_data@.len(),
                forall|t: int| 0 <= t < batch_data@.len() ==> self.input_ok(
                    (#[trigger] batch_data@[t])@),
                assigned_center@.len() == i,
                forall|t: int| 0 <= t < i ==> (#[trigger] assigned_center@[t]) < self.n_center_spec(),
                forall|t: int, c: int|
                    0 <= t < i && 0 <= c < self.n_center_spec() ==> metric_spec(
                        self.adjusted(batch_data@[t]@), self.centers_seq()[
                        (#[trigger] assigned_center@[t]) as int], self.metric_kind())
                        <= metric_spec(self.adjusted(batch_data@[t]@),
                        (#[trigger] self.centers_seq()[c]), self.metric_kind()),
            decreases batch_size - i,
        {
            let mut best: usize = 0;
            proof {
                crate::calc::lemma_bounded_widen(self.centers_seq()[0], self.center_limit(),
                    VAL_LIMIT);
            }
            let mut best_d = self.get_distance_from_vec(&batch_data[i], &self._centers[0]);
            let mut c: usize = 1;
            while c < n_center
                invariant
                    self.wf(),
                    self.trained(),
                    n_center == self.n_center_spec(),
                    i < batch_size <= batch_data@.len(),
                    forall|t: int| 0 <= t < batch_data@.len() ==> self.input_ok(
                        (#[trigger] batch_data@[t])@),
                    1 <= c <= n_center,
                    best < c,
                    best_d as int == metric_spec(self.adjusted(batch_data@[i as int]@),
                        self.centers_seq()[best as int], self.metric_kind()),
                    forall|t: int| 0 <= t < c ==> best_d as int <= metric_spec(
                        self.adjusted(batch_data@[i as int]@), (#[trigger] self.centers_seq()[t]),
                        self.metric_kind()),
                decreases n_center - c,
            {
                proof {
                    crate::calc::lemma_bounded_widen(self.centers_seq()[c as int],
                        self.center_limit(), VAL_LIMIT);
                }
                let d = self.get_distance_from_vec(&batch_data[i], &self._centers[c]);
                if d < best_d {
                    best = c;
                    best_d = d;
                }
                c = c + 1;
            }
            assigned_center.push(best);
            i = i + 1;
        }
    }

    /// Signed division by 1024, toward zero.
    fn shrink1024(v: i64) -> (r: i64)
        ensures
            r as int == crate::metrics::div_toward_zero(v as int, 1024),
            -crate::metrics::abs_int(v as int) <= r as int <= crate::metrics::abs_int(v as int),
            crate::metrics::abs_int(r as int) <= crate::metrics::abs_int(v as int) / 1024,
    {
        let neg = v < 0;
        let mag: u64 = if neg {
            (-(v as i128)) as u64
        } else {
            v as u64
        };
        let q = mag / 1024;
        proof {
            vstd::arithmetic::div_mod::lemma_div_pos_is_pos(mag as int, 1024);
            if mag as int > 0 {
                vstd::arithmetic::div_mod::lemma_div_is_strictly_smaller(mag as int, 1024);
            } else {
                vstd::arithmetic::div_mod::lemma_div_of0(1024);
            }
        }
        if neg {
            -(q as i64)
        } else {
            q as i64
        }
    }

    /// The centre-budget clamp.
    pub open spec fn clamp_spec(&self, v: int) -> int {
        let lim = self.center_limit() as int;
        if v > lim {
            lim
        } else if v < -lim {
            -lim
        } else {
            v
        }
    }

    /// Clamp into the centre budget.
    fn clamp_center(&self, v: i64) -> (r: i64)
        requires
            self.wf(),
        ensures
            r as int == self.clamp_spec(v as int),
            -self.center_limit() <= r <= self.center_limit(),
    {
        let lim = if self._has_residual {
            KM_CENTER_LIMIT
        } else {
            KM_PLAIN_CENTER_LIMIT
        };
        if v > lim {
            lim
        } else if v < -lim {
            -lim
        } else {
            v
        }
    }

    /// How many of the first `i` batch points are assigned to centre `c`.
    pub open spec fn count_assigned(assigned: Seq<usize>, c: int, i: int) -> int
        decreases i,
    {
        if i <= 0 {
            0
        } else {
            Self::count_assigned(assigned, c, i - 1) + if assigned[i - 1] == c {
                1int
            } else {
                0int
            }
        }
    }

    /// Sum of adjusted component `j` over the first `i` batch points
    /// assigned to centre `c`.
    pub open spec fn assigned_sum(&self, data: Seq<Vec<i64>>, assigned: Seq<usize>, c: int,
        j: int, i: int) -> int
        decreases i,
    {
        if i <= 0 {
            0
        } else {
            self.assigned_sum(data, assigned, c, j, i - 1) + if assigned[i - 1] == c {
                self.adjusted(data[i - 1]@)[j] as int
            } else {
                0int
            }
        }
    }

    /// What `update_center` leaves in centre `c`, component `j`: the
    /// truncated mean of its assigned points, or zero when unassigned.
    pub open spec fn mean_of_assigned(&self, data: Seq<Vec<i64>>, assigned: Seq<usize>, c: int,
        j: int, bs: int) -> int {
        let cnt = Self::count_assigned(assigned, c, bs);
        if cnt == 0 {
            0
        } else {
            crate::metrics::div_toward_zero(self.assigned_sum(data, assigned, c, j, bs), cnt)
        }
    }

    /// Recompute each centre as the mean of its assigned points; empty
    /// centres become zero vectors.  Returns the per-centre counts.
    pub fn update_center(&mut self, batch_size: usize, batch_data: &Vec<Vec<i64>>,
        assigned_center: &[usize]) -> (r: Vec<usize>)
        requires
            old(self).wf(),
            old(self).trained(),
            batch_size <= batch_data@.len(),
            forall|i: int| 0 <= i < batch_data@.len() ==> old(self).input_ok(
                (#[trigger] batch_data@[i])@),
            assigned_center@.len() >= batch_size,
            forall|i: int| 0 <= i < batch_size ==> (#[trigger] assigned_center@[i]) < old(
                self).n_center_spec(),
        ensures
            final(self).wf(),
            final(self).trained(),
            final(self).same_config(*old(self)),
            r@.len() == final(self).n_center_spec(),
            forall|c: int| 0 <= c < final(self).n_center_spec() ==> (#[trigger] r@[c]) as int
                == Self::count_assigned(assigned_center@, c, batch_size as int),
            forall|c: int, j: int|
                #![trigger final(self).centers_seq()[c][j]]
                0 <= c < final(self).n_center_spec() && 0 <= j < final(self).dim()
                    ==> final(self).centers_seq()[c][j] as int == old(self).mean_of_assigned(
                    batch_data@, assigned_center@, c, j, batch_size as int),
    {
        let dimension = self._dimension;
        let n_center = self._n_center;
        let ghost lim = self.input_limit() as int;
        let mut new_centers: Vec<Vec<i64>> = Vec::new();
        let mut counts: Vec<usize> = Vec::new();
        let mut c: usize = 0;
        while c < n_center
            invariant
                self == old(self),
                self.wf(),
                self.trained(),
                lim == self.input_limit() as int,
                dimension == self.dim(),
                n_center == self.n_center_spec(),
                c <= n_center,
                batch_size <= batch_data@.len(),
                forall|t: int| 0 <= t < batch_data@.len() ==> self.input_ok(
                    (#[trigger] batch_data@[t])@),
                assigned_center@.len() >= batch_size,
                forall|t: int| 0 <= t < batch_size ==> (#[trigger] assigned_center@[t]) < self.n_center_spec(),
                new_centers@.len() == c,
                counts@.len() == c,
                forall|t: int| 0 <= t < c ==> (#[trigger] new_centers@[t])@.len() == dimension
                    && bounded(new_centers@[t]@, self.center_limit()),
                forall|t: int| 0 <= t < c ==> (#[trigger] counts@[t]) as int
                    == Self::count_assigned(assigned_center@, t, batch_size as int),
                forall|t: int, u: int|
                    #![trigger new_centers@[t]@[u]]
                    0 <= t < c && 0 <= u < dimension ==> new_centers@[t]@[u] as int
                        == self.mean_of_assigned(batch_data@, assigned_center@, t, u,
                        batch_size as int),
            decreases n_center - c,
        {
            // count this centre's population
            let mut cnt: usize = 0;
            let mut i: usize = 0;
            while i < batch_size
                invariant
                    i <= batch_size,
                    batch_size <= assigned_center@.len(),
                    cnt as int == Self::count_assigned(assigned_center@, c as int, i as int),
                    cnt <= i,
                decreases batch_size - i,
            {
                if assigned_center[i] == c {
                    cnt = cnt + 1;
                }
                i = i + 1;
            }
            // one accumulator per coordinate
            let mut cur: Vec<i64> = Vec::new();
            let mut j: usize = 0;
            while j < dimension
                invariant
                    self == old(self),
                    self.wf(),
                    lim == self.input_limit() as int,
                    dimension == self.dim(),
                    n_center == self.n_center_spec(),
                    c < n_center,
                    j <= dimension,
                    batch_size <= batch_data@.len(),
                    forall|t: int| 0 <= t < batch_data@.len() ==> self.input_ok(
                        (#[trigger] batch_data@[t])@),
                    assigned_center@.len() >= batch_size,
                    cnt as int == Self::count_assigned(assigned_center@, c as int,
                        batch_size as int),
                    cur@.len() == j,
                    bounded(cur@, self.center_limit()),
                    forall|u: int| 0 <= u < j ==> (#[trigger] cur@[u]) as int
                        == self.mean_of_assigned(batch_data@, assigned_center@, c as int, u,
                        batch_size as int),
                decreases dimension - j,
            {
                let mut acc: i128 = 0;
                let mut i2: usize = 0;
                while i2 < batch_size
                    invariant
                        self == old(self),
                        self.wf(),
                        lim == self.input_limit() as int,
                        dimension == self.dim(),
                        c < n_center == self.n_center_spec(),
                        j < dimension,
                        i2 <= batch_size,
                        batch_size <= batch_data@.len(),
                        forall|t: int| 0 <= t < batch_data@.len() ==> self.input_ok(
                            (#[trigger] batch_data@[t])@),
                        assigned_center@.len() >= batch_size,
                        -(Self::count_assigned(assigned_center@, c as int, i2 as int) * lim)
                            <= acc as int <= Self::count_assigned(assigned_center@, c as int,
                            i2 as int) * lim,
                        Self::count_assigned(assigned_center@, c as int, i2 as int) <= i2 as int,
                        acc as int == self.assigned_sum(batch_data@, assigned_center@, c as int,
                            j as int, i2 as int),
                    decreases batch_size - i2,
                {
                    proof {
                        let k0 = Self::count_assigned(assigned_center@, c as int, i2 as int);
                        assert(k0 * lim + lim == (k0 + 1) * lim) by (nonlinear_arith);
                        assert((k0 + 1) * lim <= (usize::MAX as int) * lim) by (nonlinear_arith)
                            requires k0 + 1 <= usize::MAX as int, lim >= 0;
                        assert((usize::MAX as int) * lim < i128::MAX as int) by (nonlinear_arith)
                            requires 0 <= lim <= KM_DIFF_LIMIT as int;
                    }
                    if assigned_center[i2] == c {
                        let z = if self._has_residual {
                            batch_data[i2][self._data_range_begin + j]
                                - self._residual[self._data_range_begin + j]
                        } else {
                            batch_data[i2][self._data_range_begin + j]
                        };
                        proof {
                            assert(z == self.adjusted(batch_data@[i2 as int]@)[j as int]);
                        }
                        acc = acc + (z as i128);
                    }
                    i2 = i2 + 1;
                }
                let v = if cnt == 0 {
                    0
                } else {
                    Kmeans::mean_div(acc, cnt, if self._has_residual {
                        KM_DIFF_LIMIT
                    } else {
                        COMPONENT_LIMIT
                    })
                };
                cur.push(v);
                j = j + 1;
            }
            new_centers.push(cur);
            counts.push(cnt);
            c = c + 1;
        }
        self._centers = new_centers;
        proof {
            assert forall|c2: int, j2: int|
                #![trigger self.centers_seq()[c2][j2]]
                0 <= c2 < self.n_center_spec() && 0 <= j2 < self.dim() implies
                self.centers_seq()[c2][j2] as int == old(self).mean_of_assigned(batch_data@,
                assigned_center@, c2, j2, batch_size as int) by {
                assert(self.centers_seq()[c2] == new_centers@[c2]@);
                assert(new_centers@[c2]@[j2] as int == old(self).mean_of_assigned(batch_data@,
                    assigned_center@, c2, j2, batch_size as int));
            }
        }
        counts
    }

    /// One coordinate of a donor split: the receiving (empty) centre
    /// steps a truncated 1/1024 fraction one way, the donor the other
    /// way; even and odd coordinates step in opposite directions, and
    /// both stay inside the centre budget.
    pub open spec fn split_away_spec(&self, d: int) -> int {
        self.clamp_spec(d - crate::metrics::div_toward_zero(d, 1024))
    }

    pub open spec fn split_toward_spec(&self, d: int) -> int {
        self.clamp_spec(d + crate::metrics::div_toward_zero(d, 1024))
    }

    fn split_components(&self, dv: i64, j: usize) -> (r: (i64, i64))
        requires
            self.wf(),
            -self.center_limit() <= dv <= self.center_limit(),
        ensures
            -self.center_limit() <= r.0 <= self.center_limit(),
            -self.center_limit() <= r.1 <= self.center_limit(),
            j % 2 == 0 ==> r.0 as int == self.split_away_spec(dv as int) && r.1 as int
                == self.split_toward_spec(dv as int),
            j % 2 == 1 ==> r.0 as int == self.split_toward_spec(dv as int) && r.1 as int
                == self.split_away_spec(dv as int),
    {
        let delta = Kmeans::shrink1024(dv);
        if j % 2 == 0 {
            (self.clamp_center(dv - delta), self.clamp_center(dv + delta))
        } else {
            (self.clamp_center(dv + delta), self.clamp_center(dv - delta))
        }
    }

    /// Sum of the first `i` per-centre counts.
    pub open spec fn sum_counts(s: Seq<usize>, i: int) -> int
        decreases i,
    {
        if i <= 0 {
            0
        } else {
            Self::sum_counts(s, i - 1) + s[i - 1]
        }
    }

    /// Updating one slot moves the sum by the difference.
    proof fn lemma_sum_counts_update(s: Seq<usize>, idx: int, v: usize, i: int)
        requires
            0 <= idx < s.len(),
            i <= s.len(),
        ensures
            Self::sum_counts(s.update(idx, v), i) == Self::sum_counts(s, i) + if idx < i {
                v - s[idx]
            } else {
                0int
            },
        decreases i,
    {
        if i > 0 {
            Self::lemma_sum_counts_update(s, idx, v, i - 1);
        }
    }

    /// The centre rows written by one donor split: the rescued centre
    /// `i` takes the away-step of donor `d`'s row on even coordinates
    /// and the toward-step on odd ones; the donor keeps the opposite.
    pub open spec fn split_step_centers(&self, cs: Seq<Seq<i64>>, i: int, d: int) -> Seq<
        Seq<i64>,
    > {
        let recv = Seq::new(cs[d].len(), |j: int| (if j % 2 == 0 {
            self.split_away_spec(cs[d][j] as int)
        } else {
            self.split_toward_spec(cs[d][j] as int)
        }) as i64);
        let keep = Seq::new(cs[d].len(), |j: int| (if j % 2 == 0 {
            self.split_toward_spec(cs[d][j] as int)
        } else {
            self.split_away_spec(cs[d][j] as int)
        }) as i64);
        cs.update(i, recv).update(d, keep)
    }

    /// The counts after one donor split: half the donor's population,
    /// rounded down, moves to the rescued centre.
    pub open spec fn split_step_counts(counts: Seq<usize>, i: int, d: int) -> Seq<usize> {
        let half = (counts[d] as int) / 2;
        counts.update(i, half as usize).update(d, ((counts[d] as int) - half) as usize)
    }

    /// The state of the rescue pass after its first `t` centres, given
    /// the donor picked at each centre's turn: a centre empty while any
    /// population remains is split from its (valid) pick, every other
    /// turn changes nothing.
    pub open spec fn rescue_upto(
        &self,
        cs: Seq<Seq<i64>>,
        counts: Seq<usize>,
        picks: Seq<int>,
        t: int,
    ) -> (Seq<Seq<i64>>, Seq<usize>)
        decreases t,
    {
        if t <= 0 {
            (cs, counts)
        } else {
            let prev = self.rescue_upto(cs, counts, picks, t - 1);
            let d = picks[t - 1];
            if prev.1[t - 1] == 0 && Self::sum_counts(prev.1, prev.1.len() as int) > 0 && 0 <= d
                < prev.1.len() && prev.1[d] > 0 && d != t - 1 {
                (self.split_step_centers(prev.0, t - 1, d), Self::split_step_counts(
                    prev.1,
                    t - 1,
                    d,
                ))
            } else {
                prev
            }
        }
    }

    /// The picks name a populated donor for every centre that is empty
    /// while any population remains at its turn.
    pub open spec fn rescue_picks_ok(
        &self,
        cs: Seq<Seq<i64>>,
        counts: Seq<usize>,
        picks: Seq<int>,
    ) -> bool {
        forall|t: int|
            0 <= t < picks.len() ==> {
                let prev = #[trigger] self.rescue_upto(cs, counts, picks, t);
                (prev.1[t] == 0 && Self::sum_counts(prev.1, prev.1.len() as int) > 0) ==> 0
                    <= picks[t] < prev.1.len() && prev.1[picks[t]] > 0 && picks[t] != t
            }
    }

    /// Appending a pick leaves the already-processed prefix unchanged.
    proof fn lemma_rescue_prefix(
        &self,
        cs: Seq<Seq<i64>>,
        counts: Seq<usize>,
        picks: Seq<int>,
        x: int,
        t: int,
    )
        requires
            0 <= t <= picks.len(),
        ensures
            self.rescue_upto(cs, counts, picks.push(x), t) == self.rescue_upto(
                cs,
                counts,
                picks,
                t,
            ),
        decreases t,
    {
        if t > 0 {
            self.lemma_rescue_prefix(cs, counts, picks, x, t - 1);
            assert(picks.push(x)[t - 1] == picks[t - 1]);
        }
    }

    /// Prefix sums of counts are never negative.
    proof fn lemma_sum_counts_nonneg(s: Seq<usize>, i: int)
        ensures
            Self::sum_counts(s, i) >= 0,
        decreases i,
    {
        if i > 0 {
            Self::lemma_sum_counts_nonneg(s, i - 1);
        }
    }

    /// A pick that honours the new turn's obligation extends a valid
    /// pick sequence.
    proof fn lemma_rescue_extend(
        &self,
        cs: Seq<Seq<i64>>,
        counts: Seq<usize>,
        picks: Seq<int>,
        x: int,
    )
        requires
            self.rescue_picks_ok(cs, counts, picks),
            ({
                let prev = self.rescue_upto(cs, counts, picks, picks.len() as int);
                (prev.1[picks.len() as int] == 0 && Self::sum_counts(
                    prev.1,
                    prev.1.len() as int,
                ) > 0) ==> 0 <= x < prev.1.len() && prev.1[x] > 0 && x != picks.len() as int
            }),
        ensures
            self.rescue_picks_ok(cs, counts, picks.push(x)),
    {
        let picks2 = picks.push(x);
        assert forall|t: int| 0 <= t < picks2.len() implies {
            let prev = #[trigger] self.rescue_upto(cs, counts, picks2, t);
            (prev.1[t] == 0 && Self::sum_counts(prev.1, prev.1.len() as int) > 0) ==> 0
                <= picks2[t] < prev.1.len() && prev.1[picks2[t]] > 0 && picks2[t] != t
        } by {
            self.lemma_rescue_prefix(cs, counts, picks, x, t);
            if t < picks.len() {
                assert(picks2[t] == picks[t]);
                assert({
                    let prev = self.rescue_upto(cs, counts, picks, t);
                    (prev.1[t] == 0 && Self::sum_counts(prev.1, prev.1.len() as int) > 0) ==> 0
                        <= picks[t] < prev.1.len() && prev.1[picks[t]] > 0 && picks[t] != t
                });
            } else {
                assert(t == picks.len());
                assert(picks2[t] == x);
            }
        }
    }

    /// A positive prefix sum names a positive entry.
    proof fn lemma_sum_counts_witness(s: Seq<usize>, i: int)
        requires
            Self::sum_counts(s, i) > 0,
            i <= s.len(),
        ensures
            exists|t: int| 0 <= t < i && s[t] > 0,
        decreases i,
    {
        if i > 0 {
            if s[i - 1] > 0 {
                assert(0 <= i - 1 < i && s[i - 1] > 0);
            } else {
                Self::lemma_sum_counts_witness(s, i - 1);
            }
        }
    }

    /// Rescue empty centres: pick a donor in proportion to population and
    /// split it, nudging even coordinates one way and odd ones the other
    /// by a 1/1024 fraction (clamped into the centre budget).
    pub fn split_center(&mut self, batch_size: usize, n_assigned_per_center: &mut Vec<usize>) -> (r:
        Result<(), AnnError>)
        requires
            old(self).wf(),
            old(self).trained(),
            old(n_assigned_per_center)@.len() == old(self).n_center_spec(),
        ensures
            final(self).wf(),
            final(self).trained(),
            final(self).same_config(*old(self)),
            final(n_assigned_per_center)@.len() == final(self).n_center_spec(),
            batch_size == 0 <==> r is Err,
            Self::sum_counts(final(n_assigned_per_center)@, final(self).n_center_spec())
                == Self::sum_counts(old(n_assigned_per_center)@, old(self).n_center_spec()),
            r is Ok ==> exists|picks: Seq<int>|
                {
                    &&& picks.len() == old(self).n_center_spec()
                    &&& #[trigger] old(self).rescue_picks_ok(old(self).centers_seq(),
                        old(n_assigned_per_center)@, picks)
                    &&& final(self).centers_seq() == old(self).rescue_upto(
                        old(self).centers_seq(),
                        old(n_assigned_per_center)@,
                        picks,
                        old(self).n_center_spec(),
                    ).0
                    &&& final(n_assigned_per_center)@ == old(self).rescue_upto(
                        old(self).centers_seq(),
                        old(n_assigned_per_center)@,
                        picks,
                        old(self).n_center_spec(),
                    ).1
                },
            r is Err ==> final(self).centers_seq() == old(self).centers_seq() && final(
                n_assigned_per_center)@ == old(n_assigned_per_center)@,
    {
        if batch_size == 0 {
            return Err(AnnError::ParameterOutOfRange);
        }
        let n_center = self._n_center;
        let dimension = self._dimension;
        let ghost cs_init = self.centers_seq();
        let ghost counts_init = n_assigned_per_center@;
        let ghost mut picks: Seq<int> = Seq::empty();
        let mut i: usize = 0;
        while i < n_center
            invariant
                self.wf(),
                self.trained(),
                self.same_config(*old(self)),
                dimension == self.dim(),
                n_center == self.n_center_spec(),
                i <= n_center,
                n_assigned_per_center@.len() == n_center,
                Self::sum_counts(n_assigned_per_center@, n_center as int) == Self::sum_counts(
                    old(n_assigned_per_center)@, n_center as int),
                cs_init == old(self).centers_seq(),
                counts_init == old(n_assigned_per_center)@,
                counts_init.len() == n_center,
                picks.len() == i,
                old(self).rescue_picks_ok(cs_init, counts_init, picks),
                self.centers_seq() == old(self).rescue_upto(cs_init, counts_init, picks,
                    i as int).0,
                n_assigned_per_center@ == old(self).rescue_upto(cs_init, counts_init, picks,
                    i as int).1,
            decreases n_center - i,
        {
            if n_assigned_per_center[i] == 0 {
                // weighted pick: walk a random point of the total mass
                let mut total: usize = 0;
                let mut t: usize = 0;
                while t < n_center
                    invariant
                        t <= n_center,
                        n_assigned_per_center@.len() == n_center,
                        (total > 0) <==> Self::sum_counts(n_assigned_per_center@, t as int) > 0,
                    decreases n_center - t,
                {
                    proof {
                        Self::lemma_sum_counts_nonneg(n_assigned_per_center@, t as int);
                    }
                    let w = n_assigned_per_center[t];
                    total = if total > usize::MAX - w {
                        usize::MAX
                    } else {
                        total + w
                    };
                    t = t + 1;
                }
                if total > 0 {
                    let draw = self.rng.index(total);
                    let mut seen: usize = 0;
                    let mut donor: usize = 0;
                    let mut s: usize = 0;
                    while s < n_center
                        invariant
                            s <= n_center,
                            donor < n_center,
                            n_assigned_per_center@.len() == n_center,
                            (exists|u: int| 0 <= u < s && n_assigned_per_center@[u] > 0)
                                ==> n_assigned_per_center@[donor as int] > 0,
                            (forall|u: int| 0 <= u < s ==> n_assigned_per_center@[u] == 0)
                                ==> seen == 0,
                        decreases n_center - s,
                    {
                        let w = n_assigned_per_center[s];
                        if w > 0 && seen <= draw {
                            donor = s;
                        }
                        proof {
                            if w > 0 && !(seen <= draw) {
                                if forall|u: int| 0 <= u < s ==> n_assigned_per_center@[u]
                                    == 0 {
                                    assert(seen == 0);
                                    assert(false);
                                }
                            }
                        }
                        seen = if seen > usize::MAX - w {
                            usize::MAX
                        } else {
                            seen + w
                        };
                        s = s + 1;
                    }
                    let ghost cs_pre = self.centers_seq();
                    let ghost counts_pre = n_assigned_per_center@;
                    proof {
                        Self::lemma_sum_counts_witness(counts_pre, n_center as int);
                        assert(counts_pre[donor as int] > 0);
                        assert(counts_pre[i as int] == 0);
                        assert(donor != i);
                    }
                    let mut empty_row: Vec<i64> = Vec::new();
                    let mut donor_row: Vec<i64> = Vec::new();
                    let mut j: usize = 0;
                    while j < dimension
                        invariant
                            self.wf(),
                            self.trained(),
                            self.same_config(*old(self)),
                            dimension == self.dim(),
                            n_center == self.n_center_spec(),
                            donor < n_center,
                            j <= dimension,
                            cs_pre == self.centers_seq(),
                            empty_row@.len() == j,
                            donor_row@.len() == j,
                            bounded(empty_row@, self.center_limit()),
                            bounded(donor_row@, self.center_limit()),
                            forall|u: int| 0 <= u < j ==> #[trigger] empty_row@[u] as int == (
                            if u % 2 == 0 {
                                old(self).split_away_spec(cs_pre[donor as int][u] as int)
                            } else {
                                old(self).split_toward_spec(cs_pre[donor as int][u] as int)
                            }),
                            forall|u: int| 0 <= u < j ==> #[trigger] donor_row@[u] as int == (
                            if u % 2 == 0 {
                                old(self).split_toward_spec(cs_pre[donor as int][u] as int)
                            } else {
                                old(self).split_away_spec(cs_pre[donor as int][u] as int)
                            }),
                        decreases dimension - j,
                    {
                        proof {
                            assert(self.centers_seq()[donor as int].len() == self.dim());
                        }
                        let dv = self._centers[donor][j];
                        proof {
                            assert(self.centers_seq()[donor as int][j as int] == dv);
                            assert(-self.center_limit() <= dv <= self.center_limit());
                        }
                        let (a, b) = self.split_components(dv, j);
                        proof {
                            assert(self.center_limit() == old(self).center_limit());
                            assert(self.split_away_spec(dv as int) == old(self).split_away_spec(
                                dv as int,
                            ));
                            assert(self.split_toward_spec(dv as int) == old(
                                self,
                            ).split_toward_spec(dv as int));
                        }
                        empty_row.push(a);
                        donor_row.push(b);
                        j = j + 1;
                    }
                    self.set_center_row(i, empty_row);
                    self.set_center_row(donor, donor_row);
                    // transfer half the donor's population to the rescued centre
                    let ghost counts0 = n_assigned_per_center@;
                    let half = n_assigned_per_center[donor] / 2;
                    n_assigned_per_center[i] = half;
                    let dcur = n_assigned_per_center[donor];
                    n_assigned_per_center[donor] = dcur - half;
                    proof {
                        vstd::arithmetic::div_mod::lemma_div_pos_is_pos(counts0[
                            donor as int] as int, 2);
                        vstd::arithmetic::div_mod::lemma_div_is_ordered(counts0[
                            donor as int] as int, counts0[donor as int] as int, 2);
                        Self::lemma_sum_counts_update(counts0, i as int, half as usize,
                            n_center as int);
                        let counts1 = counts0.update(i as int, half as usize);
                        Self::lemma_sum_counts_update(counts1, donor as int, (counts1[
                            donor as int] - half) as usize, n_center as int);
                        assert(n_assigned_per_center@ =~= counts1.update(donor as int, (counts1[
                            donor as int] - half) as usize));
                        assert(counts0[i as int] == 0);
                        // the written state is exactly one donor split of
                        // the model state at this turn
                        let prevs = old(self).rescue_upto(cs_init, counts_init, picks,
                            i as int);
                        assert(prevs.0 == cs_pre);
                        assert(prevs.1 == counts_pre);
                        assert(empty_row@ =~= Seq::new(cs_pre[donor as int].len(), |u: int| (
                        if u % 2 == 0 {
                            old(self).split_away_spec(cs_pre[donor as int][u] as int)
                        } else {
                            old(self).split_toward_spec(cs_pre[donor as int][u] as int)
                        }) as i64));
                        assert(donor_row@ =~= Seq::new(cs_pre[donor as int].len(), |u: int| (
                        if u % 2 == 0 {
                            old(self).split_toward_spec(cs_pre[donor as int][u] as int)
                        } else {
                            old(self).split_away_spec(cs_pre[donor as int][u] as int)
                        }) as i64));
                        assert(self.centers_seq() =~= old(self).split_step_centers(cs_pre,
                            i as int, donor as int));
                        assert(n_assigned_per_center@ =~= Self::split_step_counts(counts_pre,
                            i as int, donor as int));
                        old(self).lemma_rescue_extend(cs_init, counts_init, picks,
                            donor as int);
                        old(self).lemma_rescue_prefix(cs_init, counts_init, picks,
                            donor as int, i as int);
                        picks = picks.push(donor as int);
                        assert(picks[i as int] == donor as int);
                        assert(old(self).rescue_upto(cs_init, counts_init, picks, i as int + 1)
                            == (self.centers_seq(), n_assigned_per_center@));
                    }
                } else {
                    proof {
                        // no population anywhere: the model takes no step
                        Self::lemma_sum_counts_nonneg(n_assigned_per_center@, n_center as int);
                        assert(Self::sum_counts(n_assigned_per_center@, n_center as int) == 0);
                        old(self).lemma_rescue_extend(cs_init, counts_init, picks, -1);
                        old(self).lemma_rescue_prefix(cs_init, counts_init, picks, -1,
                            i as int);
                        picks = picks.push(-1int);
                        assert(old(self).rescue_upto(cs_init, counts_init, picks, i as int + 1)
                            == (self.centers_seq(), n_assigned_per_center@));
                    }
                }
            } else {
                proof {
                    // a populated centre: the model takes no step
                    old(self).lemma_rescue_extend(cs_init, counts_init, picks, -1);
                    old(self).lemma_rescue_prefix(cs_init, counts_init, picks, -1, i as int);
                    picks = picks.push(-1int);
                    assert(old(self).rescue_upto(cs_init, counts_init, picks, i as int + 1)
                        == (self.centers_seq(), n_assigned_per_center@));
                }
            }
            i = i + 1;
        }
        Ok(())
    }

    /// Replace one centre, keeping well-formedness.
    fn set_center_row(&mut self, c: usize, row: Vec<i64>)
        requires
            old(self).wf(),
            old(self).trained(),
            c < old(self).n_center_spec(),
            row@.len() == old(self).dim(),
            bounded(row@, old(self).center_limit()),
        ensures
            final(self).wf(),
            final(self).trained(),
            final(self).same_config(*old(self)),
            final(self).centers_seq() == old(self).centers_seq().update(c as int, row@),
    {
        self._centers[c] = row;
        proof {
            assert forall|t: int| 0 <= t < self.centers_seq().len() implies (
            #[trigger] self.centers_seq()[t]).len() == self.dim() && bounded(
                self.centers_seq()[t], self.center_limit()) by {
                if t != c {
                    assert(self.centers_seq()[t] == old(self).centers_seq()[t]);
                }
            }
            assert(self.centers_seq() =~= old(self).centers_seq().update(c as int, row@));
        }
    }

    /// Full training: seed, then assign/update for `n_epoch` rounds with
    /// the empty-centre rescue between rounds.  The rescue never runs
    /// after the last update, so the final centres are exactly the
    /// truncated per-component means of the batch under some assignment
    /// of every point to a centre.
    pub fn train(&mut self, batch_size: usize, batch_data: &Vec<Vec<i64>>, n_epoch: usize)
        requires
            old(self).wf(),
            1 <= batch_size <= batch_data@.len(),
            forall|i: int| 0 <= i < batch_data@.len() ==> old(self).input_ok(
                (#[trigger] batch_data@[i])@),
        ensures
            final(self).wf(),
            final(self).trained(),
            final(self).same_config(*old(self)),
            n_epoch >= 1 ==> exists|asg: Seq<usize>|
                asg.len() == batch_size && (forall|i: int|
                    0 <= i < asg.len() ==> (#[trigger] asg[i]) < final(self).n_center_spec())
                    && #[trigger] final(self).centers_match_assignment(batch_data@, asg,
                    batch_size as int),
    {
        self.init_center(batch_size, batch_data);
        let mut epoch: usize = 0;
        while epoch < n_epoch
            invariant
                self.wf(),
                self.trained(),
                self.same_config(*old(self)),
                epoch <= n_epoch,
                1 <= batch_size <= batch_data@.len(),
                forall|i: int| 0 <= i < batch_data@.len() ==> self.input_ok(
                    (#[trigger] batch_data@[i])@),
                epoch == n_epoch && n_epoch >= 1 ==> exists|asg: Seq<usize>|
                    asg.len() == batch_size && (forall|i: int|
                        0 <= i < asg.len() ==> (#[trigger] asg[i]) < self.n_center_spec())
                        && #[trigger] self.centers_match_assignment(batch_data@, asg,
                        batch_size as int),
            decreases n_epoch - epoch,
        {
            let mut assigned: Vec<usize> = Vec::new();
            self.search_data(batch_size, batch_data, &mut assigned);
            let ghost pre_update = *self;
            let mut n_assigned = self.update_center(batch_size, batch_data, assigned.as_slice());
            if epoch + 1 < n_epoch {
                let _ = self.split_center(batch_size, &mut n_assigned);
            } else {
                proof {
                    let asg = assigned@;
                    assert forall|c: int, j: int|
                        #![trigger self.centers_seq()[c][j]]
                        0 <= c < self.n_center_spec() && 0 <= j < self.dim() implies
                        self.centers_seq()[c][j] as int == self.mean_of_assigned(batch_data@,
                        asg, c, j, batch_size as int) by {
                        Self::lemma_mean_same_config(self, &pre_update, batch_data@, asg, c, j,
                            batch_size as int);
                    }
                    assert(self.centers_match_assignment(batch_data@, asg, batch_size as int));
                }
            }
            epoch = epoch + 1;
        }
    }

    /// The assigned sums agree between two engines with the same
    /// configuration (they read only the range and residual).
    proof fn lemma_assigned_sum_same_config(a: &Kmeans, b: &Kmeans, data: Seq<Vec<i64>>, asg:
        Seq<usize>, c: int, j: int, i: int)
        requires
            a.same_config(*b),
        ensures
            a.assigned_sum(data, asg, c, j, i) == b.assigned_sum(data, asg, c, j, i),
        decreases i,
    {
        if i > 0 {
            Self::lemma_assigned_sum_same_config(a, b, data, asg, c, j, i - 1);
            if asg[i - 1] == c {
                assert(a.adjusted(data[i - 1]@) =~= b.adjusted(data[i - 1]@));
            }
        }
    }

    proof fn lemma_mean_same_config(a: &Kmeans, b: &Kmeans, data: Seq<Vec<i64>>, asg: Seq<
        usize>, c: int, j: int, bs: int)
        requires
            a.same_config(*b),
        ensures
            a.mean_of_assigned(data, asg, c, j, bs) == b.mean_of_assigned(data, asg, c, j, bs),
    {
        Self::lemma_assigned_sum_same_config(a, b, data, asg, c, j, bs);
    }

    /// Every centre component is the truncated mean of the points `asg`
    /// assigns to it (zero for unassigned centres).
    pub open spec fn centers_match_assignment(&self, data: Seq<Vec<i64>>, asg: Seq<usize>,
        bs: int) -> bool {
        forall|c: int, j: int|
            #![trigger self.centers_seq()[c][j]]
            0 <= c < self.n_center_spec() && 0 <= j < self.dim() ==> self.centers_seq()[c][
                j] as int == self.mean_of_assigned(data, asg, c, j, bs)
    }
}

/// Sum of component `j` over the first `i` nodes assigned to mean `c`.
pub open spec fn node_assigned_sum(
    nodes: Seq<MemoryNode>,
    asg: Seq<usize>,
    c: int,
    j: int,
    i: int,
) -> int
    decreases i,
{
    if i <= 0 {
        0
    } else {
        node_assigned_sum(nodes, asg, c, j, i - 1) + (if asg[i - 1] == c {
            nodes[i - 1].vecs()[j] as int
        } else {
            0int
        })
    }
}

/// Every mean with assigned points is the componentwise truncated
/// average of exactly those points; a mean with none keeps its seed
/// and is unconstrained here.
pub open spec fn means_match_assignment(
    ms: Seq<Seq<i64>>,
    nodes: Seq<MemoryNode>,
    asg: Seq<usize>,
    k: int,
) -> bool {
    &&& asg.len() == nodes.len()
    &&& forall|q: int| 0 <= q < asg.len() ==> (#[trigger] asg[q]) < k
    &&& forall|c: int, j: int|
        #![trigger ms[c][j]]
        0 <= c < k && 0 <= j < ms[c].len() && Kmeans::count_assigned(
            asg,
            c,
            nodes.len() as int,
        ) > 0 ==> ms[c][j] as int == crate::metrics::div_toward_zero(
            node_assigned_sum(nodes, asg, c, j, nodes.len() as int),
            Kmeans::count_assigned(asg, c, nodes.len() as int),
        )
}

/// Each reported index names the stored point of minimal metric to its
/// final running mean, the earliest such point on ties.
pub open spec fn reports_closest_points(r: Seq<usize>, ms: Seq<Seq<i64>>, nodes: Seq<MemoryNode>,
    mt: Metric) -> bool {
    forall|t: int|
        0 <= t < r.len() ==> (#[trigger] r[t]) < nodes.len() && (forall|q: int|
            0 <= q < nodes.len() ==> metric_spec(nodes[r[t] as int].vecs(), ms[t], mt)
                <= metric_spec((#[trigger] nodes[q]).vecs(), ms[t], mt)) && (forall|q: int|
            0 <= q < r[t] as int ==> metric_spec((#[trigger] nodes[q]).vecs(), ms[t], mt)
                > metric_spec(nodes[r[t] as int].vecs(), ms[t], mt))
}

/// The seed-selection k-means used by the satellite-system graph: run
/// Lloyd rounds over whole nodes, then report, for each final mean, the
/// index of the closest original data point.
pub fn general_kmeans(k: usize, epoch: usize, nodes: &Vec<MemoryNode>, mt: Metric) -> (r: Vec<
    usize>)
    requires
        mt != Metric::Unknown,
        1 <= k,
        forall|i: int| 0 <= i < nodes@.len() ==> (#[trigger] nodes@[i]).valid()
            && nodes@[i].vecs().len() == nodes@[0].vecs().len() && nodes@[i].vecs().len() >= 1,
    ensures
        nodes@.len() == 0 ==> r@.len() == 0,
        nodes@.len() > 0 ==> r@.len() == k,
        forall|t: int| 0 <= t < r@.len() ==> (#[trigger] r@[t]) < nodes@.len(),
        nodes@.len() > 0 ==> exists|ms: Seq<Seq<i64>>|
            ms.len() == k && #[trigger] reports_closest_points(r@, ms, nodes@, mt),
        nodes@.len() > 0 && epoch >= 1 ==> exists|ms: Seq<Seq<i64>>, asg: Seq<usize>|
            ms.len() == k && reports_closest_points(r@, ms, nodes@, mt)
                && #[trigger] means_match_assignment(ms, nodes@, asg, k as int),
{
    if nodes.len() == 0 {
        return Vec::new();
    }
    let n = nodes.len();
    let dim = nodes[0].len();
    let mut rng = Random::new(0xC0FFEE);
    // seed the means with random data points
    let mut means: Vec<Vec<i64>> = Vec::new();
    let mut t: usize = 0;
    while t < k
        invariant
            t <= k,
            n == nodes@.len() >= 1,
            dim == nodes@[0].vecs().len(),
            forall|i: int| 0 <= i < nodes@.len() ==> (#[trigger] nodes@[i]).valid()
                && nodes@[i].vecs().len() == dim,
            means@.len() == t,
            forall|m: int| 0 <= m < t ==> (#[trigger] means@[m])@.len() == dim && bounded(
                means@[m]@, COMPONENT_LIMIT),
        decreases k - t,
    {
        let pick = rng.index(n);
        means.push(nodes[pick].vectors().clone());
        t = t + 1;
    }
    let mut e: usize = 0;
    let ghost mut last_asg: Seq<usize> = Seq::empty();
    while e < epoch
        invariant
            e <= epoch,
            1 <= k,
            mt != Metric::Unknown,
            n == nodes@.len() >= 1,
            dim == nodes@[0].vecs().len() >= 1,
            dim <= DIM_LIMIT,
            forall|i: int| 0 <= i < nodes@.len() ==> (#[trigger] nodes@[i]).valid()
                && nodes@[i].vecs().len() == dim,
            means@.len() == k,
            forall|m: int| 0 <= m < k ==> (#[trigger] means@[m])@.len() == dim && bounded(
                means@[m]@, COMPONENT_LIMIT),
            e >= 1 ==> means_match_assignment(
                Seq::new(k as nat, |c: int| means@[c]@),
                nodes@,
                last_asg,
                k as int,
            ),
        decreases epoch - e,
    {
        // assign each node to its nearest mean
        let mut assigned: Vec<usize> = Vec::new();
        let mut i: usize = 0;
        while i < n
            invariant
                i <= n,
                1 <= k,
                mt != Metric::Unknown,
                n == nodes@.len() >= 1,
                dim == nodes@[0].vecs().len(),
                dim <= DIM_LIMIT,
                forall|q: int| 0 <= q < nodes@.len() ==> (#[trigger] nodes@[q]).valid()
                    && nodes@[q].vecs().len() == dim,
                means@.len() == k,
                forall|m: int| 0 <= m < k ==> (#[trigger] means@[m])@.len() == dim && bounded(
                    means@[m]@, COMPONENT_LIMIT),
                assigned@.len() == i,
                forall|q: int| 0 <= q < i ==> (#[trigger] assigned@[q]) < k,
            decreases n - i,
        {
            let mut best: usize = 0;
            let mut best_d = i64::MAX;
            let mut m: usize = 0;
            while m < k
                invariant
                    m <= k,
                    best < k,
                    mt != Metric::Unknown,
                    i < n == nodes@.len(),
                    dim == nodes@[0].vecs().len(),
                    dim <= DIM_LIMIT,
                    forall|q: int| 0 <= q < nodes@.len() ==> (#[trigger] nodes@[q]).valid()
                        && nodes@[q].vecs().len() == dim,
                    means@.len() == k,
                    forall|q: int| 0 <= q < k ==> (#[trigger] means@[q])@.len() == dim && bounded(
                        means@[q]@, COMPONENT_LIMIT),
                decreases k - m,
            {
                proof {
                    crate::calc::lemma_bounded_widen(nodes@[i as int].vecs(), COMPONENT_LIMIT,
                        VAL_LIMIT);
                    crate::calc::lemma_bounded_widen(means@[m as int]@, COMPONENT_LIMIT,
                        VAL_LIMIT);
                }
                let d = match metric(nodes[i].vectors().as_slice(), means[m].as_slice(), mt) {
                    Ok(v) => v,
                    Err(_) => {
                        // unreachable: lengths agree and the metric is configured
                        proof {
                            assert(false);
                        }
                        0
                    },
                };
                if d < best_d {
                    best = m;
                    best_d = d;
                }
                m = m + 1;
            }
            assigned.push(best);
            i = i + 1;
        }
        // move each mean to the centroid of its cluster (kept when empty)
        let mut m2: usize = 0;
        while m2 < k
            invariant
                m2 <= k,
                1 <= k,
                n == nodes@.len() >= 1,
                dim == nodes@[0].vecs().len() >= 1,
                dim <= DIM_LIMIT,
                forall|q: int| 0 <= q < nodes@.len() ==> (#[trigger] nodes@[q]).valid()
                    && nodes@[q].vecs().len() == dim,
                assigned@.len() == n,
                forall|q: int| 0 <= q < n ==> (#[trigger] assigned@[q]) < k,
                means@.len() == k,
                forall|q: int| 0 <= q < k ==> (#[trigger] means@[q])@.len() == dim && bounded(
                    means@[q]@, COMPONENT_LIMIT),
                forall|c: int, jj: int|
                    #![trigger means@[c]@[jj]]
                    0 <= c < m2 && 0 <= jj < means@[c]@.len() && Kmeans::count_assigned(
                        assigned@,
                        c,
                        n as int,
                    ) > 0 ==> means@[c]@[jj] as int == crate::metrics::div_toward_zero(
                        node_assigned_sum(nodes@, assigned@, c, jj, n as int),
                        Kmeans::count_assigned(assigned@, c, n as int),
                    ),
            decreases k - m2,
        {
            let mut cnt: usize = 0;
            let mut i2: usize = 0;
            while i2 < n
                invariant
                    i2 <= n,
                    n == assigned@.len(),
                    cnt as int == Kmeans::count_assigned(assigned@, m2 as int, i2 as int),
                    cnt <= i2,
                decreases n - i2,
            {
                if assigned[i2] == m2 {
                    cnt = cnt + 1;
                }
                i2 = i2 + 1;
            }
            if cnt > 0 {
                let mut row: Vec<i64> = Vec::new();
                let mut j: usize = 0;
                while j < dim
                    invariant
                        j <= dim,
                        n == nodes@.len() == assigned@.len(),
                        dim == nodes@[0].vecs().len(),
                        m2 < k,
                        forall|q: int| 0 <= q < nodes@.len() ==> (#[trigger] nodes@[q]).valid()
                            && nodes@[q].vecs().len() == dim,
                        cnt as int == Kmeans::count_assigned(assigned@, m2 as int, n as int),
                        cnt > 0,
                        row@.len() == j,
                        bounded(row@, COMPONENT_LIMIT),
                        forall|tt: int|
                            0 <= tt < j ==> (#[trigger] row@[tt]) as int
                                == crate::metrics::div_toward_zero(
                                node_assigned_sum(nodes@, assigned@, m2 as int, tt, n as int),
                                cnt as int,
                            ),
                    decreases dim - j,
                {
                    let mut acc: i128 = 0;
                    let mut i3: usize = 0;
                    while i3 < n
                        invariant
                            i3 <= n,
                            n == nodes@.len() == assigned@.len(),
                            dim == nodes@[0].vecs().len(),
                            j < dim,
                            m2 < k,
                            forall|q: int| 0 <= q < nodes@.len() ==> (#[trigger] nodes@[
                                q]).valid() && nodes@[q].vecs().len() == dim,
                            -(Kmeans::count_assigned(assigned@, m2 as int, i3 as int) * (
                            COMPONENT_LIMIT as int)) <= acc as int <= Kmeans::count_assigned(
                                assigned@, m2 as int, i3 as int) * (COMPONENT_LIMIT as int),
                            Kmeans::count_assigned(assigned@, m2 as int, i3 as int) <= i3 as int,
                            acc as int == node_assigned_sum(nodes@, assigned@, m2 as int,
                                j as int, i3 as int),
                        decreases n - i3,
                    {
                        proof {
                            let k0 = Kmeans::count_assigned(assigned@, m2 as int, i3 as int);
                            let lim = COMPONENT_LIMIT as int;
                            assert(k0 * lim + lim == (k0 + 1) * lim) by (nonlinear_arith);
                            assert((k0 + 1) * lim <= (usize::MAX as int) * lim)
                                by (nonlinear_arith)
                                requires k0 + 1 <= usize::MAX as int, lim >= 0;
                            assert((usize::MAX as int) * lim < i128::MAX as int)
                                by (nonlinear_arith)
                                requires 0 <= lim <= KM_DIFF_LIMIT as int;
                        }
                        if assigned[i3] == m2 {
                            let z = nodes[i3].vectors()[j];
                            acc = acc + (z as i128);
                        }
                        i3 = i3 + 1;
                    }
                    let v = Kmeans::mean_div(acc, cnt, COMPONENT_LIMIT);
                    row.push(v);
                    j = j + 1;
                }
                let ghost means_pre = means@;
                means[m2] = row;
                proof {
                    assert forall|c: int, jj: int|
                        #![trigger means@[c]@[jj]]
                        0 <= c < m2 + 1 && 0 <= jj < means@[c]@.len() && Kmeans::count_assigned(
                            assigned@,
                            c,
                            n as int,
                        ) > 0 implies means@[c]@[jj] as int
                        == crate::metrics::div_toward_zero(
                        node_assigned_sum(nodes@, assigned@, c, jj, n as int),
                        Kmeans::count_assigned(assigned@, c, n as int),
                    ) by {
                        if c < m2 {
                            assert(means@[c] == means_pre[c]);
                        } else {
                            assert(means@[c]@ == row@);
                        }
                    }
                }
            }
            m2 = m2 + 1;
        }
        proof {
            last_asg = assigned@;
            let ms = Seq::new(k as nat, |c: int| means@[c]@);
            assert forall|c: int, jj: int|
                #![trigger ms[c][jj]]
                0 <= c < k as int && 0 <= jj < ms[c].len() && Kmeans::count_assigned(
                    last_asg,
                    c,
                    nodes@.len() as int,
                ) > 0 implies ms[c][jj] as int == crate::metrics::div_toward_zero(
                node_assigned_sum(nodes@, last_asg, c, jj, nodes@.len() as int),
                Kmeans::count_assigned(last_asg, c, nodes@.len() as int),
            ) by {
                assert(ms[c] == means@[c]@);
                assert(means@[c]@[jj] as int == crate::metrics::div_toward_zero(
                    node_assigned_sum(nodes@, assigned@, c, jj, n as int),
                    Kmeans::count_assigned(assigned@, c, n as int),
                ));
            }
            assert(means_match_assignment(ms, nodes@, last_asg, k as int));
        }
        e = e + 1;
    }
    // each mean reports its closest original data point
    let mut out: Vec<usize> = Vec::new();
    let mut m3: usize = 0;
    while m3 < k
        invariant
            m3 <= k,
            mt != Metric::Unknown,
            n == nodes@.len() >= 1,
            dim == nodes@[0].vecs().len(),
            dim <= DIM_LIMIT,
            forall|q: int| 0 <= q < nodes@.len() ==> (#[trigger] nodes@[q]).valid()
                && nodes@[q].vecs().len() == dim,
            means@.len() == k,
            forall|q: int| 0 <= q < k ==> (#[trigger] means@[q])@.len() == dim && bounded(
                means@[q]@, COMPONENT_LIMIT),
            out@.len() == m3,
            forall|q: int| 0 <= q < m3 ==> (#[trigger] out@[q]) < nodes@.len(),
            forall|t: int|
                #![trigger out@[t]]
                0 <= t < m3 ==> (forall|q: int|
                    0 <= q < nodes@.len() ==> metric_spec(nodes@[out@[t] as int].vecs(),
                        means@[t]@, mt) <= metric_spec((#[trigger] nodes@[q]).vecs(), means@[
                        t]@, mt)) && (forall|q: int|
                    0 <= q < out@[t] as int ==> metric_spec((#[trigger] nodes@[q]).vecs(),
                        means@[t]@, mt) > metric_spec(nodes@[out@[t] as int].vecs(), means@[
                        t]@, mt)),
        decreases k - m3,
    {
        let mut best: usize = 0;
        let mut best_d = i64::MAX;
        let mut i4: usize = 0;
        while i4 < n
            invariant
                i4 <= n,
                best < n,
                mt != Metric::Unknown,
                n == nodes@.len() >= 1,
                dim == nodes@[0].vecs().len(),
                dim <= DIM_LIMIT,
                m3 < k,
                forall|q: int| 0 <= q < nodes@.len() ==> (#[trigger] nodes@[q]).valid()
                    && nodes@[q].vecs().len() == dim,
                means@.len() == k,
                forall|q: int| 0 <= q < k ==> (#[trigger] means@[q])@.len() == dim && bounded(
                    means@[q]@, COMPONENT_LIMIT),
                i4 == 0 ==> best == 0 && best_d == i64::MAX,
                i4 >= 1 ==> best_d as int == metric_spec(nodes@[best as int].vecs(), means@[
                    m3 as int]@, mt),
                i4 >= 1 ==> forall|q: int| 0 <= q < i4 ==> best_d as int <= metric_spec(
                    (#[trigger] nodes@[q]).vecs(), means@[m3 as int]@, mt),
                i4 >= 1 ==> forall|q: int| 0 <= q < best ==> metric_spec(
                    (#[trigger] nodes@[q]).vecs(), means@[m3 as int]@, mt) > best_d as int,
            decreases n - i4,
        {
            proof {
                crate::calc::lemma_bounded_widen(nodes@[i4 as int].vecs(), COMPONENT_LIMIT,
                    VAL_LIMIT);
                crate::calc::lemma_bounded_widen(means@[m3 as int]@, COMPONENT_LIMIT, VAL_LIMIT);
                crate::metrics::lemma_metric_bound(nodes@[i4 as int].vecs(), means@[m3 as int]@,
                    mt, VAL_LIMIT);
                let v = VAL_LIMIT as int;
                assert(nodes@[i4 as int].vecs().len() * (4 * v * v) <= (DIM_LIMIT as int) * (4
                    * v * v)) by (nonlinear_arith)
                    requires nodes@[i4 as int].vecs().len() <= DIM_LIMIT as int, v >= 0;
                assert((DIM_LIMIT as int) * (4 * v * v) == 0x4000_0000_0000_0000)
                    by (nonlinear_arith)
                    requires v == 0x40_0000, DIM_LIMIT == 0x1_0000usize;
            }
            let d = match metric(nodes[i4].vectors().as_slice(), means[m3].as_slice(), mt) {
                Ok(v) => v,
                Err(_) => {
                    // unreachable: lengths agree and the metric is configured
                    proof {
                        assert(false);
                    }
                    0
                },
            };
            if d < best_d {
                best = i4;
                best_d = d;
            }
            i4 = i4 + 1;
        }
        out.push(best);
        m3 = m3 + 1;
    }
    proof {
        let ms = Seq::new(k as nat, |t: int| means@[t]@);
        assert(reports_closest_points(out@, ms, nodes@, mt));
        if epoch >= 1 {
            assert(means_match_assignment(ms, nodes@, last_asg, k as int));
        }
    }
    out
}

} // verus!
