//! The six distance metrics over fixed-point vectors.
//!
//! All metrics are exact integer computations.  The two cosine-valued
//! metrics return values scaled by `COS_SCALE`.

use crate::calc::{bounded, dot, dot_spec, isqrt, lemma_dot_bound, lemma_self_dot_nonneg,
    lemma_sqrt_floor, lemma_sqrt_floor_square, sqrt_floor};
use crate::{AnnError, COS_SCALE, DIM_LIMIT, VAL_LIMIT};
use vstd::arithmetic::div_mod::{lemma_div_by_multiple, lemma_div_is_ordered};
use vstd::prelude::*;

verus! {

#[derive(Clone, Copy, Debug, PartialEq, Eq, Structural)]
pub enum Metric {
    Unknown,
    Manhattan,
    DotProduct,
    Euclidean,
    CosineSimilarity,
    Angular,
}

impl Default for Metric {
    fn default() -> (r: Self)
        ensures
            r == Metric::Unknown,
    {
        Metric::Unknown
    }
}

pub open spec fn abs_int(x: int) -> int {
    if x < 0 {
        -x
    } else {
        x
    }
}

/// Truncating (round-toward-zero) division, as the machine performs it.
pub open spec fn div_toward_zero(n: int, d: int) -> int {
    if n >= 0 {
        n / d
    } else {
        -((-n) / d)
    }
}

/// The truncated quotient of a value between `lo*d` and `hi*d` lies
/// between `lo` and `hi`.
pub proof fn lemma_div_toward_zero_between(lo: int, hi: int, acc: int, d: int)
    requires
        d >= 1,
        lo <= hi,
        lo * d <= acc,
        acc <= hi * d,
    ensures
        lo <= div_toward_zero(acc, d) <= hi,
{
    if acc >= 0 {
        assert(hi >= 0) by (nonlinear_arith)
            requires hi * d >= 0, d >= 1;
        vstd::arithmetic::div_mod::lemma_div_is_ordered(acc, hi * d, d);
        vstd::arithmetic::div_mod::lemma_div_by_multiple(hi, d);
        if lo >= 0 {
            vstd::arithmetic::div_mod::lemma_div_is_ordered(lo * d, acc, d);
            vstd::arithmetic::div_mod::lemma_div_by_multiple(lo, d);
        } else {
            vstd::arithmetic::div_mod::lemma_div_pos_is_pos(acc, d);
        }
    } else {
        assert(lo < 0) by (nonlinear_arith)
            requires lo * d < 0, d >= 1;
        assert(-acc <= (-lo) * d) by (nonlinear_arith)
            requires lo * d <= acc;
        vstd::arithmetic::div_mod::lemma_div_is_ordered(-acc, (-lo) * d, d);
        vstd::arithmetic::div_mod::lemma_div_by_multiple(-lo, d);
        assert((-acc) / d <= -lo);
        if hi >= 0 {
            vstd::arithmetic::div_mod::lemma_div_pos_is_pos(-acc, d);
        } else {
            assert((-hi) * d <= -acc) by (nonlinear_arith)
                requires acc <= hi * d;
            vstd::arithmetic::div_mod::lemma_div_is_ordered((-hi) * d, -acc, d);
            vstd::arithmetic::div_mod::lemma_div_by_multiple(-hi, d);
            assert((-acc) / d >= -hi);
        }
    }
}

/// Sum of the absolute component differences.
pub open spec fn manhattan_spec(a: Seq<i64>, b: Seq<i64>) -> int
    decreases a.len(),
{
    if a.len() == 0 || b.len() == 0 {
        0
    } else {
        manhattan_spec(a.drop_last(), b.drop_last()) + abs_int(a.last() - b.last())
    }
}

/// Sum of the squared component differences (no final square root).
pub open spec fn euclidean_spec(a: Seq<i64>, b: Seq<i64>) -> int
    decreases a.len(),
{
    if a.len() == 0 || b.len() == 0 {
        0
    } else {
        euclidean_spec(a.drop_last(), b.drop_last())
            + (a.last() - b.last()) * (a.last() - b.last())
    }
}

/// Negated dot product, so that smaller means closer.
pub open spec fn dot_product_spec(a: Seq<i64>, b: Seq<i64>) -> int {
    -dot_spec(a, b)
}

/// `-(a . b) * COS_SCALE / sqrt((a . a) * (b . b))`, or 0 when a norm is 0.
pub open spec fn cosine_spec(a: Seq<i64>, b: Seq<i64>) -> int {
    let den = sqrt_floor(dot_spec(a, a) * dot_spec(b, b));
    if den > 0 {
        -div_toward_zero(dot_spec(a, b) * COS_SCALE, den)
    } else {
        0
    }
}

/// `2 - 2 cos`, scaled by `COS_SCALE`; `2 * COS_SCALE` when a norm is 0.
pub open spec fn angular_spec(a: Seq<i64>, b: Seq<i64>) -> int {
    let den = sqrt_floor(dot_spec(a, a) * dot_spec(b, b));
    if den > 0 {
        2 * COS_SCALE - div_toward_zero(2 * COS_SCALE * dot_spec(a, b), den)
    } else {
        2 * COS_SCALE
    }
}

/// What each metric returns on equal-length vectors.
pub open spec fn metric_spec(a: Seq<i64>, b: Seq<i64>, mt: Metric) -> int {
    match mt {
        Metric::Unknown => 0,
        Metric::Manhattan => manhattan_spec(a, b),
        Metric::DotProduct => dot_product_spec(a, b),
        Metric::Euclidean => euclidean_spec(a, b),
        Metric::CosineSimilarity => cosine_spec(a, b),
        Metric::Angular => angular_spec(a, b),
    }
}

/// The arguments on which `metric` succeeds.
pub open spec fn metric_ok(a: Seq<i64>, b: Seq<i64>, mt: Metric) -> bool {
    mt != Metric::Unknown && a.len() == b.len()
}

pub proof fn lemma_manhattan_bound(a: Seq<i64>, b: Seq<i64>, m: i64)
    requires
        a.len() == b.len(),
        m >= 0,
        bounded(a, m),
        bounded(b, m),
    ensures
        0 <= manhattan_spec(a, b) <= a.len() * 2 * (m as int),
    decreases a.len(),
{
    if a.len() > 0 {
        lemma_manhattan_bound(a.drop_last(), b.drop_last(), m);
        let mi = m as int;
        assert((a.len() - 1) * 2 * mi + 2 * mi == a.len() * 2 * mi) by (nonlinear_arith);
    }
}

pub proof fn lemma_euclidean_bound(a: Seq<i64>, b: Seq<i64>, m: i64)
    requires
        a.len() == b.len(),
        m >= 0,
        bounded(a, m),
        bounded(b, m),
    ensures
        0 <= euclidean_spec(a, b) <= a.len() * (4 * (m as int) * (m as int)),
    decreases a.len(),
{
    if a.len() > 0 {
        lemma_euclidean_bound(a.drop_last(), b.drop_last(), m);
        let x = a.last() - b.last();
        let mi = m as int;
        assert(0 <= x * x <= 4 * mi * mi) by (nonlinear_arith)
            requires -2 * mi <= x <= 2 * mi;
        assert((a.len() - 1) * (4 * mi * mi) + 4 * mi * mi == a.len() * (4 * mi * mi))
            by (nonlinear_arith);
    }
}

/// Cauchy-Schwarz: `(a . b)^2 <= (a . a) * (b . b)`.
pub proof fn lemma_cauchy_schwarz(a: Seq<i64>, b: Seq<i64>)
    requires
        a.len() == b.len(),
    ensures
        dot_spec(a, b) * dot_spec(a, b) <= dot_spec(a, a) * dot_spec(b, b),
    decreases a.len(),
{
    if a.len() == 0 {
    } else {
        lemma_cauchy_schwarz(a.drop_last(), b.drop_last());
        lemma_self_dot_nonneg(a.drop_last());
        lemma_self_dot_nonneg(b.drop_last());
        let ca = dot_spec(a.drop_last(), a.drop_last());
        let cb = dot_spec(b.drop_last(), b.drop_last());
        let cd = dot_spec(a.drop_last(), b.drop_last());
        let x = a.last() as int;
        let y = b.last() as int;
        // (A y^2 + B x^2)^2 >= 4 A B x^2 y^2 >= 4 D^2 x^2 y^2 = (2 D x y)^2,
        // and A y^2 + B x^2 >= 0, so A y^2 + B x^2 >= 2 D x y, from which
        // (A + x^2)(B + y^2) >= (D + x y)^2.
        let p = ca * y * y;
        let q = cb * x * x;
        let w = x * x * y * y;
        assert(w >= 0) by (nonlinear_arith)
            requires w == x * x * y * y;
        assert(p >= 0 && q >= 0) by (nonlinear_arith)
            requires ca >= 0, cb >= 0, p == ca * y * y, q == cb * x * x;
        assert((p + q) * (p + q) == (p - q) * (p - q) + 4 * (p * q)) by (nonlinear_arith);
        assert((p - q) * (p - q) >= 0) by (nonlinear_arith);
        assert(p * q == (ca * cb) * w) by (nonlinear_arith)
            requires p == ca * y * y, q == cb * x * x, w == x * x * y * y;
        assert((ca * cb) * w >= (cd * cd) * w) by (nonlinear_arith)
            requires ca * cb >= cd * cd, w >= 0;
        assert((2 * (cd * x * y)) * (2 * (cd * x * y)) == 4 * ((cd * cd) * w)) by (nonlinear_arith)
            requires w == x * x * y * y;
        assert((p + q) * (p + q) >= (2 * (cd * x * y)) * (2 * (cd * x * y)));
        assert(p + q >= 2 * (cd * x * y)) by (nonlinear_arith)
            requires
                p + q >= 0,
                (p + q) * (p + q) >= (2 * (cd * x * y)) * (2 * (cd * x * y)),
        ;
        assert((ca + x * x) * (cb + y * y) == ca * cb + p + q + w) by (nonlinear_arith)
            requires p == ca * y * y, q == cb * x * x, w == x * x * y * y;
        assert((cd + x * y) * (cd + x * y) == cd * cd + 2 * (cd * x * y) + w) by (nonlinear_arith)
            requires w == x * x * y * y;
        assert(dot_spec(a, b) == cd + x * y);
        assert(dot_spec(a, a) == ca + x * x);
        assert(dot_spec(b, b) == cb + y * y);
    }
}

/// The dot product never exceeds the floor root of the norm product.
pub proof fn lemma_dot_le_den(a: Seq<i64>, b: Seq<i64>)
    requires
        a.len() == b.len(),
    ensures
        abs_int(dot_spec(a, b)) <= sqrt_floor(dot_spec(a, a) * dot_spec(b, b)),
{
    lemma_cauchy_schwarz(a, b);
    lemma_self_dot_nonneg(a);
    lemma_self_dot_nonneg(b);
    let d = dot_spec(a, b);
    assert(dot_spec(a, a) * dot_spec(b, b) >= 0) by (nonlinear_arith)
        requires dot_spec(a, a) >= 0, dot_spec(b, b) >= 0;
    let n = dot_spec(a, a) * dot_spec(b, b);
    lemma_sqrt_floor(n);
    let s = sqrt_floor(n);
    if abs_int(d) > s {
        assert((s + 1) * (s + 1) <= abs_int(d) * abs_int(d)) by (nonlinear_arith)
            requires s + 1 <= abs_int(d), s >= 0;
        assert(abs_int(d) * abs_int(d) == d * d) by (nonlinear_arith);
    }
}

proof fn lemma_manhattan_self(v: Seq<i64>)
    ensures
        manhattan_spec(v, v) == 0,
    decreases v.len(),
{
    if v.len() > 0 {
        lemma_manhattan_self(v.drop_last());
    }
}

proof fn lemma_euclidean_self(v: Seq<i64>)
    ensures
        euclidean_spec(v, v) == 0,
    decreases v.len(),
{
    if v.len() > 0 {
        lemma_euclidean_self(v.drop_last());
    }
}

/// Law: on a non-degenerate vector, every configured metric of a vector
/// with itself is at most zero (exactly zero for Euclidean, Manhattan and
/// Angular; `-COS_SCALE` for CosineSimilarity; non-positive for DotProduct).
pub proof fn lemma_metric_self(v: Seq<i64>, mt: Metric)
    requires
        mt != Metric::Unknown,
        exists|i: int| 0 <= i < v.len() && v[i] != 0,
    ensures
        metric_spec(v, v, mt) <= 0,
{
    lemma_manhattan_self(v);
    lemma_euclidean_self(v);
    lemma_self_dot_nonneg(v);
    let n = dot_spec(v, v);
    lemma_sqrt_floor_square(n);
    if n > 0 {
        assert((COS_SCALE as int) * n >= 0) by (nonlinear_arith)
            requires n >= 0, COS_SCALE >= 0;
        lemma_div_by_multiple(COS_SCALE as int, n);
        lemma_div_by_multiple(2 * (COS_SCALE as int), n);
        assert(div_toward_zero(n * COS_SCALE, n) == COS_SCALE);
        assert(2 * (COS_SCALE as int) * n == (2 * (COS_SCALE as int)) * n) by (nonlinear_arith);
        assert(div_toward_zero(2 * COS_SCALE * n, n) == 2 * COS_SCALE);
    }
}

proof fn lemma_manhattan_symmetric(a: Seq<i64>, b: Seq<i64>)
    requires
        a.len() == b.len(),
    ensures
        manhattan_spec(a, b) == manhattan_spec(b, a),
    decreases a.len(),
{
    if a.len() > 0 {
        lemma_manhattan_symmetric(a.drop_last(), b.drop_last());
    }
}

proof fn lemma_euclidean_symmetric(a: Seq<i64>, b: Seq<i64>)
    requires
        a.len() == b.len(),
    ensures
        euclidean_spec(a, b) == euclidean_spec(b, a),
    decreases a.len(),
{
    if a.len() > 0 {
        lemma_euclidean_symmetric(a.drop_last(), b.drop_last());
        let x = a.last() - b.last();
        let y = b.last() - a.last();
        assert(x * x == y * y) by (nonlinear_arith)
            requires y == -x;
    }
}

/// Law: the Euclidean and Manhattan metrics are exactly symmetric.
pub proof fn lemma_metric_symmetric(a: Seq<i64>, b: Seq<i64>, mt: Metric)
    requires
        a.len() == b.len(),
        mt == Metric::Euclidean || mt == Metric::Manhattan,
    ensures
        metric_spec(a, b, mt) == metric_spec(b, a, mt),
{
    lemma_manhattan_symmetric(a, b);
    lemma_euclidean_symmetric(a, b);
}

/// Catch-all magnitude bound on any metric value over bounded vectors:
/// `len * 4 m^2` covers the additive metrics, `4 * COS_SCALE` the
/// cosine-valued ones.
pub proof fn lemma_metric_bound(a: Seq<i64>, b: Seq<i64>, mt: Metric, m: i64)
    requires
        a.len() == b.len(),
        1 <= m,
        bounded(a, m),
        bounded(b, m),
    ensures
        abs_int(metric_spec(a, b, mt)) <= a.len() * (4 * (m as int) * (m as int)) + 4 * (
        COS_SCALE as int),
{
    let mi = m as int;
    let cap = a.len() * (4 * mi * mi);
    lemma_manhattan_bound(a, b, m);
    lemma_euclidean_bound(a, b, m);
    lemma_dot_bound(a, b, m);
    assert(cap >= 0) by (nonlinear_arith)
        requires cap == a.len() * (4 * mi * mi), mi >= 1;
    assert(a.len() * 2 * mi <= a.len() * (4 * mi * mi)) by (nonlinear_arith)
        requires mi >= 1;
    assert(a.len() * mi * mi <= a.len() * (4 * mi * mi)) by (nonlinear_arith)
        requires mi >= 1;
    if mt == Metric::CosineSimilarity || mt == Metric::Angular {
        lemma_dot_le_den(a, b);
        lemma_self_dot_nonneg(a);
        lemma_self_dot_nonneg(b);
        let d = dot_spec(a, b);
        assert(dot_spec(a, a) * dot_spec(b, b) >= 0) by (nonlinear_arith)
            requires dot_spec(a, a) >= 0, dot_spec(b, b) >= 0;
        let den = sqrt_floor(dot_spec(a, a) * dot_spec(b, b));
        lemma_sqrt_floor(dot_spec(a, a) * dot_spec(b, b));
        if den > 0 {
            let s = COS_SCALE as int;
            assert(abs_int(d) * s <= s * den) by (nonlinear_arith)
                requires abs_int(d) <= den, s >= 0;
            lemma_div_is_ordered(abs_int(d) * s, s * den, den);
            lemma_div_by_multiple(s, den);
            vstd::arithmetic::div_mod::lemma_div_pos_is_pos(abs_int(d) * s, den);
            if d >= 0 {
                assert(d * s == abs_int(d) * s);
            } else {
                assert(-(d * s) == abs_int(d) * s) by (nonlinear_arith)
                    requires abs_int(d) == -d;
            }
            assert(abs_int(div_toward_zero(d * s, den)) <= s);
            let s2 = 2 * (COS_SCALE as int);
            assert(abs_int(d) * s2 <= s2 * den) by (nonlinear_arith)
                requires abs_int(d) <= den, s2 >= 0;
            lemma_div_is_ordered(abs_int(d) * s2, s2 * den, den);
            lemma_div_by_multiple(s2, den);
            vstd::arithmetic::div_mod::lemma_div_pos_is_pos(abs_int(d) * s2, den);
            if d >= 0 {
                assert(s2 * d == abs_int(d) * s2) by (nonlinear_arith)
                    requires abs_int(d) == d;
            } else {
                assert(-(s2 * d) == abs_int(d) * s2) by (nonlinear_arith)
                    requires abs_int(d) == -d;
            }
            assert(abs_int(div_toward_zero(s2 * d, den)) <= s2);
        }
    }
}

pub fn manhattan_distance(vec1: &[i64], vec2: &[i64]) -> (r: Result<i64, AnnError>)
    requires
        vec1@.len() <= DIM_LIMIT,
        bounded(vec1@, VAL_LIMIT),
        bounded(vec2@, VAL_LIMIT),
    ensures
        match r {
            Ok(v) => vec1@.len() == vec2@.len() && v == manhattan_spec(vec1@, vec2@),
            Err(e) => vec1@.len() != vec2@.len() && e == AnnError::DimensionMismatch,
        },
{
    if vec1.len() != vec2.len() {
        return Err(AnnError::DimensionMismatch);
    }
    let n = vec1.len();
    let mut sum: i64 = 0;
    let mut i: usize = 0;
    proof {
        assert(vec1@.subrange(0, 0) =~= Seq::<i64>::empty());
    }
    while i < n
        invariant
            i <= n,
            n == vec1@.len() == vec2@.len(),
            n <= DIM_LIMIT,
            bounded(vec1@, VAL_LIMIT),
            bounded(vec2@, VAL_LIMIT),
            sum == manhattan_spec(vec1@.subrange(0, i as int), vec2@.subrange(0, i as int)),
            0 <= sum <= (i as int) * 2 * (VAL_LIMIT as int),
        decreases n - i,
    {
        proof {
            let a1 = vec1@.subrange(0, i + 1);
            let b1 = vec2@.subrange(0, i + 1);
            assert(a1.drop_last() =~= vec1@.subrange(0, i as int));
            assert(b1.drop_last() =~= vec2@.subrange(0, i as int));
            assert((i as int) * 2 * (VAL_LIMIT as int) + 2 * (VAL_LIMIT as int)
                == ((i + 1) as int) * 2 * (VAL_LIMIT as int)) by (nonlinear_arith);
            assert(((i + 1) as int) * 2 * (VAL_LIMIT as int)
                <= (DIM_LIMIT as int) * 2 * (VAL_LIMIT as int)) by (nonlinear_arith)
                requires (i + 1) as int <= DIM_LIMIT as int, VAL_LIMIT >= 0;
        }
        let d = vec1[i] - vec2[i];
        let ad = if d < 0 { -d } else { d };
        sum = sum + ad;
        i = i + 1;
    }
    proof {
        assert(vec1@.subrange(0, n as int) =~= vec1@);
        assert(vec2@.subrange(0, n as int) =~= vec2@);
    }
    Ok(sum)
}

pub fn euclidean_distance(vec1: &[i64], vec2: &[i64]) -> (r: Result<i64, AnnError>)
    requires
        vec1@.len() <= DIM_LIMIT,
        bounded(vec1@, VAL_LIMIT),
        bounded(vec2@, VAL_LIMIT),
    ensures
        match r {
            Ok(v) => vec1@.len() == vec2@.len() && v == euclidean_spec(vec1@, vec2@),
            Err(e) => vec1@.len() != vec2@.len() && e == AnnError::DimensionMismatch,
        },
{
    if vec1.len() != vec2.len() {
        return Err(AnnError::DimensionMismatch);
    }
    let n = vec1.len();
    let mut sum: i64 = 0;
    let mut i: usize = 0;
    proof {
        assert(vec1@.subrange(0, 0) =~= Seq::<i64>::empty());
    }
    while i < n
        invariant
            i <= n,
            n == vec1@.len() == vec2@.len(),
            n <= DIM_LIMIT,
            bounded(vec1@, VAL_LIMIT),
            bounded(vec2@, VAL_LIMIT),
            sum == euclidean_spec(vec1@.subrange(0, i as int), vec2@.subrange(0, i as int)),
            0 <= sum <= (i as int) * (4 * (VAL_LIMIT as int) * (VAL_LIMIT as int)),
        decreases n - i,
    {
        proof {
            let v = VAL_LIMIT as int;
            let a1 = vec1@.subrange(0, i + 1);
            let b1 = vec2@.subrange(0, i + 1);
            assert(a1.drop_last() =~= vec1@.subrange(0, i as int));
            assert(b1.drop_last() =~= vec2@.subrange(0, i as int));
            let x = vec1@[i as int] - vec2@[i as int];
            assert(0 <= x * x <= 4 * v * v) by (nonlinear_arith)
                requires -2 * v <= x <= 2 * v;
            assert((i as int) * (4 * v * v) + 4 * v * v == ((i + 1) as int) * (4 * v * v))
                by (nonlinear_arith);
            assert(((i + 1) as int) * (4 * v * v) <= (DIM_LIMIT as int) * (4 * v * v))
                by (nonlinear_arith)
                requires (i + 1) as int <= DIM_LIMIT as int, v >= 0;
            assert((DIM_LIMIT as int) * (4 * v * v) == 0x4000_0000_0000_0000) by (nonlinear_arith)
                requires v == 0x40_0000, DIM_LIMIT == 0x1_0000usize;
        }
        let d = vec1[i] - vec2[i];
        sum = sum + d * d;
        i = i + 1;
    }
    proof {
        assert(vec1@.subrange(0, n as int) =~= vec1@);
        assert(vec2@.subrange(0, n as int) =~= vec2@);
    }
    Ok(sum)
}

pub fn dot_product(vec1: &[i64], vec2: &[i64]) -> (r: Result<i64, AnnError>)
    requires
        vec1@.len() <= DIM_LIMIT,
        bounded(vec1@, VAL_LIMIT),
        bounded(vec2@, VAL_LIMIT),
    ensures
        match r {
            Ok(v) => vec1@.len() == vec2@.len() && v == dot_product_spec(vec1@, vec2@),
            Err(e) => vec1@.len() != vec2@.len() && e == AnnError::DimensionMismatch,
        },
{
    match dot(vec1, vec2) {
        Ok(v) => {
            proof {
                lemma_dot_bound(vec1@, vec2@, VAL_LIMIT);
                let m = VAL_LIMIT as int;
                assert(vec1@.len() * m * m <= (DIM_LIMIT as int) * m * m) by (nonlinear_arith)
                    requires vec1@.len() <= DIM_LIMIT as int, m >= 0;
                assert((DIM_LIMIT as int) * m * m == 0x1000_0000_0000_0000) by (nonlinear_arith)
                    requires m == 0x40_0000, DIM_LIMIT == 0x1_0000usize;
            }
            Ok(-v)
        },
        Err(e) => Err(e),
    }
}

/// Shared tail of the two cosine-valued metrics: dot products and the
/// floor root of the norm product.  Returns `(a.b, sqrt((a.a)(b.b)))`.
fn cos_parts(vec1: &[i64], vec2: &[i64]) -> (r: (i64, i64))
    requires
        vec1@.len() == vec2@.len(),
        vec1@.len() <= DIM_LIMIT,
        bounded(vec1@, VAL_LIMIT),
        bounded(vec2@, VAL_LIMIT),
    ensures
        r.0 == dot_spec(vec1@, vec2@),
        r.1 == sqrt_floor(dot_spec(vec1@, vec1@) * dot_spec(vec2@, vec2@)),
        abs_int(r.0 as int) <= r.1 || r.1 == 0,
        r.1 >= 0,
{
    proof {
        lemma_dot_bound(vec1@, vec2@, VAL_LIMIT);
        lemma_dot_bound(vec1@, vec1@, VAL_LIMIT);
        lemma_dot_bound(vec2@, vec2@, VAL_LIMIT);
        lemma_self_dot_nonneg(vec1@);
        lemma_self_dot_nonneg(vec2@);
        let m = VAL_LIMIT as int;
        assert(vec1@.len() * m * m <= (DIM_LIMIT as int) * m * m) by (nonlinear_arith)
            requires vec1@.len() <= DIM_LIMIT as int, m >= 0;
        assert((DIM_LIMIT as int) * m * m == 0x1000_0000_0000_0000) by (nonlinear_arith)
            requires m == 0x40_0000, DIM_LIMIT == 0x1_0000usize;
    }
    let d = match dot(vec1, vec2) {
        Ok(v) => v,
        Err(_) => 0,  // unreachable: lengths are equal
    };
    let na = match dot(vec1, vec1) {
        Ok(v) => v,
        Err(_) => 0,
    };
    let nb = match dot(vec2, vec2) {
        Ok(v) => v,
        Err(_) => 0,
    };
    proof {
        assert(0 <= (na as int) * (nb as int) <= 0x1000_0000_0000_0000 * 0x1000_0000_0000_0000)
            by (nonlinear_arith)
            requires
                0 <= na as int <= 0x1000_0000_0000_0000,
                0 <= nb as int <= 0x1000_0000_0000_0000;
    }
    let prod: i128 = (na as i128) * (nb as i128);
    let den_u = isqrt(prod as u128);
    proof {
        let n = (na as int) * (nb as int);
        lemma_sqrt_floor(n);
        let s = sqrt_floor(n);
        assert(s <= 0x1000_0000_0000_0000) by (nonlinear_arith)
            requires
                s >= 0,
                s * s <= n,
                n <= 0x1000_0000_0000_0000 * 0x1000_0000_0000_0000;
        lemma_dot_le_den(vec1@, vec2@);
    }
    let den = den_u as i64;
    (d, den)
}

pub fn cosine_similarity(vec1: &[i64], vec2: &[i64]) -> (r: Result<i64, AnnError>)
    requires
        vec1@.len() <= DIM_LIMIT,
        bounded(vec1@, VAL_LIMIT),
        bounded(vec2@, VAL_LIMIT),
    ensures
        match r {
            Ok(v) => vec1@.len() == vec2@.len() && v == cosine_spec(vec1@, vec2@),
            Err(e) => vec1@.len() != vec2@.len() && e == AnnError::DimensionMismatch,
        },
{
    if vec1.len() != vec2.len() {
        return Err(AnnError::DimensionMismatch);
    }
    let (d, den) = cos_parts(vec1, vec2);
    if den <= 0 {
        return Ok(0);
    }
    let ad: i64 = if d < 0 { -d } else { d };
    let num: u128 = (ad as u128) * (COS_SCALE as u128);
    let q = num / (den as u128);
    proof {
        let di = d as int;
        let adi = abs_int(di);
        assert(num as int == adi * (COS_SCALE as int));
        assert(adi * (COS_SCALE as int) <= (COS_SCALE as int) * (den as int)) by (nonlinear_arith)
            requires adi <= den as int, COS_SCALE >= 0;
        lemma_div_is_ordered(adi * (COS_SCALE as int), (COS_SCALE as int) * (den as int),
            den as int);
        lemma_div_by_multiple(COS_SCALE as int, den as int);
        vstd::arithmetic::div_mod::lemma_div_pos_is_pos(adi * (COS_SCALE as int), den as int);
        if di >= 0 {
            assert(div_toward_zero(di * (COS_SCALE as int), den as int) == q as int);
        } else {
            assert(-(di * (COS_SCALE as int)) == adi * (COS_SCALE as int));
            assert(div_toward_zero(di * (COS_SCALE as int), den as int) == -(q as int));
        }
    }
    let qi = q as i64;
    if d >= 0 {
        Ok(-qi)
    } else {
        Ok(qi)
    }
}

pub fn angular_distance(vec1: &[i64], vec2: &[i64]) -> (r: Result<i64, AnnError>)
    requires
        vec1@.len() <= DIM_LIMIT,
        bounded(vec1@, VAL_LIMIT),
        bounded(vec2@, VAL_LIMIT),
    ensures
        match r {
            Ok(v) => vec1@.len() == vec2@.len() && v == angular_spec(vec1@, vec2@),
            Err(e) => vec1@.len() != vec2@.len() && e == AnnError::DimensionMismatch,
        },
{
    if vec1.len() != vec2.len() {
        return Err(AnnError::DimensionMismatch);
    }
    let (d, den) = cos_parts(vec1, vec2);
    if den <= 0 {
        return Ok(2 * COS_SCALE);
    }
    let ad: i64 = if d < 0 { -d } else { d };
    let num: u128 = 2 * (COS_SCALE as u128) * (ad as u128);
    let q = num / (den as u128);
    proof {
        let di = d as int;
        let adi = abs_int(di);
        let s2 = 2 * (COS_SCALE as int);
        assert(num as int == s2 * adi) by (nonlinear_arith)
            requires num as int == 2 * (COS_SCALE as int) * adi, s2 == 2 * (COS_SCALE as int);
        assert(s2 * adi <= s2 * (den as int)) by (nonlinear_arith)
            requires adi <= den as int, s2 >= 0;
        lemma_div_is_ordered(s2 * adi, s2 * (den as int), den as int);
        lemma_div_by_multiple(s2, den as int);
        vstd::arithmetic::div_mod::lemma_div_pos_is_pos(s2 * adi, den as int);
        if di >= 0 {
            assert(s2 * di == s2 * adi) by (nonlinear_arith)
                requires di == adi;
            assert(div_toward_zero(s2 * di, den as int) == q as int);
        } else {
            assert(-(s2 * di) == s2 * adi) by (nonlinear_arith)
                requires adi == -di;
            assert(s2 * di < 0) by (nonlinear_arith)
                requires di < 0, s2 > 0;
            assert(div_toward_zero(s2 * di, den as int) == -(q as int));
        }
    }
    let qi = q as i64;
    if d >= 0 {
        Ok(2 * COS_SCALE - qi)
    } else {
        Ok(2 * COS_SCALE + qi)
    }
}

/// Dispatch on the metric kind; `Unknown` yields `MetricUnset`.
pub fn metric(vec1: &[i64], vec2: &[i64], mt: Metric) -> (r: Result<i64, AnnError>)
    requires
        vec1@.len() <= DIM_LIMIT,
        bounded(vec1@, VAL_LIMIT),
        bounded(vec2@, VAL_LIMIT),
    ensures
        metric_ok(vec1@, vec2@, mt) ==> r is Ok && r->Ok_0 as int == metric_spec(
            vec1@, vec2@, mt),
        !metric_ok(vec1@, vec2@, mt) ==> r is Err,
        mt == Metric::Unknown ==> r == Err::<i64, AnnError>(AnnError::MetricUnset),
        mt != Metric::Unknown && vec1@.len() != vec2@.len() ==> r == Err::<i64, AnnError>(
            AnnError::DimensionMismatch),
{
    match mt {
        Metric::Euclidean => euclidean_distance(vec1, vec2),
        Metric::Manhattan => manhattan_distance(vec1, vec2),
        Metric::DotProduct => dot_product(vec1, vec2),
        Metric::CosineSimilarity => cosine_similarity(vec1, vec2),
        Metric::Angular => angular_distance(vec1, vec2),
        Metric::Unknown => Err(AnnError::MetricUnset),
    }
}

/// A stable one-byte code for each metric, used where an index's state
/// is handed out for persistence.
pub open spec fn metric_code_spec(mt: Metric) -> u8 {
    match mt {
        Metric::Unknown => 0,
        Metric::Manhattan => 1,
        Metric::DotProduct => 2,
        Metric::Euclidean => 3,
        Metric::CosineSimilarity => 4,
        Metric::Angular => 5,
    }
}

pub open spec fn metric_from_code_spec(c: u8) -> Metric {
    if c == 1 {
        Metric::Manhattan
    } else if c == 2 {
        Metric::DotProduct
    } else if c == 3 {
        Metric::Euclidean
    } else if c == 4 {
        Metric::CosineSimilarity
    } else if c == 5 {
        Metric::Angular
    } else {
        Metric::Unknown
    }
}

/// Law: decoding a metric's code yields the metric back.
pub proof fn lemma_metric_code_roundtrip(mt: Metric)
    ensures
        metric_from_code_spec(metric_code_spec(mt)) == mt,
{
}

pub fn metric_code(mt: Metric) -> (r: u8)
    ensures
        r == metric_code_spec(mt),
{
    match mt {
        Metric::Unknown => 0,
        Metric::Manhattan => 1,
        Metric::DotProduct => 2,
        Metric::Euclidean => 3,
        Metric::CosineSimilarity => 4,
        Metric::Angular => 5,
    }
}

pub fn metric_from_code(c: u8) -> (r: Metric)
    ensures
        r == metric_from_code_spec(c),
{
    if c == 1 {
        Metric::Manhattan
    } else if c == 2 {
        Metric::DotProduct
    } else if c == 3 {
        Metric::Euclidean
    } else if c == 4 {
        Metric::CosineSimilarity
    } else if c == 5 {
        Metric::Angular
    } else {
        Metric::Unknown
    }
}

/// Copy of `v[begin..end]`.
fn copy_range(v: &[i64], begin: usize, end: usize) -> (r: Vec<i64>)
    requires
        begin <= end <= v@.len(),
    ensures
        r@ == v@.subrange(begin as int, end as int),
{
    let mut out: Vec<i64> = Vec::new();
    let mut i: usize = begin;
    while i < end
        invariant
            begin <= i <= end <= v@.len(),
            out@ == v@.subrange(begin as int, i as int),
        decreases end - i,
    {
        out.push(v[i]);
        proof {
            assert(out@ =~= v@.subrange(begin as int, (i + 1) as int));
        }
        i = i + 1;
    }
    out
}

/// The metric restricted to the dimension range `[begin, end)`.
pub fn range_metric(vec1: &[i64], vec2: &[i64], mt: Metric, begin: usize, end: usize) -> (r:
    Result<i64, AnnError>)
    requires
        begin <= end <= vec1@.len(),
        end <= vec2@.len(),
        vec1@.len() <= DIM_LIMIT,
        bounded(vec1@, VAL_LIMIT),
        bounded(vec2@, VAL_LIMIT),
    ensures
        metric_ok(vec1@.subrange(begin as int, end as int), vec2@.subrange(begin as int, end as int), mt)
            ==> r is Ok && r->Ok_0 as int == metric_spec(
                vec1@.subrange(begin as int, end as int),
                vec2@.subrange(begin as int, end as int),
                mt,
            ),
        mt == Metric::Unknown ==> r is Err,
{
    let a = copy_range(vec1, begin, end);
    let b = copy_range(vec2, begin, end);
    proof {
        assert forall|j: int| 0 <= j < a@.len() implies -VAL_LIMIT <= #[trigger] a@[j]
            <= VAL_LIMIT by {
            assert(a@[j] == vec1@[begin + j]);
        }
        assert forall|j: int| 0 <= j < b@.len() implies -VAL_LIMIT <= #[trigger] b@[j]
            <= VAL_LIMIT by {
            assert(b@[j] == vec2@[begin + j]);
        }
    }
    metric(a.as_slice(), b.as_slice(), mt)
}

} // verus!
