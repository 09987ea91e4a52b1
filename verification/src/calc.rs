//! Shared numeric helpers: dot products, integer square roots, norms.

use crate::{AnnError, DIM_LIMIT, VAL_LIMIT};
use vstd::prelude::*;

verus! {

/// Every component of `s` has magnitude at most `m`.
pub open spec fn bounded(s: Seq<i64>, m: i64) -> bool {
    forall|i: int| 0 <= i < s.len() ==> -m <= #[trigger] s[i] <= m
}

/// A bound on components widens.
pub proof fn lemma_bounded_widen(s: Seq<i64>, m1: i64, m2: i64)
    requires
        bounded(s, m1),
        0 <= m1 <= m2,
    ensures
        bounded(s, m2),
{
}

/// Mathematical dot product of two equal-length sequences.
pub open spec fn dot_spec(a: Seq<i64>, b: Seq<i64>) -> int
    decreases a.len(),
{
    if a.len() == 0 || b.len() == 0 {
        0
    } else {
        dot_spec(a.drop_last(), b.drop_last()) + a.last() * b.last()
    }
}

/// Floor of the square root of a non-negative integer.
pub open spec fn sqrt_floor(n: int) -> int
    decreases n,
{
    if n <= 0 {
        0
    } else {
        let r = sqrt_floor(n - 1);
        if (r + 1) * (r + 1) <= n {
            r + 1
        } else {
            r
        }
    }
}

pub proof fn lemma_sqrt_floor(n: int)
    requires
        n >= 0,
    ensures
        0 <= sqrt_floor(n),
        sqrt_floor(n) * sqrt_floor(n) <= n,
        n < (sqrt_floor(n) + 1) * (sqrt_floor(n) + 1),
    decreases n,
{
    if n > 0 {
        lemma_sqrt_floor(n - 1);
        let r = sqrt_floor(n - 1);
        if (r + 1) * (r + 1) <= n {
            assert((r + 1) * (r + 1) < (r + 2) * (r + 2)) by (nonlinear_arith)
                requires r >= 0;
            assert(n - 1 < (r + 1) * (r + 1));
        }
    }
}

pub proof fn lemma_sqrt_floor_unique(n: int, r: int)
    requires
        n >= 0,
        r >= 0,
        r * r <= n,
        n < (r + 1) * (r + 1),
    ensures
        r == sqrt_floor(n),
{
    lemma_sqrt_floor(n);
    let s = sqrt_floor(n);
    if r < s {
        assert((r + 1) * (r + 1) <= s * s) by (nonlinear_arith)
            requires 0 <= r, r + 1 <= s;
    }
    if s < r {
        assert((s + 1) * (s + 1) <= r * r) by (nonlinear_arith)
            requires 0 <= s, s + 1 <= r;
    }
}

/// The square root of an exact square is its root.
pub proof fn lemma_sqrt_floor_square(r: int)
    requires
        r >= 0,
    ensures
        sqrt_floor(r * r) == r,
{
    assert(r * r >= 0 && r * r < (r + 1) * (r + 1)) by (nonlinear_arith)
        requires r >= 0;
    lemma_sqrt_floor_unique(r * r, r);
}

/// A dot product of bounded sequences is bounded by `len * m * m`.
pub proof fn lemma_dot_bound(a: Seq<i64>, b: Seq<i64>, m: i64)
    requires
        a.len() == b.len(),
        m >= 0,
        bounded(a, m),
        bounded(b, m),
    ensures
        -(a.len() * (m as int) * (m as int)) <= dot_spec(a, b) <= a.len() * (m as int) * (m as int),
    decreases a.len(),
{
    if a.len() > 0 {
        lemma_dot_bound(a.drop_last(), b.drop_last(), m);
        let n = a.len() as int;
        let mi = m as int;
        assert(-(mi * mi) <= a.last() * b.last() <= mi * mi) by (nonlinear_arith)
            requires -mi <= a.last() <= mi, -mi <= b.last() <= mi, mi >= 0;
        assert((n - 1) * mi * mi + mi * mi == n * mi * mi) by (nonlinear_arith);
    }
}

/// A vector's dot product with itself is non-negative, and positive as soon
/// as some component is non-zero.
pub proof fn lemma_self_dot_nonneg(a: Seq<i64>)
    ensures
        dot_spec(a, a) >= 0,
        (exists|i: int| 0 <= i < a.len() && a[i] != 0) ==> dot_spec(a, a) > 0,
    decreases a.len(),
{
    if a.len() > 0 {
        lemma_self_dot_nonneg(a.drop_last());
        assert(a.last() * a.last() >= 0) by (nonlinear_arith);
        if exists|i: int| 0 <= i < a.len() && a[i] != 0 {
            let i = choose|i: int| 0 <= i < a.len() && a[i] != 0;
            if i == a.len() - 1 {
                assert(a.last() * a.last() > 0) by (nonlinear_arith)
                    requires a.last() != 0;
            } else {
                assert(a.drop_last()[i] != 0);
            }
        }
    }
}

/// Peeling one more element off aligned prefixes of two sequences.
pub proof fn lemma_dot_prefix(a: Seq<i64>, b: Seq<i64>, i: int)
    requires
        0 <= i < a.len(),
        i < b.len(),
    ensures
        dot_spec(a.subrange(0, i + 1), b.subrange(0, i + 1))
            == dot_spec(a.subrange(0, i), b.subrange(0, i)) + a[i] * b[i],
{
    let a1 = a.subrange(0, i + 1);
    let b1 = b.subrange(0, i + 1);
    assert(a1.drop_last() =~= a.subrange(0, i));
    assert(b1.drop_last() =~= b.subrange(0, i));
}

/// Exact dot product; fails only on a dimension mismatch.
pub fn dot(vec1: &[i64], vec2: &[i64]) -> (r: Result<i64, AnnError>)
    requires
        vec1@.len() <= DIM_LIMIT,
        bounded(vec1@, VAL_LIMIT),
        bounded(vec2@, VAL_LIMIT),
    ensures
        match r {
            Ok(v) => vec1@.len() == vec2@.len() && v == dot_spec(vec1@, vec2@),
            Err(e) => vec1@.len() != vec2@.len() && e == AnnError::DimensionMismatch,
        },
{
    if vec1.len() != vec2.len() {
        return Err(AnnError::DimensionMismatch);
    }
    let n = vec1.len();
    let mut sum: i64 = 0;
    let mut i: usize = 0;
    proof {
        assert(vec1@.subrange(0, 0) =~= Seq::<i64>::empty());
        assert(vec2@.subrange(0, 0) =~= Seq::<i64>::empty());
    }
    while i < n
        invariant
            i <= n,
            n == vec1@.len() == vec2@.len(),
            n <= DIM_LIMIT,
            bounded(vec1@, VAL_LIMIT),
            bounded(vec2@, VAL_LIMIT),
            sum == dot_spec(vec1@.subrange(0, i as int), vec2@.subrange(0, i as int)),
            -(i as int) * (VAL_LIMIT as int) * (VAL_LIMIT as int) <= sum
                <= (i as int) * (VAL_LIMIT as int) * (VAL_LIMIT as int),
        decreases n - i,
    {
        proof {
            lemma_dot_prefix(vec1@, vec2@, i as int);
            lemma_dot_bound(vec1@.subrange(0, i as int), vec2@.subrange(0, i as int), VAL_LIMIT);
            let v = VAL_LIMIT as int;
            assert(-(v * v) <= vec1@[i as int] * vec2@[i as int] <= v * v) by (nonlinear_arith)
                requires -v <= vec1@[i as int] <= v, -v <= vec2@[i as int] <= v;
            assert((i as int) * v * v + v * v == (i + 1) as int * v * v) by (nonlinear_arith);
            assert((i + 1) as int * v * v <= (DIM_LIMIT as int) * v * v) by (nonlinear_arith)
                requires (i + 1) as int <= DIM_LIMIT as int, v >= 0;
            assert((DIM_LIMIT as int) * v * v == 0x1000_0000_0000_0000) by (nonlinear_arith)
                requires v == 0x40_0000, DIM_LIMIT == 0x1_0000usize;
        }
        let p = vec1[i] * vec2[i];
        sum = sum + p;
        i = i + 1;
    }
    proof {
        assert(vec1@.subrange(0, n as int) =~= vec1@);
        assert(vec2@.subrange(0, n as int) =~= vec2@);
    }
    Ok(sum)
}

/// One more than the largest root bisection ever probes: 2^64.
pub const SQRT_PROBE_LIMIT: u128 = 18446744073709551616;

/// Floor integer square root, by bisection.
pub fn isqrt(n: u128) -> (r: u128)
    ensures
        r == sqrt_floor(n as int),
{
    proof {
        lemma_sqrt_floor(n as int);
    }
    if n == 0 {
        return 0;
    }
    let mut lo: u128 = 0;
    let mut hi: u128 = SQRT_PROBE_LIMIT;
    proof {
        assert((n as int) < (SQRT_PROBE_LIMIT as int) * (SQRT_PROBE_LIMIT as int))
            by (nonlinear_arith)
            requires (n as int) <= u128::MAX as int;
    }
    while lo + 1 < hi
        invariant
            lo < hi,
            hi <= SQRT_PROBE_LIMIT,
            (lo as int) * (lo as int) <= n as int,
            (n as int) < (hi as int) * (hi as int),
        decreases hi - lo,
    {
        let mid = lo + (hi - lo) / 2;
        proof {
            assert((mid as int) * (mid as int)
                <= ((SQRT_PROBE_LIMIT - 1) as int) * ((SQRT_PROBE_LIMIT - 1) as int))
                by (nonlinear_arith)
                requires 0 <= (mid as int) <= (SQRT_PROBE_LIMIT - 1) as int;
        }
        if mid * mid <= n {
            lo = mid;
        } else {
            hi = mid;
        }
    }
    proof {
        lemma_sqrt_floor_unique(n as int, lo as int);
    }
    lo
}

/// Floor square root of the dot product of a vector with itself.
pub fn get_norm(vec1: &[i64]) -> (r: Result<i64, AnnError>)
    requires
        vec1@.len() <= DIM_LIMIT,
        bounded(vec1@, VAL_LIMIT),
    ensures
        r is Ok,
        r->Ok_0 == sqrt_floor(dot_spec(vec1@, vec1@)),
        0 <= r->Ok_0 <= COMPONENT_NORM_LIMIT,
{
    proof {
        lemma_self_dot_nonneg(vec1@);
        lemma_dot_bound(vec1@, vec1@, VAL_LIMIT);
        let v = VAL_LIMIT as int;
        assert(vec1@.len() * v * v <= (DIM_LIMIT as int) * v * v) by (nonlinear_arith)
            requires vec1@.len() <= DIM_LIMIT as int, v >= 0;
        assert((DIM_LIMIT as int) * v * v == 0x1000_0000_0000_0000) by (nonlinear_arith)
            requires v == 0x40_0000, DIM_LIMIT == 0x1_0000usize;
    }
    let d = match dot(vec1, vec1) {
        Ok(v) => v,
        Err(_) => 0,  // unreachable: the two arguments are the same slice
    };
    let r = isqrt(d as u128);
    proof {
        let ri = r as int;
        lemma_sqrt_floor(d as int);
        assert(ri <= COMPONENT_NORM_LIMIT as int) by (nonlinear_arith)
            requires
                ri >= 0,
                ri * ri <= d as int,
                d as int <= 0x4000_0000_0000_0000,
                COMPONENT_NORM_LIMIT == 0x8000_0000i64;
    }
    Ok(r as i64)
}

/// Upper bound on any norm `get_norm` can return.
pub const COMPONENT_NORM_LIMIT: i64 = 0x8000_0000;

/// Two slices have the same length.
pub fn same_dimension(vec1: &[i64], vec2: &[i64]) -> (r: Result<(), AnnError>)
    ensures
        r is Ok <==> vec1@.len() == vec2@.len(),
        r is Err ==> r->Err_0 == AnnError::DimensionMismatch,
{
    if vec1.len() != vec2.len() {
        return Err(AnnError::DimensionMismatch);
    }
    Ok(())
}

} // verus!
