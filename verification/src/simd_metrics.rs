//! The lane-parallel fast path: the dot product computed in eight
//! independent lanes over fixed-width chunks, with a scalar fold of the
//! tail.  Over fixed-point values the lane-parallel result is proved
//! *exactly* equal to the scalar definition — integer addition
//! reassociates freely, so no reassociation slack is needed.

use crate::calc::{bounded, dot_spec, lemma_dot_bound};
use crate::{AnnError, DIM_LIMIT, VAL_LIMIT};
use vstd::prelude::*;

verus! {

/// The number of lanes of the fast path.
pub const LANES: usize = 8;

/// Eight-lane dot product, exactly the scalar dot product.
pub fn dot_product(a: &[i64], b: &[i64]) -> (r: Result<i64, AnnError>)
    requires
        a@.len() <= DIM_LIMIT,
        bounded(a@, VAL_LIMIT),
        bounded(b@, VAL_LIMIT),
    ensures
        match r {
            Ok(v) => a@.len() == b@.len() && v == dot_spec(a@, b@),
            Err(e) => a@.len() != b@.len() && e == AnnError::DimensionMismatch,
        },
{
    if a.len() != b.len() {
        return Err(AnnError::DimensionMismatch);
    }
    let n = a.len();
    let chunks = n / LANES;
    let mut l0: i64 = 0;
    let mut l1: i64 = 0;
    let mut l2: i64 = 0;
    let mut l3: i64 = 0;
    let mut l4: i64 = 0;
    let mut l5: i64 = 0;
    let mut l6: i64 = 0;
    let mut l7: i64 = 0;
    let ghost v = VAL_LIMIT as int;
    let ghost cap = v * v;
    let mut c: usize = 0;
    proof {
        assert(a@.subrange(0, 0) =~= Seq::<i64>::empty());
    }
    while c < chunks
        invariant
            c <= chunks,
            chunks == n / LANES,
            n == a@.len() == b@.len(),
            n <= DIM_LIMIT,
            LANES * chunks <= n,
            bounded(a@, VAL_LIMIT),
            bounded(b@, VAL_LIMIT),
            v == VAL_LIMIT as int,
            cap == v * v,
            l0 + l1 + l2 + l3 + l4 + l5 + l6 + l7 == dot_spec(a@.subrange(0, (LANES
                * c) as int), b@.subrange(0, (LANES * c) as int)),
            -((c as int) * cap) <= l0 <= (c as int) * cap,
            -((c as int) * cap) <= l1 <= (c as int) * cap,
            -((c as int) * cap) <= l2 <= (c as int) * cap,
            -((c as int) * cap) <= l3 <= (c as int) * cap,
            -((c as int) * cap) <= l4 <= (c as int) * cap,
            -((c as int) * cap) <= l5 <= (c as int) * cap,
            -((c as int) * cap) <= l6 <= (c as int) * cap,
            -((c as int) * cap) <= l7 <= (c as int) * cap,
        decreases chunks - c,
    {
        let base = c * LANES;
        proof {
            vstd::arithmetic::div_mod::lemma_fundamental_div_mod(n as int, LANES as int);
            vstd::arithmetic::div_mod::lemma_remainder_lower(n as int, LANES as int);
            assert((c as int) * (LANES as int) + (LANES as int) <= (chunks as int) * (
            LANES as int)) by (nonlinear_arith)
                requires (c as int) < chunks as int, LANES == 8usize;
            assert((chunks as int) * (LANES as int) <= n as int) by (nonlinear_arith)
                requires
                    chunks as int == (n as int) / 8,
                    LANES == 8usize,
                    n as int == 8 * ((n as int) / 8) + (n as int) % 8,
                    (n as int) % 8 >= 0,
            ;
            let m = VAL_LIMIT as int;
            assert forall|i: int, j: int|
                #![trigger a@[i], b@[j]]
                0 <= i < a@.len() && 0 <= j < b@.len() implies -cap <= a@[i] * b@[j]
                <= cap by {
                assert(-cap <= a@[i] * b@[j] <= cap) by (nonlinear_arith)
                    requires -m <= a@[i] <= m, -m <= b@[j] <= m, cap == m * m;
            }
            assert((c as int) * cap + cap == ((c + 1) as int) * cap) by (nonlinear_arith);
            assert(((c + 1) as int) * cap <= (DIM_LIMIT as int) * cap) by (nonlinear_arith)
                requires ((c + 1) as int) <= DIM_LIMIT as int, cap >= 0;
            assert((DIM_LIMIT as int) * cap == 0x1000_0000_0000_0000) by (nonlinear_arith)
                requires cap == 0x40_0000 * 0x40_0000, DIM_LIMIT == 0x1_0000usize;
        }
        l0 = l0 + a[base] * b[base];
        l1 = l1 + a[base + 1] * b[base + 1];
        l2 = l2 + a[base + 2] * b[base + 2];
        l3 = l3 + a[base + 3] * b[base + 3];
        l4 = l4 + a[base + 4] * b[base + 4];
        l5 = l5 + a[base + 5] * b[base + 5];
        l6 = l6 + a[base + 6] * b[base + 6];
        l7 = l7 + a[base + 7] * b[base + 7];
        proof {
            let p = (LANES * c) as int;
            lemma_dot_unfold8(a@, b@, p);
        }
        c = c + 1;
    }
    // fold the lanes, then the scalar tail
    proof {
        vstd::arithmetic::div_mod::lemma_div_is_ordered(n as int, DIM_LIMIT as int,
            LANES as int);
        assert((chunks as int) * cap <= 8192 * cap) by (nonlinear_arith)
            requires chunks as int <= 8192, cap >= 0;
        assert(8192 * cap == 0x200_0000_0000_0000int) by (nonlinear_arith)
            requires cap == 0x40_0000 * 0x40_0000;
    }
    let sum0: i64 = (l0 + l1) + (l2 + l3);
    let sum1: i64 = (l4 + l5) + (l6 + l7);
    let mut sum: i64 = sum0 + sum1;
    let mut i: usize = chunks * LANES;
    proof {
        vstd::arithmetic::div_mod::lemma_fundamental_div_mod(n as int, LANES as int);
        vstd::arithmetic::div_mod::lemma_remainder_lower(n as int, LANES as int);
        assert((chunks as int) * (LANES as int) <= n as int) by (nonlinear_arith)
            requires
                chunks as int == (n as int) / 8,
                LANES == 8usize,
                n as int == 8 * ((n as int) / 8) + (n as int) % 8,
                (n as int) % 8 >= 0,
        ;
        assert((i as int) * cap == 8 * ((chunks as int) * cap)) by (nonlinear_arith)
            requires i as int == (chunks as int) * 8;
    }
    while i < n
        invariant
            chunks * LANES <= i <= n,
            n == a@.len() == b@.len(),
            n <= DIM_LIMIT,
            bounded(a@, VAL_LIMIT),
            bounded(b@, VAL_LIMIT),
            sum == dot_spec(a@.subrange(0, i as int), b@.subrange(0, i as int)),
            -((i as int) * ((VAL_LIMIT as int) * (VAL_LIMIT as int))) <= sum <= (i as int) * ((
            VAL_LIMIT as int) * (VAL_LIMIT as int)),
        decreases n - i,
    {
        proof {
            crate::calc::lemma_dot_prefix(a@, b@, i as int);
            lemma_dot_bound(a@.subrange(0, i as int), b@.subrange(0, i as int), VAL_LIMIT);
            let m = VAL_LIMIT as int;
            assert(-(m * m) <= a@[i as int] * b@[i as int] <= m * m) by (nonlinear_arith)
                requires -m <= a@[i as int] <= m, -m <= b@[i as int] <= m;
            assert((i as int) * (m * m) + m * m == ((i + 1) as int) * (m * m))
                by (nonlinear_arith);
            assert(((i + 1) as int) * (m * m) <= (DIM_LIMIT as int) * (m * m))
                by (nonlinear_arith)
                requires (i + 1) as int <= DIM_LIMIT as int, m >= 0;
            assert((DIM_LIMIT as int) * (m * m) == 0x1000_0000_0000_0000) by (nonlinear_arith)
                requires m == 0x40_0000, DIM_LIMIT == 0x1_0000usize;
        }
        sum = sum + a[i] * b[i];
        i = i + 1;
    }
    proof {
        assert(a@.subrange(0, n as int) =~= a@);
        assert(b@.subrange(0, n as int) =~= b@);
        lemma_dot_bound(a@, b@, VAL_LIMIT);
        let m = VAL_LIMIT as int;
        assert(a@.len() * m * m <= (DIM_LIMIT as int) * m * m) by (nonlinear_arith)
            requires a@.len() <= DIM_LIMIT as int, m >= 0;
        assert((DIM_LIMIT as int) * m * m == 0x1000_0000_0000_0000) by (nonlinear_arith)
            requires m == 0x40_0000, DIM_LIMIT == 0x1_0000usize;
    }
    Ok(sum)
}

/// Peeling eight elements at once off aligned prefixes.
proof fn lemma_dot_unfold8(a: Seq<i64>, b: Seq<i64>, p: int)
    requires
        0 <= p,
        p + 8 <= a.len(),
        p + 8 <= b.len(),
    ensures
        dot_spec(a.subrange(0, p + 8), b.subrange(0, p + 8)) == dot_spec(a.subrange(0, p),
            b.subrange(0, p)) + a[p] * b[p] + a[p + 1] * b[p + 1] + a[p + 2] * b[p + 2] + a[p
            + 3] * b[p + 3] + a[p + 4] * b[p + 4] + a[p + 5] * b[p + 5] + a[p + 6] * b[p + 6]
            + a[p + 7] * b[p + 7],
{
    crate::calc::lemma_dot_prefix(a, b, p);
    crate::calc::lemma_dot_prefix(a, b, p + 1);
    crate::calc::lemma_dot_prefix(a, b, p + 2);
    crate::calc::lemma_dot_prefix(a, b, p + 3);
    crate::calc::lemma_dot_prefix(a, b, p + 4);
    crate::calc::lemma_dot_prefix(a, b, p + 5);
    crate::calc::lemma_dot_prefix(a, b, p + 6);
    crate::calc::lemma_dot_prefix(a, b, p + 7);
}

} // verus!
