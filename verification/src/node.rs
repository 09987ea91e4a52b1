//! The point container every index stores: a fixed-point vector and an
//! optional external id.

use crate::calc::bounded;
use crate::metrics::{metric, metric_ok, metric_spec, Metric};
use crate::{AnnError, COMPONENT_LIMIT, DIM_LIMIT};
use vstd::prelude::*;
use vstd::slice::slice_to_vec;

verus! {

/// A point in the space.  Components are bounded by `COMPONENT_LIMIT`;
/// anything out of range is the fixed-point analogue of NaN or infinity
/// and is rejected before a node is built.
#[derive(Debug)]
pub struct MemoryNode {
    vectors: Vec<i64>,
    idx: Option<u64>,
}

impl Clone for MemoryNode {
    fn clone(&self) -> (r: Self)
        ensures
            r.vecs() == self.vecs(),
            r.id() == self.id(),
    {
        MemoryNode { vectors: self.vectors.clone(), idx: self.idx }
    }
}

impl MemoryNode {
    /// The coordinates.
    pub closed spec fn vecs(&self) -> Seq<i64> {
        self.vectors@
    }

    /// The external id, if one was attached.
    pub closed spec fn id(&self) -> Option<u64> {
        self.idx
    }

    /// Dimension in range and every component in range.
    pub open spec fn valid(&self) -> bool {
        self.vecs().len() <= DIM_LIMIT && bounded(self.vecs(), COMPONENT_LIMIT)
    }

    /// Every component lies within the accepted range.
    pub fn valid_elements(vectors: &[i64]) -> (r: bool)
        ensures
            r == bounded(vectors@, COMPONENT_LIMIT),
    {
        let n = vectors.len();
        let mut i: usize = 0;
        while i < n
            invariant
                i <= n,
                n == vectors@.len(),
                forall|j: int| 0 <= j < i ==> -COMPONENT_LIMIT <= #[trigger] vectors@[j]
                    <= COMPONENT_LIMIT,
            decreases n - i,
        {
            let v = vectors[i];
            if v < -COMPONENT_LIMIT || v > COMPONENT_LIMIT {
                return false;
            }
            i = i + 1;
        }
        true
    }

    /// A node without an id.
    pub fn new(vectors: &[i64]) -> (r: MemoryNode)
        requires
            vectors@.len() <= DIM_LIMIT,
            bounded(vectors@, COMPONENT_LIMIT),
        ensures
            r.vecs() == vectors@,
            r.id() is None,
            r.valid(),
    {
        MemoryNode { vectors: slice_to_vec(vectors), idx: None }
    }

    /// A node carrying an external id.
    pub fn new_with_idx(vectors: &[i64], id: u64) -> (r: MemoryNode)
        requires
            vectors@.len() <= DIM_LIMIT,
            bounded(vectors@, COMPONENT_LIMIT),
        ensures
            r.vecs() == vectors@,
            r.id() == Some(id),
            r.valid(),
    {
        let mut n = MemoryNode::new(vectors);
        n.set_idx(id);
        n
    }

    /// Distance from this node to another under the given metric.
    pub fn metric(&self, other: &MemoryNode, t: Metric) -> (r: Result<i64, AnnError>)
        requires
            self.valid(),
            other.valid(),
        ensures
            metric_ok(self.vecs(), other.vecs(), t) ==> r is Ok && r->Ok_0 as int == metric_spec(
                self.vecs(), other.vecs(), t),
            !metric_ok(self.vecs(), other.vecs(), t) ==> r is Err,
    {
        proof {
            crate::calc::lemma_bounded_widen(self.vecs(), COMPONENT_LIMIT, crate::VAL_LIMIT);
            crate::calc::lemma_bounded_widen(other.vecs(), COMPONENT_LIMIT, crate::VAL_LIMIT);
        }
        metric(self.vectors.as_slice(), other.vectors.as_slice(), t)
    }

    /// Borrow the coordinates.
    pub fn vectors(&self) -> (r: &Vec<i64>)
        ensures
            r@ == self.vecs(),
    {
        &self.vectors
    }

    /// Replace the coordinates.
    pub fn set_vectors(&mut self, v: &[i64])
        requires
            v@.len() <= DIM_LIMIT,
            bounded(v@, COMPONENT_LIMIT),
        ensures
            final(self).vecs() == v@,
            final(self).id() == old(self).id(),
            final(self).valid(),
    {
        self.vectors = slice_to_vec(v);
    }

    /// Dimension of the stored vector.
    pub fn len(&self) -> (r: usize)
        ensures
            r == self.vecs().len(),
    {
        self.vectors.len()
    }

    pub fn is_empty(&self) -> (r: bool)
        ensures
            r == (self.vecs().len() == 0),
    {
        self.vectors.len() == 0
    }

    /// The external id.
    pub fn idx(&self) -> (r: Option<u64>)
        ensures
            r == self.id(),
    {
        self.idx
    }

    pub fn set_idx(&mut self, id: u64)
        ensures
            final(self).vecs() == old(self).vecs(),
            final(self).id() == Some(id),
    {
        self.idx = Some(id);
    }
}

} // verus!
