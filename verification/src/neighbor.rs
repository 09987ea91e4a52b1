//! The `(index, distance)` record every index uses to rank candidates.

use vstd::prelude::*;

verus! {

/// A candidate: an internal node index together with its distance from
/// the query.  Ordering is always by `_distance` ascending.
#[derive(Clone, Copy, Debug, PartialEq, Eq, Structural)]
pub struct Neighbor {
    pub _idx: usize,
    pub _distance: i64,
}

impl Neighbor {
    pub fn new(idx: usize, distance: i64) -> (r: Neighbor)
        ensures
            r._idx == idx,
            r._distance == distance,
    {
        Neighbor { _idx: idx, _distance: distance }
    }

    pub fn idx(&self) -> (r: usize)
        ensures
            r == self._idx,
    {
        self._idx
    }

    pub fn distance(&self) -> (r: i64)
        ensures
            r == self._distance,
    {
        self._distance
    }
}

/// Distances never decrease along the sequence.
pub open spec fn sorted_asc(s: Seq<Neighbor>) -> bool {
    forall|i: int, j: int| 0 <= i < j < s.len() ==> s[i]._distance <= s[j]._distance
}

/// No two records name the same node.
pub open spec fn distinct_idx(s: Seq<Neighbor>) -> bool {
    forall|i: int, j: int| 0 <= i < j < s.len() ==> s[i]._idx != s[j]._idx
}

/// `sel` is an exact top-k selection from the score table `sc` (one entry
/// per node, at its own index): sorted ascending, naming distinct nodes,
/// of maximal size, each selected entry taken verbatim from the table,
/// and no unselected entry closer than a selected one.  Ties may fall
/// either way.
pub open spec fn exact_topk(sel: Seq<Neighbor>, sc: Seq<Neighbor>, k: int) -> bool {
    &&& sorted_asc(sel)
    &&& distinct_idx(sel)
    &&& sel.len() == if k < sc.len() {
        k
    } else {
        sc.len() as int
    }
    &&& forall|j: int| 0 <= j < sel.len() ==> 0 <= #[trigger] sel[j]._idx < sc.len() && sel[j]
        == sc[sel[j]._idx as int]
    &&& forall|p: int, j: int|
        #![trigger sc[p], sel[j]]
        0 <= p < sc.len() && 0 <= j < sel.len() && (forall|t: int|
            0 <= t < sel.len() ==> (#[trigger] sel[t])._idx != p) ==> sel[j]._distance
            <= sc[p]._distance
}

} // verus!
