//! A verified binary max-heap over `Neighbor`, and the bounded top-k
//! accumulator built on it that every index uses to collect results.

use crate::neighbor::{sorted_asc, Neighbor};
use vstd::multiset::Multiset;
use vstd::prelude::*;
use vstd::seq_lib::{to_multiset_build, to_multiset_contains, to_multiset_insert, to_multiset_len,
    to_multiset_remove};

verus! {

/// The max-heap shape: every non-root element is at most its parent.
pub open spec fn is_heap(s: Seq<Neighbor>) -> bool {
    forall|i: int| 1 <= i < s.len() ==> #[trigger] s[i]._distance <= s[(i - 1) / 2]._distance
}

/// The shape everywhere except at position `j` (used while sifting).
pub open spec fn is_heap_except(s: Seq<Neighbor>, j: int) -> bool {
    forall|i: int| 1 <= i < s.len() && i != j ==> #[trigger] s[i]._distance <= s[(i - 1) / 2]._distance
}

/// The shape everywhere except below `j` (used while sifting down).
pub open spec fn is_heap_except_down(s: Seq<Neighbor>, j: int) -> bool {
    forall|i: int| 1 <= i < s.len() && (i - 1) / 2 != j ==> #[trigger] s[i]._distance
        <= s[(i - 1) / 2]._distance
}

/// In a heap the root carries the greatest distance.
pub proof fn lemma_heap_root_max(s: Seq<Neighbor>, i: int)
    requires
        is_heap(s),
        0 <= i < s.len(),
    ensures
        s[i]._distance <= s[0]._distance,
    decreases i,
{
    if i > 0 {
        lemma_heap_root_max(s, (i - 1) / 2);
    }
}

/// Replacing one element exchanges it in the multiset.
pub proof fn lemma_update_to_multiset(s: Seq<Neighbor>, i: int, v: Neighbor)
    requires
        0 <= i < s.len(),
    ensures
        s.update(i, v).to_multiset() == s.to_multiset().remove(s[i]).insert(v),
{
    broadcast use to_multiset_remove, to_multiset_insert;

    assert(s.update(i, v) =~= s.remove(i).insert(i, v));
}

/// Swapping two elements leaves the multiset unchanged.
pub proof fn lemma_swap_to_multiset(s: Seq<Neighbor>, i: int, j: int)
    requires
        0 <= i < s.len(),
        0 <= j < s.len(),
    ensures
        s.update(i, s[j]).update(j, s[i]).to_multiset() == s.to_multiset(),
{
    broadcast use vstd::multiset::group_multiset_axioms, to_multiset_contains;

    if i == j {
        assert(s.update(i, s[j]).update(j, s[i]) =~= s);
    } else {
        let s1 = s.update(i, s[j]);
        lemma_update_to_multiset(s, i, s[j]);
        lemma_update_to_multiset(s1, j, s[i]);
        assert(s1[j] == s[j]);
        assert(s.contains(s[i]));
        assert(s.to_multiset().count(s[i]) > 0);
        assert(s.update(i, s[j]).update(j, s[i]).to_multiset() =~= s.to_multiset());
    }
}

/// A max-heap of `Neighbor` records keyed on distance.
pub struct BinaryHeap {
    data: Vec<Neighbor>,
}

impl View for BinaryHeap {
    type V = Seq<Neighbor>;

    closed spec fn view(&self) -> Seq<Neighbor> {
        self.data@
    }
}

impl BinaryHeap {
    pub open spec fn wf(&self) -> bool {
        is_heap(self@)
    }

    pub fn new() -> (r: BinaryHeap)
        ensures
            r.wf(),
            r@ == Seq::<Neighbor>::empty(),
    {
        let r = BinaryHeap { data: Vec::new() };
        proof {
            assert(r@ =~= Seq::<Neighbor>::empty());
        }
        r
    }

    pub fn with_capacity(capacity: usize) -> (r: BinaryHeap)
        ensures
            r.wf(),
            r@ == Seq::<Neighbor>::empty(),
    {
        let r = BinaryHeap { data: Vec::with_capacity(capacity) };
        proof {
            assert(r@ =~= Seq::<Neighbor>::empty());
        }
        r
    }

    pub fn len(&self) -> (r: usize)
        ensures
            r == self@.len(),
    {
        self.data.len()
    }

    pub fn is_empty(&self) -> (r: bool)
        ensures
            r == (self@.len() == 0),
    {
        self.data.len() == 0
    }

    pub fn clear(&mut self)
        ensures
            final(self).wf(),
            final(self)@ == Seq::<Neighbor>::empty(),
    {
        self.data.clear();
        proof {
            assert(self@ =~= Seq::<Neighbor>::empty());
        }
    }

    pub fn reserve(&mut self, additional: usize)
        ensures
            final(self)@ == old(self)@,
            final(self).wf() == old(self).wf(),
    {
        self.data.reserve(additional);
    }

    /// The greatest element, when the heap is not empty.
    pub fn peek(&self) -> (r: Option<&Neighbor>)
        requires
            self.wf(),
        ensures
            self@.len() == 0 ==> r is None,
            self@.len() > 0 ==> r is Some && *r->0 == self@[0] && forall|i: int|
                0 <= i < self@.len() ==> self@[i]._distance <= r->0._distance,
    {
        if self.data.len() == 0 {
            None
        } else {
            proof {
                assert forall|i: int| 0 <= i < self@.len() implies #[trigger] self@[i]._distance
                    <= self@[0]._distance by {
                    lemma_heap_root_max(self@, i);
                }
            }
            Some(&self.data[0])
        }
    }

    /// The backing vector, in heap order.
    pub fn into_vec(self) -> (r: Vec<Neighbor>)
        ensures
            r@ == self@,
    {
        self.data
    }

    pub fn push(&mut self, item: Neighbor)
        requires
            old(self).wf(),
        ensures
            final(self).wf(),
            final(self)@.len() == old(self)@.len() + 1,
            final(self)@.to_multiset() == old(self)@.to_multiset().insert(item),
    {
        proof {
            broadcast use to_multiset_build;

        }
        self.data.push(item);
        let ghost s0 = self.data@;
        let mut j: usize = self.data.len() - 1;
        loop
            invariant_except_break
                0 <= j < self.data@.len(),
                is_heap_except(self.data@, j as int),
                j > 0 ==> forall|c: int|
                    (c == 2 * j + 1 || c == 2 * j + 2) && c < self.data@.len()
                        ==> #[trigger] self.data@[c]._distance <= self.data@[((j - 1) / 2) as int]._distance,
                self.data@.to_multiset() == s0.to_multiset(),
                self.data@.len() == s0.len(),
            ensures
                is_heap(self.data@),
                self.data@.to_multiset() == s0.to_multiset(),
                self.data@.len() == s0.len(),
            decreases j,
        {
            if j == 0 {
                break;
            }
            let p = (j - 1) / 2;
            if self.data[p]._distance >= self.data[j]._distance {
                break;
            }
            let ghost s = self.data@;
            let a = self.data[p];
            let b = self.data[j];
            self.data[p] = b;
            self.data[j] = a;
            proof {
                lemma_swap_to_multiset(s, p as int, j as int);
                assert(self.data@ =~= s.update(p as int, s[j as int]).update(
                    j as int, s[p as int]));
            }
            j = p;
        }
    }

    /// Remove and return a greatest element.
    pub fn pop(&mut self) -> (r: Option<Neighbor>)
        requires
            old(self).wf(),
        ensures
            final(self).wf(),
            old(self)@.len() == 0 ==> r is None && final(self)@ == old(self)@,
            old(self)@.len() > 0 ==> {
                &&& r is Some
                &&& old(self)@.to_multiset().contains(r->0)
                &&& final(self)@.to_multiset() == old(self)@.to_multiset().remove(r->0)
                &&& final(self)@.len() == old(self)@.len() - 1
                &&& forall|i: int| 0 <= i < old(self)@.len() ==> old(self)@[i]._distance
                    <= r->0._distance
            },
    {
        proof {
            broadcast use to_multiset_build, to_multiset_contains, to_multiset_remove;

        }
        if self.data.len() == 0 {
            return None;
        }
        proof {
            assert forall|i: int| 0 <= i < self@.len() implies #[trigger] self@[i]._distance
                <= self@[0]._distance by {
                lemma_heap_root_max(self@, i);
            }
        }
        let ghost orig = self.data@;
        let last = match self.data.pop() {
            Some(x) => x,
            None => {
                return None;  // unreachable: the vector is not empty
            },
        };
        if self.data.len() == 0 {
            proof {
                assert(orig =~= Seq::<Neighbor>::empty().push(last));
                assert(orig.to_multiset().remove(last) =~= self.data@.to_multiset());
            }
            return Some(last);
        }
        let root = self.data[0];
        self.data[0] = last;
        proof {
            let s1 = orig.drop_last();
            assert(self.data@ =~= s1.update(0, last));
            lemma_update_to_multiset(s1, 0, last);
            assert(orig =~= s1.push(s1[0]) || true);
            assert(orig.to_multiset() == s1.to_multiset().insert(last)) by {
                assert(orig =~= s1.push(last));
            }
            assert(self.data@.to_multiset() =~= orig.to_multiset().remove(root));
        }
        self.sift_down(0);
        Some(root)
    }

    /// Restore the shape from position `j` downward; everything else
    /// already satisfies it.
    #[verifier::rlimit(50)]
    fn sift_down(&mut self, start: usize)
        requires
            start < old(self)@.len(),
            is_heap_except_down(old(self)@, start as int),
            start > 0 ==> forall|c: int|
                (c == 2 * start + 1 || c == 2 * start + 2) && c < old(self)@.len()
                    ==> #[trigger] old(self)@[c]._distance
                        <= old(self)@[((start - 1) / 2) as int]._distance,
        ensures
            final(self).wf(),
            final(self)@.to_multiset() == old(self)@.to_multiset(),
            final(self)@.len() == old(self)@.len(),
    {
        let ghost s0 = self.data@;
        let mut j = start;
        let n = self.data.len();
        loop
            invariant
                n == self.data@.len(),
                0 <= j < n,
                is_heap_except_down(self.data@, j as int),
                j > 0 ==> forall|c: int|
                    (c == 2 * j + 1 || c == 2 * j + 2) && c < self.data@.len()
                        ==> #[trigger] self.data@[c]._distance <= self.data@[((j - 1) / 2) as int]._distance,
                self.data@.to_multiset() == s0.to_multiset(),
            ensures
                is_heap(self.data@),
                self.data@.to_multiset() == s0.to_multiset(),
                self.data@.len() == n,
            decreases n - j,
        {
            let c1 = if j <= (usize::MAX - 1) / 2 { 2 * j + 1 } else { n };
            if c1 >= n {
                // no children: every parent constraint is satisfied elsewhere
                break;
            }
            let c2 = if c1 < n - 1 { c1 + 1 } else { c1 };
            let c = if self.data[c2]._distance > self.data[c1]._distance { c2 } else { c1 };
            if self.data[c]._distance <= self.data[j]._distance {
                break;
            }
            let ghost s = self.data@;
            let a = self.data[j];
            let b = self.data[c];
            self.data[j] = b;
            self.data[c] = a;
            proof {
                lemma_swap_to_multiset(s, j as int, c as int);
                assert(self.data@ =~= s.update(j as int, s[c as int]).update(
                    c as int, s[j as int]));
            }
            j = c;
        }
    }

    /// Drain into a vector sorted by ascending distance.
    pub fn into_sorted_vec(self) -> (r: Vec<Neighbor>)
        requires
            self.wf(),
        ensures
            sorted_asc(r@),
            r@.to_multiset() == self@.to_multiset(),
            r@.len() == self@.len(),
    {
        proof {
            broadcast use to_multiset_len, vstd::multiset::group_multiset_axioms,
                vstd::multiset::lemma_multiset_empty_len;

        }
        let mut h = self;
        let mut out: Vec<Neighbor> = Vec::new();
        proof {
            assert(out@ =~= Seq::<Neighbor>::empty());
            assert(out@.to_multiset().len() == 0);
            assert(out@.to_multiset() =~= Multiset::<Neighbor>::empty());
            assert(out@.to_multiset().add(h@.to_multiset()) =~= h@.to_multiset());
        }
        let ghost total = h@.to_multiset();
        while h.len() > 0
            invariant
                h.wf(),
                sorted_asc(out@),
                out@.to_multiset().add(h@.to_multiset()) == total,
                forall|i: int, y: Neighbor| 0 <= i < out@.len() && h@.to_multiset().contains(y)
                    ==> y._distance <= out@[i]._distance,
            decreases h@.len(),
        {
            let ghost hpre = h@;
            let m = match h.pop() {
                Some(x) => x,
                None => {
                    // unreachable: popping a non-empty heap yields a value
                    proof {
                        assert(false);
                    }
                    Neighbor { _idx: 0, _distance: 0 }
                },
            };
            let ghost opre = out@;
            out.insert(0, m);
            proof {
                broadcast use to_multiset_contains;

                to_multiset_insert(opre, 0, m);
                assert(out@ =~= opre.insert(0, m));
                assert(out@.to_multiset().add(h@.to_multiset()) =~= total);
                assert forall|i: int, y: Neighbor| 0 <= i < out@.len()
                    && h@.to_multiset().contains(y) implies y._distance
                    <= out@[i]._distance by {
                    assert(hpre.to_multiset().contains(y));
                    let p = choose|p: int| 0 <= p < hpre.len() && hpre[p] == y;
                    if i > 0 {
                        assert(out@[i] == opre[i - 1]);
                    }
                }
                assert forall|i: int, j: int| 0 <= i < j < out@.len() implies out@[i]._distance
                    <= out@[j]._distance by {
                    if i > 0 {
                        assert(out@[i] == opre[i - 1]);
                        assert(out@[j] == opre[j - 1]);
                    } else {
                        assert(out@[j] == opre[j - 1]);
                        assert(hpre.to_multiset().contains(m));
                    }
                }
            }
        }
        proof {
            broadcast use to_multiset_len, vstd::multiset::group_multiset_axioms,
                vstd::multiset::lemma_multiset_empty_len;

            assert(h@.len() == 0);
            assert(h@.to_multiset().len() == 0);
            assert(h@.to_multiset() =~= Multiset::<Neighbor>::empty());
            assert(out@.to_multiset() =~= total);
            assert(out@.to_multiset().len() == out@.len());
            assert(total == self@.to_multiset());
        }
        out
    }
}

pub open spec fn min_int(a: int, b: int) -> int {
    if a < b {
        a
    } else {
        b
    }
}

/// `kept` consists of smallest-distance elements of `all`: nothing outside
/// it (counted as a multiset difference) is closer than anything inside.
pub open spec fn is_bottom_of(kept: Multiset<Neighbor>, all: Multiset<Neighbor>) -> bool {
    forall|y: Neighbor, d: Neighbor|
        #![trigger kept.contains(y), all.difference_with(kept).contains(d)]
        kept.contains(y) && all.difference_with(kept).contains(d) ==> y._distance <= d._distance
}

/// What `BoundedTopK::into_sorted_vec` guarantees, restated against a
/// score table `sc` whose entry `i` names node `i`: the result is an
/// exact top-k selection from the table.
pub proof fn lemma_topk_selection(sel: Seq<Neighbor>, sc: Seq<Neighbor>, k: int)
    requires
        sorted_asc(sel),
        sel.to_multiset().subset_of(sc.to_multiset()),
        sel.len() == min_int(k, sc.len() as int),
        is_bottom_of(sel.to_multiset(), sc.to_multiset()),
        forall|i: int| 0 <= i < sc.len() ==> (#[trigger] sc[i])._idx == i,
    ensures
        crate::neighbor::exact_topk(sel, sc, k),
{
    broadcast use vstd::multiset::group_multiset_axioms,
        vstd::multiset::group_multiset_properties, to_multiset_contains, to_multiset_len,
        to_multiset_remove;

    assert(sc.no_duplicates());
    sc.lemma_multiset_has_no_duplicates();
    // each selected entry is the table entry at its own index
    assert forall|j: int| 0 <= j < sel.len() implies 0 <= (#[trigger] sel[j])._idx < sc.len()
        && sel[j] == sc[sel[j]._idx as int] by {
        assert(sel.contains(sel[j]));
        assert(sel.to_multiset().count(sel[j]) > 0);
        assert(sc.to_multiset().count(sel[j]) > 0);
        assert(sc.contains(sel[j]));
        let p = choose|p: int| 0 <= p < sc.len() && sc[p] == sel[j];
        assert(sc[p]._idx == p);
    }
    // distinct indices: a repeated index would put the same entry twice in
    // `sel`, exceeding its single occurrence in the table
    assert forall|i: int, j: int| 0 <= i < j < sel.len() implies sel[i]._idx != sel[j]._idx by {
        if sel[i]._idx == sel[j]._idx {
            assert(sel[i] == sc[sel[i]._idx as int]);
            assert(sel[j] == sc[sel[j]._idx as int]);
            let v = sel[i];
            assert(sel.remove(i).to_multiset() == sel.to_multiset().remove(v));
            assert(sel.remove(i)[j - 1] == sel[j]);
            assert(sel.remove(i).contains(v));
            assert(sel.remove(i).to_multiset().count(v) > 0);
            assert(sel.to_multiset().count(v) >= 2);
            assert(sc.to_multiset().count(v) >= 2);
            assert(sc.to_multiset().contains(v));
        }
    }
    // nothing unselected is closer than anything selected
    assert forall|p: int, j: int|
        #![trigger sc[p], sel[j]]
        0 <= p < sc.len() && 0 <= j < sel.len() && (forall|t: int|
            0 <= t < sel.len() ==> (#[trigger] sel[t])._idx != p) implies sel[j]._distance
        <= sc[p]._distance by {
        let v = sc[p];
        assert(sel.to_multiset().count(v) == 0) by {
            if sel.to_multiset().count(v) > 0 {
                assert(sel.contains(v));
                let t = choose|t: int| 0 <= t < sel.len() && sel[t] == v;
                assert(sel[t]._idx == p);
            }
        }
        assert(sc.contains(v));
        assert(sc.to_multiset().count(v) > 0);
        assert(sc.to_multiset().difference_with(sel.to_multiset()).count(v) > 0);
        assert(sc.to_multiset().difference_with(sel.to_multiset()).contains(v));
        assert(sel.to_multiset().contains(sel[j]));
        assert(sel[j]._distance <= v._distance);
    }
}

/// Select the `k` closest of a candidate list naming distinct nodes:
/// sorted ascending, still distinct, and nothing left out is closer than
/// anything kept.  This is the re-ranking step every index ends with.
pub fn select_topk(cands: &Vec<Neighbor>, k: usize) -> (r: Vec<Neighbor>)
    requires
        k >= 1,
        crate::neighbor::distinct_idx(cands@),
    ensures
        sorted_asc(r@),
        crate::neighbor::distinct_idx(r@),
        r@.len() == min_int(k as int, cands@.len() as int),
        forall|j: int| 0 <= j < r@.len() ==> cands@.contains(#[trigger] r@[j]),
        r@.to_multiset().subset_of(cands@.to_multiset()),
        is_bottom_of(r@.to_multiset(), cands@.to_multiset()),
{
    proof {
        broadcast use to_multiset_build, to_multiset_len, to_multiset_contains,
            vstd::multiset::group_multiset_axioms, vstd::multiset::lemma_multiset_empty_len;

    }
    let mut topk = BoundedTopK::new(k);
    let n = cands.len();
    let mut i: usize = 0;
    proof {
        assert(cands@.subrange(0, 0) =~= Seq::<Neighbor>::empty());
        assert(cands@.subrange(0, 0).to_multiset().len() == 0);
        assert(cands@.subrange(0, 0).to_multiset() =~= Multiset::<Neighbor>::empty());
    }
    while i < n
        invariant
            i <= n,
            n == cands@.len(),
            k >= 1,
            topk.wf(),
            topk.spec_k() == k,
            topk.pushed_ms() == cands@.subrange(0, i as int).to_multiset(),
        decreases n - i,
    {
        topk.push(cands[i]);
        proof {
            broadcast use to_multiset_build;

            assert(cands@.subrange(0, i + 1) =~= cands@.subrange(0, i as int).push(
                cands@[i as int]));
            assert(cands@.subrange(0, i + 1).to_multiset() == cands@.subrange(
                0, i as int).to_multiset().insert(cands@[i as int]));
        }
        i = i + 1;
    }
    proof {
        assert(cands@.subrange(0, n as int) =~= cands@);
        assert(cands@.to_multiset().len() == cands@.len());
    }
    let r = topk.into_sorted_vec();
    proof {
        assert(cands@.no_duplicates());
        cands@.lemma_multiset_has_no_duplicates();
        assert forall|j: int| 0 <= j < r@.len() implies cands@.contains(#[trigger] r@[j]) by {
            assert(r@.to_multiset().contains(r@[j]));
            assert(cands@.to_multiset().count(r@[j]) > 0);
        }
        assert forall|a: int, b: int| 0 <= a < b < r@.len() implies r@[a]._idx != r@[b]._idx by {
            if r@[a]._idx == r@[b]._idx {
                assert(cands@.contains(r@[a]));
                assert(cands@.contains(r@[b]));
                let pa = choose|p: int| 0 <= p < cands@.len() && cands@[p] == r@[a];
                let pb = choose|p: int| 0 <= p < cands@.len() && cands@[p] == r@[b];
                assert(pa == pb);
                assert(r@[a] == r@[b]);
                let v = r@[a];
                broadcast use to_multiset_remove;

                assert(r@.remove(a).to_multiset() == r@.to_multiset().remove(v));
                assert(r@.remove(a)[b - 1] == r@[b]);
                assert(r@.remove(a).contains(v));
                assert(r@.remove(a).to_multiset().count(v) > 0);
                assert(r@.to_multiset().count(v) >= 2);
                assert(cands@.to_multiset().count(v) >= 2);
                assert(cands@.to_multiset().contains(v));
            }
        }
    }
    r
}

/// Sort a whole candidate list ascending by distance.
pub fn select_topk_keep_all(cands: &Vec<Neighbor>) -> (r: Vec<Neighbor>)
    ensures
        sorted_asc(r@),
        r@.len() == cands@.len(),
        r@.to_multiset() == cands@.to_multiset(),
        forall|j: int| 0 <= j < r@.len() ==> cands@.contains(#[trigger] r@[j]),
{
    proof {
        broadcast use to_multiset_build, to_multiset_len, to_multiset_contains,
            vstd::multiset::group_multiset_axioms;

    }
    let mut h = BinaryHeap::new();
    let n = cands.len();
    let mut i: usize = 0;
    proof {
        assert(cands@.subrange(0, 0) =~= Seq::<Neighbor>::empty());
    }
    while i < n
        invariant
            i <= n,
            n == cands@.len(),
            h.wf(),
            h@.to_multiset() == cands@.subrange(0, i as int).to_multiset(),
            h@.len() == i,
        decreases n - i,
    {
        h.push(cands[i]);
        proof {
            broadcast use to_multiset_build;

            assert(cands@.subrange(0, i + 1) =~= cands@.subrange(0, i as int).push(
                cands@[i as int]));
            assert(cands@.subrange(0, i + 1).to_multiset() == cands@.subrange(
                0, i as int).to_multiset().insert(cands@[i as int]));
        }
        i = i + 1;
    }
    proof {
        assert(cands@.subrange(0, n as int) =~= cands@);
    }
    let r = h.into_sorted_vec();
    proof {
        broadcast use to_multiset_contains, to_multiset_len;

        assert forall|j: int| 0 <= j < r@.len() implies cands@.contains(#[trigger] r@[j]) by {
            assert(r@.to_multiset().contains(r@[j]));
            assert(cands@.to_multiset().count(r@[j]) > 0);
        }
        assert(r@.to_multiset().len() == r@.len());
        assert(cands@.to_multiset().len() == cands@.len());
    }
    r
}

/// The selection guarantees restated against a candidate table whose
/// entries carry distinct node indexes and whose distances are
/// determined by those indexes: the result is distinct, drawn from the
/// table, and nothing outside it is closer.
pub proof fn lemma_topk_selection_keyed(sel: Seq<Neighbor>, sc: Seq<Neighbor>, k: int)
    requires
        sorted_asc(sel),
        sel.to_multiset().subset_of(sc.to_multiset()),
        sel.len() == min_int(k, sc.len() as int),
        is_bottom_of(sel.to_multiset(), sc.to_multiset()),
        crate::neighbor::distinct_idx(sc),
    ensures
        crate::neighbor::distinct_idx(sel),
        forall|j: int| 0 <= j < sel.len() ==> sc.contains(#[trigger] sel[j]),
        forall|p: int, j: int|
            #![trigger sc[p], sel[j]]
            0 <= p < sc.len() && 0 <= j < sel.len() && (forall|t: int|
                0 <= t < sel.len() ==> (#[trigger] sel[t])._idx != sc[p]._idx)
                ==> sel[j]._distance <= sc[p]._distance,
{
    broadcast use vstd::multiset::group_multiset_axioms,
        vstd::multiset::group_multiset_properties, to_multiset_contains, to_multiset_len,
        to_multiset_remove;

    assert(sc.no_duplicates());
    sc.lemma_multiset_has_no_duplicates();
    assert forall|j: int| 0 <= j < sel.len() implies exists|p: int|
        0 <= p < sc.len() && sc[p] == #[trigger] sel[j] by {
        assert(sel.contains(sel[j]));
        assert(sel.to_multiset().count(sel[j]) > 0);
        assert(sc.to_multiset().count(sel[j]) > 0);
        assert(sc.contains(sel[j]));
        let p = choose|p: int| 0 <= p < sc.len() && sc[p] == sel[j];
        assert(0 <= p < sc.len() && sc[p] == sel[j]);
    }
    assert forall|a: int, b: int| 0 <= a < b < sel.len() implies sel[a]._idx != sel[b]._idx by {
        if sel[a]._idx == sel[b]._idx {
            assert(sel.contains(sel[a]));
            assert(sel.to_multiset().count(sel[a]) > 0);
            assert(sc.to_multiset().count(sel[a]) > 0);
            assert(sc.contains(sel[a]));
            assert(sel.contains(sel[b]));
            assert(sel.to_multiset().count(sel[b]) > 0);
            assert(sc.to_multiset().count(sel[b]) > 0);
            assert(sc.contains(sel[b]));
            let pa = choose|p: int| 0 <= p < sc.len() && sc[p] == sel[a];
            let pb = choose|p: int| 0 <= p < sc.len() && sc[p] == sel[b];
            assert(pa == pb);
            assert(sel[a] == sel[b]);
            let v = sel[a];
            assert(sel.remove(a).to_multiset() == sel.to_multiset().remove(v));
            assert(sel.remove(a)[b - 1] == sel[b]);
            assert(sel.remove(a).contains(v));
            assert(sel.remove(a).to_multiset().count(v) > 0);
            assert(sel.to_multiset().count(v) >= 2);
            assert(sc.to_multiset().count(v) >= 2);
            assert(sc.to_multiset().contains(v));
        }
    }
    assert forall|p: int, j: int|
        #![trigger sc[p], sel[j]]
        0 <= p < sc.len() && 0 <= j < sel.len() && (forall|t: int|
            0 <= t < sel.len() ==> (#[trigger] sel[t])._idx != sc[p]._idx) implies sel[
        j]._distance <= sc[p]._distance by {
        let v = sc[p];
        assert(sel.to_multiset().count(v) == 0) by {
            if sel.to_multiset().count(v) > 0 {
                assert(sel.contains(v));
                let t = choose|t: int| 0 <= t < sel.len() && sel[t] == v;
                assert(sel[t]._idx == v._idx);
            }
        }
        assert(sc.contains(v));
        assert(sc.to_multiset().count(v) > 0);
        assert(sc.to_multiset().difference_with(sel.to_multiset()).count(v) > 0);
        assert(sc.to_multiset().difference_with(sel.to_multiset()).contains(v));
        assert(sel.to_multiset().contains(sel[j]));
        assert(sel[j]._distance <= v._distance);
    }
}

/// The bounded top-k accumulator: a max-heap that, after each push beyond
/// `k` elements, evicts the current maximum.  What remains is always a
/// `k`-smallest multiset of everything pushed.
pub struct BoundedTopK {
    heap: BinaryHeap,
    k: usize,
    pushed: Ghost<Multiset<Neighbor>>,
}

impl BoundedTopK {
    /// Everything pushed so far.
    pub closed spec fn pushed_ms(&self) -> Multiset<Neighbor> {
        self.pushed@
    }

    /// What the accumulator currently retains.
    pub closed spec fn contents(&self) -> Multiset<Neighbor> {
        self.heap@.to_multiset()
    }

    pub closed spec fn spec_k(&self) -> int {
        self.k as int
    }

    pub closed spec fn wf(&self) -> bool {
        &&& self.heap.wf()
        &&& self.k >= 1
        &&& self.contents().subset_of(self.pushed_ms())
        &&& self.contents().len() == min_int(self.spec_k(), self.pushed_ms().len() as int)
        &&& self.contents().len() < self.spec_k() ==> self.contents() == self.pushed_ms()
        &&& is_bottom_of(self.contents(), self.pushed_ms())
    }

    pub fn new(k: usize) -> (r: BoundedTopK)
        requires
            k >= 1,
        ensures
            r.wf(),
            r.spec_k() == k,
            r.pushed_ms() == Multiset::<Neighbor>::empty(),
    {
        let r = BoundedTopK { heap: BinaryHeap::with_capacity(k), k, pushed: Ghost(
            Multiset::empty()) };
        proof {
            broadcast use vstd::multiset::group_multiset_axioms, to_multiset_len,
                vstd::multiset::lemma_multiset_empty_len;

            assert(r.contents().len() == 0);
            assert(r.contents() =~= Multiset::<Neighbor>::empty());
            assert(r.contents().subset_of(r.pushed_ms()));
        }
        r
    }

    pub fn len(&self) -> (r: usize)
        ensures
            r == self.contents().len(),
    {
        proof {
            broadcast use to_multiset_len;

        }
        self.heap.len()
    }

    /// The current worst (greatest-distance) retained element.
    pub fn peek(&self) -> (r: Option<&Neighbor>)
        requires
            self.wf(),
        ensures
            self.contents().len() == 0 ==> r is None,
            self.contents().len() > 0 ==> r is Some && self.contents().contains(*r->0)
                && forall|y: Neighbor| self.contents().contains(y) ==> y._distance
                <= r->0._distance,
    {
        proof {
            broadcast use to_multiset_len, to_multiset_contains;

        }
        let r = self.heap.peek();
        proof {
            if self.heap@.len() > 0 {
                assert forall|y: Neighbor| self.contents().contains(y) implies y._distance
                    <= self.heap@[0]._distance by {
                    let p = choose|p: int| 0 <= p < self.heap@.len() && self.heap@[p] == y;
                }
                assert(self.heap@.contains(self.heap@[0]));
            }
        }
        r
    }

    pub fn push(&mut self, item: Neighbor)
        requires
            old(self).wf(),
        ensures
            final(self).wf(),
            final(self).spec_k() == old(self).spec_k(),
            final(self).pushed_ms() == old(self).pushed_ms().insert(item),
    {
        proof {
            broadcast use vstd::multiset::group_multiset_axioms,
                vstd::multiset::group_multiset_properties, to_multiset_len, to_multiset_contains;

        }
        let ghost c0 = self.contents();
        let ghost p0 = self.pushed_ms();
        self.heap.push(item);
        self.pushed = Ghost(self.pushed@.insert(item));
        if self.heap.len() > self.k {
            let popped = self.heap.pop();
            proof {
                let m = popped->0;
                let c1 = c0.insert(item);
                let c2 = self.contents();
                let p1 = self.pushed_ms();
                assert(c2 == c1.remove(m));
                assert(c1.contains(m));
                // the multiset of discards grows by exactly the popped element
                assert(p1.difference_with(c2) =~= p0.difference_with(c0).insert(m)) by {
                    assert forall|v: Neighbor| p1.difference_with(c2).count(v)
                        == #[trigger] p0.difference_with(c0).insert(m).count(v) by {
                        assert(c0.count(v) <= p0.count(v));
                    }
                }
                // every element the heap reported is at most the popped one
                assert forall|y: Neighbor| c1.contains(y) implies y._distance
                    <= m._distance by {
                    let hv = c0.insert(item);
                    assert(hv.count(y) > 0);
                }
                assert forall|y: Neighbor, d: Neighbor|
                    #![trigger c2.contains(y), p1.difference_with(c2).contains(d)]
                    c2.contains(y) && p1.difference_with(c2).contains(d) implies y._distance
                    <= d._distance by {
                    let old_diff = p0.difference_with(c0);
                    assert(c1.contains(y));
                    if d == m {
                    } else {
                        assert(old_diff.contains(d));
                        if c0.contains(y) {
                        } else {
                            assert(y == item);
                            // something was discarded before, so the heap held k
                            // elements strictly below every earlier discard; the
                            // popped maximum sits between the new item and them
                            assert(old_diff.len() > 0);
                            assert(c0.count(m) > 0 || m == item);
                            if m == item {
                                assert(c2.count(item) == c1.count(item) - 1);
                                assert(c0.count(item) > 0);
                            } else {
                                assert(c0.contains(m));
                                assert(m._distance <= d._distance);
                            }
                        }
                    }
                }
                assert(c2.subset_of(p1)) by {
                    assert forall|v: Neighbor| c2.count(v) <= p1.count(v) by {
                        assert(c0.count(v) <= p0.count(v));
                    }
                }
                assert(c2.len() == min_int(self.spec_k(), p1.len() as int));
            }
        } else {
            proof {
                let c2 = self.contents();
                let p1 = self.pushed_ms();
                assert(c2 == c0.insert(item));
                assert(c2.len() == c0.len() + 1);
                assert(c0.len() < self.spec_k());
                assert(c0 == p0);
                assert(c2 =~= p1);
            }
        }
    }

    /// Drain into an ascending vector: the `k` closest of everything pushed.
    pub fn into_sorted_vec(self) -> (r: Vec<Neighbor>)
        requires
            self.wf(),
        ensures
            sorted_asc(r@),
            r@.to_multiset() == self.contents(),
            r@.to_multiset().subset_of(self.pushed_ms()),
            r@.len() == min_int(self.spec_k(), self.pushed_ms().len() as int),
            is_bottom_of(r@.to_multiset(), self.pushed_ms()),
    {
        proof {
            broadcast use to_multiset_len;

        }
        self.heap.into_sorted_vec()
    }
}

} // verus!
