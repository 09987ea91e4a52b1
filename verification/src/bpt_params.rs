//! Parameters of the binary-partition-tree forest.

use vstd::prelude::*;

verus! {

#[derive(Clone, Copy, Debug)]
pub struct BPTParams {
    pub tree_num: i32,
    pub candidate_size: i32,
}

impl BPTParams {
    pub fn tree_num(self, new_tree_num: i32) -> (r: Self)
        ensures
            r.tree_num == new_tree_num,
            r.candidate_size == self.candidate_size,
    {
        let mut s = self;
        s.tree_num = new_tree_num;
        s
    }

    pub fn candidate_size(self, new_candidate_size: i32) -> (r: Self)
        ensures
            r.candidate_size == new_candidate_size,
            r.tree_num == self.tree_num,
    {
        let mut s = self;
        s.candidate_size = new_candidate_size;
        s
    }
}

impl Default for BPTParams {
    fn default() -> (r: Self)
        ensures
            r.tree_num == 0,
            r.candidate_size == 0,
    {
        BPTParams { tree_num: 0, candidate_size: 0 }
    }
}

} // verus!
