//! Parameters of the hierarchical small-world graph index.

use vstd::prelude::*;

verus! {

#[derive(Clone, Copy, Debug)]
pub struct HNSWParams {
    pub max_item: usize,
    pub n_neighbor: usize,
    pub n_neighbor0: usize,
    pub max_level: usize,
    pub ef_build: usize,
    pub ef_search: usize,
    pub has_deletion: bool,
}

impl HNSWParams {
    pub fn max_item(self, new_max_item: usize) -> (r: Self)
        ensures
            r == (HNSWParams { max_item: new_max_item, ..self }),
    {
        let mut s = self;
        s.max_item = new_max_item;
        s
    }

    pub fn n_neighbor(self, new_n_neighbor: usize) -> (r: Self)
        ensures
            r == (HNSWParams { n_neighbor: new_n_neighbor, ..self }),
    {
        let mut s = self;
        s.n_neighbor = new_n_neighbor;
        s
    }

    pub fn n_neighbor0(self, new_n_neighbor0: usize) -> (r: Self)
        ensures
            r == (HNSWParams { n_neighbor0: new_n_neighbor0, ..self }),
    {
        let mut s = self;
        s.n_neighbor0 = new_n_neighbor0;
        s
    }

    pub fn max_level(self, new_max_level: usize) -> (r: Self)
        ensures
            r == (HNSWParams { max_level: new_max_level, ..self }),
    {
        let mut s = self;
        s.max_level = new_max_level;
        s
    }

    pub fn ef_build(self, new_ef_build: usize) -> (r: Self)
        ensures
            r == (HNSWParams { ef_build: new_ef_build, ..self }),
    {
        let mut s = self;
        s.ef_build = new_ef_build;
        s
    }

    pub fn ef_search(self, new_ef_search: usize) -> (r: Self)
        ensures
            r == (HNSWParams { ef_search: new_ef_search, ..self }),
    {
        let mut s = self;
        s.ef_search = new_ef_search;
        s
    }

    pub fn has_deletion(self, new_has_deletion: bool) -> (r: Self)
        ensures
            r == (HNSWParams { has_deletion: new_has_deletion, ..self }),
    {
        let mut s = self;
        s.has_deletion = new_has_deletion;
        s
    }
}

impl Default for HNSWParams {
    fn default() -> (r: Self)
        ensures
            r.max_item == 1000000,
            r.n_neighbor == 32,
            r.n_neighbor0 == 64,
            r.max_level == 20,
            r.ef_build == 500,
            r.ef_search == 16,
            r.has_deletion == false,
    {
        HNSWParams {
            max_item: 1000000,
            n_neighbor: 32,
            n_neighbor0: 64,
            max_level: 20,
            ef_build: 500,
            ef_search: 16,
            has_deletion: false,
        }
    }
}

} // verus!
