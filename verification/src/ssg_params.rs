//! Parameters of the satellite-system graph index.

use vstd::prelude::*;

verus! {

#[derive(Clone, Copy, Debug)]
pub struct SSGParams {
    /// Occlusion angle, in degrees.
    pub angle: i64,
    pub init_k: usize,
    pub index_size: usize,
    pub neighbor_neighbor_size: usize,
    pub root_size: usize,
}

impl SSGParams {
    pub fn angle(self, new_angle: i64) -> (r: Self)
        ensures
            r == (SSGParams { angle: new_angle, ..self }),
    {
        let mut s = self;
        s.angle = new_angle;
        s
    }

    pub fn init_k(self, new_init_k: usize) -> (r: Self)
        ensures
            r == (SSGParams { init_k: new_init_k, ..self }),
    {
        let mut s = self;
        s.init_k = new_init_k;
        s
    }

    pub fn index_size(self, new_index_size: usize) -> (r: Self)
        ensures
            r == (SSGParams { index_size: new_index_size, ..self }),
    {
        let mut s = self;
        s.index_size = new_index_size;
        s
    }

    pub fn neighbor_neighbor_size(self, new_neighbor_neighbor_size: usize) -> (r: Self)
        ensures
            r == (SSGParams { neighbor_neighbor_size: new_neighbor_neighbor_size, ..self }),
    {
        let mut s = self;
        s.neighbor_neighbor_size = new_neighbor_neighbor_size;
        s
    }

    pub fn root_size(self, new_root_size: usize) -> (r: Self)
        ensures
            r == (SSGParams { root_size: new_root_size, ..self }),
    {
        let mut s = self;
        s.root_size = new_root_size;
        s
    }
}

impl Default for SSGParams {
    fn default() -> (r: Self)
        ensures
            r.angle == 30,
            r.init_k == 100,
            r.index_size == 100,
            r.neighbor_neighbor_size == 100,
            r.root_size == 30,
    {
        SSGParams { angle: 30, init_k: 100, index_size: 100, neighbor_neighbor_size: 100,
            root_size: 30 }
    }
}

} // verus!
