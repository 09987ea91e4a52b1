//! Parameters of the product-quantization indexes.

use vstd::prelude::*;

verus! {

#[derive(Clone, Copy, Debug)]
pub struct PQParams {
    pub n_sub: usize,
    pub sub_bits: usize,
    pub train_epoch: usize,
}

impl PQParams {
    pub fn n_sub(self, new_n_sub: usize) -> (r: Self)
        ensures
            r.n_sub == new_n_sub,
            r.sub_bits == self.sub_bits,
            r.train_epoch == self.train_epoch,
    {
        let mut s = self;
        s.n_sub = new_n_sub;
        s
    }

    pub fn sub_bits(self, new_sub_bits: usize) -> (r: Self)
        ensures
            r.sub_bits == new_sub_bits,
            r.n_sub == self.n_sub,
            r.train_epoch == self.train_epoch,
    {
        let mut s = self;
        s.sub_bits = new_sub_bits;
        s
    }

    pub fn train_epoch(self, new_train_epoch: usize) -> (r: Self)
        ensures
            r.train_epoch == new_train_epoch,
            r.n_sub == self.n_sub,
            r.sub_bits == self.sub_bits,
    {
        let mut s = self;
        s.train_epoch = new_train_epoch;
        s
    }
}

impl Default for PQParams {
    fn default() -> (r: Self)
        ensures
            r.n_sub == 4,
            r.sub_bits == 4,
            r.train_epoch == 100,
    {
        PQParams { n_sub: 4, sub_bits: 4, train_epoch: 100 }
    }
}

#[derive(Clone, Copy, Debug)]
pub struct IVFPQParams {
    pub n_sub: usize,
    pub sub_bits: usize,
    pub n_kmeans_center: usize,
    pub search_n_center: usize,
    pub train_epoch: usize,
}

impl IVFPQParams {
    pub fn n_sub(self, new_n_sub: usize) -> (r: Self)
        ensures
            r == (IVFPQParams { n_sub: new_n_sub, ..self }),
    {
        let mut s = self;
        s.n_sub = new_n_sub;
        s
    }

    pub fn sub_bits(self, new_sub_bits: usize) -> (r: Self)
        ensures
            r == (IVFPQParams { sub_bits: new_sub_bits, ..self }),
    {
        let mut s = self;
        s.sub_bits = new_sub_bits;
        s
    }

    pub fn n_kmeans_center(self, new_n_kmeans_center: usize) -> (r: Self)
        ensures
            r == (IVFPQParams { n_kmeans_center: new_n_kmeans_center, ..self }),
    {
        let mut s = self;
        s.n_kmeans_center = new_n_kmeans_center;
        s
    }

    pub fn search_n_center(self, new_search_n_center: usize) -> (r: Self)
        ensures
            r == (IVFPQParams { search_n_center: new_search_n_center, ..self }),
    {
        let mut s = self;
        s.search_n_center = new_search_n_center;
        s
    }

    pub fn train_epoch(self, new_train_epoch: usize) -> (r: Self)
        ensures
            r == (IVFPQParams { train_epoch: new_train_epoch, ..self }),
    {
        let mut s = self;
        s.train_epoch = new_train_epoch;
        s
    }
}

impl Default for IVFPQParams {
    fn default() -> (r: Self)
        ensures
            r.n_sub == 25,
            r.sub_bits == 4,
            r.n_kmeans_center == 256,
            r.search_n_center == 8,
            r.train_epoch == 100,
    {
        IVFPQParams { n_sub: 25, sub_bits: 4, n_kmeans_center: 256, search_n_center: 8,
            train_epoch: 100 }
    }
}

} // verus!
