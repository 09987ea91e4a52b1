//! Parameters of the brute-force index (it has none).

use vstd::prelude::*;

verus! {

#[derive(Clone, Copy, Debug)]
pub struct BruteForceParams {}

impl Default for BruteForceParams {
    fn default() -> (r: Self)
        ensures
            (r == BruteForceParams {  }),
    {
        BruteForceParams {}
    }
}

} // verus!
