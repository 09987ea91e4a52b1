//! An approximate-nearest-neighbour search library over fixed-point vectors.
//!
//! Every vector component is an `i64` in fixed-point representation; the
//! bounds below keep all metric arithmetic inside `i64`/`i128` ranges, so
//! every distance computation is exact and free of overflow.

use vstd::prelude::*;

pub mod bruteforce_idx;
pub mod bruteforce_params;
pub mod bpt_idx;
pub mod bpt_params;
pub mod calc;
pub mod heap;
pub mod hnsw_idx;
pub mod hnsw_params;
pub mod kmeans;
pub mod metrics;
pub mod neighbor;
pub mod node;
pub mod pq_idx;
pub mod pq_params;
pub mod random;
pub mod simd_metrics;
pub mod ssg_idx;
pub mod ssg_params;
pub mod visited;

verus! {

/// Largest dimension an index accepts.
pub const DIM_LIMIT: usize = 65536;

/// Largest magnitude of a vector component accepted at insertion.
pub const COMPONENT_LIMIT: i64 = 1048576;

/// Largest magnitude of a component of any vector handed to a metric
/// (data vectors, k-means centres, residual differences, hyperplanes).
pub const VAL_LIMIT: i64 = 4194304;

/// Fixed-point scale used by the cosine-valued metrics: a cosine of 1
/// is represented as `COS_SCALE`.
pub const COS_SCALE: i64 = 1000000;

/// The closed error taxonomy of the library.
#[derive(Clone, Copy, Debug, PartialEq, Eq, Structural)]
pub enum AnnError {
    /// Two vectors (or a query and an index) disagree on dimension.
    DimensionMismatch,
    /// The index holds as many items as it was configured for.
    IndexFull,
    /// A vector component lies outside the accepted range.
    InvalidVector,
    /// An operation needed a built index.
    NotBuilt,
    /// `build` was called twice on an index that forbids rebuilding.
    AlreadyBuilt,
    /// No usable metric was configured.
    MetricUnset,
    /// A constructor parameter lies outside its accepted range.
    ParameterOutOfRange,
    /// A persisted byte stream could not be encoded or decoded; the
    /// encoder runs outside the library, which only sees the kind.
    SerializationError,
}

} // verus!
