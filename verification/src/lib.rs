//! The incremental recomputation core of an in-process document store:
//! change-tracked vectors with hierarchical staleness tracking, multi-layer
//! reductions and token-driven summaries that recompute only what changed,
//! and a sparse bitset algebra for intersecting query index sets without
//! full scans.

pub mod bitfield;
pub mod bitset;
pub mod chunked;
pub mod gc;
pub mod id;
pub mod idxset;
pub mod memory_usage;
pub mod reduce;
pub mod rvec;
pub mod summarize;
pub mod sums;

pub use bitfield::Bitfield;
pub use bitset::Bitset;
pub use rvec::RVec;
