//! Coverage analysis for sets of integer ranges over a fixed-width domain.
//!
//! Every value of a fixed-width integer type is mapped, order-preservingly,
//! onto an unsigned canonical coordinate in `[0, dom_max]`.  Range logic —
//! merging, overlap extraction, complement — is written once against that
//! canonical coordinate space, and the `Domain` trait carries each concrete
//! integer type onto it.

pub mod coverage;
pub mod domain;
pub mod int_range;
pub mod merge_range;
pub mod range_set;

pub use crate::domain::Domain;
pub use crate::int_range::uncovered_and_overlapped;
pub use crate::int_range::IntRange;
pub use crate::merge_range::MergeRange;
pub use crate::merge_range::MergeResult;
pub use crate::range_set::RangeSet;
