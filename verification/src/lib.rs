//! Verified skeleton of a data-parallel statistics core.
//!
//! The crate holds the parts of a vectorised statistics library that are
//! decided by integers and by structure:
//!
//! - `lanes` and `driver`: how a sample is walked in chunks of four elements,
//!   four chunks to an unrolled block, which accumulator sees which chunk,
//!   and in which order the partial results are combined;
//! - `regression`: the element-wise pass that materialises residuals, and the
//!   test for overlapping address ranges;
//! - `order` and `keys`: sorted order, ranks with averaged ties and the mode,
//!   over integer sort keys;
//! - `histogram`: binning rules and the tallying of observations into bins;
//! - `categorical`: contingency tables and degrees of freedom;
//! - `transform` and `distributions`: cumulative reduction and element-wise
//!   evaluation.
//!
//! Element arithmetic is supplied by the caller as closures, so the drivers
//! are generic in the element type and every traversal is proved once. The
//! contracts relate a result to the contracts of those closures.

pub mod categorical;
pub mod distributions;
pub mod driver;
pub mod histogram;
pub mod keys;
pub mod lanes;
pub mod order;
pub mod regression;
pub mod transform;

pub use categorical::{contingency_table, degrees_of_freedom, ContingencyTable};
pub use distributions::{apply_unary_op, LengthMismatch};
pub use driver::{for_each_unrolled4, for_each_unrolled4_zip, simd_reduce, simd_reduce_zip};
pub use histogram::{edges_valid, histogram, histogram_edges, histogram_edges_clamped, BinningRule};
pub use keys::sort_key;
pub use lanes::{Block, Quad, SimdAccum4};
pub use order::{mode, rank, sorted_places};
pub use regression::{ranges_overlap, residuals_into};
pub use transform::cumreduce;
