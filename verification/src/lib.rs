//! Enumeration of the fixed-size subsets of a pool of points, and the
//! bookkeeping of what a geometric test found for each of them.

pub mod binomial;
pub mod order;
pub mod enumeration;
pub mod generator;
pub mod report;

pub use generator::{combination_util, combinations, index_combinations};
pub use report::{report, DegeneratePlane, Finding};
