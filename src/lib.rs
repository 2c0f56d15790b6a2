//! The merge operator of a configuration language evaluator: combining records, their fields and
//! their metadata, and plain values.
pub mod ordmap;
pub mod term;
pub mod cache;
pub mod merge;
