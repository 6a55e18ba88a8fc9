//! A file-deduplication engine: content fingerprinting, a family of
//! duplicate-detection strategies, a chunk-sampled similarity comparison, a
//! plugin pipeline that runs strategies over one immutable file list, and a
//! benchmark harness that scores strategies against a ground truth.
//!
//! File contents are handed to the library as byte buffers together with
//! their descriptors; all reading of the filesystem stays outside.

pub mod benchmark;
pub mod comparison;
pub mod config;
pub mod finder;
pub mod grouping;
pub mod hashing;
pub mod laws;
pub mod methods;
pub mod models;
pub mod piecewise;
pub mod plugins;
pub mod render;
