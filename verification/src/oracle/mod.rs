//! The oracle: scenarios that exercise a page, the obligations a recording
//! must cover, and the small rules its collectors and benchmarks follow.
pub mod artifact;
pub mod benchmark;
pub mod cli;
pub mod compare;
pub mod discovery;
pub mod engine;
pub mod graph;
pub mod holdout;
pub mod model;
pub mod network;
pub mod obligations;
pub mod qualification;
pub mod scenario;
