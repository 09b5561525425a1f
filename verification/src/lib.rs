//! Orchestration and result-persistence core for historical performance
//! measurement of a compiler across a sequence of source-control revisions.
//!
//! The library decides which revisions still need measurement, retries
//! revisions whose last recorded outcome was a failure, bounds the cost of a
//! single invocation by deterministic sparse sampling, aggregates
//! per-benchmark outcomes into a single binary record per revision, and
//! offers a round-trippable text encoding for durable records. All I/O
//! (fetching revisions, installing toolchains, executing benchmarks, reading
//! and writing the record files) is left to the surrounding program, which
//! hands this library plain values and persists what it returns.

pub mod benchmark;
pub mod codec;
pub mod orchestrator;
pub mod record;
pub mod revision;
pub mod runner;
pub mod selector;
pub mod store;
