//! Benchmarks a fuzzer against many targets and follows the code coverage it
//! reaches over time.
//!
//! One task runs the fuzzer on one target. What the fuzzer writes is parsed
//! into coverage samples relative to the anchor that its output announces
//! (`grammar`, `parser`); the samples are sorted and freed of repeated times
//! (`series`), and stored as an artifact from which they can be read back
//! (`store`, `artifact`). A scheduler hands the tasks to a bounded number of
//! workers and ends when all of them have finished (`scheduler`, `runner`,
//! `pipeline`). The series of all targets are then merged into one global
//! series, each target counting at every time with its last observation
//! (`aggregate`, `report`). `compile` holds the rules by which the
//! benchmark's contracts are prepared.

pub mod aggregate;
pub mod artifact;
pub mod compile;
pub mod decimal;
pub mod grammar;
pub mod parser;
pub mod pipeline;
pub mod report;
pub mod runner;
pub mod scheduler;
pub mod series;
pub mod store;
pub mod strings;
pub mod text;
pub mod types;
