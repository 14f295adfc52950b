//! Verified core of a state-engine benchmark harness: decoding of workload
//! records, accumulation of per-address updates, the read-loop state machine
//! and the assembly of the benchmark result.
pub mod codec;
pub mod operation;
pub mod accumulator;
pub mod memory;
pub mod orchestrator;
pub mod report;
