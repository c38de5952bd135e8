//! Workload definitions of the benchmark harness.
pub mod harness;
