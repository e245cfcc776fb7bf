//! Rate-controlled transaction dispatch for load generation against a blockchain endpoint:
//! an identity registry, a tick scheduler, per-identity sequence numbers, a round-robin
//! dispatcher with a retry policy, and a collector that builds the run report.
pub mod dispatch;
pub mod registry;
pub mod report;
pub mod schedule;
pub mod sequence;
pub mod run;
