//! The process-scheduling core: processes, scheduling records, the
//! single-level policy engine and the multilevel feedback queue.

pub mod fixed;
pub mod multilevel;
pub mod scheduler;
pub mod process;
pub mod processor;
