//! Service policies of a simulated magnetic disk.
//!
//! The disk itself runs on its own thread behind channels and is not part
//! of the verified core; the policy vocabulary lives here so that callers
//! and the core share it.

use vstd::prelude::*;

verus! {

/// The order in which a disk services queued requests.
#[derive(Clone, Copy, Debug, PartialEq, Eq, Structural)]
pub enum DiskAlgorithm {
    /// Serves requests first come, first served.
    FCFS,
    /// Serves the request with the shortest seek time next.
    SSTF,
    /// Scans across the disk servicing requests on the way, then turns
    /// around and services the rest on the way back.
    SCAN,
    /// Scans across the disk, then jumps back to the beginning.
    CSCAN,
    /// Like CSCAN, but jumps only as far back as the first pending
    /// request.
    CLOOK,
}

} // verus!
