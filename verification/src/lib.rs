//! A teaching model of operating-system building blocks: a process
//! scheduler with five classical policies composed into a multilevel
//! feedback queue, together with small storage, filesystem-allocation and
//! paging components.

use vstd::prelude::*;

pub mod computer;
pub mod disks;
pub mod filesystem;
pub mod memory;

verus! {

/// Marker for the pacing of a simulation; the driving loop that actually
/// sleeps lives outside the verified core.
pub struct Delay;

} // verus!
