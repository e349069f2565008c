//! The schedulable unit of work: an immutable description of a process.

use vstd::prelude::*;

verus! {

/// Coarse lifecycle stages of a process as seen by a driving loop.
pub enum ProcessState {
    New,
    Ready,
    Running,
    Blocked,
}

/// Payload interpreted by the consumer of a dispatched process; the
/// scheduler itself treats both variants alike.
#[derive(Clone, Copy, Debug, PartialEq, Eq, Structural)]
pub enum OpCode {
    Shutdown,
    Inert,
}

/// An immutable work descriptor.  `time_units` is the remaining requested
/// runtime and `static_time_units` the original request; `priority` orders
/// processes with lower values more urgent; `affinity` is carried but never
/// consulted by the scheduling core (`-1` encodes absence).
#[derive(Clone, Copy, Debug, PartialEq, Eq, Structural)]
pub struct Process {
    pub id: u32,
    pub priority: i32,
    pub time_units: usize,
    pub static_time_units: usize,
    pub code: OpCode,
    pub affinity: i32,
}

/// Relies on rand::random: draws a value from the thread-local generator;
/// nothing is promised of the result.
pub assume_specification<T>[ rand::random::<T> ]() -> (r: T)
    where
        rand::distributions::Standard: rand::distributions::Distribution<T>,
;

impl Process {
    /// An empty placeholder process with a chosen id and no work.
    pub fn dummy(id: u32) -> (p: Process)
        ensures
            p == (Process {
                id,
                priority: 0,
                time_units: 0,
                static_time_units: 0,
                code: OpCode::Inert,
                affinity: -1i32,
            }),
    {
        Process {
            id,
            priority: 0,
            time_units: 0,
            static_time_units: 0,
            code: OpCode::Inert,
            affinity: -1,
        }
    }

    /// A process with a randomly drawn id requesting `time` units of work.
    pub fn new(time: usize) -> (p: Process)
        ensures
            p.priority == 0,
            p.time_units == time,
            p.static_time_units == time,
            p.code == OpCode::Inert,
            p.affinity == -1,
    {
        Process {
            id: rand::random(),
            priority: 0,
            time_units: time,
            static_time_units: time,
            code: OpCode::Inert,
            affinity: -1,
        }
    }

    /// A fully specified process.
    pub fn full(id: u32, time: usize, code: OpCode) -> (p: Process)
        ensures
            p == (Process {
                id,
                priority: 0,
                time_units: time,
                static_time_units: time,
                code,
                affinity: -1i32,
            }),
    {
        Process { id, priority: 0, static_time_units: time, time_units: time, code, affinity: -1 }
    }

    /// A termination signal: a zero-length process carrying `Shutdown`.
    pub fn shutdown() -> (p: Process)
        ensures
            p.priority == 0,
            p.time_units == 0,
            p.static_time_units == 0,
            p.code == OpCode::Shutdown,
            p.affinity == -1,
    {
        Process {
            id: rand::random(),
            priority: 0,
            time_units: 0,
            static_time_units: 0,
            code: OpCode::Shutdown,
            affinity: -1,
        }
    }

    /// Restricts the process to one processor.
    pub fn with_affinity(self, affinity: u32) -> (p: Process)
        ensures
            p == (Process { affinity: affinity as i32, ..self }),
    {
        Process { affinity: affinity as i32, ..self }
    }

    /// Sets the priority; lower values are more urgent.
    pub fn with_prioirty(self, priority: i32) -> (p: Process)
        ensures
            p == (Process { priority, ..self }),
    {
        Process { priority, ..self }
    }
}

} // verus!
