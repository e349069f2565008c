//! Protection modes of the shared random-access memory pool.
//!
//! The pool itself shares memory between simulated processors behind a
//! lock and lives outside the verified core; the mode vocabulary is kept
//! here so that callers and the core share it.

use vstd::prelude::*;

verus! {

/// Marker: a pool without any protection.
pub struct MemoryRaw;

/// Marker: a pool guarded by a mutex.
pub struct MemoryMutex;

/// How accesses to a shared memory pool are protected.
pub enum MemoryProtection {
    /// No memory protection.
    Raw,
    /// Accesses take a mutex.
    Mutex,
}

} // verus!
