//! Memory components: page allocation with logical addressing, and the
//! protection-mode vocabulary of the shared memory pool.

pub mod paging;
pub mod pool;
