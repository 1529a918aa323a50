//! Executor building blocks: a counting bitset, CPU-affinity bookkeeping,
//! the non-blocking future interface and a non-blocking thread pool. What
//! the pool's threads and channels do is outside the contracts; the slot
//! bookkeeping of an executor step, the spawn retry rule and the core scan
//! are stated and proved.

pub mod bitset;
pub mod affinity;
pub mod nonblocking;
pub mod channel;
pub mod wake_set;
pub mod pool;
