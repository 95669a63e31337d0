//! Bookkeeping for running tasks on a pool of worker threads: buffers that hand
//! results back in the order in which their tasks were submitted, the
//! per-worker cancellation flag, and the result side of each kind of worker.

pub mod internal;
pub mod state;
pub mod workers;
pub mod primes;
