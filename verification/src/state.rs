use std::sync::atomic::{AtomicBool, Ordering};
use std::sync::Arc;
use vstd::prelude::*;

verus! {

/// The cancellation flag that a worker thread shares with the worker that owns
/// it. A worker function can look at it to stop early.
///
/// The flag is an atomic boolean behind an `Arc`: every clone of a `State` reads
/// and writes the same flag, from any thread, so nothing is promised here about
/// the value that a read returns. Each flag is made for one worker thread, whose
/// number it carries (`owner()`); its clones carry the same number, and a new
/// flag is made only by `new` or `for_thread`.
pub struct State {
    is_canceled: Arc<AtomicBool>,
    owner: usize,
}

/// Proof, in hand, that the flag of the thread numbered `owner()` was raised.
/// Only `State::cancel` makes one.
pub struct FlagRaised {
    owner: usize,
}

impl FlagRaised {
    /// The number of the thread whose flag was raised.
    pub closed spec fn owner(&self) -> usize {
        self.owner
    }
}

impl State {
    /// The number of the worker thread that this flag was made for.
    pub closed spec fn owner(&self) -> usize {
        self.owner
    }

    /// A new flag, not cancelled, for the first worker thread.
    pub fn new() -> (res: State)
        ensures
            res.owner() == 0,
    {
        State::for_thread(0)
    }

    /// A new flag, not cancelled, for the worker thread numbered `thread`.
    pub fn for_thread(thread: usize) -> (res: State)
        ensures
            res.owner() == thread,
    {
        State { is_canceled: Arc::new(AtomicBool::new(false)), owner: thread }
    }

    /// Clears the flag, for a task that is starting.
    pub fn set_running(&self) {
        self.is_canceled.store(false, Ordering::Release);
    }

    /// Raises the flag, and hands back the proof that it did.
    pub fn cancel(&self) -> (raised: FlagRaised)
        ensures
            raised.owner() == self.owner(),
    {
        self.is_canceled.store(true, Ordering::Release);
        FlagRaised { owner: self.owner }
    }

    /// Returns true if the task has been canceled. The result of the worker
    /// will then be ignored.
    pub fn is_cancelled(&self) -> bool {
        self.is_canceled.load(Ordering::Acquire)
    }
}

impl Clone for State {
    /// Another handle on the same flag.
    fn clone(&self) -> (res: State)
        ensures
            res == *self,
    {
        State { is_canceled: Arc::clone(&self.is_canceled), owner: self.owner }
    }
}

} // verus!
