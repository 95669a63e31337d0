use vstd::prelude::*;

use crate::internal::non_zero::NonZeroIndex;

verus! {

/// What a worker thread does after taking an item off the task queue.
pub enum ThreadStep<T> {
    /// Run the task.
    Run(T),
    /// The worker is going away: stop.
    Stop,
}

/// A worker thread runs each task it takes, and stops when it takes the
/// message that tells it to (`None`).
pub fn on_taken<T>(taken: Option<T>) -> (step: ThreadStep<T>)
    ensures
        match taken {
            Some(task) => step == ThreadStep::Run(task),
            None => step is Stop,
        },
{
    match taken {
        Some(task) => ThreadStep::Run(task),
        None => ThreadStep::Stop,
    }
}

/// A worker thread goes on after sending a result only if the send succeeded:
/// a failed send means that nobody listens for results any more.
pub fn keeps_running_after_send(sent: bool) -> (go_on: bool)
    ensures
        go_on == sent,
{
    sent
}

/// What a thread of a cancelable worker sends for a task whose function gave
/// `result`: nothing if the task was cancelled meanwhile, even if it computed a
/// result, and the result otherwise.
pub fn outcome_to_send<R>(result: Option<R>, cancelled: bool) -> (sent: Option<R>)
    ensures
        cancelled ==> sent is None,
        !cancelled ==> sent == result,
{
    if cancelled {
        None
    } else {
        result
    }
}

/// What a thread of an ordered worker sends for the task tagged `indx` whose
/// function gave `result`: the result with the task's tag, so that it can be
/// put back in task order.
pub fn tag_result<R>(indx: usize, result: R) -> (sent: (usize, R))
    ensures
        sent == (indx, result),
{
    (indx, result)
}

/// What a thread of an ordered cancelable worker sends for the task tagged
/// `indx` whose function gave `result`: always the task's tag, so that its
/// position can be passed over when it has no result, with nothing if the task
/// was cancelled meanwhile and the result otherwise.
pub fn tagged_outcome_to_send<R>(indx: NonZeroIndex, result: Option<R>, cancelled: bool) -> (sent: Option<
    (NonZeroIndex, Option<R>),
>)
    ensures
        sent is Some,
        sent->Some_0.0 == indx,
        cancelled ==> sent->Some_0.1 is None,
        !cancelled ==> sent->Some_0.1 == result,
{
    Some((indx, outcome_to_send(result, cancelled)))
}

} // verus!
