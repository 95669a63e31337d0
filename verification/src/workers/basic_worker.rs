use std::sync::mpsc::Receiver;
use vstd::prelude::*;

use super::channel::{receive, try_receive, Polled, SendersGone};
use super::methods::WorkerMethods;

verus! {

/// What one call of `get_blocking` does, from `before` to `after`, handing
/// out `res`: with no task pending it hands out nothing at once; with a task
/// pending it waits, and hands out the next result that comes, or nothing only
/// when every sender is gone. Either way it counts the task as done.
pub open spec fn waits_for_result<R>(before: BasicWorker<R>, res: Option<R>, after: BasicWorker<R>) -> bool {
    &&& before.pending() == 0 ==> res is None && after.pending() == 0
    &&& before.pending() > 0 ==> after.pending() == before.pending() - 1
    &&& before.pending() > 0 && res is None ==> after.senders_gone()
    &&& before.senders_gone() ==> after.senders_gone()
}

/// While the threads are alive, a run of calls of `get_blocking` (the `i`-th
/// taking the worker from `workers[i]` to `workers[i + 1]` and handing out
/// `outcomes[i]`) hands out a result in every call made while a task is
/// pending, and nothing in the others: no pending task's result is lost to a
/// call that did not wait for it.
pub proof fn law_blocking_gets_wait_for_pending_results<R>(
    workers: Seq<BasicWorker<R>>,
    outcomes: Seq<Option<R>>,
)
    requires
        workers.len() == outcomes.len() + 1,
        forall|i: int|
            0 <= i < outcomes.len() ==> #[trigger] waits_for_result(workers[i], outcomes[i], workers[i + 1]),
        !workers.last().senders_gone(),
    ensures
        forall|i: int| 0 <= i < outcomes.len() ==> (#[trigger] outcomes[i] is Some <==> workers[i].pending() > 0),
        workers.last().pending() == if workers[0].pending() >= outcomes.len() {
            workers[0].pending() - outcomes.len()
        } else {
            0
        },
    decreases outcomes.len(),
{
    let k = outcomes.len();
    if k > 0 {
        let ws = workers.drop_last();
        let os = outcomes.drop_last();
        assert forall|i: int| 0 <= i < os.len() implies #[trigger] waits_for_result(ws[i], os[i], ws[i + 1]) by {
            assert(waits_for_result(workers[i], outcomes[i], workers[i + 1]));
        }
        assert(waits_for_result(workers[k - 1], outcomes[k - 1], workers[(k - 1) + 1]));
        assert(workers[(k - 1) + 1] == workers.last());
        assert(ws.last() == workers[k - 1]);
        assert(!ws.last().senders_gone());
        law_blocking_gets_wait_for_pending_results(ws, os);
        assert(ws[0] == workers[0]);
        assert forall|i: int| 0 <= i < outcomes.len() implies (#[trigger] outcomes[i] is Some
            <==> workers[i].pending() > 0) by {
            if i < k - 1 {
                assert(outcomes[i] == os[i]);
                assert(workers[i] == ws[i]);
            }
        }
    }
}

/// One call on the result side of a worker: counting `n` tasks queued or
/// withdrawn, or a call of `get` or `get_blocking` that handed out `res`.
pub enum WorkerCall<R> {
    TasksAdded(usize),
    TasksWithdrawn(usize),
    Get(Option<R>),
    GetBlocking(Option<R>),
}

/// What the call `call` does to the count of pending tasks, from `before` to
/// `after`, as the contracts of `tasks_added`, `tasks_withdrawn`, `get` and
/// `get_blocking` say.
pub open spec fn made_call<R>(before: BasicWorker<R>, call: WorkerCall<R>, after: BasicWorker<R>) -> bool {
    match call {
        WorkerCall::TasksAdded(n) => after.pending() == before.pending() + n,
        WorkerCall::TasksWithdrawn(n) => n <= before.pending() && after.pending() == before.pending() - n,
        WorkerCall::Get(res) => {
            &&& before.pending() == 0 ==> res is None
            &&& res is Some ==> after.pending() == before.pending() - 1
            &&& res is None ==> after.pending() == before.pending()
        },
        WorkerCall::GetBlocking(res) => {
            &&& before.pending() == 0 ==> res is None && after.pending() == 0
            &&& before.pending() > 0 ==> after.pending() == before.pending() - 1
        },
    }
}

/// The tasks that `call` counts as queued.
pub open spec fn tasks_queued<R>(call: WorkerCall<R>) -> nat {
    match call {
        WorkerCall::TasksAdded(n) => n as nat,
        _ => 0,
    }
}

/// The tasks that `call` counts as withdrawn.
pub open spec fn tasks_withdrawn_by<R>(call: WorkerCall<R>) -> nat {
    match call {
        WorkerCall::TasksWithdrawn(n) => n as nat,
        _ => 0,
    }
}

/// Whether `call`, made on a worker in the state `before`, took a task's
/// result: a `get` that handed one out, or a `get_blocking` made while a task
/// was pending.
pub open spec fn took_result<R>(before: BasicWorker<R>, call: WorkerCall<R>) -> nat {
    match call {
        WorkerCall::Get(Some(_)) => 1,
        WorkerCall::GetBlocking(_) => if before.pending() > 0 {
            1
        } else {
            0
        },
        _ => 0,
    }
}

/// Over the run of calls `calls`, the worker going through `workers`: the
/// tasks queued, those withdrawn, and the results taken.
pub open spec fn run_totals<R>(workers: Seq<BasicWorker<R>>, calls: Seq<WorkerCall<R>>) -> (nat, nat, nat)
    decreases calls.len(),
{
    if calls.len() == 0 {
        (0, 0, 0)
    } else {
        let (a, c, t) = run_totals(workers, calls.drop_last());
        let last = calls.last();
        (
            a + tasks_queued(last),
            c + tasks_withdrawn_by(last),
            t + took_result(workers[calls.len() - 1], last),
        )
    }
}

/// The count of pending tasks is the tasks queued, less the results taken and
/// the tasks withdrawn: over any run of calls of `tasks_added`,
/// `tasks_withdrawn`, `get` and `get_blocking` (the `i`-th taking the worker
/// from `workers[i]` to `workers[i + 1]`), the count at the end is the count at
/// the start plus the tasks queued, less the results taken (by a `get` that
/// handed one out, or a `get_blocking` made while a task was pending) and the
/// tasks withdrawn.
pub proof fn law_pending_counts_tasks<R>(workers: Seq<BasicWorker<R>>, calls: Seq<WorkerCall<R>>)
    requires
        workers.len() == calls.len() + 1,
        forall|i: int| 0 <= i < calls.len() ==> #[trigger] made_call(workers[i], calls[i], workers[i + 1]),
    ensures
        workers.last().pending() == workers[0].pending() + run_totals(workers, calls).0 - run_totals(
            workers,
            calls,
        ).1 - run_totals(workers, calls).2,
    decreases calls.len(),
{
    let k = calls.len();
    if k > 0 {
        let ws = workers.drop_last();
        let cs = calls.drop_last();
        assert forall|i: int| 0 <= i < cs.len() implies #[trigger] made_call(ws[i], cs[i], ws[i + 1]) by {
            assert(made_call(workers[i], calls[i], workers[i + 1]));
        }
        law_pending_counts_tasks(ws, cs);
        assert(ws[0] == workers[0]);
        assert(ws.last() == workers[k - 1]);
        assert(made_call(workers[k - 1], calls[k - 1], workers[(k - 1) + 1]));
        assert(workers[(k - 1) + 1] == workers.last());
        assert(calls.last() == calls[k - 1]);
        lemma_run_totals_prefix(workers, cs);
    }
}

proof fn lemma_run_totals_prefix<R>(workers: Seq<BasicWorker<R>>, calls: Seq<WorkerCall<R>>)
    requires
        calls.len() < workers.len(),
    ensures
        run_totals(workers.drop_last(), calls) == run_totals(workers, calls),
    decreases calls.len(),
{
    if calls.len() > 0 {
        lemma_run_totals_prefix(workers, calls.drop_last());
        assert(workers.drop_last()[calls.len() - 1] == workers[calls.len() - 1]);
    }
}

/// The result side of a worker that runs tasks on a pool of threads: it counts
/// the tasks whose results are still owed and receives those results from the
/// threads.
///
/// A task is pending from the moment it is queued until its result has been
/// handed out, or until it is taken off the queue by a cancellation.
#[verifier::reject_recursive_types(R)]
pub struct BasicWorker<R> {
    result_receiver: Receiver<R>,
    num_worker_threads: usize,
    num_pending_tasks: usize,
    senders_gone: Option<SendersGone>,
    handed_out: Ghost<Seq<Option<R>>>,
}

impl<R> BasicWorker<R> {
    /// Number of tasks whose results are still owed.
    pub closed spec fn pending(&self) -> nat {
        self.num_pending_tasks as nat
    }

    /// Number of worker threads that send on the channel.
    pub closed spec fn threads(&self) -> usize {
        self.num_worker_threads
    }

    /// A worker with nothing pending that receives results from `result_receiver`,
    /// on which `num_worker_threads` threads send.
    pub fn constructor(result_receiver: Receiver<R>, num_worker_threads: usize) -> (res: Self)
        ensures
            res.pending() == 0,
            res.threads() == num_worker_threads,
            res.outcomes() == Seq::<Option<R>>::empty(),
            !res.senders_gone(),
    {
        BasicWorker {
            result_receiver,
            num_worker_threads,
            num_pending_tasks: 0,
            senders_gone: None,
            handed_out: Ghost(Seq::empty()),
        }
    }

    /// Counts `num` tasks that have just been queued.
    pub fn tasks_added(&mut self, num: usize)
        requires
            old(self).pending() + num <= usize::MAX,
        ensures
            final(self).pending() == old(self).pending() + num,
            final(self).threads() == old(self).threads(),
            final(self).outcomes() == old(self).outcomes(),
            final(self).senders_gone() == old(self).senders_gone(),
    {
        self.num_pending_tasks = self.num_pending_tasks + num;
    }

    /// Forgets `num` tasks that a cancellation has just taken off the queue.
    pub fn tasks_withdrawn(&mut self, num: usize)
        requires
            num <= old(self).pending(),
        ensures
            final(self).pending() == old(self).pending() - num,
            final(self).threads() == old(self).threads(),
            final(self).outcomes() == old(self).outcomes(),
            final(self).senders_gone() == old(self).senders_gone(),
    {
        self.num_pending_tasks = self.num_pending_tasks - num;
    }

    /// Hands out what came in (a result or nothing), counting the task of a
    /// result as done.
    pub fn take_received(&mut self, received: Option<R>) -> (res: Option<R>)
        requires
            received is Some ==> old(self).pending() > 0,
        ensures
            res == received,
            received is Some ==> final(self).pending() == old(self).pending() - 1,
            received is None ==> final(self).pending() == old(self).pending(),
            final(self).threads() == old(self).threads(),
            final(self).outcomes() == old(self).outcomes().push(res),
            final(self).senders_gone() == old(self).senders_gone(),
    {
        if received.is_some() {
            self.num_pending_tasks = self.num_pending_tasks - 1;
        }
        proof {
            self.handed_out@ = self.handed_out@.push(received);
        }
        received
    }

    /// Number of tasks whose results are still owed.
    pub fn num_pending_tasks(&self) -> (res: usize)
        ensures
            res == self.pending(),
    {
        self.num_pending_tasks
    }

    /// Number of worker threads, each of which must be told to stop when the
    /// worker goes away.
    pub fn num_worker_threads(&self) -> (res: usize)
        ensures
            res == self.threads(),
    {
        self.num_worker_threads
    }
}

impl<R> WorkerMethods<R> for BasicWorker<R> {
    open spec fn owed(&self) -> nat {
        self.pending()
    }

    closed spec fn outcomes(&self) -> Seq<Option<R>> {
        self.handed_out@
    }

    /// Results are handed out as they come in: there is nothing to tally.
    open spec fn tallies(&self) -> bool {
        true
    }

    /// Every sender on the channel is gone, which this worker has seen: nothing
    /// more can come.
    closed spec fn senders_gone(&self) -> bool {
        self.senders_gone is Some
    }

    /// No task is pending.
    open spec fn nothing_owed(&self) -> bool {
        self.pending() == 0
    }

    /// The next result, if one has come in; does not wait.
    ///
    /// When no task is pending no result can have come in, and the channel is
    /// not asked.
    fn get(&mut self) -> (res: Option<R>)
        ensures
            old(self).pending() == 0 ==> res is None && final(self).pending() == 0,
            res is Some ==> final(self).pending() == old(self).pending() - 1,
            res is None ==> final(self).pending() == old(self).pending(),
            final(self).threads() == old(self).threads(),
    {
        let received = if self.num_pending_tasks == 0 {
            None
        } else {
            match try_receive(&self.result_receiver) {
                Polled::Message(message) => Some(message),
                Polled::Empty => None,
                Polled::Disconnected(gone) => {
                    self.senders_gone = Some(gone);
                    None
                },
            }
        };
        let res = self.take_received(received);
        assert(old(self).nothing_owed() == (old(self).pending() == 0));
        assert(self.nothing_owed() == (self.pending() == 0));
        res
    }

    /// The next result, waiting for it if a task is pending; `None` when no task
    /// is pending, or when every worker thread has gone.
    fn get_blocking(&mut self) -> (res: Option<R>)
        ensures
            waits_for_result(*old(self), res, *final(self)),
            final(self).threads() == old(self).threads(),
    {
        let res = if self.num_pending_tasks > 0 {
            self.num_pending_tasks = self.num_pending_tasks - 1;
            match receive(&self.result_receiver) {
                Ok(message) => Some(message),
                Err(gone) => {
                    self.senders_gone = Some(gone);
                    None
                },
            }
        } else {
            None
        };
        proof {
            self.handed_out@ = self.handed_out@.push(res);
        }
        res
    }
}

} // verus!
