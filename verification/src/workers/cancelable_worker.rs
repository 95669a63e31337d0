use std::sync::mpsc::Receiver;
use vstd::prelude::*;

use super::basic_worker::BasicWorker;
use super::methods::{
    lemma_results_handed_concat, lemma_results_handed_then_none, results_handed, results_then_none,
    WorkerMethods,
};
use crate::state::{FlagRaised, State};

verus! {

/// What one call of `get` or `get_blocking` of a `CancelableWorker` receives
/// from the threads, `got`, when it hands out `res`: outcomes of tasks that gave
/// no result, skipped, then either the result handed out or nothing at all.
pub open spec fn skips_to<R>(got: Seq<Option<Option<R>>>, res: Option<R>) -> bool {
    &&& got.len() >= 1
    &&& forall|j: int| 0 <= j < got.len() - 1 ==> #[trigger] got[j] == Some(None::<R>)
    &&& got.last() == match res {
        Some(r) => Some(Some(r)),
        None => None,
    }
}

/// The results among `got`, what was received from the threads, in order:
/// `Some(Some(r))` is a result, `Some(None)` a task that gave none, and `None`
/// means that nothing came.
pub open spec fn results_received<R>(got: Seq<Option<Option<R>>>) -> Seq<R>
    decreases got.len(),
{
    if got.len() == 0 {
        Seq::empty()
    } else {
        let rest = results_received(got.drop_last());
        match got.last() {
            Some(Some(r)) => rest.push(r),
            _ => rest,
        }
    }
}

proof fn lemma_results_received_concat<R>(a: Seq<Option<Option<R>>>, b: Seq<Option<Option<R>>>)
    ensures
        results_received(a + b) == results_received(a) + results_received(b),
    decreases b.len(),
{
    if b.len() == 0 {
        assert(a + b =~= a);
        assert(results_received(a) + Seq::<R>::empty() =~= results_received(a));
    } else {
        assert((a + b).drop_last() =~= a + b.drop_last());
        assert((a + b).last() == b.last());
        lemma_results_received_concat(a, b.drop_last());
        match b.last() {
            Some(Some(r)) => {
                assert(results_received(a) + results_received(b.drop_last()).push(r) =~= (
                results_received(a) + results_received(b.drop_last())).push(r));
            },
            _ => {},
        }
    }
}

proof fn lemma_no_results_received<R>(got: Seq<Option<Option<R>>>)
    requires
        forall|i: int| 0 <= i < got.len() ==> #[trigger] got[i] == Some(None::<R>),
    ensures
        results_received(got) == Seq::<R>::empty(),
    decreases got.len(),
{
    if got.len() > 0 {
        lemma_no_results_received(got.drop_last());
    }
}

/// What one call receives, skipping to `res`, holds `res` as its one result.
proof fn lemma_skips_to_results<R>(got: Seq<Option<Option<R>>>, res: Option<R>)
    requires
        skips_to(got, res),
    ensures
        results_received(got) == results_handed(seq![res]),
{
    let first = got.drop_last();
    assert forall|i: int| 0 <= i < first.len() implies #[trigger] first[i] == Some(None::<R>) by {
        assert(first[i] == got[i]);
    }
    lemma_no_results_received(first);
    assert(seq![res].drop_last() =~= Seq::<Option<R>>::empty());
    reveal_with_fuel(results_handed, 2);
}

/// The results that `get_vec`, `get_vec_blocking`, `get_buffered` or
/// `get_buffered_blocking` collects are the results received meanwhile, in the
/// order in which they came, with the outcomes of tasks that gave none left
/// out: for a worker whose records are in step before and after (`tallies()`,
/// which `new` gives and every call of `WorkerMethods` keeps), whose outcomes
/// grew by the results `collected` (and the call that handed out nothing, where
/// there was one).
pub proof fn law_collected_results_are_those_received<R>(
    before: CancelableWorker<R>,
    collected: Seq<R>,
    after: CancelableWorker<R>,
)
    requires
        before.tallies(),
        after.tallies(),
        after.outcomes() == before.outcomes() + results_then_none(collected) || after.outcomes()
            == before.outcomes() + collected.map_values(|r: R| Some(r)),
    ensures
        results_received(after.received()) == results_received(before.received()) + collected,
{
    lemma_results_handed_then_none(before.outcomes(), collected);
}

/// What a cancellation did to the flags of `worker`'s threads: `raised` holds,
/// in the order of the threads, the proof that the flag of each was raised.
pub open spec fn raises_every_flag<R>(worker: CancelableWorker<R>, raised: Seq<FlagRaised>) -> bool {
    &&& raised.len() == worker.num_states()
    &&& forall|i: int| 0 <= i < raised.len() ==> #[trigger] raised[i].owner() == worker.state(i).owner()
}

/// Each thread of a worker made by `new` has a flag of its own: no two threads
/// share one, so clearing the flag of one thread for its next task leaves the
/// flags of the others as they were.
pub proof fn law_each_thread_has_its_own_flag<R>(worker: CancelableWorker<R>)
    requires
        worker.flag_per_thread(),
    ensures
        forall|i: int, j: int|
            0 <= i < worker.num_states() && 0 <= j < worker.num_states() && i != j ==> #[trigger] worker.state(
                i,
            ) != #[trigger] worker.state(j),
{
    assert forall|i: int, j: int|
        0 <= i < worker.num_states() && 0 <= j < worker.num_states() && i != j implies #[trigger] worker.state(
            i,
        ) != #[trigger] worker.state(j) by {
        assert(worker.state(i).owner() == i);
        assert(worker.state(j).owner() == j);
    }
}

/// A cancellation raises the flag of every thread, each once: the `t`-th proof
/// among `raised` is that the flag of thread `t` was raised, and no two are for
/// the same thread.
pub proof fn law_cancelling_raises_every_threads_flag<R>(worker: CancelableWorker<R>, raised: Seq<FlagRaised>)
    requires
        worker.flag_per_thread(),
        raises_every_flag(worker, raised),
    ensures
        raised.len() == worker.num_states(),
        forall|t: int| 0 <= t < raised.len() ==> #[trigger] raised[t].owner() == t,
        forall|i: int, j: int|
            0 <= i < raised.len() && 0 <= j < raised.len() && #[trigger] raised[i].owner() == #[trigger] raised[j].owner() ==> i == j,
{
    assert forall|t: int| 0 <= t < raised.len() implies #[trigger] raised[t].owner() == t by {
        assert(worker.state(t).owner() == t);
    }
    assert forall|i: int, j: int|
        0 <= i < raised.len() && 0 <= j < raised.len() && #[trigger] raised[i].owner() == #[trigger] raised[j].owner() implies i == j by {
        assert(worker.state(i).owner() == i);
        assert(worker.state(j).owner() == j);
    }
}

/// The result side of a worker whose tasks may produce no result and can be
/// cancelled while they run.
///
/// Each worker thread has a cancellation flag, a `State`, that its task can
/// look at. A task that was cancelled, or whose function gave no result, sends
/// `None`; those are skipped when results are handed out.
#[verifier::reject_recursive_types(R)]
pub struct CancelableWorker<R> {
    inner: BasicWorker<Option<R>>,
    worker_state: Vec<State>,
    handed_out: Ghost<Seq<Option<R>>>,
}

/// The earlier name of `CancelableWorker`.
pub type Worker<R> = CancelableWorker<R>;

impl<R> CancelableWorker<R> {
    /// Number of tasks whose outcome has not been received yet.
    pub closed spec fn pending(&self) -> nat {
        self.inner.pending()
    }

    /// Number of worker threads.
    pub closed spec fn threads(&self) -> usize {
        self.inner.threads()
    }

    /// Everything received from the threads so far, in order: the outcome of a
    /// task (`Some(None)` for a task that gave no result), or `None` when
    /// nothing came.
    pub closed spec fn received(&self) -> Seq<Option<Option<R>>> {
        self.inner.outcomes()
    }

    /// The cancellation flag of thread `i`.
    pub closed spec fn state(&self, i: int) -> State {
        self.worker_state@[i]
    }

    /// Number of cancellation flags, one per worker thread.
    pub closed spec fn num_states(&self) -> nat {
        self.worker_state@.len()
    }

    /// Thread `i` has the flag made for thread `i`.
    pub open spec fn flag_per_thread(&self) -> bool {
        forall|i: int| 0 <= i < self.num_states() ==> #[trigger] self.state(i).owner() == i
    }

    /// A worker with nothing pending, receiving from `result_receiver`, with one
    /// fresh cancellation flag for each of its `num_worker_threads` threads.
    pub fn new(result_receiver: Receiver<Option<R>>, num_worker_threads: usize) -> (res: Self)
        ensures
            res.pending() == 0,
            res.threads() == num_worker_threads,
            res.num_states() == num_worker_threads,
            res.received() == Seq::<Option<Option<R>>>::empty(),
            res.outcomes() == Seq::<Option<R>>::empty(),
            res.tallies(),
            res.flag_per_thread(),
            !res.senders_gone(),
    {
        let mut worker_state: Vec<State> = Vec::with_capacity(num_worker_threads);
        let mut i: usize = 0;
        while i < num_worker_threads
            invariant
                i <= num_worker_threads,
                worker_state@.len() == i,
                forall|j: int| 0 <= j < i ==> (#[trigger] worker_state@[j]).owner() == j,
            decreases num_worker_threads - i,
        {
            worker_state.push(State::for_thread(i));
            i = i + 1;
        }
        CancelableWorker {
            inner: BasicWorker::constructor(result_receiver, num_worker_threads),
            worker_state,
            handed_out: Ghost(Seq::empty()),
        }
    }

    /// A handle on the cancellation flag of thread `i`, to give to that thread.
    pub fn worker_state(&self, i: usize) -> (res: State)
        requires
            i < self.num_states(),
        ensures
            res == self.state(i as int),
    {
        self.worker_state[i].clone()
    }

    /// Counts `num` tasks that have just been queued.
    pub fn tasks_added(&mut self, num: usize)
        requires
            old(self).pending() + num <= usize::MAX,
        ensures
            final(self).pending() == old(self).pending() + num,
            final(self).threads() == old(self).threads(),
            final(self).num_states() == old(self).num_states(),
            forall|i: int| #[trigger] final(self).state(i) == old(self).state(i),
            final(self).received() == old(self).received(),
            final(self).outcomes() == old(self).outcomes(),
            final(self).senders_gone() == old(self).senders_gone(),
    {
        self.inner.tasks_added(num);
    }

    /// Cancels the tasks: forgets the `withdrawn` tasks that were just taken
    /// off the queue and raises the flag of every thread, so that the tasks
    /// that are running stop as soon as they look, and give no result.
    pub fn cancel_tasks(&mut self, withdrawn: usize) -> (raised: Vec<FlagRaised>)
        requires
            withdrawn <= old(self).pending(),
        ensures
            final(self).pending() == old(self).pending() - withdrawn,
            final(self).threads() == old(self).threads(),
            final(self).num_states() == old(self).num_states(),
            forall|i: int| #[trigger] final(self).state(i) == old(self).state(i),
            final(self).received() == old(self).received(),
            final(self).outcomes() == old(self).outcomes(),
            final(self).senders_gone() == old(self).senders_gone(),
            raises_every_flag(*final(self), raised@),
    {
        self.inner.tasks_withdrawn(withdrawn);
        self.cancel_running()
    }

    /// Raises the flag of every thread, and hands back the proof of each.
    pub fn cancel_running(&self) -> (raised: Vec<FlagRaised>)
        ensures
            raises_every_flag(*self, raised@),
    {
        let mut raised: Vec<FlagRaised> = Vec::new();
        let mut i: usize = 0;
        while i < self.worker_state.len()
            invariant
                i <= self.worker_state@.len(),
                raised@.len() == i,
                forall|j: int| 0 <= j < i ==> (#[trigger] raised@[j]).owner() == self.state(j).owner(),
            decreases self.worker_state@.len() - i,
        {
            raised.push(self.worker_state[i].cancel());
            i = i + 1;
        }
        raised
    }

    /// Number of tasks whose outcome has not been received yet.
    pub fn num_pending_tasks(&self) -> (res: usize)
        ensures
            res == self.pending(),
    {
        self.inner.num_pending_tasks()
    }

    /// Number of worker threads.
    pub fn num_worker_threads(&self) -> (res: usize)
        ensures
            res == self.threads(),
    {
        self.inner.num_worker_threads()
    }
}

impl<R> WorkerMethods<R> for CancelableWorker<R> {
    open spec fn owed(&self) -> nat {
        self.pending()
    }

    closed spec fn outcomes(&self) -> Seq<Option<R>> {
        self.handed_out@
    }

    /// The results handed out are, in order, the results received.
    open spec fn tallies(&self) -> bool {
        results_handed(self.outcomes()) == results_received(self.received())
    }

    /// Every sender on the channel is gone, as the worker has seen.
    closed spec fn senders_gone(&self) -> bool {
        self.inner.senders_gone()
    }

    /// No task is pending.
    open spec fn nothing_owed(&self) -> bool {
        self.pending() == 0
    }

    /// The next result that has come in, skipping tasks that gave none; does not
    /// wait.
    fn get(&mut self) -> (res: Option<R>)
        ensures
            final(self).threads() == old(self).threads(),
            final(self).num_states() == old(self).num_states(),
            forall|i: int| #[trigger] final(self).state(i) == old(self).state(i),
            old(self).received().len() < final(self).received().len(),
            final(self).received().take(old(self).received().len() as int) == old(self).received(),
            skips_to(final(self).received().skip(old(self).received().len() as int), res),
            res is Some ==> final(self).pending() == old(self).pending() - (final(self).received().len()
                - old(self).received().len()),
            res is None ==> final(self).pending() == old(self).pending() - (final(self).received().len()
                - old(self).received().len() - 1),
    {
        let res = self.receive_skipping(false);
        proof {
            self.handed_out@ = self.handed_out@.push(res);
            self.lemma_keeps_tallies(*old(self), res);
            assert(old(self).nothing_owed() == (old(self).pending() == 0));
            assert(self.nothing_owed() == (self.pending() == 0));
        }
        res
    }

    /// The next result, waiting for it, skipping tasks that gave none; `None`
    /// once no task is pending.
    fn get_blocking(&mut self) -> (res: Option<R>)
        ensures
            final(self).threads() == old(self).threads(),
            final(self).num_states() == old(self).num_states(),
            forall|i: int| #[trigger] final(self).state(i) == old(self).state(i),
            old(self).received().len() < final(self).received().len(),
            final(self).received().take(old(self).received().len() as int) == old(self).received(),
            skips_to(final(self).received().skip(old(self).received().len() as int), res),
            res is Some ==> final(self).pending() == old(self).pending() - (final(self).received().len()
                - old(self).received().len()),
            res is None ==> final(self).pending() == old(self).pending() - (final(self).received().len()
                - old(self).received().len()) || (final(self).pending() == 0 && final(self).pending()
                == old(self).pending() - (final(self).received().len() - old(self).received().len() - 1)),
    {
        let res = self.receive_skipping(true);
        proof {
            self.handed_out@ = self.handed_out@.push(res);
            self.lemma_keeps_tallies(*old(self), res);
        }
        res
    }
}

impl<R> CancelableWorker<R> {
    /// A call that received what `skips_to` says and handed out `res` keeps the
    /// results handed out in step with those received.
    proof fn lemma_keeps_tallies(self, before: Self, res: Option<R>)
        requires
            before.received().len() <= self.received().len(),
            self.received().take(before.received().len() as int) == before.received(),
            skips_to(self.received().skip(before.received().len() as int), res),
            self.outcomes() == before.outcomes().push(res),
        ensures
            before.tallies() ==> self.tallies(),
    {
        let got = self.received().skip(before.received().len() as int);
        assert(self.received() =~= before.received() + got);
        lemma_results_received_concat(before.received(), got);
        lemma_skips_to_results(got, res);
        assert(self.outcomes() =~= before.outcomes() + seq![res]);
        lemma_results_handed_concat(before.outcomes(), seq![res]);
    }

    /// Receives outcomes (waiting for each with `blocking`) until one is a
    /// result or none comes, skipping tasks that gave no result.
    fn receive_skipping(&mut self, blocking: bool) -> (res: Option<R>)
        ensures
            old(self).pending() == 0 ==> res is None,
            res is Some ==> final(self).pending() < old(self).pending(),
            res is None ==> final(self).pending() <= old(self).pending(),
            final(self).threads() == old(self).threads(),
            final(self).num_states() == old(self).num_states(),
            final(self).worker_state == old(self).worker_state,
            final(self).outcomes() == old(self).outcomes(),
            old(self).received().len() < final(self).received().len(),
            final(self).received().take(old(self).received().len() as int) == old(self).received(),
            skips_to(final(self).received().skip(old(self).received().len() as int), res),
            !blocking && res is Some ==> final(self).pending() == old(self).pending() - (
                final(self).received().len() - old(self).received().len()),
            !blocking && res is None ==> final(self).pending() == old(self).pending() - (
                final(self).received().len() - old(self).received().len() - 1),
            blocking && res is Some ==> final(self).pending() == old(self).pending() - (
                final(self).received().len() - old(self).received().len()),
            blocking && res is None ==> final(self).pending() == old(self).pending() - (
                final(self).received().len() - old(self).received().len()) || (final(self).pending()
                == 0 && final(self).pending() == old(self).pending() - (final(self).received().len()
                - old(self).received().len() - 1)),
            old(self).pending() == 0 ==> final(self).pending() == 0,
            old(self).senders_gone() ==> final(self).senders_gone(),
            blocking && res is None ==> final(self).pending() == 0 || final(self).senders_gone(),
    {
        let ghost start = self.received();
        loop
            invariant
                old(self).senders_gone() ==> self.senders_gone(),
                self.pending() <= old(self).pending(),
                self.threads() == old(self).threads(),
                self.worker_state == old(self).worker_state,
                self.handed_out == old(self).handed_out,
                old(self).pending() == 0 ==> self.pending() == 0,
                self.pending() == old(self).pending() - (self.received().len() - start.len()),
                start == old(self).received(),
                start.len() <= self.received().len(),
                self.received().take(start.len() as int) == start,
                forall|j: int|
                    start.len() <= j < self.received().len() ==> #[trigger] self.received()[j]
                        == Some(None::<R>),
            decreases self.pending(),
        {
            let ghost before = self.received();
            let got = if blocking {
                self.inner.get_blocking()
            } else {
                self.inner.get()
            };
            proof {
                assert(self.received() == before.push(got));
                assert(self.received().take(start.len() as int) =~= start);
            }
            match got {
                Some(Some(r)) => {
                    let res = Some(r);
                    proof {
                        let new = self.received().skip(start.len() as int);
                        assert forall|j: int| 0 <= j < new.len() - 1 implies #[trigger] new[j] == Some(None::<R>) by {
                            assert(new[j] == self.received()[start.len() + j]);
                        }
                    }
                    return res;
                },
                Some(None) => {},
                None => {
                    proof {
                        let new = self.received().skip(start.len() as int);
                        assert forall|j: int| 0 <= j < new.len() - 1 implies #[trigger] new[j] == Some(None::<R>) by {
                            assert(new[j] == self.received()[start.len() + j]);
                        }
                    }
                    return None;
                },
            }
        }
    }
}

} // verus!
