use std::sync::mpsc::Receiver;
use vstd::multiset::Multiset;
use vstd::prelude::*;

use super::cancelable_worker::CancelableWorker;
use super::methods::{lemma_results_handed_concat, lemma_results_handed_none, results_handed, WorkerMethods};
use crate::internal::heap_buffer::{ready_at, HeapBuffer};
use crate::internal::non_zero::NonZeroIndex;
use crate::internal::ordered_result::OrderedResult;
use crate::state::{FlagRaised, State};

verus! {

broadcast use vstd::seq_lib::group_to_multiset_ensures;

/// The position `i` steps after `current`, staying at `usize::MAX` once there.
pub open spec fn position_after(current: usize, i: nat) -> usize {
    if current + i > usize::MAX {
        usize::MAX
    } else {
        (current + i) as usize
    }
}

/// How the worker holds an outcome `o` received from the threads: the task's
/// outcome (a result, or `None` for a task that gave none or was cancelled),
/// tagged with the task's position.
pub open spec fn as_held<R>(o: Option<(NonZeroIndex, Option<R>)>) -> OrderedResult<Option<R>> {
    OrderedResult { result: o->Some_0.1, indx: o->Some_0.0 }
}

/// The tagged outcomes among `got`: all of it, but for a last `None`, which
/// means that nothing came.
pub open spec fn arrivals<R>(got: Seq<Option<(NonZeroIndex, Option<R>)>>) -> Seq<
    OrderedResult<Option<R>>,
> {
    let tagged = if got.len() > 0 && got.last() is None {
        got.drop_last()
    } else {
        got
    };
    tagged.map_values(|o: Option<(NonZeroIndex, Option<R>)>| as_held(o))
}

/// What one call of `get_in_order` does, when the next position is `current`
/// and the worker holds `held`: it receives `got` from the threads and holds
/// what came, and takes out `taken`, one held outcome per position from
/// `current` on. Positions whose task gave no result are passed over; the call
/// ends with the first result so taken, handed out as `res`, or, with nothing
/// handed out, once the next position is not held and nothing more came in.
pub open spec fn handed_in_turn<R>(
    current: usize,
    held: Multiset<OrderedResult<Option<R>>>,
    got: Seq<Option<(NonZeroIndex, Option<R>)>>,
    taken: Seq<OrderedResult<Option<R>>>,
    res: Option<R>,
    current_after: usize,
    held_after: Multiset<OrderedResult<Option<R>>>,
) -> bool {
    &&& forall|j: int| 0 <= j < got.len() - 1 ==> (#[trigger] got[j]) is Some
    &&& held_after.add(taken.to_multiset()) =~= held.add(arrivals(got).to_multiset())
    &&& forall|i: int|
        0 <= i < taken.len() ==> (#[trigger] taken[i]).indx.index() == position_after(current, i as nat)
    &&& current_after == position_after(current, taken.len())
    &&& match res {
        Some(r) => {
            &&& taken.len() >= 1
            &&& taken.last().result == Some(r)
            &&& forall|i: int| 0 <= i < taken.len() - 1 ==> (#[trigger] taken[i]).result is None
            &&& got.len() == 0 || got.last() is Some
        },
        None => {
            &&& forall|i: int| 0 <= i < taken.len() ==> (#[trigger] taken[i]).result is None
            &&& got.len() >= 1
            &&& got.last() is None
            &&& !ready_at(held_after, current_after)
        },
    }
}

/// The outcome of position `current` is held, and it is a result: every held
/// outcome at that position is one.
pub open spec fn result_due<R>(held: Multiset<OrderedResult<Option<R>>>, current: usize) -> bool {
    &&& ready_at(held, current)
    &&& forall|e: OrderedResult<Option<R>>|
        #[trigger] held.count(e) > 0 && e.indx.index() == current ==> e.result is Some
}

/// What one call of `get_in_order`, `get` or `get_blocking` does to a worker,
/// from `before` to `after`, handing out `res`: what was received before stays
/// as it was, and the call receives, holds and takes outcomes as
/// `handed_in_turn` says, for some run `taken` of outcomes taken in turn. When
/// the result whose turn it is is already held, the call hands it out without
/// receiving anything.
pub open spec fn takes_in_turn<R>(
    before: OrderedCancelableWorker<R>,
    res: Option<R>,
    after: OrderedCancelableWorker<R>,
) -> bool {
    &&& before.received().len() <= after.received().len()
    &&& after.received().take(before.received().len() as int) =~= before.received()
    &&& result_due(before.held(), before.next_result()) ==> res is Some && after.received()
        =~= before.received()
    &&& exists|taken: Seq<OrderedResult<Option<R>>>|
        handed_in_turn(
            before.next_result(),
            before.held(),
            after.received().skip(before.received().len() as int),
            taken,
            res,
            after.next_result(),
            after.held(),
        )
}

/// The tagged outcomes among `got`, what was received from the threads; a
/// `None` there means that nothing came.
pub open spec fn outcomes_among<R>(got: Seq<Option<(NonZeroIndex, Option<R>)>>) -> Multiset<
    OrderedResult<Option<R>>,
>
    decreases got.len(),
{
    if got.len() == 0 {
        Multiset::empty()
    } else {
        let rest = outcomes_among(got.drop_last());
        match got.last() {
            Some(e) => rest.insert(as_held(Some(e))),
            None => rest,
        }
    }
}

/// The outcomes of `taken`, in order.
pub open spec fn outcomes_of<R>(taken: Seq<OrderedResult<Option<R>>>) -> Seq<Option<R>> {
    taken.map_values(|e: OrderedResult<Option<R>>| e.result)
}

proof fn lemma_outcomes_among_concat<R>(
    a: Seq<Option<(NonZeroIndex, Option<R>)>>,
    b: Seq<Option<(NonZeroIndex, Option<R>)>>,
)
    ensures
        outcomes_among(a + b) =~= outcomes_among(a).add(outcomes_among(b)),
    decreases b.len(),
{
    if b.len() == 0 {
        assert(a + b =~= a);
    } else {
        assert((a + b).drop_last() =~= a + b.drop_last());
        assert((a + b).last() == b.last());
        lemma_outcomes_among_concat(a, b.drop_last());
    }
}

proof fn lemma_outcomes_among_all_some<R>(got: Seq<Option<(NonZeroIndex, Option<R>)>>)
    requires
        forall|j: int| 0 <= j < got.len() ==> (#[trigger] got[j]) is Some,
    ensures
        outcomes_among(got) =~= got.map_values(|o: Option<(NonZeroIndex, Option<R>)>| as_held(o)).to_multiset(),
    decreases got.len(),
{
    if got.len() > 0 {
        let f = |o: Option<(NonZeroIndex, Option<R>)>| as_held(o);
        let rest = got.drop_last();
        assert(got =~= rest.push(got.last()));
        assert(got.map_values(f) =~= rest.map_values(f).push(f(got.last())));
        lemma_outcomes_among_all_some(rest);
    }
}

proof fn lemma_position_after_add(current: usize, a: nat, b: nat)
    ensures
        position_after(position_after(current, a), b) == position_after(current, a + b),
{
}

/// One call takes outcomes in turn and loses none: the outcomes held after it,
/// with those it took, are the outcomes held before it with those received
/// during it; of the outcomes taken, only the last can be a result, the one
/// handed out.
proof fn lemma_takes_keeps_outcomes<R>(
    current: usize,
    held: Multiset<OrderedResult<Option<R>>>,
    got: Seq<Option<(NonZeroIndex, Option<R>)>>,
    taken: Seq<OrderedResult<Option<R>>>,
    res: Option<R>,
    current_after: usize,
    held_after: Multiset<OrderedResult<Option<R>>>,
)
    requires
        handed_in_turn(current, held, got, taken, res, current_after, held_after),
    ensures
        held_after.add(taken.to_multiset()) =~= held.add(outcomes_among(got)),
        results_handed(outcomes_of(taken)) == results_handed(seq![res]),
{
    if got.len() > 0 && got.last() is None {
        let first = got.drop_last();
        assert(forall|j: int| 0 <= j < first.len() ==> first[j] == got[j]);
        lemma_outcomes_among_all_some(first);
    } else {
        lemma_outcomes_among_all_some(got);
    }
    let outs = outcomes_of(taken);
    assert(seq![res].drop_last() =~= Seq::<Option<R>>::empty());
    match res {
        Some(r) => {
            let first = outs.drop_last();
            assert forall|i: int| 0 <= i < first.len() implies (#[trigger] first[i]) is None by {
                assert(first[i] == taken[i].result);
            }
            lemma_results_handed_none(first);
            assert(outs.last() == taken.last().result);
            assert(results_handed(outs) =~= seq![r]);
            assert(results_handed(seq![res]) =~= seq![r]) by {
                reveal_with_fuel(results_handed, 2);
            }
        },
        None => {
            assert forall|i: int| 0 <= i < outs.len() implies (#[trigger] outs[i]) is None by {
                assert(outs[i] == taken[i].result);
            }
            lemma_results_handed_none(outs);
            assert(results_handed(seq![res]) =~= Seq::<R>::empty()) by {
                reveal_with_fuel(results_handed, 2);
            }
        },
    }
}

/// Outcomes taken in turn from position `start` on: starting from the outcomes
/// `held0`, having received `got` and handed out `handed`, a worker whose next
/// position is `current` and which holds `held` has taken `taken`, one outcome
/// per position from `start` on. The outcomes it holds, with those it took, are
/// the outcomes it held with those it received, and the results it handed out
/// are, in order, the results among those it took.
pub open spec fn taken_from<R>(
    start: usize,
    held0: Multiset<OrderedResult<Option<R>>>,
    got: Seq<Option<(NonZeroIndex, Option<R>)>>,
    taken: Seq<OrderedResult<Option<R>>>,
    handed: Seq<Option<R>>,
    current: usize,
    held: Multiset<OrderedResult<Option<R>>>,
) -> bool {
    &&& forall|i: int|
        0 <= i < taken.len() ==> (#[trigger] taken[i]).indx.index() == position_after(start, i as nat)
    &&& current == position_after(start, taken.len())
    &&& held.add(taken.to_multiset()) =~= held0.add(outcomes_among(got))
    &&& results_handed(outcomes_of(taken)) == results_handed(handed)
}

/// A run of outcomes taken in turn, followed by one more call, is a longer run.
proof fn lemma_taken_from_extends<R>(
    start: usize,
    held0: Multiset<OrderedResult<Option<R>>>,
    got1: Seq<Option<(NonZeroIndex, Option<R>)>>,
    taken1: Seq<OrderedResult<Option<R>>>,
    handed1: Seq<Option<R>>,
    current1: usize,
    held1: Multiset<OrderedResult<Option<R>>>,
    got2: Seq<Option<(NonZeroIndex, Option<R>)>>,
    step: Seq<OrderedResult<Option<R>>>,
    res: Option<R>,
    current2: usize,
    held2: Multiset<OrderedResult<Option<R>>>,
)
    requires
        taken_from(start, held0, got1, taken1, handed1, current1, held1),
        handed_in_turn(current1, held1, got2, step, res, current2, held2),
    ensures
        taken_from(start, held0, got1 + got2, taken1 + step, handed1.push(res), current2, held2),
{
    lemma_takes_keeps_outcomes(current1, held1, got2, step, res, current2, held2);
    let taken = taken1 + step;
    lemma_outcomes_among_concat(got1, got2);
    let s1 = outcomes_among(got1);
    let g = outcomes_among(got2);
    assert(taken.to_multiset() =~= taken1.to_multiset().add(step.to_multiset())) by {
        vstd::seq_lib::lemma_multiset_commutative(taken1, step);
    }
    assert forall|v: OrderedResult<Option<R>>|
        #[trigger] held2.add(taken.to_multiset()).count(v) == held0.add(s1.add(g)).count(v) by {
        assert(held2.add(step.to_multiset()).count(v) == held1.add(g).count(v));
        assert(held1.add(taken1.to_multiset()).count(v) == held0.add(s1).count(v));
    }
    assert forall|i: int| 0 <= i < taken.len() implies (#[trigger] taken[i]).indx.index() == position_after(
        start,
        i as nat,
    ) by {
        if i >= taken1.len() {
            let j = i - taken1.len();
            assert(taken[i] == step[j]);
            lemma_position_after_add(start, taken1.len(), j as nat);
        } else {
            assert(taken[i] == taken1[i]);
        }
    }
    lemma_position_after_add(start, taken1.len(), step.len());
    assert(outcomes_of(taken) =~= outcomes_of(taken1) + outcomes_of(step));
    lemma_results_handed_concat(outcomes_of(taken1), outcomes_of(step));
    lemma_results_handed_concat(handed1, seq![res]);
    assert(handed1.push(res) =~= handed1 + seq![res]);
}

/// The outcomes taken over a run of calls, as `law_outcomes_taken_in_task_order`
/// states them.
proof fn lemma_taken_over_calls<R>(
    workers: Seq<OrderedCancelableWorker<R>>,
    outcomes: Seq<Option<R>>,
) -> (taken: Seq<OrderedResult<Option<R>>>)
    requires
        workers.len() == outcomes.len() + 1,
        forall|i: int|
            0 <= i < outcomes.len() ==> #[trigger] takes_in_turn(workers[i], outcomes[i], workers[i + 1]),
    ensures
        workers[0].received().len() <= workers.last().received().len(),
        workers.last().received().take(workers[0].received().len() as int) == workers[0].received(),
        taken_from(
            workers[0].next_result(),
            workers[0].held(),
            workers.last().received().skip(workers[0].received().len() as int),
            taken,
            outcomes,
            workers.last().next_result(),
            workers.last().held(),
        ),
    decreases outcomes.len(),
{
    let k = outcomes.len();
    let w0 = workers[0];
    if k == 0 {
        assert(workers.last().received().skip(w0.received().len() as int) =~= Seq::<
            Option<(NonZeroIndex, Option<R>)>,
        >::empty());
        assert(workers.last().received().take(w0.received().len() as int) =~= w0.received());
        let taken = Seq::<OrderedResult<Option<R>>>::empty();
        assert(taken.to_multiset() =~= Multiset::<OrderedResult<Option<R>>>::empty());
        assert(outcomes_of(taken) =~= Seq::<Option<R>>::empty());
        taken
    } else {
        let ws = workers.drop_last();
        let os = outcomes.drop_last();
        assert forall|i: int| 0 <= i < os.len() implies #[trigger] takes_in_turn(ws[i], os[i], ws[i + 1]) by {
            assert(takes_in_turn(workers[i], outcomes[i], workers[i + 1]));
        }
        let before = lemma_taken_over_calls(ws, os);
        assert(ws[0] == w0);
        let prev = workers[k - 1];
        let last = workers[k as int];
        assert(ws.last() == prev);
        assert(takes_in_turn(workers[k - 1], outcomes[k - 1], workers[(k - 1) + 1]));
        assert(workers[(k - 1) + 1] == last);
        let l0 = w0.received().len() as int;
        let lp = prev.received().len() as int;
        let got = last.received().skip(lp);
        let step = choose|step: Seq<OrderedResult<Option<R>>>|
            #[trigger] handed_in_turn(
                prev.next_result(),
                prev.held(),
                got,
                step,
                outcomes[k - 1],
                last.next_result(),
                last.held(),
            );
        lemma_taken_from_extends(
            w0.next_result(),
            w0.held(),
            prev.received().skip(l0),
            before,
            os,
            prev.next_result(),
            prev.held(),
            got,
            step,
            outcomes[k - 1],
            last.next_result(),
            last.held(),
        );
        assert(last.received().take(l0) =~= prev.received().take(lp).take(l0));
        assert(last.received().skip(l0) =~= prev.received().skip(l0) + got);
        assert(outcomes =~= os.push(outcomes[k - 1]));
        assert(workers.last() == last);
        before + step
    }
}

/// A call that takes `taken` in turn and records what it handed out keeps the
/// worker's records in step.
proof fn lemma_takes_keeps_tallies<R>(
    before: OrderedCancelableWorker<R>,
    res: Option<R>,
    after: OrderedCancelableWorker<R>,
    step: Seq<OrderedResult<Option<R>>>,
)
    requires
        before.received().len() <= after.received().len(),
        after.received().take(before.received().len() as int) =~= before.received(),
        handed_in_turn(
            before.next_result(),
            before.held(),
            after.received().skip(before.received().len() as int),
            step,
            res,
            after.next_result(),
            after.held(),
        ),
        after.outcomes() == before.outcomes().push(res),
    ensures
        before.tallies() ==> after.tallies(),
{
    if before.tallies() {
        let taken = choose|taken: Seq<OrderedResult<Option<R>>>|
            #[trigger] taken_from(
                1,
                Multiset::empty(),
                before.received(),
                taken,
                before.outcomes(),
                before.next_result(),
                before.held(),
            );
        let got = after.received().skip(before.received().len() as int);
        lemma_taken_from_extends(
            1,
            Multiset::empty(),
            before.received(),
            taken,
            before.outcomes(),
            before.next_result(),
            before.held(),
            got,
            step,
            res,
            after.next_result(),
            after.held(),
        );
        assert(after.received() =~= before.received() + got);
        assert(taken_from(
            1,
            Multiset::empty(),
            after.received(),
            taken + step,
            after.outcomes(),
            after.next_result(),
            after.held(),
        ));
    }
}

/// Results come out in the order of their tasks, over any run of calls of
/// `get` or `get_blocking` (each one taking the worker from `workers[i]` to
/// `workers[i + 1]` and handing out `outcomes[i]`), whatever the order in which
/// the outcomes came in: there is a run `taken` of outcomes taken one per
/// position, from the position whose turn it was at the start on, such that
/// the outcomes still held at the end, with those taken, are exactly the
/// outcomes held at the start and those received meanwhile, and the results
/// handed out are, in order, the results among those taken. So no result is
/// lost or handed out twice, a position whose task gave no result is passed
/// over, and results are handed out in the order of their positions.
pub proof fn law_outcomes_taken_in_task_order<R>(
    workers: Seq<OrderedCancelableWorker<R>>,
    outcomes: Seq<Option<R>>,
)
    requires
        workers.len() == outcomes.len() + 1,
        forall|i: int|
            0 <= i < outcomes.len() ==> #[trigger] takes_in_turn(workers[i], outcomes[i], workers[i + 1]),
    ensures
        workers[0].received().len() <= workers.last().received().len(),
        workers.last().received().take(workers[0].received().len() as int) == workers[0].received(),
        exists|taken: Seq<OrderedResult<Option<R>>>|
            #[trigger] taken_from(
                workers[0].next_result(),
                workers[0].held(),
                workers.last().received().skip(workers[0].received().len() as int),
                taken,
                outcomes,
                workers.last().next_result(),
                workers.last().held(),
            ),
{
    let taken = lemma_taken_over_calls(workers, outcomes);
}

/// The result side of a worker whose tasks can be cancelled and may give no
/// result, and which hands results out in the order in which their tasks were
/// added.
///
/// Tasks are tagged with consecutive positions from 1. Every task that runs
/// sends its tag with its outcome, `None` when it gave no result or was
/// cancelled; outcomes that come in ahead of their turn are held, and a
/// position whose task gave no result is passed over when its turn comes.
#[verifier::reject_recursive_types(R)]
pub struct OrderedCancelableWorker<R> {
    inner: CancelableWorker<(NonZeroIndex, Option<R>)>,
    result_heap: HeapBuffer<Option<R>>,
    task_indx: NonZeroIndex,
    handed_out: Ghost<Seq<Option<R>>>,
}

impl<R> OrderedCancelableWorker<R> {
    /// Number of tasks whose outcome has not been received yet.
    pub closed spec fn pending(&self) -> nat {
        self.inner.pending()
    }

    /// Number of worker threads.
    pub closed spec fn threads(&self) -> usize {
        self.inner.threads()
    }

    /// Everything received from the threads so far, in order: a task's tag with
    /// its outcome, or `None` when nothing came.
    pub closed spec fn received(&self) -> Seq<Option<(NonZeroIndex, Option<R>)>> {
        self.inner.outcomes()
    }

    /// Every message taken off the channel so far, in order: a task's tag with
    /// its outcome, `Some(None)` for a message that carried no outcome, or `None`
    /// when nothing came. Each message of a task counts that task as done.
    pub closed spec fn messages(&self) -> Seq<Option<Option<(NonZeroIndex, Option<R>)>>> {
        self.inner.received()
    }

    /// The cancellation flag of thread `i`.
    pub closed spec fn state(&self, i: int) -> State {
        self.inner.state(i)
    }

    /// Number of cancellation flags, one per worker thread.
    pub closed spec fn num_states(&self) -> nat {
        self.inner.num_states()
    }

    /// The tagged outcomes received ahead of their turn.
    pub closed spec fn held(&self) -> Multiset<OrderedResult<Option<R>>> {
        self.result_heap.held()
    }

    /// Position with which the next task will be tagged.
    pub closed spec fn next_task(&self) -> usize {
        self.task_indx.index()
    }

    /// Position of the next outcome to take.
    pub closed spec fn next_result(&self) -> usize {
        self.result_heap.current()
    }

    /// A worker with nothing pending or held, whose first task is tagged 1, with
    /// a fresh cancellation flag for each of its threads.
    pub fn new(
        result_receiver: Receiver<Option<(NonZeroIndex, Option<R>)>>,
        num_worker_threads: usize,
    ) -> (res: Self)
        ensures
            res.pending() == 0,
            res.threads() == num_worker_threads,
            res.num_states() == num_worker_threads,
            res.held().len() == 0,
            res.next_task() == 1,
            res.next_result() == 1,
            res.received() == Seq::<Option<(NonZeroIndex, Option<R>)>>::empty(),
            res.outcomes() == Seq::<Option<R>>::empty(),
            res.tallies(),
            !res.senders_gone(),
            forall|i: int| 0 <= i < res.num_states() ==> #[trigger] res.state(i).owner() == i,
    {
        let res = OrderedCancelableWorker {
            inner: CancelableWorker::new(result_receiver, num_worker_threads),
            result_heap: HeapBuffer::new(),
            task_indx: NonZeroIndex::first(),
            handed_out: Ghost(Seq::empty()),
        };
        proof {
            let taken = Seq::<OrderedResult<Option<R>>>::empty();
            assert(taken.to_multiset() =~= Multiset::<OrderedResult<Option<R>>>::empty());
            assert(res.held() =~= Multiset::<OrderedResult<Option<R>>>::empty());
            assert(outcomes_of(taken) =~= Seq::<Option<R>>::empty());
            assert(taken_from(1, Multiset::empty(), res.received(), taken, res.outcomes(), res.next_result(), res.held()));
        }
        res
    }

    /// A handle on the cancellation flag of thread `i`, to give to that thread.
    pub fn worker_state(&self, i: usize) -> (res: State)
        requires
            i < self.num_states(),
        ensures
            res == self.state(i as int),
    {
        self.inner.worker_state(i)
    }

    /// The position to tag the next task with; the one after it comes next
    /// (staying at `usize::MAX` once there).
    pub fn tag_task(&mut self) -> (tag: NonZeroIndex)
        ensures
            tag.index() == old(self).next_task(),
            final(self).next_task() == old(self).next_task().saturating_add(1),
            final(self).held() == old(self).held(),
            final(self).next_result() == old(self).next_result(),
            final(self).pending() == old(self).pending(),
            final(self).threads() == old(self).threads(),
            final(self).num_states() == old(self).num_states(),
            final(self).received() == old(self).received(),
            final(self).outcomes() == old(self).outcomes(),
            final(self).senders_gone() == old(self).senders_gone(),
            forall|i: int| #[trigger] final(self).state(i) == old(self).state(i),
    {
        let tag = self.task_indx;
        self.task_indx = self.task_indx.saturating_add(1);
        tag
    }

    /// Counts `num` tagged tasks that have just been queued.
    pub fn tasks_added(&mut self, num: usize)
        requires
            old(self).pending() + num <= usize::MAX,
        ensures
            final(self).pending() == old(self).pending() + num,
            final(self).next_task() == old(self).next_task(),
            final(self).held() == old(self).held(),
            final(self).next_result() == old(self).next_result(),
            final(self).threads() == old(self).threads(),
            final(self).num_states() == old(self).num_states(),
            final(self).received() == old(self).received(),
            final(self).outcomes() == old(self).outcomes(),
            final(self).senders_gone() == old(self).senders_gone(),
            forall|i: int| #[trigger] final(self).state(i) == old(self).state(i),
    {
        self.inner.tasks_added(num);
    }

    /// Cancels the tasks. The `withdrawn` tasks that were just taken off the
    /// queue, in one step, were the last ones tagged and never ran: they are
    /// forgotten and their tags are taken back, so the next task gets the first
    /// of them. The flag of every thread is raised, so that running tasks stop
    /// as soon as they look and send no result. Outcomes already received stay
    /// held, and are handed out in their turn.
    pub fn cancel_tasks(&mut self, withdrawn: usize) -> (raised: Vec<FlagRaised>)
        requires
            withdrawn < old(self).next_task(),
            withdrawn <= old(self).pending(),
        ensures
            final(self).next_task() == old(self).next_task() - withdrawn,
            final(self).pending() == old(self).pending() - withdrawn,
            final(self).held() == old(self).held(),
            final(self).next_result() == old(self).next_result(),
            final(self).threads() == old(self).threads(),
            final(self).num_states() == old(self).num_states(),
            final(self).received() == old(self).received(),
            final(self).outcomes() == old(self).outcomes(),
            final(self).senders_gone() == old(self).senders_gone(),
            forall|i: int| #[trigger] final(self).state(i) == old(self).state(i),
            raised@.len() == final(self).num_states(),
            forall|i: int| 0 <= i < raised@.len() ==> #[trigger] raised@[i].owner() == final(self).state(i).owner(),
    {
        self.task_indx = self.task_indx.back(withdrawn);
        self.inner.cancel_tasks(withdrawn)
    }

    /// Raises the flag of every thread, and hands back the proof of each.
    pub fn cancel_running(&self) -> (raised: Vec<FlagRaised>)
        ensures
            raised@.len() == self.num_states(),
            forall|i: int| 0 <= i < raised@.len() ==> #[trigger] raised@[i].owner() == self.state(i).owner(),
    {
        self.inner.cancel_running()
    }

    /// The next result in task order. Held outcomes are taken while the next
    /// position is held, passing over positions whose task gave no result;
    /// otherwise an outcome is received (waiting for it with `blocking`) and
    /// held. Ends with the first result taken, or with `None` once the next
    /// position is not held and nothing more comes in.
    pub fn get_in_order(&mut self, blocking: bool) -> (res: Option<R>)
        ensures
            old(self).pending() + old(self).held().len() == 0 ==> res is None,
            final(self).pending() + final(self).held().len() + (if res is Some { 1int } else { 0 })
                <= old(self).pending() + old(self).held().len(),
            final(self).next_task() == old(self).next_task(),
            final(self).threads() == old(self).threads(),
            final(self).num_states() == old(self).num_states(),
            final(self).outcomes() == old(self).outcomes(),
            old(self).messages().len() <= final(self).messages().len(),
            final(self).messages().take(old(self).messages().len() as int) == old(self).messages(),
            res is Some ==> final(self).pending() == old(self).pending() - (final(self).messages().len()
                - old(self).messages().len()),
            blocking && res is None ==> final(self).pending() == 0 || final(self).pending() == old(
                self,
            ).pending() - (final(self).messages().len() - old(self).messages().len()),
            !blocking && res is None ==> final(self).pending() == old(self).pending() - (
            final(self).messages().len() - old(self).messages().len() - 1),
            takes_in_turn(*old(self), res, *final(self)),
            old(self).senders_gone() ==> final(self).senders_gone(),
            old(self).nothing_owed() ==> res is None && final(self).nothing_owed(),
            blocking && res is None ==> final(self).nothing_owed() || final(self).senders_gone(),
    {
        let ghost start = self.received();
        let ghost msg_start = self.messages();
        let ghost held0 = self.held();
        let ghost cur0 = self.next_result();
        let ghost owed0 = self.pending() + self.held().len();
        let ghost mut taken: Seq<OrderedResult<Option<R>>> = Seq::empty();
        loop
            invariant
                old(self).senders_gone() ==> self.senders_gone(),
                old(self).nothing_owed() ==> self.held() == held0 && self.next_result() == cur0
                    && self.pending() == 0,
                start == old(self).received(),
                held0 == old(self).held(),
                cur0 == old(self).next_result(),
                owed0 == old(self).pending() + old(self).held().len(),
                self.next_task() == old(self).next_task(),
                self.threads() == old(self).threads(),
                self.num_states() == old(self).num_states(),
                self.outcomes() == old(self).outcomes(),
                start.len() <= self.received().len(),
                self.received().take(start.len() as int) == start,
                msg_start == old(self).messages(),
                msg_start.len() <= self.messages().len(),
                self.messages().take(msg_start.len() as int) == msg_start,
                self.pending() == old(self).pending() - (self.messages().len() - msg_start.len()),
                forall|j: int| start.len() <= j < self.received().len() ==> (#[trigger] self.received()[j]) is Some,
                self.pending() + self.held().len() + taken.len() <= owed0,
                self.held().add(taken.to_multiset()) =~= held0.add(
                    arrivals(self.received().skip(start.len() as int)).to_multiset(),
                ),
                forall|i: int|
                    0 <= i < taken.len() ==> (#[trigger] taken[i]).indx.index() == position_after(cur0, i as nat)
                        && taken[i].result is None,
                self.next_result() == position_after(cur0, taken.len()),
                result_due(held0, cur0) ==> taken.len() == 0 && self.held() == held0 && self.received()
                    == start,
            decreases self.pending(), self.held().len(),
        {
            let ghost held_before = self.held();
            let ghost cur_before = self.next_result();
            let ghost got_before = self.received().skip(start.len() as int);
            proof {
                assert(arrivals(got_before) =~= got_before.map_values(
                    |o: Option<(NonZeroIndex, Option<R>)>| as_held(o),
                ));
            }
            let due = self.result_heap.get();
            match due {
                Some(outcome) => {
                    let ghost e = choose|e: OrderedResult<Option<R>>|
                        #[trigger] held_before.count(e) > 0 && e.indx.index() == cur_before
                            && e.result == outcome && self.held() =~= held_before.remove(e);
                    proof {
                        assert(held_before.remove(e).insert(e) =~= held_before);
                        assert(taken.push(e).to_multiset() =~= taken.to_multiset().insert(e));
                        assert(self.held().add(taken.push(e).to_multiset()) =~= held_before.add(
                            taken.to_multiset(),
                        ));
                        taken = taken.push(e);
                    }
                    proof {
                        if result_due(held0, cur0) {
                            assert(held0.count(e) > 0 && e.indx.index() == cur0);
                        }
                    }
                    match outcome {
                        Some(r) => {
                            proof {
                                let got = self.received().skip(start.len() as int);
                                assert(got =~= got_before);
                                assert forall|i: int| 0 <= i < taken.len() - 1 implies (#[trigger] taken[i]).result is None by {}
                                assert(handed_in_turn(cur0, held0, got, taken, Some(r), self.next_result(), self.held()));
                            }
                            return Some(r);
                        },
                        None => {},
                    }
                },
                None => {
                    assert(!result_due(held0, cur0));
                    let received = if blocking {
                        self.inner.get_blocking()
                    } else {
                        self.inner.get()
                    };
                    proof {
                        assert(self.received().skip(start.len() as int) =~= got_before.push(received));
                    }
                    match received {
                        Some((indx, outcome)) => {
                            self.result_heap.push(outcome, indx);
                            proof {
                                let got = self.received().skip(start.len() as int);
                                let f = |o: Option<(NonZeroIndex, Option<R>)>| as_held(o);
                                let x = OrderedResult { result: outcome, indx };
                                assert(arrivals(got) =~= got_before.map_values(f).push(x));
                                assert(arrivals(got).to_multiset() =~= arrivals(got_before).to_multiset().insert(x));
                                assert(self.held() =~= held_before.insert(x));
                                assert(held_before.insert(x).add(taken.to_multiset()) =~= held_before.add(
                                    taken.to_multiset(),
                                ).insert(x));
                                assert(held0.add(arrivals(got_before).to_multiset().insert(x)) =~= held0.add(
                                    arrivals(got_before).to_multiset(),
                                ).insert(x));
                            }
                        },
                        None => {
                            proof {
                                let got = self.received().skip(start.len() as int);
                                assert(arrivals(got) =~= arrivals(got_before));
                                assert(handed_in_turn(cur0, held0, got, taken, None, self.next_result(), self.held()));
                            }
                            return None;
                        },
                    }
                },
            }
        }
    }

    /// Position with which the next task will be tagged.
    pub fn next_task_tag(&self) -> (res: NonZeroIndex)
        ensures
            res.index() == self.next_task(),
    {
        self.task_indx
    }

    /// Number of tasks whose outcome has not been received yet.
    pub fn num_pending_tasks(&self) -> (res: usize)
        ensures
            res == self.pending(),
    {
        self.inner.num_pending_tasks()
    }

    /// Number of worker threads.
    pub fn num_worker_threads(&self) -> (res: usize)
        ensures
            res == self.threads(),
    {
        self.inner.num_worker_threads()
    }
}

impl<R> WorkerMethods<R> for OrderedCancelableWorker<R> {
    open spec fn owed(&self) -> nat {
        self.pending() + self.held().len()
    }

    closed spec fn outcomes(&self) -> Seq<Option<R>> {
        self.handed_out@
    }

    /// Every sender on the channel is gone, as the worker has seen.
    closed spec fn senders_gone(&self) -> bool {
        self.inner.senders_gone()
    }

    /// No task is pending, and the position whose turn it is is not held.
    open spec fn nothing_owed(&self) -> bool {
        self.pending() == 0 && !ready_at(self.held(), self.next_result())
    }

    /// The outcomes received have all been taken in turn from position 1 on, but
    /// for those still held, and the results handed out are, in order, the
    /// results among those taken.
    open spec fn tallies(&self) -> bool {
        exists|taken: Seq<OrderedResult<Option<R>>>|
            #[trigger] taken_from(
                1,
                Multiset::empty(),
                self.received(),
                taken,
                self.outcomes(),
                self.next_result(),
                self.held(),
            )
    }

    /// The next result in task order; does not wait.
    fn get(&mut self) -> (res: Option<R>)
        ensures
            final(self).next_task() == old(self).next_task(),
            old(self).messages().len() <= final(self).messages().len(),
            final(self).messages().take(old(self).messages().len() as int) == old(self).messages(),
            res is Some ==> final(self).pending() == old(self).pending() - (final(self).messages().len()
                - old(self).messages().len()),
            res is None ==> final(self).pending() == old(self).pending() - (final(self).messages().len()
                - old(self).messages().len() - 1),
            takes_in_turn(*old(self), res, *final(self)),
    {
        let res = self.get_in_order(false);
        let ghost mid = *self;
        proof {
            let taken = choose|taken: Seq<OrderedResult<Option<R>>>|
                handed_in_turn(
                    old(self).next_result(),
                    old(self).held(),
                    mid.received().skip(old(self).received().len() as int),
                    taken,
                    res,
                    mid.next_result(),
                    mid.held(),
                );
            self.handed_out@ = self.handed_out@.push(res);
            assert(handed_in_turn(
                old(self).next_result(),
                old(self).held(),
                self.received().skip(old(self).received().len() as int),
                taken,
                res,
                self.next_result(),
                self.held(),
            ));
            lemma_takes_keeps_tallies(*old(self), res, *self, taken);
        }
        res
    }

    /// The next result in task order, waiting for it.
    fn get_blocking(&mut self) -> (res: Option<R>)
        ensures
            final(self).next_task() == old(self).next_task(),
            old(self).messages().len() <= final(self).messages().len(),
            final(self).messages().take(old(self).messages().len() as int) == old(self).messages(),
            res is Some ==> final(self).pending() == old(self).pending() - (final(self).messages().len()
                - old(self).messages().len()),
            res is None ==> final(self).pending() == 0 || final(self).pending() == old(self).pending() - (
            final(self).messages().len() - old(self).messages().len()),
            takes_in_turn(*old(self), res, *final(self)),
    {
        let res = self.get_in_order(true);
        let ghost mid = *self;
        proof {
            let taken = choose|taken: Seq<OrderedResult<Option<R>>>|
                handed_in_turn(
                    old(self).next_result(),
                    old(self).held(),
                    mid.received().skip(old(self).received().len() as int),
                    taken,
                    res,
                    mid.next_result(),
                    mid.held(),
                );
            self.handed_out@ = self.handed_out@.push(res);
            assert(handed_in_turn(
                old(self).next_result(),
                old(self).held(),
                self.received().skip(old(self).received().len() as int),
                taken,
                res,
                self.next_result(),
                self.held(),
            ));
            lemma_takes_keeps_tallies(*old(self), res, *self, taken);
        }
        res
    }
}

} // verus!
