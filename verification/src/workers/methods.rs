use vstd::prelude::*;

verus! {

/// The outcomes of a run of calls that hand out `results`, one per call, and
/// then a call that hands out nothing.
pub open spec fn results_then_none<R>(results: Seq<R>) -> Seq<Option<R>> {
    results.map_values(|r: R| Some(r)).push(None)
}

/// The outcomes of the calls that fill a buffer of `len` places with `written`:
/// one per result written, and, when the buffer was not filled, the call that
/// handed out nothing.
pub open spec fn buffered_outcomes<R>(written: Seq<R>, len: nat) -> Seq<Option<R>> {
    if written.len() < len {
        results_then_none(written)
    } else {
        written.map_values(|r: R| Some(r))
    }
}

/// The results among `outcomes`, in order.
pub open spec fn results_handed<R>(outcomes: Seq<Option<R>>) -> Seq<R>
    decreases outcomes.len(),
{
    if outcomes.len() == 0 {
        Seq::empty()
    } else {
        let rest = results_handed(outcomes.drop_last());
        match outcomes.last() {
            Some(r) => rest.push(r),
            None => rest,
        }
    }
}

/// The results among two runs of outcomes, one after the other.
pub proof fn lemma_results_handed_concat<R>(a: Seq<Option<R>>, b: Seq<Option<R>>)
    ensures
        results_handed(a + b) == results_handed(a) + results_handed(b),
    decreases b.len(),
{
    if b.len() == 0 {
        assert(a + b =~= a);
        assert(results_handed(a) + Seq::<R>::empty() =~= results_handed(a));
    } else {
        assert((a + b).drop_last() =~= a + b.drop_last());
        assert((a + b).last() == b.last());
        lemma_results_handed_concat(a, b.drop_last());
        match b.last() {
            Some(r) => {
                assert(results_handed(a) + results_handed(b.drop_last()).push(r) =~= (results_handed(a)
                    + results_handed(b.drop_last())).push(r));
            },
            None => {},
        }
    }
}

/// A run of outcomes that are all `None` holds no result.
pub proof fn lemma_results_handed_none<R>(s: Seq<Option<R>>)
    requires
        forall|i: int| 0 <= i < s.len() ==> (#[trigger] s[i]) is None,
    ensures
        results_handed(s) == Seq::<R>::empty(),
    decreases s.len(),
{
    if s.len() > 0 {
        lemma_results_handed_none(s.drop_last());
    }
}

/// The results among the outcomes of a run of calls that collected `collected`
/// into a vector, after earlier outcomes `earlier`.
pub proof fn lemma_results_handed_then_none<R>(earlier: Seq<Option<R>>, collected: Seq<R>)
    ensures
        results_handed(earlier + results_then_none(collected)) == results_handed(earlier) + collected,
        results_handed(earlier + collected.map_values(|r: R| Some(r))) == results_handed(earlier) + collected,
    decreases collected.len(),
{
    let f = |r: R| Some(r);
    if collected.len() == 0 {
        assert(collected.map_values(f) =~= Seq::<Option<R>>::empty());
        assert(earlier + Seq::<Option<R>>::empty() =~= earlier);
        assert(results_handed(earlier) + collected =~= results_handed(earlier));
    } else {
        let rest = collected.drop_last();
        lemma_results_handed_then_none(earlier, rest);
        assert((earlier + collected.map_values(f)).drop_last() =~= earlier + rest.map_values(f));
        assert(results_handed(earlier) + collected =~= (results_handed(earlier) + rest).push(collected.last()));
    }
    let all = earlier + collected.map_values(f);
    assert((earlier + results_then_none(collected)) =~= all.push(None));
    assert(all.push(None).drop_last() =~= all);
    assert(all.push(None).last() == None::<R>);
    assert(results_handed(all.push(None)) == results_handed(all));
}

/// What one call of `get_blocking` does to a worker, from `before` to `after`,
/// handing out `res`, as `WorkerMethods` says: with nothing owed it hands out
/// nothing and leaves nothing owed; it hands out nothing only when nothing more
/// is owed or every sender is gone; and senders once gone stay gone.
pub open spec fn blocking_get_step<R, W: WorkerMethods<R>>(before: W, res: Option<R>, after: W) -> bool {
    &&& before.nothing_owed() ==> res is None && after.nothing_owed()
    &&& before.senders_gone() ==> after.senders_gone()
    &&& res is None ==> after.nothing_owed() || after.senders_gone()
}

/// While the threads are alive, a run of calls of `get_blocking` (the `i`-th
/// taking the worker from `workers[i]` to `workers[i + 1]` and handing out
/// `outcomes[i]`) waits for every result owed: a call hands out nothing only
/// when nothing more is owed, and then every later call hands out nothing too.
pub proof fn law_blocking_gets_stop_only_when_nothing_owed<R, W: WorkerMethods<R>>(
    workers: Seq<W>,
    outcomes: Seq<Option<R>>,
)
    requires
        workers.len() == outcomes.len() + 1,
        forall|i: int|
            0 <= i < outcomes.len() ==> #[trigger] blocking_get_step(workers[i], outcomes[i], workers[i + 1]),
        !workers.last().senders_gone(),
    ensures
        forall|i: int| 0 <= i <= outcomes.len() ==> !(#[trigger] workers[i]).senders_gone(),
        forall|i: int| 0 <= i < outcomes.len() && (#[trigger] outcomes[i]) is None ==> workers[i + 1].nothing_owed(),
        forall|i: int, j: int|
            0 <= i < j < outcomes.len() && (#[trigger] outcomes[i]) is None ==> (#[trigger] outcomes[j]) is None,
    decreases outcomes.len(),
{
    let k = outcomes.len();
    if k > 0 {
        let ws = workers.drop_last();
        let os = outcomes.drop_last();
        assert forall|i: int| 0 <= i < os.len() implies #[trigger] blocking_get_step(ws[i], os[i], ws[i + 1]) by {
            assert(blocking_get_step(workers[i], outcomes[i], workers[i + 1]));
        }
        assert(blocking_get_step(workers[k - 1], outcomes[k - 1], workers[(k - 1) + 1]));
        assert(workers[(k - 1) + 1] == workers.last());
        assert(ws.last() == workers[k - 1]);
        law_blocking_gets_stop_only_when_nothing_owed(ws, os);
        assert forall|i: int| 0 <= i <= outcomes.len() implies !(#[trigger] workers[i]).senders_gone() by {
            if i < k {
                assert(workers[i] == ws[i]);
            }
        }
        assert forall|i: int| 0 <= i < outcomes.len() && (#[trigger] outcomes[i]) is None implies workers[i
            + 1].nothing_owed() by {
            assert(blocking_get_step(workers[i], outcomes[i], workers[i + 1]));
        }
        assert forall|i: int, j: int|
            0 <= i < j < outcomes.len() && (#[trigger] outcomes[i]) is None implies (#[trigger] outcomes[j]) is None by {
            if j < k - 1 {
                assert(outcomes[i] == os[i]);
                assert(outcomes[j] == os[j]);
            } else {
                assert(blocking_get_step(workers[i], outcomes[i], workers[i + 1]));
                if i + 1 < k - 1 {
                    assert(outcomes[i] == os[i]);
                    assert(ws[i + 1].nothing_owed() ==> os[k - 2] is None && ws[k - 1].nothing_owed()) by {
                        lemma_nothing_owed_stays(ws, os, i + 1);
                    }
                }
            }
        }
    }
}

/// Once a run of calls of `get_blocking` reaches a worker that owes nothing,
/// every later worker of the run owes nothing.
proof fn lemma_nothing_owed_stays<R, W: WorkerMethods<R>>(workers: Seq<W>, outcomes: Seq<Option<R>>, from: int)
    requires
        workers.len() == outcomes.len() + 1,
        forall|i: int|
            0 <= i < outcomes.len() ==> #[trigger] blocking_get_step(workers[i], outcomes[i], workers[i + 1]),
        0 <= from < outcomes.len(),
    ensures
        workers[from].nothing_owed() ==> outcomes.last() is None && workers.last().nothing_owed(),
    decreases outcomes.len() - from,
{
    assert(blocking_get_step(workers[from], outcomes[from], workers[from + 1]));
    if from + 1 < outcomes.len() {
        lemma_nothing_owed_stays(workers, outcomes, from + 1);
    } else {
        assert(workers[from + 1] == workers.last());
    }
}

/// While the threads are alive, `get_vec_blocking` and `get_buffered_blocking`
/// (when they do not fill the buffer) collect every result owed: a call of
/// `get` or `get_blocking` right after them, taking the worker from `after` to
/// `later`, hands out nothing.
pub proof fn law_blocking_collection_leaves_nothing_owed<R, W: WorkerMethods<R>>(
    after: W,
    res: Option<R>,
    later: W,
)
    requires
        after.nothing_owed() || after.senders_gone(),
        !after.senders_gone(),
        after.nothing_owed() ==> res is None && later.nothing_owed(),
    ensures
        res is None,
        later.nothing_owed(),
{
}

/// Handing out the results of a worker's tasks.
///
/// `owed()` counts the results that the worker may still hand out. Every result
/// handed out uses one of them up, so a loop that collects results ends.
/// `outcomes()` records what every call of `get` and `get_blocking` handed out,
/// in order: the result, or `None`. `tallies()` is what a worker's records keep
/// true from one call to the next, such as which results it has handed out
/// against those it received.
pub trait WorkerMethods<R>: Sized {
    /// The results that may still be handed out.
    spec fn owed(&self) -> nat;

    /// What every call of `get` and `get_blocking` has handed out so far.
    spec fn outcomes(&self) -> Seq<Option<R>>;

    /// The worker's records agree with one another.
    spec fn tallies(&self) -> bool;

    /// Every thread that sends results to the worker is gone, as the worker has
    /// seen on its channel: nothing more can come.
    spec fn senders_gone(&self) -> bool;

    /// The worker owes no result that could still come: no call of `get` or
    /// `get_blocking` would hand one out.
    spec fn nothing_owed(&self) -> bool;

    /// Return the next result. If no result is available, return None.
    /// This function will not block.
    fn get(&mut self) -> (res: Option<R>)
        ensures
            old(self).owed() == 0 ==> res is None,
            old(self).nothing_owed() ==> res is None && final(self).nothing_owed(),
            old(self).senders_gone() ==> final(self).senders_gone(),
            res is Some ==> final(self).owed() < old(self).owed(),
            res is None ==> final(self).owed() <= old(self).owed(),
            final(self).outcomes() == old(self).outcomes().push(res),
            old(self).tallies() ==> final(self).tallies(),
    ;

    /// Return the next result. If no result is available block until a result
    /// is available. If no tasks are pending, return None.
    fn get_blocking(&mut self) -> (res: Option<R>)
        ensures
            old(self).owed() == 0 ==> res is None,
            old(self).nothing_owed() ==> res is None && final(self).nothing_owed(),
            old(self).senders_gone() ==> final(self).senders_gone(),
            res is None ==> final(self).nothing_owed() || final(self).senders_gone(),
            res is Some ==> final(self).owed() < old(self).owed(),
            res is None ==> final(self).owed() <= old(self).owed(),
            final(self).outcomes() == old(self).outcomes().push(res),
            old(self).tallies() ==> final(self).tallies(),
    ;

    /// Receive all available results and return them in a vector: calls `get`
    /// until it hands out nothing. This function will not block.
    fn get_vec(&mut self) -> (res: Vec<R>)
        ensures
            res@.len() + final(self).owed() <= old(self).owed(),
            final(self).outcomes() == old(self).outcomes() + results_then_none(res@),
            old(self).tallies() ==> final(self).tallies(),
            old(self).senders_gone() ==> final(self).senders_gone(),
    {
        let mut results: Vec<R> = Vec::new();
        loop
            invariant
                results@.len() + self.owed() <= old(self).owed(),
                self.outcomes() == old(self).outcomes() + results@.map_values(|r: R| Some(r)),
                old(self).tallies() ==> self.tallies(),
                old(self).senders_gone() ==> self.senders_gone(),
            decreases self.owed(),
        {
            let ghost before = results@;
            match self.get() {
                Some(r) => {
                    results.push(r);
                    assert(results@.map_values(|r: R| Some(r)) =~= before.map_values(
                        |r: R| Some(r),
                    ).push(Some(r)));
                },
                None => {
                    assert(self.outcomes() =~= old(self).outcomes() + results_then_none(results@));
                    return results;
                },
            }
        }
    }

    /// Block until all tasks have been processed and return all results in a
    /// vector: calls `get_blocking` until it hands out nothing.
    fn get_vec_blocking(&mut self) -> (res: Vec<R>)
        ensures
            res@.len() + final(self).owed() <= old(self).owed(),
            final(self).outcomes() == old(self).outcomes() + results_then_none(res@),
            old(self).tallies() ==> final(self).tallies(),
            old(self).senders_gone() ==> final(self).senders_gone(),
            final(self).nothing_owed() || final(self).senders_gone(),
    {
        let mut results: Vec<R> = Vec::new();
        loop
            invariant
                results@.len() + self.owed() <= old(self).owed(),
                self.outcomes() == old(self).outcomes() + results@.map_values(|r: R| Some(r)),
                old(self).tallies() ==> self.tallies(),
                old(self).senders_gone() ==> self.senders_gone(),
            decreases self.owed(),
        {
            let ghost before = results@;
            match self.get_blocking() {
                Some(r) => {
                    results.push(r);
                    assert(results@.map_values(|r: R| Some(r)) =~= before.map_values(
                        |r: R| Some(r),
                    ).push(Some(r)));
                },
                None => {
                    assert(self.outcomes() =~= old(self).outcomes() + results_then_none(results@));
                    return results;
                },
            }
        }
    }

    /// Write available results into the buffer and return the number of results
    /// written. If the buffer is too small to hold all available results, the
    /// remaining results are left with the worker. This function will not block.
    fn get_buffered(&mut self, buffer: &mut [R]) -> (n: usize)
        ensures
            n <= old(buffer)@.len(),
            final(buffer)@.len() == old(buffer)@.len(),
            forall|i: int| n <= i < old(buffer)@.len() ==> final(buffer)@[i] == old(buffer)@[i],
            n + final(self).owed() <= old(self).owed(),
            final(self).outcomes() == old(self).outcomes() + buffered_outcomes(
                final(buffer)@.take(n as int),
                old(buffer)@.len(),
            ),
            old(self).tallies() ==> final(self).tallies(),
            old(self).senders_gone() ==> final(self).senders_gone(),
    {
        self.write_buffered(buffer, false)
    }

    /// Write all results into the buffer and return the number of results
    /// written. If the buffer is too small to hold all results, the remaining
    /// results are left with the worker. This function will block until all
    /// tasks have been processed or the buffer is full.
    fn get_buffered_blocking(&mut self, buffer: &mut [R]) -> (n: usize)
        ensures
            n <= old(buffer)@.len(),
            final(buffer)@.len() == old(buffer)@.len(),
            forall|i: int| n <= i < old(buffer)@.len() ==> final(buffer)@[i] == old(buffer)@[i],
            n + final(self).owed() <= old(self).owed(),
            final(self).outcomes() == old(self).outcomes() + buffered_outcomes(
                final(buffer)@.take(n as int),
                old(buffer)@.len(),
            ),
            old(self).tallies() ==> final(self).tallies(),
            old(self).senders_gone() ==> final(self).senders_gone(),
            n == old(buffer)@.len() || final(self).nothing_owed() || final(self).senders_gone(),
    {
        self.write_buffered(buffer, true)
    }

    /// Fills `buffer` from the front with the results that successive calls of
    /// `get` (of `get_blocking` with `blocking`) hand out, until the buffer is
    /// full or a call hands out nothing; returns how many it wrote.
    fn write_buffered(&mut self, buffer: &mut [R], blocking: bool) -> (n: usize)
        ensures
            n <= old(buffer)@.len(),
            final(buffer)@.len() == old(buffer)@.len(),
            forall|i: int| n <= i < old(buffer)@.len() ==> final(buffer)@[i] == old(buffer)@[i],
            n + final(self).owed() <= old(self).owed(),
            final(self).outcomes() == old(self).outcomes() + buffered_outcomes(
                final(buffer)@.take(n as int),
                old(buffer)@.len(),
            ),
            old(self).tallies() ==> final(self).tallies(),
            old(self).senders_gone() ==> final(self).senders_gone(),
            blocking ==> n == old(buffer)@.len() || final(self).nothing_owed() || final(self).senders_gone(),
    {
        let mut indx: usize = 0;
        while indx < buffer.len()
            invariant
                indx <= buffer@.len(),
                buffer@.len() == old(buffer)@.len(),
                forall|i: int| indx <= i < old(buffer)@.len() ==> buffer@[i] == old(buffer)@[i],
                indx + self.owed() <= old(self).owed(),
                self.outcomes() == old(self).outcomes() + buffer@.take(indx as int).map_values(
                    |r: R| Some(r),
                ),
                old(self).tallies() ==> self.tallies(),
                old(self).senders_gone() ==> self.senders_gone(),
            decreases buffer@.len() - indx,
        {
            let next = if blocking {
                self.get_blocking()
            } else {
                self.get()
            };
            match next {
                Some(result) => {
                    let ghost before = buffer@;
                    buffer[indx] = result;
                    assert(buffer@.take(indx + 1) =~= before.take(indx as int).push(result));
                    assert(buffer@.take(indx + 1).map_values(|r: R| Some(r)) =~= before.take(
                        indx as int,
                    ).map_values(|r: R| Some(r)).push(Some(result)));
                    indx = indx + 1;
                },
                None => {
                    assert(self.outcomes() =~= old(self).outcomes() + buffered_outcomes(
                        buffer@.take(indx as int),
                        old(buffer)@.len(),
                    ));
                    return indx;
                },
            }
        }
        assert(self.outcomes() =~= old(self).outcomes() + buffered_outcomes(
            buffer@.take(indx as int),
            old(buffer)@.len(),
        ));
        indx
    }
}

} // verus!
