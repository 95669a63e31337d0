use std::sync::mpsc::Receiver;
use vstd::multiset::Multiset;
use vstd::prelude::*;

use super::basic_worker::BasicWorker;
use super::methods::{
    lemma_results_handed_concat, lemma_results_handed_then_none, results_handed, results_then_none,
    WorkerMethods,
};

verus! {

broadcast use vstd::seq_lib::group_to_multiset_ensures;

/// Position in `v` of an entry with the lowest tag, for a non-empty `v`.
fn position_of_lowest_tag<R>(v: &Vec<(usize, R)>) -> (best: usize)
    requires
        v@.len() > 0,
    ensures
        best < v@.len(),
        forall|j: int| 0 <= j < v@.len() ==> v@[best as int].0 <= #[trigger] v@[j].0,
{
    let n = v.len();
    let mut best: usize = 0;
    let mut i: usize = 1;
    while i < n
        invariant
            n == v@.len(),
            best < i <= n,
            forall|j: int| 0 <= j < i ==> v@[best as int].0 <= #[trigger] v@[j].0,
        decreases n - i,
    {
        if v[i].0 < v[best].0 {
            best = i;
        }
        i = i + 1;
    }
    best
}

/// Among the tagged results `held`, the lowest tag is `next`.
pub open spec fn ready_for<R>(held: Multiset<(usize, R)>, next: usize) -> bool {
    &&& exists|e: (usize, R)| #[trigger] held.count(e) > 0 && e.0 == next
    &&& forall|e: (usize, R)| #[trigger] held.count(e) > 0 ==> e.0 >= next
}

/// No two of the tagged results `held` carry the same tag with different results.
pub open spec fn tags_distinct<R>(held: Multiset<(usize, R)>) -> bool {
    forall|t: usize, a: R, b: R|
        #[trigger] held.count((t, a)) > 0 && #[trigger] held.count((t, b)) > 0 ==> a == b
}

/// What `accept` does with a result tagged `indx`, for a worker whose next
/// result is tagged `next` and that holds `held`: the result it hands out, and
/// the next tag and held results it leaves.
pub open spec fn accept_step<R>(next: usize, held: Multiset<(usize, R)>, indx: usize, result: R) -> (
    Option<R>,
    usize,
    Multiset<(usize, R)>,
) {
    if indx == next && indx < usize::MAX {
        (Some(result), (next + 1) as usize, held)
    } else {
        (None, next, held.insert((indx, result)))
    }
}

/// What `take_held` does for a worker whose next result is tagged `next` and
/// that holds `held`, when no two held results share a tag.
pub open spec fn take_step<R>(next: usize, held: Multiset<(usize, R)>) -> (
    Option<R>,
    usize,
    Multiset<(usize, R)>,
) {
    if ready_for(held, next) && next < usize::MAX {
        let r = choose|r: R| #[trigger] held.count((next, r)) > 0;
        (Some(r), (next + 1) as usize, held.remove((next, r)))
    } else {
        (None, next, held)
    }
}

/// The results that `k` calls of `take_held`, one after another, hand out.
pub open spec fn drain_held<R>(next: usize, held: Multiset<(usize, R)>, k: nat) -> Seq<Option<R>>
    decreases k,
{
    if k == 0 {
        Seq::empty()
    } else {
        let (r, next2, held2) = take_step(next, held);
        seq![r] + drain_held(next2, held2, (k - 1) as nat)
    }
}

/// The results `results` tagged `next`, `next + 1`, ... in turn, in no order.
pub open spec fn tagged<R>(next: usize, results: Seq<R>) -> Multiset<(usize, R)> {
    Seq::new(results.len(), |j: int| ((next + j) as usize, results[j])).to_multiset()
}

/// Results come out in the order of their tasks, whatever the order in which
/// they came in: once the results of the tasks tagged `next`, `next + 1`, ...,
/// `next + k - 1` are all held, in whatever order they arrived, `k` calls of
/// `take_held`, or of `get` or `get_blocking` (which then do what `take_step`
/// says, receiving nothing), hand them out in the order of their tags.
pub proof fn law_held_results_leave_in_task_order<R>(next: usize, results: Seq<R>)
    requires
        next + results.len() <= usize::MAX,
    ensures
        drain_held(next, tagged(next, results), results.len()) =~= results.map_values(
            |r: R| Some(r),
        ),
    decreases results.len(),
{
    let k = results.len();
    if k > 0 {
        let s = Seq::new(k, |j: int| ((next + j) as usize, results[j]));
        let held = s.to_multiset();
        assert(s[0] == (next, results[0]));
        assert(s.contains(s[0]));
        assert(held.count((next, results[0])) > 0);
        assert forall|e: (usize, R)| #[trigger] held.count(e) > 0 implies e.0 >= next by {
            assert(s.contains(e));
            let j = choose|j: int| 0 <= j < k && s[j] == e;
        }
        assert(ready_for(held, next));
        let r = choose|r: R| #[trigger] held.count((next, r)) > 0;
        assert(r == results[0]) by {
            assert(s.contains((next, r)));
            let j = choose|j: int| 0 <= j < k && s[j] == (next, r);
        }
        let rest = results.drop_first();
        assert(s.remove(0) =~= Seq::new(rest.len(), |j: int| (((next + 1) as usize + j) as usize, rest[j])));
        assert(held.remove((next, r)) =~= tagged((next + 1) as usize, rest));
        law_held_results_leave_in_task_order((next + 1) as usize, rest);
        assert(take_step(next, held) == (Some(results[0]), (next + 1) as usize, tagged((next + 1) as usize, rest)));
    }
}

/// What one call of `get_in_order` receives from the threads, `got`, when the
/// next tag is `next`, the worker holds `held` and no held result is ready: the
/// results that are not yet due, which are then held (leaving `held_after`),
/// and last either the result that is due, handed out as `res`, or nothing.
pub open spec fn received_in_turn<R>(
    next: usize,
    held: Multiset<(usize, R)>,
    got: Seq<Option<(usize, R)>>,
    res: Option<R>,
    held_after: Multiset<(usize, R)>,
) -> bool {
    &&& got.len() >= 1
    &&& forall|j: int|
        0 <= j < got.len() - 1 ==> (#[trigger] got[j]) is Some && !(got[j]->Some_0.0 == next
            && next < usize::MAX)
    &&& held_after =~= held.add(
        got.take(got.len() - 1).map_values(|o: Option<(usize, R)>| o->Some_0).to_multiset(),
    )
    &&& match got.last() {
        None => res is None,
        Some(e) => e.0 == next && next < usize::MAX && res == Some(e.1),
    }
}

/// What one call of `get_in_order`, `get` or `get_blocking` does to a worker,
/// from `before` to `after`, handing out `res`. When the result whose turn it
/// is is held, that one is handed out and nothing is received; otherwise
/// results are received and held until that one comes in (`received_in_turn`).
/// Either way the next position moves on by one exactly when a result is handed
/// out, and what was received before stays as it was.
pub open spec fn hands_out_in_turn<R>(before: OrderedWorker<R>, res: Option<R>, after: OrderedWorker<R>) -> bool {
    &&& res is Some ==> after.next_result() == before.next_result() + 1
    &&& res is None ==> after.next_result() == before.next_result()
    &&& before.received().len() <= after.received().len()
    &&& after.received().take(before.received().len() as int) =~= before.received()
    &&& before.ready() && before.next_result() < usize::MAX ==> {
        &&& res is Some
        &&& before.held().count((before.next_result(), res->Some_0)) > 0
        &&& after.held() =~= before.held().remove((before.next_result(), res->Some_0))
        &&& after.received() == before.received()
    }
    &&& before.ready() && before.next_result() < usize::MAX && tags_distinct(before.held()) ==> (
    res,
    after.next_result(),
    after.held(),
    ) == take_step(before.next_result(), before.held())
    &&& !(before.ready() && before.next_result() < usize::MAX) ==> received_in_turn(
        before.next_result(),
        before.held(),
        after.received().skip(before.received().len() as int),
        res,
        after.held(),
    )
}

/// The tagged results among `got`, what was received from the threads; a
/// `None` there means that nothing came.
pub open spec fn results_among<R>(got: Seq<Option<(usize, R)>>) -> Multiset<(usize, R)>
    decreases got.len(),
{
    if got.len() == 0 {
        Multiset::empty()
    } else {
        let rest = results_among(got.drop_last());
        match got.last() {
            Some(e) => rest.insert(e),
            None => rest,
        }
    }
}

proof fn lemma_results_among_concat<R>(a: Seq<Option<(usize, R)>>, b: Seq<Option<(usize, R)>>)
    ensures
        results_among(a + b) =~= results_among(a).add(results_among(b)),
    decreases b.len(),
{
    if b.len() == 0 {
        assert(a + b =~= a);
    } else {
        assert((a + b).drop_last() =~= a + b.drop_last());
        assert((a + b).last() == b.last());
        lemma_results_among_concat(a, b.drop_last());
    }
}

proof fn lemma_results_among_all_some<R>(got: Seq<Option<(usize, R)>>)
    requires
        forall|j: int| 0 <= j < got.len() ==> (#[trigger] got[j]) is Some,
    ensures
        results_among(got) =~= got.map_values(|o: Option<(usize, R)>| o->Some_0).to_multiset(),
    decreases got.len(),
{
    if got.len() > 0 {
        let f = |o: Option<(usize, R)>| o->Some_0;
        let rest = got.drop_last();
        assert(got =~= rest.push(got.last()));
        assert(got.map_values(f) =~= rest.map_values(f).push(f(got.last())));
        lemma_results_among_all_some(rest);
    }
}

proof fn lemma_tagged_push<R>(next: usize, results: Seq<R>, r: R)
    requires
        next + results.len() < usize::MAX,
    ensures
        tagged(next, results.push(r)) =~= tagged(next, results).insert(((next + results.len()) as usize, r)),
{
    let k = results.len();
    let f = |j: int| ((next + j) as usize, results.push(r)[j]);
    assert(Seq::new(k + 1, f) =~= Seq::new(k, |j: int| ((next + j) as usize, results[j])).push(
        ((next + k) as usize, r),
    ));
}

/// One call hands out what it took in turn: the results held after it, with the
/// result handed out tagged with the position whose turn it was, are the
/// results held before it with those received during it.
proof fn lemma_hands_out_keeps_results<R>(before: OrderedWorker<R>, res: Option<R>, after: OrderedWorker<R>)
    requires
        hands_out_in_turn(before, res, after),
    ensures
        after.held().add(
            match res {
                Some(r) => Multiset::singleton((before.next_result(), r)),
                None => Multiset::empty(),
            },
        ) =~= before.held().add(results_among(after.received().skip(before.received().len() as int))),
        res is Some ==> before.next_result() < usize::MAX,
{
    let got = after.received().skip(before.received().len() as int);
    if before.ready() && before.next_result() < usize::MAX {
        let e = (before.next_result(), res->Some_0);
        assert(got.len() == 0);
        assert(after.held().insert(e) =~= before.held());
    } else {
        let first = got.take(got.len() - 1);
        assert(forall|j: int| 0 <= j < first.len() ==> first[j] == got[j]);
        lemma_results_among_all_some(first);
        assert(got.drop_last() =~= first);
    }
}

/// A call that hands out `res` in turn, and records it, keeps the worker's
/// records in step.
proof fn lemma_hands_out_keeps_tallies<R>(before: OrderedWorker<R>, res: Option<R>, after: OrderedWorker<R>)
    requires
        hands_out_in_turn(before, res, after),
        after.outcomes() == before.outcomes().push(res),
    ensures
        before.tallies() ==> after.tallies(),
{
    if before.tallies() {
        lemma_hands_out_keeps_results(before, res, after);
        let got = after.received().skip(before.received().len() as int);
        assert(after.received() =~= before.received() + got);
        lemma_results_among_concat(before.received(), got);
        assert(after.outcomes() =~= before.outcomes() + seq![res]);
        lemma_results_handed_concat(before.outcomes(), seq![res]);
        let h = results_handed(before.outcomes());
        let t = tagged(0, h);
        let g = results_among(got);
        match res {
            Some(r) => {
                assert(results_handed(seq![res]) =~= seq![r]) by {
                    reveal_with_fuel(results_handed, 2);
                }
                assert(results_handed(after.outcomes()) =~= h.push(r));
                lemma_tagged_push(0, h, r);
                let x = (before.next_result(), r);
                assert(((0 + h.len()) as usize, r) == x);
                assert forall|v: (usize, R)|
                    #[trigger] after.held().add(t.insert(x)).count(v) == results_among(after.received()).count(v) by {
                    assert(after.held().add(Multiset::singleton(x)).count(v) == before.held().add(g).count(v));
                    assert(before.held().add(t).count(v) == results_among(before.received()).count(v));
                }
                assert(after.held().add(tagged(0, h.push(r))) =~= results_among(after.received()));
            },
            None => {
                assert(results_handed(seq![res]) =~= Seq::<R>::empty()) by {
                    reveal_with_fuel(results_handed, 2);
                }
                assert(results_handed(after.outcomes()) =~= h);
                assert forall|v: (usize, R)|
                    #[trigger] after.held().add(t).count(v) == results_among(after.received()).count(v) by {
                    assert(after.held().add(Multiset::empty()).count(v) == before.held().add(g).count(v));
                    assert(before.held().add(t).count(v) == results_among(before.received()).count(v));
                }
            },
        }
    }
}

/// When the results held at the start and those received over a run of calls
/// of `get` or `get_blocking` are exactly the results of the tasks tagged
/// `next_result()`, `next_result() + 1`, ..., in that order `results`, the calls
/// hand out those results in that order: what they hand out is a beginning of
/// `results`, whatever the order in which the threads sent them.
pub proof fn law_tasks_results_leave_in_order<R>(
    workers: Seq<OrderedWorker<R>>,
    outcomes: Seq<Option<R>>,
    results: Seq<R>,
)
    requires
        workers.len() == outcomes.len() + 1,
        forall|i: int|
            0 <= i < outcomes.len() ==> #[trigger] hands_out_in_turn(workers[i], outcomes[i], workers[i + 1]),
        workers[0].next_result() + results.len() <= usize::MAX,
        workers[0].held().add(
            results_among(workers.last().received().skip(workers[0].received().len() as int)),
        ) =~= tagged(workers[0].next_result(), results),
    ensures
        results_handed(outcomes).len() <= results.len(),
        results_handed(outcomes) =~= results.take(results_handed(outcomes).len() as int),
{
    law_results_leave_in_task_order_over_calls(workers, outcomes);
    let n0 = workers[0].next_result();
    let h = results_handed(outcomes);
    let all = tagged(n0, results);
    let sh = Seq::new(h.len(), |j: int| ((n0 + j) as usize, h[j]));
    let sr = Seq::new(results.len(), |j: int| ((n0 + j) as usize, results[j]));
    assert(workers.last().held().add(sh.to_multiset()) =~= all);
    assert(sh.to_multiset().len() == h.len());
    assert(all.len() == results.len());
    assert(h.len() <= results.len());
    assert forall|j: int| 0 <= j < h.len() implies #[trigger] h[j] == results[j] by {
        assert(sh.contains(sh[j]));
        assert(sh.to_multiset().count(sh[j]) > 0);
        assert(workers.last().held().add(sh.to_multiset()).count(sh[j]) == all.count(sh[j]));
        assert(all.count(sh[j]) > 0);
        assert(sr.contains(sh[j]));
        let i = choose|i: int| 0 <= i < sr.len() && sr[i] == sh[j];
        assert(sr[i] == ((n0 + i) as usize, results[i]));
    }
}

proof fn lemma_tagged_concat<R>(next: usize, a: Seq<R>, b: Seq<R>)
    requires
        next + a.len() + b.len() <= usize::MAX,
    ensures
        tagged(next, a + b) =~= tagged(next, a).add(tagged((next + a.len()) as usize, b)),
{
    let sa = Seq::new(a.len(), |j: int| ((next + j) as usize, a[j]));
    let sb = Seq::new(b.len(), |j: int| (((next + a.len()) as usize + j) as usize, b[j]));
    let sab = Seq::new((a + b).len(), |j: int| ((next + j) as usize, (a + b)[j]));
    assert(sab =~= sa + sb);
    vstd::seq_lib::lemma_multiset_commutative(sa, sb);
}

/// The results that `get_vec`, `get_vec_blocking`, `get_buffered` or
/// `get_buffered_blocking` collects come in the order of their tasks: for a
/// worker whose records are in step before and after (`tallies()`, which `new`
/// gives and every call of `WorkerMethods` keeps), whose outcomes grew by the
/// results `collected` (and the call that handed out nothing, where there was
/// one), the `j`-th result collected was received tagged with the position
/// whose turn it was at the start, plus `j`.
pub proof fn law_collected_results_in_task_order<R>(
    before: OrderedWorker<R>,
    collected: Seq<R>,
    after: OrderedWorker<R>,
)
    requires
        before.tallies(),
        after.tallies(),
        after.outcomes() == before.outcomes() + results_then_none(collected) || after.outcomes()
            == before.outcomes() + collected.map_values(|r: R| Some(r)),
    ensures
        after.next_result() == before.next_result() + collected.len(),
        tagged(before.next_result(), collected).subset_of(results_among(after.received())),
{
    let h = results_handed(before.outcomes());
    lemma_results_handed_then_none(before.outcomes(), collected);
    lemma_tagged_concat(0, h, collected);
    assert((0 + h.len()) as usize == before.next_result());
    let t = tagged(before.next_result(), collected);
    assert forall|v: (usize, R)| #[trigger] t.count(v) <= results_among(after.received()).count(v) by {
        assert(after.held().add(tagged(0, h + collected)).count(v) == results_among(after.received()).count(v));
    }
}

/// Results come out in the order of their tasks, over any run of calls of
/// `get` or `get_blocking` (each one taking the worker from `workers[i]` to
/// `workers[i + 1]` and handing out `outcomes[i]`), whatever the order in which
/// the results came in: the results handed out, tagged with consecutive
/// positions from the one whose turn it was at the start, together with the
/// results still held at the end, are exactly the results held at the start
/// and those received meanwhile. So no result is lost or handed out twice, and
/// the one handed out `j`-th is one that was tagged `workers[0].next_result() + j`.
pub proof fn law_results_leave_in_task_order_over_calls<R>(
    workers: Seq<OrderedWorker<R>>,
    outcomes: Seq<Option<R>>,
)
    requires
        workers.len() == outcomes.len() + 1,
        forall|i: int|
            0 <= i < outcomes.len() ==> #[trigger] hands_out_in_turn(workers[i], outcomes[i], workers[i + 1]),
    ensures
        workers.last().next_result() == workers[0].next_result() + results_handed(outcomes).len(),
        workers[0].received().len() <= workers.last().received().len(),
        workers.last().received().take(workers[0].received().len() as int) == workers[0].received(),
        workers.last().held().add(tagged(workers[0].next_result(), results_handed(outcomes)))
            =~= workers[0].held().add(
            results_among(workers.last().received().skip(workers[0].received().len() as int)),
        ),
    decreases outcomes.len(),
{
    let k = outcomes.len();
    if k == 0 {
        assert(workers.last().received().skip(workers[0].received().len() as int) =~= Seq::<
            Option<(usize, R)>,
        >::empty());
        assert(tagged(workers[0].next_result(), Seq::<R>::empty()) =~= Multiset::<(usize, R)>::empty());
    } else {
        let ws = workers.drop_last();
        let os = outcomes.drop_last();
        assert forall|i: int| 0 <= i < os.len() implies #[trigger] hands_out_in_turn(ws[i], os[i], ws[i + 1]) by {
            assert(hands_out_in_turn(workers[i], outcomes[i], workers[i + 1]));
        }
        law_results_leave_in_task_order_over_calls(ws, os);
        let w0 = workers[0];
        let prev = workers[k - 1];
        let last = workers[k as int];
        assert(ws.last() == prev);
        assert(hands_out_in_turn(workers[k - 1], outcomes[k - 1], workers[(k - 1) + 1]));
        assert(workers[(k - 1) + 1] == last);
        lemma_hands_out_keeps_results(prev, outcomes[k - 1], last);
        let l0 = w0.received().len() as int;
        let lp = prev.received().len() as int;
        assert(last.received().take(l0) =~= prev.received().take(lp).take(l0));
        assert(last.received().skip(l0) =~= prev.received().skip(l0) + last.received().skip(lp));
        lemma_results_among_concat(prev.received().skip(l0), last.received().skip(lp));
        let h = results_handed(os);
        assert(ws[0] == w0);
        assert(outcomes.last() == outcomes[k - 1]);
        let s_prev = results_among(prev.received().skip(l0));
        let g = results_among(last.received().skip(lp));
        assert(prev.held().add(tagged(w0.next_result(), h)) =~= w0.held().add(s_prev));
        match outcomes.last() {
            Some(r) => {
                assert(results_handed(outcomes) == h.push(r));
                lemma_tagged_push(w0.next_result(), h, r);
                let x = (prev.next_result(), r);
                assert(last.held().insert(x) =~= prev.held().add(g));
                assert(tagged(w0.next_result(), h.push(r)) =~= tagged(w0.next_result(), h).insert(x));
                let t = tagged(w0.next_result(), h);
                assert forall|v: (usize, R)|
                    #[trigger] last.held().add(t.insert(x)).count(v) == w0.held().add(s_prev.add(g)).count(v) by {
                    assert(last.held().insert(x).count(v) == prev.held().add(g).count(v));
                    assert(prev.held().add(t).count(v) == w0.held().add(s_prev).count(v));
                }
                assert(last.held().add(tagged(w0.next_result(), h.push(r))) =~= w0.held().add(s_prev.add(g)));
            },
            None => {
                assert(results_handed(outcomes) == h);
                assert(last.held() =~= prev.held().add(g));
                let t = tagged(w0.next_result(), h);
                assert forall|v: (usize, R)|
                    #[trigger] last.held().add(t).count(v) == w0.held().add(s_prev.add(g)).count(v) by {
                    assert(prev.held().add(t).count(v) == w0.held().add(s_prev).count(v));
                }
                assert(last.held().add(tagged(w0.next_result(), h)) =~= w0.held().add(s_prev.add(g)));
            },
        }
        assert(results_among(last.received().skip(l0)) =~= s_prev.add(g));
        assert(workers.last() == last);
    }
}

/// The result side of a worker that hands results out in the order in which
/// their tasks were added.
///
/// Tasks are tagged with consecutive positions from 0; a result that comes in
/// ahead of its turn is held until every earlier one has been handed out.
#[verifier::reject_recursive_types(R)]
pub struct OrderedWorker<R> {
    inner: BasicWorker<(usize, R)>,
    result_heap: Vec<(usize, R)>,
    task_indx: usize,
    result_indx: usize,
    handed_out: Ghost<Seq<Option<R>>>,
}

impl<R> OrderedWorker<R> {
    /// Number of tasks whose result has not been received yet.
    pub closed spec fn pending(&self) -> nat {
        self.inner.pending()
    }

    /// Number of worker threads.
    pub closed spec fn threads(&self) -> usize {
        self.inner.threads()
    }

    /// Results received ahead of their turn, with their positions.
    pub closed spec fn held(&self) -> Multiset<(usize, R)> {
        self.result_heap@.to_multiset()
    }

    /// Everything received from the threads so far, in order: a tagged result,
    /// or `None` when nothing came.
    pub closed spec fn received(&self) -> Seq<Option<(usize, R)>> {
        self.inner.outcomes()
    }

    /// Position with which the next task will be tagged.
    pub closed spec fn next_task(&self) -> usize {
        self.task_indx
    }

    /// Position of the next result to hand out.
    pub closed spec fn next_result(&self) -> usize {
        self.result_indx
    }

    /// Among the results held, the lowest tag is `next_result()`.
    pub open spec fn ready(&self) -> bool {
        ready_for(self.held(), self.next_result())
    }

    /// A worker with nothing pending or held, whose first task is tagged 0.
    pub fn new(result_receiver: Receiver<(usize, R)>, num_worker_threads: usize) -> (res: Self)
        ensures
            res.pending() == 0,
            res.threads() == num_worker_threads,
            res.held() =~= Multiset::<(usize, R)>::empty(),
            res.next_task() == 0,
            res.next_result() == 0,
            res.received() == Seq::<Option<(usize, R)>>::empty(),
            res.outcomes() == Seq::<Option<R>>::empty(),
            res.tallies(),
            !res.senders_gone(),
    {
        let res = OrderedWorker {
            inner: BasicWorker::constructor(result_receiver, num_worker_threads),
            result_heap: Vec::new(),
            task_indx: 0,
            result_indx: 0,
            handed_out: Ghost(Seq::empty()),
        };
        assert(res.result_heap@.len() == 0);
        assert(res.held() =~= Multiset::<(usize, R)>::empty());
        assert(tagged(0, Seq::<R>::empty()) =~= Multiset::<(usize, R)>::empty());
        res
    }

    /// The position to tag the next task with; the one after it comes next.
    pub fn tag_task(&mut self) -> (tag: usize)
        requires
            old(self).next_task() < usize::MAX,
        ensures
            tag == old(self).next_task(),
            final(self).next_task() == old(self).next_task() + 1,
            final(self).next_result() == old(self).next_result(),
            final(self).pending() == old(self).pending(),
            final(self).held() == old(self).held(),
            final(self).threads() == old(self).threads(),
            final(self).received() == old(self).received(),
            final(self).outcomes() == old(self).outcomes(),
            final(self).senders_gone() == old(self).senders_gone(),
    {
        let tag = self.task_indx;
        self.task_indx = self.task_indx + 1;
        tag
    }

    /// Counts `num` tagged tasks that have just been queued.
    pub fn tasks_added(&mut self, num: usize)
        requires
            old(self).pending() + num <= usize::MAX,
        ensures
            final(self).pending() == old(self).pending() + num,
            final(self).next_task() == old(self).next_task(),
            final(self).next_result() == old(self).next_result(),
            final(self).held() == old(self).held(),
            final(self).threads() == old(self).threads(),
            final(self).received() == old(self).received(),
            final(self).outcomes() == old(self).outcomes(),
            final(self).senders_gone() == old(self).senders_gone(),
    {
        self.inner.tasks_added(num);
    }

    /// Forgets the `withdrawn` tasks that a cancellation has just taken off the
    /// queue, in one step, and takes back their tags: they were the last ones
    /// handed out, so the next task gets the first of them. Running tasks are
    /// not cancelled; their results are still handed out.
    pub fn cancel_tasks(&mut self, withdrawn: usize)
        requires
            withdrawn <= old(self).next_task(),
            withdrawn <= old(self).pending(),
        ensures
            final(self).next_task() == old(self).next_task() - withdrawn,
            final(self).pending() == old(self).pending() - withdrawn,
            final(self).next_result() == old(self).next_result(),
            final(self).held() == old(self).held(),
            final(self).threads() == old(self).threads(),
            final(self).received() == old(self).received(),
            final(self).outcomes() == old(self).outcomes(),
            final(self).senders_gone() == old(self).senders_gone(),
    {
        self.task_indx = self.task_indx - withdrawn;
        self.inner.tasks_withdrawn(withdrawn);
    }

    /// Takes in a result tagged `indx`: hands it out if it is the next one, and
    /// holds it otherwise.
    ///
    /// Tags are handed out below `usize::MAX`, so no result tagged `usize::MAX`
    /// can be the next one.
    pub fn accept(&mut self, indx: usize, result: R) -> (res: Option<R>)
        ensures
            (res, final(self).next_result(), final(self).held()) == accept_step(
                old(self).next_result(),
                old(self).held(),
                indx,
                result,
            ),
            final(self).held().len() == old(self).held().len() + (if res is Some { 0int } else { 1 }),
            final(self).pending() == old(self).pending(),
            final(self).next_task() == old(self).next_task(),
            final(self).threads() == old(self).threads(),
            final(self).received() == old(self).received(),
            final(self).outcomes() == old(self).outcomes(),
            final(self).senders_gone() == old(self).senders_gone(),
    {
        if indx == self.result_indx && self.result_indx < usize::MAX {
            self.result_indx = self.result_indx + 1;
            Some(result)
        } else {
            self.result_heap.push((indx, result));
            None
        }
    }

    /// Hands out a held result when it is the next one; leaves everything as it
    /// is otherwise.
    pub fn take_held(&mut self) -> (res: Option<R>)
        ensures
            old(self).ready() && old(self).next_result() < usize::MAX ==> {
                &&& res is Some
                &&& old(self).held().count((old(self).next_result(), res->Some_0)) > 0
                &&& final(self).held() =~= old(self).held().remove((old(self).next_result(), res->Some_0))
                &&& final(self).held().len() == old(self).held().len() - 1
                &&& final(self).next_result() == old(self).next_result() + 1
            },
            !(old(self).ready() && old(self).next_result() < usize::MAX) ==> {
                &&& res is None
                &&& final(self).held() == old(self).held()
                &&& final(self).next_result() == old(self).next_result()
            },
            tags_distinct(old(self).held()) ==> (res, final(self).next_result(), final(self).held())
                == take_step(old(self).next_result(), old(self).held()),
            final(self).pending() == old(self).pending(),
            final(self).next_task() == old(self).next_task(),
            final(self).threads() == old(self).threads(),
            final(self).received() == old(self).received(),
            final(self).outcomes() == old(self).outcomes(),
            final(self).senders_gone() == old(self).senders_gone(),
    {
        if self.result_heap.len() == 0 {
            proof {
                assert forall|e: (usize, R)| self.held().count(e) == 0 by {
                    assert(!self.result_heap@.contains(e));
                }
            }
            return None;
        }
        let best = position_of_lowest_tag(&self.result_heap);
        let ghost low = self.result_heap@[best as int];
        proof {
            assert(self.result_heap@.contains(low));
            assert(self.held().count(low) > 0);
            assert forall|e: (usize, R)| #[trigger] self.held().count(e) > 0 implies e.0 >= low.0 by {
                assert(self.result_heap@.contains(e));
                let j = choose|j: int| 0 <= j < self.result_heap@.len() && self.result_heap@[j] == e;
            }
            assert(self.ready() <==> low.0 == self.result_indx);
        }
        if self.result_heap[best].0 == self.result_indx && self.result_indx < usize::MAX {
            self.result_indx = self.result_indx + 1;
            let (_, result) = self.result_heap.remove(best);
            proof {
                if tags_distinct(old(self).held()) {
                    let r = choose|r: R| #[trigger] old(self).held().count((low.0, r)) > 0;
                    assert(old(self).held().count((low.0, low.1)) > 0);
                    assert(r == result);
                }
            }
            Some(result)
        } else {
            None
        }
    }

    /// The next result in task order: a held one if its turn has come, otherwise
    /// results are received (waiting for each with `blocking`) and held until
    /// the one whose turn it is comes in, or until none comes.
    pub fn get_in_order(&mut self, blocking: bool) -> (res: Option<R>)
        ensures
            res is Some ==> final(self).next_result() == old(self).next_result() + 1,
            res is None ==> final(self).next_result() == old(self).next_result(),
            old(self).ready() && old(self).next_result() < usize::MAX ==> res is Some,
            final(self).pending() + final(self).held().len() + (if res is Some { 1int } else { 0 })
                <= old(self).pending() + old(self).held().len(),
            old(self).pending() + old(self).held().len() == 0 ==> res is None,
            final(self).next_task() == old(self).next_task(),
            final(self).threads() == old(self).threads(),
            final(self).outcomes() == old(self).outcomes(),
            old(self).ready() && old(self).next_result() < usize::MAX ==> final(self).pending()
                == old(self).pending(),
            res is Some ==> final(self).pending() == old(self).pending() - (final(self).received().len()
                - old(self).received().len()),
            blocking && res is None ==> final(self).pending() == 0 || final(self).pending() == old(
                self,
            ).pending() - (final(self).received().len() - old(self).received().len()),
            !blocking && res is None ==> final(self).pending() == old(self).pending() - (
            final(self).received().len() - old(self).received().len() - 1),
            hands_out_in_turn(*old(self), res, *final(self)),
            old(self).senders_gone() ==> final(self).senders_gone(),
            old(self).nothing_owed() ==> res is None && final(self).nothing_owed(),
            blocking && res is None ==> final(self).nothing_owed() || final(self).senders_gone(),
    {
        let ready = self.take_held();
        if ready.is_some() {
            assert(self.received().take(self.received().len() as int) =~= self.received());
            return ready;
        }
        let ghost start = self.received();
        let ghost held0 = self.held();
        loop
            invariant
                !(old(self).ready() && old(self).next_result() < usize::MAX),
                !(self.ready() && self.next_result() < usize::MAX),
                old(self).senders_gone() ==> self.senders_gone(),
                old(self).nothing_owed() ==> self.pending() == 0,
                self.next_result() == old(self).next_result(),
                self.pending() + self.held().len() <= old(self).pending() + old(self).held().len(),
                self.next_task() == old(self).next_task(),
                self.threads() == old(self).threads(),
                self.outcomes() == old(self).outcomes(),
                start == old(self).received(),
                held0 == old(self).held(),
                start.len() <= self.received().len(),
                self.received().take(start.len() as int) == start,
                self.pending() == old(self).pending() - (self.received().len() - start.len()),
                forall|j: int|
                    start.len() <= j < self.received().len() ==> (#[trigger] self.received()[j]) is Some
                        && !(self.received()[j]->Some_0.0 == self.next_result() && self.next_result()
                        < usize::MAX),
                self.held() =~= held0.add(
                    self.received().skip(start.len() as int).map_values(
                        |o: Option<(usize, R)>| o->Some_0,
                    ).to_multiset(),
                ),
            decreases self.pending(),
        {
            let ghost before = self.received();
            let ghost held_before = self.held();
            let got = if blocking {
                self.inner.get_blocking()
            } else {
                self.inner.get()
            };
            proof {
                assert(self.received() == before.push(got));
                assert(self.received().take(start.len() as int) =~= start);
                assert(self.received().skip(start.len() as int) =~= before.skip(start.len() as int).push(got));
                let new = self.received().skip(start.len() as int);
                assert(new.take(new.len() - 1) =~= before.skip(start.len() as int));
            }
            match got {
                Some((indx, result)) => {
                    let accepted = self.accept(indx, result);
                    if accepted.is_some() {
                        return accepted;
                    }
                    proof {
                        let next = self.next_result();
                        if self.ready() && next < usize::MAX {
                            let x = choose|x: (usize, R)| #[trigger] self.held().count(x) > 0 && x.0 == next;
                            assert(self.held() =~= held_before.insert((indx, result)));
                            assert(x != (indx, result));
                            assert(held_before.count(x) > 0);
                            assert forall|e: (usize, R)| #[trigger] held_before.count(e) > 0 implies e.0 >= next by {
                                assert(self.held().count(e) > 0);
                            }
                            assert(ready_for(held_before, next));
                        }
                    }
                    proof {
                        let f = |o: Option<(usize, R)>| o->Some_0;
                        let old_extra = before.skip(start.len() as int);
                        assert(old_extra.push(got).map_values(f) =~= old_extra.map_values(f).push((indx, result)));
                        assert(self.held() =~= held0.add(
                            self.received().skip(start.len() as int).map_values(f).to_multiset(),
                        ));
                    }
                },
                None => return None,
            }
        }
    }

    /// Position with which the next task will be tagged.
    pub fn next_task_tag(&self) -> (res: usize)
        ensures
            res == self.next_task(),
    {
        self.task_indx
    }

    /// Number of tasks whose result has not been received yet.
    pub fn num_pending_tasks(&self) -> (res: usize)
        ensures
            res == self.pending(),
    {
        self.inner.num_pending_tasks()
    }

    /// Number of worker threads.
    pub fn num_worker_threads(&self) -> (res: usize)
        ensures
            res == self.threads(),
    {
        self.inner.num_worker_threads()
    }
}

impl<R> WorkerMethods<R> for OrderedWorker<R> {
    open spec fn owed(&self) -> nat {
        self.pending() + self.held().len()
    }

    /// Every sender on the channel is gone, as the worker has seen.
    closed spec fn senders_gone(&self) -> bool {
        self.inner.senders_gone()
    }

    /// No task is pending, and the result whose turn it is is not held.
    open spec fn nothing_owed(&self) -> bool {
        self.pending() == 0 && !(self.ready() && self.next_result() < usize::MAX)
    }

    closed spec fn outcomes(&self) -> Seq<Option<R>> {
        self.handed_out@
    }

    /// The results handed out, tagged with consecutive positions from 0, are
    /// those whose turn has come: with the results held, they are exactly the
    /// results received.
    open spec fn tallies(&self) -> bool {
        &&& self.next_result() == results_handed(self.outcomes()).len()
        &&& self.held().add(tagged(0, results_handed(self.outcomes()))) =~= results_among(self.received())
    }

    fn get(&mut self) -> (res: Option<R>)
        ensures
            res is Some ==> final(self).pending() == old(self).pending() - (final(self).received().len()
                - old(self).received().len()),
            res is None ==> final(self).pending() == old(self).pending() - (final(self).received().len()
                - old(self).received().len() - 1),
            hands_out_in_turn(*old(self), res, *final(self)),
    {
        let res = self.get_in_order(false);
        proof {
            self.handed_out@ = self.handed_out@.push(res);
            lemma_hands_out_keeps_tallies(*old(self), res, *self);
        }
        res
    }

    fn get_blocking(&mut self) -> (res: Option<R>)
        ensures
            res is Some ==> final(self).pending() == old(self).pending() - (final(self).received().len()
                - old(self).received().len()),
            res is None ==> final(self).pending() == 0 || final(self).pending() == old(self).pending() - (
            final(self).received().len() - old(self).received().len()),
            hands_out_in_turn(*old(self), res, *final(self)),
    {
        let res = self.get_in_order(true);
        proof {
            self.handed_out@ = self.handed_out@.push(res);
            lemma_hands_out_keeps_tallies(*old(self), res, *self);
        }
        res
    }
}

} // verus!
