use vstd::multiset::Multiset;
use vstd::prelude::*;

use super::non_zero::NonZeroIndex;
use super::ordered_result::OrderedResult;

verus! {

broadcast use vstd::seq_lib::group_to_multiset_ensures;

/// Position in `v` of an entry with the lowest task position, for a non-empty `v`.
fn position_of_lowest<T>(v: &Vec<OrderedResult<T>>) -> (best: usize)
    requires
        v@.len() > 0,
    ensures
        best < v@.len(),
        forall|j: int| 0 <= j < v@.len() ==> v@[best as int].indx.index() <= #[trigger] v@[j].indx.index(),
{
    let n = v.len();
    let mut best: usize = 0;
    let mut i: usize = 1;
    while i < n
        invariant
            n == v@.len(),
            best < i <= n,
            forall|j: int| 0 <= j < i ==> v@[best as int].indx.index() <= #[trigger] v@[j].indx.index(),
        decreases n - i,
    {
        if v[i].indx.before(v[best].indx) {
            best = i;
        }
        i = i + 1;
    }
    best
}

/// Among the tagged results `held`, the lowest position is `current`.
pub open spec fn ready_at<T>(held: Multiset<OrderedResult<T>>, current: usize) -> bool {
    &&& exists|e: OrderedResult<T>| #[trigger] held.count(e) > 0 && e.indx.index() == current
    &&& forall|e: OrderedResult<T>| #[trigger] held.count(e) > 0 ==> e.indx.index() >= current
}

/// A result stored at the current position, into a buffer whose results all
/// lie further on, is the one that `get` hands out next.
pub proof fn law_push_current_then_get<T>(
    held: Multiset<OrderedResult<T>>,
    current: usize,
    elem: T,
    indx: NonZeroIndex,
)
    requires
        indx.index() == current,
        forall|e: OrderedResult<T>| #[trigger] held.count(e) > 0 ==> e.indx.index() > current,
    ensures
        ready_at(held.insert(OrderedResult { result: elem, indx }), current),
        forall|e: OrderedResult<T>|
            #[trigger] held.insert(OrderedResult { result: elem, indx }).count(e) > 0
                && e.indx.index() == current ==> e == (OrderedResult { result: elem, indx }),
{
    let pushed = OrderedResult { result: elem, indx };
    assert(held.insert(pushed).count(pushed) > 0);
}

/// No two of the tagged results `held` share a position.
pub open spec fn positions_distinct<T>(held: Multiset<OrderedResult<T>>) -> bool {
    forall|a: OrderedResult<T>, b: OrderedResult<T>|
        #[trigger] held.count(a) > 0 && #[trigger] held.count(b) > 0 && a.indx.index()
            == b.indx.index() ==> a == b
}

/// What `get` does to a buffer at position `current` holding `held`, when no two
/// held results share a position: the result handed out, and the position and
/// held results left.
pub open spec fn get_step<T>(held: Multiset<OrderedResult<T>>, current: usize) -> (
    Option<T>,
    usize,
    Multiset<OrderedResult<T>>,
) {
    if ready_at(held, current) {
        let e = choose|e: OrderedResult<T>| #[trigger] held.count(e) > 0 && e.indx.index() == current;
        (Some(e.result), current.saturating_add(1), held.remove(e))
    } else {
        (None, current, held)
    }
}

/// The results that `k` calls of `get`, one after another, hand out.
pub open spec fn drain<T>(held: Multiset<OrderedResult<T>>, current: usize, k: nat) -> Seq<Option<T>>
    decreases k,
{
    if k == 0 {
        Seq::empty()
    } else {
        let (r, current2, held2) = get_step(held, current);
        seq![r] + drain(held2, current2, (k - 1) as nat)
    }
}

/// Results leave in the order of their positions, whatever the order in which
/// they were pushed: once results at the positions `current`, `current + 1`, ...,
/// `current + k - 1` are held, `k` calls of `get` hand them out in that order.
pub proof fn law_results_leave_in_position_order<T>(entries: Seq<OrderedResult<T>>, current: usize)
    requires
        current + entries.len() <= usize::MAX,
        forall|j: int| 0 <= j < entries.len() ==> #[trigger] entries[j].indx.index() == current + j,
    ensures
        drain(entries.to_multiset(), current, entries.len()) =~= entries.map_values(
            |e: OrderedResult<T>| Some(e.result),
        ),
    decreases entries.len(),
{
    let k = entries.len();
    if k > 0 {
        let held = entries.to_multiset();
        assert(entries.contains(entries[0]));
        assert(held.count(entries[0]) > 0);
        assert(entries[0].indx.index() == current + 0);
        assert forall|e: OrderedResult<T>| #[trigger] held.count(e) > 0 implies e.indx.index() >= current by {
            assert(entries.contains(e));
            let j = choose|j: int| 0 <= j < k && entries[j] == e;
            assert(entries[j].indx.index() == current + j);
        }
        assert(ready_at(held, current));
        let e = choose|e: OrderedResult<T>| #[trigger] held.count(e) > 0 && e.indx.index() == current;
        assert(e == entries[0]) by {
            assert(entries.contains(e));
            let j = choose|j: int| 0 <= j < k && entries[j] == e;
            assert(entries[j].indx.index() == current + j);
        }
        let rest = entries.drop_first();
        assert(entries.remove(0) =~= rest);
        assert(held.remove(e) =~= rest.to_multiset());
        assert forall|j: int| 0 <= j < rest.len() implies #[trigger] rest[j].indx.index() == (current + 1) + j by {
            assert(entries[j + 1].indx.index() == current + (j + 1));
        }
        law_results_leave_in_position_order(rest, (current + 1) as usize);
    }
}

/// What one call of `get` does to a buffer, from `before` to `after`, handing
/// out `res`: when a result at the current position is held (and none lower),
/// one such result is handed out and the position moves on; otherwise nothing
/// changes. When no two held results share a position, this is `get_step`.
pub open spec fn gets_in_turn<T>(before: HeapBuffer<T>, res: Option<T>, after: HeapBuffer<T>) -> bool {
    &&& before.ready() ==> {
        &&& res is Some
        &&& exists|e: OrderedResult<T>|
            {
                &&& #[trigger] before.held().count(e) > 0
                &&& e.indx.index() == before.current()
                &&& e.result == res->Some_0
                &&& after.held() =~= before.held().remove(e)
            }
        &&& after.held().len() == before.held().len() - 1
        &&& after.current() == before.current().saturating_add(1)
    }
    &&& !before.ready() ==> {
        &&& res is None
        &&& after.held() == before.held()
        &&& after.current() == before.current()
    }
    &&& positions_distinct(before.held()) ==> (res, after.current(), after.held()) == get_step(
        before.held(),
        before.current(),
    )
}

/// What `get` does to results at consecutive positions from `current` on.
proof fn lemma_get_step_consecutive<T>(entries: Seq<OrderedResult<T>>, current: usize)
    requires
        current + entries.len() <= usize::MAX,
        forall|j: int| 0 <= j < entries.len() ==> #[trigger] entries[j].indx.index() == current + j,
    ensures
        positions_distinct(entries.to_multiset()),
        entries.len() > 0 ==> get_step(entries.to_multiset(), current) == (
            Some(entries[0].result),
            (current + 1) as usize,
            entries.drop_first().to_multiset(),
        ),
        entries.len() == 0 ==> get_step(entries.to_multiset(), current) == (
            None::<T>,
            current,
            entries.to_multiset(),
        ),
{
    let k = entries.len();
    let held = entries.to_multiset();
    assert forall|a: OrderedResult<T>, b: OrderedResult<T>|
        #[trigger] held.count(a) > 0 && #[trigger] held.count(b) > 0 && a.indx.index()
            == b.indx.index() implies a == b by {
        assert(entries.contains(a));
        assert(entries.contains(b));
        let i = choose|i: int| 0 <= i < k && entries[i] == a;
        let j = choose|j: int| 0 <= j < k && entries[j] == b;
        assert(entries[i].indx.index() == current + i);
        assert(entries[j].indx.index() == current + j);
    }
    if k > 0 {
        assert(entries.contains(entries[0]));
        assert(held.count(entries[0]) > 0);
        assert(entries[0].indx.index() == current + 0);
        assert forall|e: OrderedResult<T>| #[trigger] held.count(e) > 0 implies e.indx.index() >= current by {
            assert(entries.contains(e));
            let j = choose|j: int| 0 <= j < k && entries[j] == e;
            assert(entries[j].indx.index() == current + j);
        }
        assert(ready_at(held, current));
        let e = choose|e: OrderedResult<T>| #[trigger] held.count(e) > 0 && e.indx.index() == current;
        assert(e == entries[0]);
        assert(entries.remove(0) =~= entries.drop_first());
        assert(held.remove(e) =~= entries.drop_first().to_multiset());
    } else {
        assert(!ready_at(held, current));
    }
}

/// Results leave a buffer in the order of their positions over any run of
/// calls of `get` (each one taking the buffer from `buffers[i]` to
/// `buffers[i + 1]` and handing out `outcomes[i]`), whatever the order in which
/// they were pushed: when the buffer holds exactly `entries`, at the positions
/// `current()`, `current() + 1`, ..., the calls hand out their results in that
/// order, and every call after the last of them hands out nothing.
pub proof fn law_gets_hand_out_in_position_order<T>(
    buffers: Seq<HeapBuffer<T>>,
    outcomes: Seq<Option<T>>,
    entries: Seq<OrderedResult<T>>,
)
    requires
        buffers.len() == outcomes.len() + 1,
        forall|i: int|
            0 <= i < outcomes.len() ==> #[trigger] gets_in_turn(buffers[i], outcomes[i], buffers[i + 1]),
        buffers[0].held() =~= entries.to_multiset(),
        buffers[0].current() + entries.len() <= usize::MAX,
        forall|j: int|
            0 <= j < entries.len() ==> #[trigger] entries[j].indx.index() == buffers[0].current() + j,
    ensures
        forall|i: int| 0 <= i < outcomes.len() && i < entries.len() ==> #[trigger] outcomes[i] == Some(
            entries[i].result,
        ),
        forall|i: int| entries.len() <= i < outcomes.len() ==> #[trigger] outcomes[i] is None,
        outcomes.len() <= entries.len() ==> buffers.last().current() == buffers[0].current()
            + outcomes.len(),
        entries.len() <= outcomes.len() ==> buffers.last().current() == buffers[0].current()
            + entries.len() && buffers.last().held().len() == 0,
    decreases outcomes.len(),
{
    let b0 = buffers[0];
    lemma_get_step_consecutive(entries, b0.current());
    if outcomes.len() > 0 {
        assert(gets_in_turn(buffers[0], outcomes[0], buffers[0int + 1]));
        let b1 = buffers[1];
        let rest_b = buffers.drop_first();
        let rest_o = outcomes.drop_first();
        assert forall|i: int| 0 <= i < rest_o.len() implies #[trigger] gets_in_turn(
            rest_b[i],
            rest_o[i],
            rest_b[i + 1],
        ) by {
            assert(gets_in_turn(buffers[i + 1], outcomes[i + 1], buffers[(i + 1) + 1]));
        }
        assert(rest_b[0] == b1);
        assert(rest_b.last() == buffers.last());
        if entries.len() > 0 {
            let rest_e = entries.drop_first();
            assert forall|j: int| 0 <= j < rest_e.len() implies #[trigger] rest_e[j].indx.index() == b1.current()
                + j by {
                assert(entries[j + 1].indx.index() == b0.current() + (j + 1));
            }
            law_gets_hand_out_in_position_order(rest_b, rest_o, rest_e);
            assert forall|i: int| 0 <= i < outcomes.len() && i < entries.len() implies #[trigger] outcomes[i]
                == Some(entries[i].result) by {
                if i > 0 {
                    assert(outcomes[i] == rest_o[i - 1]);
                    assert(entries[i] == rest_e[i - 1]);
                }
            }
            assert forall|i: int| entries.len() <= i < outcomes.len() implies #[trigger] outcomes[i] is None by {
                assert(outcomes[i] == rest_o[i - 1]);
            }
        } else {
            assert(b1.held() =~= entries.to_multiset());
            law_gets_hand_out_in_position_order(rest_b, rest_o, entries);
            assert forall|i: int| entries.len() <= i < outcomes.len() implies #[trigger] outcomes[i] is None by {
                if i > 0 {
                    assert(outcomes[i] == rest_o[i - 1]);
                }
            }
        }
    } else {
        assert(buffers.last() == b0);
        if entries.len() == 0 {
            assert(b0.held().len() == 0);
        }
    }
}

/// One call on a buffer: `push` of a result at a position, `get` handing out
/// `res`, or `skip`.
pub enum BufferCall<T> {
    Push { elem: T, indx: NonZeroIndex },
    Get { res: Option<T> },
    Skip,
}

/// What the call `call` does to a buffer, from `before` to `after`, as the
/// contracts of `push`, `get` and `skip` say.
pub open spec fn made_call<T>(before: HeapBuffer<T>, call: BufferCall<T>, after: HeapBuffer<T>) -> bool {
    match call {
        BufferCall::Push { elem, indx } => {
            &&& after.current() == before.current()
            &&& after.held() =~= before.held().insert(OrderedResult { result: elem, indx })
        },
        BufferCall::Get { res } => gets_in_turn(before, res, after),
        BufferCall::Skip => {
            &&& after.current() == before.current().saturating_add(1)
            &&& after.held() == before.held()
        },
    }
}

/// How many of `calls` move the position on: the calls of `get` that handed
/// out a result, and the calls of `skip`.
pub open spec fn moves<T>(calls: Seq<BufferCall<T>>) -> nat
    decreases calls.len(),
{
    if calls.len() == 0 {
        0
    } else {
        moves(calls.drop_last()) + match calls.last() {
            BufferCall::Get { res: Some(_) } => 1nat,
            BufferCall::Skip => 1nat,
            _ => 0nat,
        }
    }
}

/// Over any run of calls of `push`, `get` and `skip` (the `i`-th taking the
/// buffer from `buffers[i]` to `buffers[i + 1]`), the position moves on by one
/// for each `get` that handed out a result and each `skip`, and by nothing else,
/// stopping at `usize::MAX`.
pub proof fn law_position_counts_moves<T>(buffers: Seq<HeapBuffer<T>>, calls: Seq<BufferCall<T>>)
    requires
        buffers.len() == calls.len() + 1,
        forall|i: int| 0 <= i < calls.len() ==> #[trigger] made_call(buffers[i], calls[i], buffers[i + 1]),
    ensures
        buffers.last().current() == if buffers[0].current() + moves(calls) > usize::MAX {
            usize::MAX as int
        } else {
            buffers[0].current() + moves(calls)
        },
    decreases calls.len(),
{
    let k = calls.len();
    if k > 0 {
        let bs = buffers.drop_last();
        let cs = calls.drop_last();
        assert forall|i: int| 0 <= i < cs.len() implies #[trigger] made_call(bs[i], cs[i], bs[i + 1]) by {
            assert(made_call(buffers[i], calls[i], buffers[i + 1]));
        }
        law_position_counts_moves(bs, cs);
        assert(bs[0] == buffers[0]);
        assert(bs.last() == buffers[k - 1]);
        assert(made_call(buffers[k - 1], calls[k - 1], buffers[(k - 1) + 1]));
        assert(buffers[(k - 1) + 1] == buffers.last());
        assert(calls.last() == calls[k - 1]);
    }
}

/// A run of calls of `push` that stores `pushed`, one after another, adds them
/// to what the buffer holds and leaves the position where it was.
proof fn lemma_pushes_add<T>(buffers: Seq<HeapBuffer<T>>, pushed: Seq<OrderedResult<T>>)
    requires
        buffers.len() == pushed.len() + 1,
        forall|i: int|
            0 <= i < pushed.len() ==> #[trigger] made_call(
                buffers[i],
                BufferCall::Push { elem: pushed[i].result, indx: pushed[i].indx },
                buffers[i + 1],
            ),
    ensures
        buffers.last().held() =~= buffers[0].held().add(pushed.to_multiset()),
        buffers.last().current() == buffers[0].current(),
    decreases pushed.len(),
{
    let k = pushed.len();
    if k > 0 {
        let bs = buffers.drop_last();
        let ps = pushed.drop_last();
        assert forall|i: int| 0 <= i < ps.len() implies #[trigger] made_call(
            bs[i],
            BufferCall::Push { elem: ps[i].result, indx: ps[i].indx },
            bs[i + 1],
        ) by {
            assert(made_call(
                buffers[i],
                BufferCall::Push { elem: pushed[i].result, indx: pushed[i].indx },
                buffers[i + 1],
            ));
        }
        lemma_pushes_add(bs, ps);
        assert(made_call(
            buffers[k - 1],
            BufferCall::Push { elem: pushed[k - 1].result, indx: pushed[k - 1].indx },
            buffers[(k - 1) + 1],
        ));
        assert(bs.last() == buffers[k - 1]);
        assert(buffers[(k - 1) + 1] == buffers.last());
        let x = OrderedResult { result: pushed[k - 1].result, indx: pushed[k - 1].indx };
        assert(x == pushed[k - 1]);
        assert(pushed =~= ps.push(x));
        assert(buffers.last().held() =~= buffers[0].held().add(ps.to_multiset()).insert(x));
    }
}

/// Results pushed in any order leave in the order of their positions: when an
/// empty buffer is given, by `p` calls of `push`, the results `pushed`, which
/// are the results `entries` at the positions `current()`, `current() + 1`, ...
/// in some order, the calls of `get` that follow (`buffers[p + i]` to
/// `buffers[p + i + 1]`, handing out `outcomes[i]`) hand out the results of
/// `entries` in order and then nothing, and the position ends past the last.
pub proof fn law_pushed_in_any_order_leave_in_order<T>(
    buffers: Seq<HeapBuffer<T>>,
    pushed: Seq<OrderedResult<T>>,
    outcomes: Seq<Option<T>>,
    entries: Seq<OrderedResult<T>>,
)
    requires
        buffers.len() == pushed.len() + outcomes.len() + 1,
        buffers[0].held().len() == 0,
        forall|i: int|
            0 <= i < pushed.len() ==> #[trigger] made_call(
                buffers[i],
                BufferCall::Push { elem: pushed[i].result, indx: pushed[i].indx },
                buffers[i + 1],
            ),
        forall|i: int|
            0 <= i < outcomes.len() ==> #[trigger] gets_in_turn(
                buffers[pushed.len() + i],
                outcomes[i],
                buffers[pushed.len() + i + 1],
            ),
        pushed.to_multiset() =~= entries.to_multiset(),
        buffers[0].current() + entries.len() <= usize::MAX,
        forall|j: int|
            0 <= j < entries.len() ==> #[trigger] entries[j].indx.index() == buffers[0].current() + j,
    ensures
        forall|i: int| 0 <= i < outcomes.len() && i < entries.len() ==> #[trigger] outcomes[i] == Some(
            entries[i].result,
        ),
        forall|i: int| entries.len() <= i < outcomes.len() ==> #[trigger] outcomes[i] is None,
        entries.len() <= outcomes.len() ==> buffers.last().current() == buffers[0].current()
            + entries.len(),
{
    let p = pushed.len() as int;
    let pre = buffers.subrange(0, p + 1);
    assert forall|i: int| 0 <= i < pushed.len() implies #[trigger] made_call(
        pre[i],
        BufferCall::Push { elem: pushed[i].result, indx: pushed[i].indx },
        pre[i + 1],
    ) by {
        assert(made_call(
            buffers[i],
            BufferCall::Push { elem: pushed[i].result, indx: pushed[i].indx },
            buffers[i + 1],
        ));
    }
    lemma_pushes_add(pre, pushed);
    assert(buffers[0].held() =~= Multiset::<OrderedResult<T>>::empty());
    let post = buffers.subrange(p, buffers.len() as int);
    assert(post[0] == pre.last());
    assert forall|i: int| 0 <= i < outcomes.len() implies #[trigger] gets_in_turn(
        post[i],
        outcomes[i],
        post[i + 1],
    ) by {
        assert(gets_in_turn(buffers[pushed.len() + i], outcomes[i], buffers[pushed.len() + i + 1]));
        assert(post[i] == buffers[p + i]);
        assert(post[i + 1] == buffers[p + i + 1]);
    }
    law_gets_hand_out_in_position_order(post, outcomes, entries);
    assert(post.last() == buffers.last());
}

/// Holds results tagged with the (non-zero) position of their task and hands
/// them out by position, starting at position 1.
///
/// The results are kept unsorted; `get` looks for the lowest position held.
pub struct HeapBuffer<T> {
    result_heap: Vec<OrderedResult<T>>,
    current_indx: NonZeroIndex,
}

impl<T> HeapBuffer<T> {
    /// The tagged results held, in no particular order.
    pub closed spec fn held(&self) -> Multiset<OrderedResult<T>> {
        self.result_heap@.to_multiset()
    }

    /// Position of the next result to hand out.
    pub closed spec fn current(&self) -> usize {
        self.current_indx.index()
    }

    /// Among the results held, the lowest position is `current()`.
    pub open spec fn ready(&self) -> bool {
        ready_at(self.held(), self.current())
    }

    pub fn new() -> (res: Self)
        ensures
            res.current() == 1,
            res.held() =~= Multiset::<OrderedResult<T>>::empty(),
    {
        let res = HeapBuffer { result_heap: Vec::new(), current_indx: NonZeroIndex::first() };
        assert(res.result_heap@.len() == 0);
        res
    }

    /// Stores `elem` as the result at position `indx`.
    pub fn push(&mut self, elem: T, indx: NonZeroIndex)
        ensures
            final(self).current() == old(self).current(),
            final(self).held() =~= old(self).held().insert(OrderedResult { result: elem, indx }),
            final(self).held().len() == old(self).held().len() + 1,
    {
        self.result_heap.push(OrderedResult { result: elem, indx });
    }

    /// Hands out a result at position `current()` when that is the lowest
    /// position held, and moves on to the next position.
    pub fn get(&mut self) -> (res: Option<T>)
        ensures
            gets_in_turn(*old(self), res, *final(self)),
    {
        if self.result_heap.len() == 0 {
            proof {
                assert forall|e: OrderedResult<T>| self.held().count(e) == 0 by {
                    assert(!self.result_heap@.contains(e));
                }
            }
            return None;
        }
        let best = position_of_lowest(&self.result_heap);
        let ghost low = self.result_heap@[best as int];
        proof {
            assert(self.result_heap@.contains(low));
            assert(self.held().count(low) > 0);
            assert forall|e: OrderedResult<T>| #[trigger]
                self.held().count(e) > 0 implies e.indx.index() >= low.indx.index() by {
                assert(self.result_heap@.contains(e));
                let j = choose|j: int| 0 <= j < self.result_heap@.len() && self.result_heap@[j] == e;
            }
            assert(self.ready() <==> low.indx.index() == self.current());
        }
        if self.result_heap[best].indx.same(self.current_indx) {
            self.current_indx = self.current_indx.saturating_add(1);
            let e = self.result_heap.remove(best);
            proof {
                if positions_distinct(old(self).held()) {
                    let c = choose|c: OrderedResult<T>| #[trigger] old(self).held().count(c) > 0 && c.indx.index() == old(self).current();
                    assert(c == low);
                }
            }
            Some(e.result)
        } else {
            None
        }
    }

    /// Position of the next result to hand out.
    pub fn current_indx(&self) -> (res: NonZeroIndex)
        ensures
            res.index() == self.current(),
    {
        self.current_indx
    }

    /// Gives up on the result at position `current()` and moves on to the next.
    pub fn skip(&mut self)
        ensures
            final(self).held() == old(self).held(),
            final(self).current() == old(self).current().saturating_add(1),
    {
        self.current_indx = self.current_indx.saturating_add(1);
    }
}

} // verus!
