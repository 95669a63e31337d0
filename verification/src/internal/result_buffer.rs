use std::collections::VecDeque;
use vstd::prelude::*;

verus! {

broadcast use vstd::seq_lib::group_to_multiset_ensures;

/// What `get` does to a buffer whose next position is `next` and whose waiting
/// results are `waiting`: the result it hands out, and the next position and
/// waiting results it leaves.
pub open spec fn get_step<T>(next: nat, waiting: Map<nat, T>) -> (Option<T>, nat, Map<nat, T>) {
    if waiting.contains_key(next) {
        (Some(waiting[next]), next + 1, waiting.remove(next))
    } else {
        (None, next, waiting)
    }
}

/// What one call of `get` does to a buffer, from `before` to `after`, handing
/// out `res`: what `get_step` says.
pub open spec fn gets_next<T>(before: ResultBuffer<T>, res: Option<T>, after: ResultBuffer<T>) -> bool {
    (res, after.next_index(), after.waiting()) == get_step(before.next_index(), before.waiting())
}

/// Holds results that arrive out of order, each tagged with the position of its
/// task, and hands them out strictly by position: 0, 1, 2, ...
pub struct ResultBuffer<T> {
    buffer: VecDeque<Option<T>>,
    offset: usize,
}

impl<T> ResultBuffer<T> {
    /// Position of the next result that `get` will hand out.
    pub closed spec fn next_index(&self) -> nat {
        self.offset as nat
    }

    /// The results held, keyed by their position.
    pub closed spec fn waiting(&self) -> Map<nat, T> {
        Map::new(
            |k: nat|
                self.offset <= k < self.offset + self.buffer@.len() && self.buffer@[k
                    - self.offset] is Some,
            |k: nat| self.buffer@[k - self.offset]->Some_0,
        )
    }

    /// Every held result sits at a position below `usize::MAX`, so moving past it
    /// cannot overflow.
    pub closed spec fn wf(&self) -> bool {
        forall|p: int|
            0 <= p < self.buffer@.len() && (#[trigger] self.buffer@[p]) is Some ==> self.offset + p
                < usize::MAX
    }

    /// An empty buffer that hands out position 0 first.
    pub fn new() -> (res: Self)
        ensures
            res.wf(),
            res.next_index() == 0,
            res.waiting() == Map::<nat, T>::empty(),
    {
        let res = ResultBuffer { buffer: VecDeque::new(), offset: 0 };
        assert(res.waiting() =~= Map::<nat, T>::empty());
        res
    }

    /// Stores `item` as the result at position `index`, replacing any result
    /// already stored there.
    pub fn insert(&mut self, item: T, index: usize)
        requires
            old(self).wf(),
            old(self).next_index() <= index < usize::MAX,
        ensures
            final(self).wf(),
            final(self).next_index() == old(self).next_index(),
            final(self).waiting() == old(self).waiting().insert(index as nat, item),
    {
        if index >= self.buffer.len() {
            while self.buffer.len() < index + 1
                invariant
                    index < usize::MAX,
                    self.offset == old(self).offset,
                    self.buffer@.len() <= index + 1,
                    old(self).buffer@.len() <= self.buffer@.len(),
                    forall|p: int|
                        0 <= p < old(self).buffer@.len() ==> self.buffer@[p] == old(self).buffer@[p],
                    forall|p: int|
                        old(self).buffer@.len() <= p < self.buffer@.len() ==> self.buffer@[p] is None,
                decreases index + 1 - self.buffer@.len(),
            {
                self.buffer.push_back(None);
            }
        }
        let ghost before = self.buffer@;
        let slot: usize = index - self.offset;
        let _ = self.buffer.remove(slot);
        self.buffer.insert(slot, Some(item));
        assert(self.buffer@ =~= before.update(slot as int, Some(item)));
        assert(self.waiting() =~= old(self).waiting().insert(index as nat, item));
    }

    /// Hands out the result at position `next_index()`, if it has arrived.
    pub fn get(&mut self) -> (res: Option<T>)
        requires
            old(self).wf(),
        ensures
            final(self).wf(),
            gets_next(*old(self), res, *final(self)),
    {
        if self.buffer.len() > 0 && self.buffer[0].is_some() {
            self.offset = self.offset + 1;
            let front = self.buffer.pop_front();
            assert(self.waiting() =~= old(self).waiting().remove(old(self).next_index()));
            match front {
                Some(r) => r,
                None => None,
            }
        } else {
            None
        }
    }

    /// The result at position `next_index()`, if it has arrived, left in place.
    pub fn peek(&self) -> (res: Option<&T>)
        ensures
            self.waiting().contains_key(self.next_index()) ==> res == Some(
                &self.waiting()[self.next_index()],
            ),
            !self.waiting().contains_key(self.next_index()) ==> res is None,
    {
        if self.buffer.len() > 0 {
            self.buffer[0].as_ref()
        } else {
            None
        }
    }
}

/// The results that `k` calls of `get`, one after another, hand out from a
/// buffer whose next position is `next` and whose waiting results are
/// `waiting`.
pub open spec fn drain<T>(next: nat, waiting: Map<nat, T>, k: nat) -> Seq<Option<T>>
    decreases k,
{
    if k == 0 {
        Seq::empty()
    } else {
        let (r, next2, waiting2) = get_step(next, waiting);
        seq![r] + drain(next2, waiting2, (k - 1) as nat)
    }
}

/// Results come out in the order of their positions, whatever the order in
/// which they were stored: when each of the positions `next`, ..., `next + k - 1`
/// holds a result, `k` calls of `get` hand out exactly those results, in that
/// order.
pub proof fn law_drain_in_order<T>(next: nat, waiting: Map<nat, T>, k: nat)
    requires
        forall|j: nat| j < k ==> #[trigger] waiting.contains_key(next + j),
    ensures
        drain(next, waiting, k) =~= Seq::new(k, |j: int| Some(waiting[(next + j) as nat])),
    decreases k,
{
    if k > 0 {
        assert(waiting.contains_key(next + 0));
        let rest = waiting.remove(next);
        assert forall|j: nat| j < (k - 1) as nat implies #[trigger] rest.contains_key((next + 1) + j) by {
            assert(waiting.contains_key(next + (j + 1)));
        }
        law_drain_in_order(next + 1, rest, (k - 1) as nat);
        assert forall|j: int| 0 <= j < k - 1 implies #[trigger] rest[((next + 1) + j) as nat] == waiting[(
        next + (j + 1)) as nat] by {
            assert(waiting.contains_key(next + ((j + 1) as nat)));
        }
    }
}

/// Results leave a buffer in the order of their positions over any run of
/// calls of `get` (each one taking the buffer from `buffers[i]` to
/// `buffers[i + 1]` and handing out `outcomes[i]`), whatever the order in which
/// they were stored: the calls hand out what `drain` says, and so, when the
/// buffer holds results at exactly the positions `next_index()`, ...,
/// `next_index() + k - 1`, those results in that order and nothing after them.
pub proof fn law_gets_hand_out_in_order<T>(buffers: Seq<ResultBuffer<T>>, outcomes: Seq<Option<T>>)
    requires
        buffers.len() == outcomes.len() + 1,
        forall|i: int|
            0 <= i < outcomes.len() ==> #[trigger] gets_next(buffers[i], outcomes[i], buffers[i + 1]),
    ensures
        outcomes =~= drain(buffers[0].next_index(), buffers[0].waiting(), outcomes.len()),
    decreases outcomes.len(),
{
    if outcomes.len() > 0 {
        assert(gets_next(buffers[0], outcomes[0], buffers[0int + 1]));
        let rest_b = buffers.drop_first();
        let rest_o = outcomes.drop_first();
        assert forall|i: int| 0 <= i < rest_o.len() implies #[trigger] gets_next(
            rest_b[i],
            rest_o[i],
            rest_b[i + 1],
        ) by {
            assert(gets_next(buffers[i + 1], outcomes[i + 1], buffers[(i + 1) + 1]));
        }
        law_gets_hand_out_in_order(rest_b, rest_o);
        assert(outcomes =~= seq![outcomes[0]] + rest_o);
    }
}

/// Once the results at exactly the positions `next`, ..., `next + k - 1` are
/// waiting, `k + 1` calls of `get` hand out those results in order and then
/// nothing.
pub proof fn law_drain_then_none<T>(next: nat, waiting: Map<nat, T>, k: nat)
    requires
        forall|p: nat| #[trigger] waiting.contains_key(p) <==> next <= p < next + k,
    ensures
        drain(next, waiting, k + 1) =~= Seq::new(k, |j: int| Some(waiting[(next + j) as nat])).push(
            None,
        ),
    decreases k,
{
    if k == 0 {
        assert(!waiting.contains_key(next));
        assert(drain(next, waiting, 1) =~= seq![None::<T>] + drain(next, waiting, 0));
    } else {
        assert(waiting.contains_key(next));
        let rest = waiting.remove(next);
        assert forall|p: nat| #[trigger] rest.contains_key(p) <==> next + 1 <= p < (next + 1) + (k - 1) by {}
        law_drain_then_none(next + 1, rest, (k - 1) as nat);
        assert forall|j: int| 0 <= j < k - 1 implies #[trigger] rest[((next + 1) + j) as nat] == waiting[(
        next + (j + 1)) as nat] by {
            assert(waiting.contains_key(((next + 1) + j) as nat));
        }
    }
}

/// What one call of `insert` does to a buffer, from `before` to `after`,
/// storing `item` at position `index`.
pub open spec fn inserts<T>(before: ResultBuffer<T>, item: T, index: usize, after: ResultBuffer<T>) -> bool {
    &&& after.next_index() == before.next_index()
    &&& after.waiting() == before.waiting().insert(index as nat, item)
}

/// A run of calls of `insert`, each storing at a position in `next .. next +
/// results.len()` the result of `results` for that position, into a buffer
/// with nothing waiting, leaves waiting exactly the results at the positions
/// stored.
proof fn lemma_inserts_fill<T>(
    buffers: Seq<ResultBuffer<T>>,
    inserted: Seq<(usize, T)>,
    next: nat,
    results: Seq<T>,
)
    requires
        buffers.len() == inserted.len() + 1,
        buffers[0].waiting() == Map::<nat, T>::empty(),
        forall|i: int|
            0 <= i < inserted.len() ==> #[trigger] inserts(buffers[i], inserted[i].1, inserted[i].0, buffers[i + 1]),
        forall|i: int|
            0 <= i < inserted.len() ==> next <= (#[trigger] inserted[i]).0 < next + results.len()
                && inserted[i].1 == results[inserted[i].0 - next],
    ensures
        buffers.last().next_index() == buffers[0].next_index(),
        forall|k: nat|
            #[trigger] buffers.last().waiting().contains_key(k) <==> exists|i: int|
                0 <= i < inserted.len() && (#[trigger] inserted[i]).0 == k,
        forall|k: nat|
            #[trigger] buffers.last().waiting().contains_key(k) ==> buffers.last().waiting()[k]
                == results[k - next],
    decreases inserted.len(),
{
    let n = inserted.len();
    if n > 0 {
        let bs = buffers.drop_last();
        let ins = inserted.drop_last();
        assert forall|i: int| 0 <= i < ins.len() implies #[trigger] inserts(bs[i], ins[i].1, ins[i].0, bs[i + 1]) by {
            assert(inserts(buffers[i], inserted[i].1, inserted[i].0, buffers[i + 1]));
        }
        assert forall|i: int| 0 <= i < ins.len() implies next <= (#[trigger] ins[i]).0 < next + results.len()
            && ins[i].1 == results[ins[i].0 - next] by {
            assert(ins[i] == inserted[i]);
        }
        lemma_inserts_fill(bs, ins, next, results);
        assert(inserts(buffers[n - 1], inserted[n - 1].1, inserted[n - 1].0, buffers[(n - 1) + 1]));
        assert(bs.last() == buffers[n - 1]);
        assert(buffers[(n - 1) + 1] == buffers.last());
        let x = inserted[n - 1];
        assert(next <= x.0 < next + results.len() && x.1 == results[x.0 - next]);
        assert forall|k: nat| #[trigger] buffers.last().waiting().contains_key(k) <==> exists|i: int|
            0 <= i < inserted.len() && (#[trigger] inserted[i]).0 == k by {
            if buffers.last().waiting().contains_key(k) {
                if k == x.0 {
                    assert(inserted[n - 1].0 == k);
                } else {
                    assert(bs.last().waiting().contains_key(k));
                    let i = choose|i: int| 0 <= i < ins.len() && (#[trigger] ins[i]).0 == k;
                    assert(inserted[i] == ins[i]);
                }
            }
            if exists|i: int| 0 <= i < inserted.len() && (#[trigger] inserted[i]).0 == k {
                let i = choose|i: int| 0 <= i < inserted.len() && (#[trigger] inserted[i]).0 == k;
                if i < n - 1 {
                    assert(ins[i] == inserted[i]);
                    assert(bs.last().waiting().contains_key(k));
                }
            }
        }
    }
}

/// Results inserted in any order leave in the order of their positions: when a
/// buffer with nothing waiting is given, by calls of `insert`, the results
/// `results[j]` at the positions `next_index() + j`, in any order (`inserted`
/// holds the same (position, result) pairs as those, each once), the calls of
/// `get` that follow (`buffers[p + i]` to `buffers[p + i + 1]`, handing out
/// `outcomes[i]`) hand out `results` in order and then nothing.
pub proof fn law_inserted_in_any_order_leave_in_order<T>(
    buffers: Seq<ResultBuffer<T>>,
    inserted: Seq<(usize, T)>,
    outcomes: Seq<Option<T>>,
    results: Seq<T>,
)
    requires
        buffers.len() == inserted.len() + outcomes.len() + 1,
        outcomes.len() <= results.len() + 1,
        buffers[0].waiting() == Map::<nat, T>::empty(),
        buffers[0].next_index() + results.len() <= usize::MAX,
        forall|i: int|
            0 <= i < inserted.len() ==> #[trigger] inserts(buffers[i], inserted[i].1, inserted[i].0, buffers[i + 1]),
        forall|i: int|
            0 <= i < outcomes.len() ==> #[trigger] gets_next(
                buffers[inserted.len() + i],
                outcomes[i],
                buffers[inserted.len() + i + 1],
            ),
        inserted.to_multiset() =~= Seq::new(
            results.len(),
            |j: int| ((buffers[0].next_index() + j) as usize, results[j]),
        ).to_multiset(),
    ensures
        forall|i: int| 0 <= i < outcomes.len() && i < results.len() ==> #[trigger] outcomes[i] == Some(
            results[i],
        ),
        outcomes.len() == results.len() + 1 ==> outcomes.last() is None,
{
    let n0 = buffers[0].next_index();
    let n = results.len();
    let target = Seq::new(n, |j: int| ((n0 + j) as usize, results[j]));
    let p = inserted.len() as int;
    assert forall|i: int| 0 <= i < inserted.len() implies n0 <= (#[trigger] inserted[i]).0 < n0 + n
        && inserted[i].1 == results[inserted[i].0 - n0] by {
        assert(inserted.contains(inserted[i]));
        assert(inserted.to_multiset().count(inserted[i]) > 0);
        assert(target.to_multiset().count(inserted[i]) > 0);
        assert(target.contains(inserted[i]));
        let j = choose|j: int| 0 <= j < n && target[j] == inserted[i];
    }
    let pre = buffers.subrange(0, p + 1);
    assert forall|i: int| 0 <= i < inserted.len() implies #[trigger] inserts(pre[i], inserted[i].1, inserted[i].0, pre[i + 1]) by {
        assert(inserts(buffers[i], inserted[i].1, inserted[i].0, buffers[i + 1]));
    }
    lemma_inserts_fill(pre, inserted, n0, results);
    let w = pre.last().waiting();
    assert forall|k: nat| #[trigger] w.contains_key(k) <==> n0 <= k < n0 + n by {
        if n0 <= k < n0 + n {
            let j = k - n0;
            assert(target.contains(target[j]));
            assert(target.to_multiset().count(target[j]) > 0);
            assert(inserted.to_multiset().count(target[j]) > 0);
            assert(inserted.contains(target[j]));
            let i = choose|i: int| 0 <= i < inserted.len() && inserted[i] == target[j];
            assert(inserted[i].0 == k);
        }
        if w.contains_key(k) {
            let i = choose|i: int| 0 <= i < inserted.len() && (#[trigger] inserted[i]).0 == k;
        }
    }
    let post = buffers.subrange(p, buffers.len() as int);
    assert(post[0] == pre.last());
    assert forall|i: int| 0 <= i < outcomes.len() implies #[trigger] gets_next(post[i], outcomes[i], post[i + 1]) by {
        assert(gets_next(buffers[inserted.len() + i], outcomes[i], buffers[inserted.len() + i + 1]));
        assert(post[i] == buffers[p + i]);
        assert(post[i + 1] == buffers[p + i + 1]);
    }
    law_gets_hand_out_in_order(post, outcomes);
    let m = outcomes.len();
    if m <= n {
        assert forall|j: nat| j < m implies #[trigger] w.contains_key(n0 + j) by {}
        law_drain_in_order(n0, w, m);
        assert forall|i: int| 0 <= i < m implies #[trigger] outcomes[i] == Some(results[i]) by {
            assert(w.contains_key((n0 + i) as nat));
        }
    } else {
        law_drain_then_none(n0, w, n);
        assert forall|i: int| 0 <= i < n implies #[trigger] outcomes[i] == Some(results[i]) by {
            assert(w.contains_key((n0 + i) as nat));
        }
    }
}

/// A position with no result stops the hand-out: while it is missing, every
/// call of `get` hands out nothing.
pub proof fn law_gap_blocks<T>(next: nat, waiting: Map<nat, T>, k: nat)
    requires
        !waiting.contains_key(next),
    ensures
        drain(next, waiting, k) =~= Seq::new(k, |j: int| None::<T>),
    decreases k,
{
    if k > 0 {
        law_gap_blocks(next, waiting, (k - 1) as nat);
    }
}

/// The result stored at the next position is the next result handed out.
pub proof fn law_get_after_insert<T>(next: nat, waiting: Map<nat, T>, item: T)
    ensures
        get_step(next, waiting.insert(next, item)).0 == Some(item),
{
}

/// Results stored at different positions may be stored in either order: the
/// buffer ends up holding the same.
pub proof fn law_inserts_commute<T>(waiting: Map<nat, T>, i: nat, x: T, j: nat, y: T)
    requires
        i != j,
    ensures
        waiting.insert(i, x).insert(j, y) =~= waiting.insert(j, y).insert(i, x),
{
}

} // verus!
