//! What holds of every queue, whatever was done to it.
//!
//! A history is a sequence of operations applied to the empty queue. The
//! executable operations are tied to the model by their contracts, so what is
//! proved here of the model holds of every queue that the library hands out.

use crate::model::{lemma_next_wf, lemma_top, lemma_update_wf, pooled, QueueView};
use vstd::prelude::*;

verus! {

/// One operation on a queue.
pub enum Op {
    /// Add `delta` to the score of `id`, or insert it.
    Update { id: Seq<char>, delta: i64 },
    /// Take the item at the head out.
    Next,
    /// Look at the item at the head.
    Peek,
    /// Ask for the score of `id`.
    Score { id: Seq<char> },
}

/// The queue after `op`. An update that is turned down changes nothing.
pub open spec fn step(q: QueueView, op: Op) -> QueueView {
    match op {
        Op::Update { id, delta } => q.after_update(id, delta),
        Op::Next => q.next(),
        Op::Peek => q,
        Op::Score { id } => q,
    }
}

/// The item that `op` returns on `q`, where it returns one.
pub open spec fn shown(q: QueueView, op: Op) -> Option<Seq<char>> {
    match op {
        Op::Next => q.peek(),
        Op::Peek => q.peek(),
        _ => None,
    }
}

/// The queue after the operations of `ops`, in their order, on `q`.
pub open spec fn run(q: QueueView, ops: Seq<Op>) -> QueueView
    decreases ops.len(),
{
    if ops.len() == 0 {
        q
    } else {
        step(run(q, ops.drop_last()), ops.last())
    }
}

/// The queue after `n` items have left `q` by `next`.
pub open spec fn drained(q: QueueView, n: nat) -> QueueView
    decreases n,
{
    if n == 0 {
        q
    } else {
        drained(q.next(), (n - 1) as nat)
    }
}

/// The sum of `deltas`.
pub open spec fn total(deltas: Seq<i64>) -> int
    decreases deltas.len(),
{
    if deltas.len() == 0 {
        0
    } else {
        total(deltas.drop_last()) + deltas.last()
    }
}

/// The updates of `id` by each of `deltas`, in their order.
pub open spec fn updates_of(id: Seq<char>, deltas: Seq<i64>) -> Seq<Op> {
    Seq::new(deltas.len(), |i: int| Op::Update { id, delta: deltas[i] })
}

/// Whether each of the updates of `id` by `deltas`, made on `q` in their
/// order, is accepted.
pub open spec fn all_accepted(q: QueueView, id: Seq<char>, deltas: Seq<i64>) -> bool
    decreases deltas.len(),
{
    deltas.len() == 0 || (all_accepted(q, id, deltas.drop_last()) && run(
        q,
        updates_of(id, deltas.drop_last()),
    ).refusal(id, deltas.last()) is None)
}

/// Every operation keeps the two indexes in step.
pub proof fn law_step_keeps_wf(q: QueueView, op: Op)
    requires
        q.wf(),
    ensures
        step(q, op).wf(),
{
    match op {
        Op::Update { id, delta } => {
            if q.refusal(id, delta) is None {
                lemma_update_wf(q, id, delta);
            }
        },
        Op::Next => {
            lemma_next_wf(q);
        },
        _ => {},
    }
}

/// After any sequence of operations the two indexes are in step.
pub proof fn law_run_keeps_wf(q: QueueView, ops: Seq<Op>)
    requires
        q.wf(),
    ensures
        run(q, ops).wf(),
    decreases ops.len(),
{
    if ops.len() > 0 {
        law_run_keeps_wf(q, ops.drop_last());
        law_step_keeps_wf(run(q, ops.drop_last()), ops.last());
    }
}

/// After any sequence of operations on the empty queue, the number of items
/// is the number of identifiers with a score and the number of items in all
/// the pools together.
pub proof fn law_items_counted(ops: Seq<Op>)
    ensures
        run(QueueView::empty(), ops).wf(),
        run(QueueView::empty(), ops).items() == run(QueueView::empty(), ops).scores.dom().len(),
        run(QueueView::empty(), ops).items() == pooled(run(QueueView::empty(), ops).pools),
{
    law_empty_wf();
    law_run_keeps_wf(QueueView::empty(), ops);
}

/// After any sequence of operations on the empty queue, the number of pools
/// is the number of scores whose pool holds an item.
pub proof fn law_pools_counted(ops: Seq<Op>)
    ensures
        run(QueueView::empty(), ops).pool_count() == Set::new(
            |s: i64|
                run(QueueView::empty(), ops).pools.contains_key(s) && run(
                    QueueView::empty(),
                    ops,
                ).pools[s].len() > 0,
        ).len(),
{
    law_empty_wf();
    law_run_keeps_wf(QueueView::empty(), ops);
    let q = run(QueueView::empty(), ops);
    assert(q.pools.dom() =~= Set::new(|s: i64| q.pools.contains_key(s) && q.pools[s].len() > 0));
}

/// The empty queue is in step.
pub proof fn law_empty_wf()
    ensures
        QueueView::empty().wf(),
{
    let q = QueueView::empty();
    assert(q.pools.dom() =~= Set::<i64>::empty());
    assert(q.scores.dom() =~= Set::<Seq<char>>::empty());
}

/// The item that `peek` shows is the item that leaves with the next `next`:
/// it is in the queue before and not after, and nothing else changes its score.
pub proof fn law_peek_foretells_next(q: QueueView, id: Seq<char>)
    requires
        q.wf(),
        q.peek() == Some(id),
    ensures
        shown(q, Op::Next) == Some(id),
        q.scores.contains_key(id),
        q.next().scores == q.scores.remove(id),
        q.next().items() + 1 == q.items(),
{
    lemma_next_wf(q);
}

/// An update of another item to a score that is not above the highest leaves
/// the item at the head where it is.
pub proof fn law_peek_survives_lower_update(
    q: QueueView,
    head: Seq<char>,
    id: Seq<char>,
    delta: i64,
)
    requires
        q.wf(),
        q.peek() == Some(head),
        id != head,
        q.refusal(id, delta) is None,
        q.raised(id, delta) <= q.top(),
    ensures
        q.update(id, delta).peek() == Some(head),
{
    lemma_next_wf(q);
    lemma_top(q);
    lemma_update_wf(q, id, delta);
    let top = q.top();
    let score = q.raised(id, delta) as i64;
    let after = q.update(id, delta);
    let left = if q.scores.contains_key(id) {
        crate::model::without(q.pools, id, q.scores[id])
    } else {
        q.pools
    };
    assert(left.contains_key(top) && left[top][0] == head) by {
        if q.scores.contains_key(id) && q.scores[id] == top {
            let pool = q.pools[top];
            let k = pool.index_of(id);
            assert(pool.contains(id));
            assert(0 <= k < pool.len() && pool[k] == id);
            assert(k != 0);
            assert(pool.remove(k)[0] == pool[0]);
        }
    }
    assert(after.pools.contains_key(top) && after.pools[top][0] == head);
    assert(after.is_top(top)) by {
        assert forall|t: i64| after.pools.contains_key(t) implies t <= top by {
            if t != score {
                assert(left.contains_key(t));
                assert(q.pools.contains_key(t));
            }
        }
    }
    lemma_top(after);
}

/// After updates of `id` by each of `deltas`, all accepted, the score of `id`
/// is the score it had, or zero, and the sum of `deltas`.
pub proof fn law_score_is_sum(q: QueueView, id: Seq<char>, deltas: Seq<i64>)
    requires
        q.wf(),
        deltas.len() > 0,
        all_accepted(q, id, deltas),
    ensures
        run(q, updates_of(id, deltas)).score(id) == Some(
            ((match q.score(id) {
                Some(score) => score as int,
                None => 0,
            }) + total(deltas)) as i64,
        ),
        i64::MIN <= (match q.score(id) {
            Some(score) => score as int,
            None => 0,
        }) + total(deltas) <= i64::MAX,
    decreases deltas.len(),
{
    let ops = updates_of(id, deltas);
    let earlier = deltas.drop_last();
    assert(ops.drop_last() =~= updates_of(id, earlier));
    assert(ops.last() == Op::Update { id, delta: deltas.last() });
    if earlier.len() > 0 {
        law_score_is_sum(q, id, earlier);
    } else {
        assert(run(q, updates_of(id, earlier)) == q);
    }
}

/// Items with the highest score leave in the order in which they stand in its
/// pool: after `k` of them have left, the one at place `k` is at the head.
pub proof fn law_tier_is_fifo(q: QueueView, k: nat)
    requires
        q.wf(),
        !q.is_empty(),
        k < q.pools[q.top()].len(),
    ensures
        drained(q, k).peek() == Some(q.pools[q.top()][k as int]),
    decreases k,
{
    lemma_next_wf(q);
    lemma_top(q);
    if k > 0 {
        let top = q.top();
        let after = q.next();
        assert(after.pools.contains_key(top));
        assert(after.is_top(top)) by {
            assert forall|t: i64| after.pools.contains_key(t) implies t <= top by {
                assert(q.pools.contains_key(t));
            }
        }
        lemma_top(after);
        assert(after.pools[top][k - 1] == q.pools[top][k as int]);
        law_tier_is_fifo(after, (k - 1) as nat);
    }
}

/// An accepted update puts the item last in the pool of its new score, behind
/// the items that were there, in the order in which they were.
pub proof fn law_update_goes_last(q: QueueView, id: Seq<char>, delta: i64)
    requires
        q.wf(),
        q.refusal(id, delta) is None,
    ensures
        ({
            let score = q.raised(id, delta) as i64;
            let pool = q.update(id, delta).pools[score];
            &&& q.update(id, delta).pools.contains_key(score)
            &&& pool.last() == id
            &&& q.pools.contains_key(score) && !q.pools[score].contains(id) ==> pool
                == q.pools[score].push(id)
        }),
{
    let score = q.raised(id, delta) as i64;
    if q.pools.contains_key(score) && !q.pools[score].contains(id) {
        if q.scores.contains_key(id) {
            assert(q.pools[q.scores[id]].contains(id));
        }
    }
}

/// Looking at the head or asking for a score changes nothing, so the same
/// item is shown however often one looks.
pub proof fn law_peek_repeats(q: QueueView, ops: Seq<Op>)
    requires
        forall|i: int| 0 <= i < ops.len() ==> (#[trigger] ops[i]) is Peek || ops[i] is Score,
    ensures
        run(q, ops) == q,
        shown(run(q, ops), Op::Peek) == shown(q, Op::Peek),
    decreases ops.len(),
{
    if ops.len() > 0 {
        law_peek_repeats(q, ops.drop_last());
    }
}

/// An item that no operation of a history updates has no score at its end,
/// and no operation of the history returns it.
pub proof fn law_never_updated(ops: Seq<Op>, id: Seq<char>)
    requires
        forall|i: int|
            0 <= i < ops.len() ==> !((#[trigger] ops[i]) matches Op::Update { id: other, .. }
                && other == id),
    ensures
        run(QueueView::empty(), ops).score(id) is None,
        forall|k: int|
            0 <= k < ops.len() ==> shown(run(QueueView::empty(), ops.take(k)), #[trigger] ops[k])
                != Some(id),
    decreases ops.len(),
{
    law_empty_wf();
    let start = QueueView::empty();
    if ops.len() > 0 {
        let earlier = ops.drop_last();
        law_never_updated(earlier, id);
        law_run_keeps_wf(start, earlier);
        let q = run(start, earlier);
        lemma_next_wf(q);
        match ops.last() {
            Op::Update { id: other, delta } => {
                assert(other != id);
            },
            _ => {},
        }
        assert forall|k: int| 0 <= k < ops.len() implies shown(
            run(start, ops.take(k)),
            #[trigger] ops[k],
        ) != Some(id) by {
            if k < ops.len() - 1 {
                assert(ops.take(k) =~= earlier.take(k));
                assert(ops[k] == earlier[k]);
            } else {
                assert(ops.take(k) =~= earlier);
            }
        }
    }
}

/// An item stands in one place only: in the pool of its score, once.
pub proof fn law_one_place(q: QueueView, id: Seq<char>, s: i64, i: int)
    requires
        q.wf(),
        q.pools.contains_key(s),
        0 <= i < q.pools[s].len(),
        q.pools[s][i] == id,
    ensures
        q.scores.contains_key(id),
        q.scores[id] == s,
        forall|j: int| 0 <= j < q.pools[s].len() && q.pools[s][j] == id ==> j == i,
{
}

/// Every item with a score stands in the pool of that score.
pub proof fn law_scored_is_pooled(q: QueueView, id: Seq<char>)
    requires
        q.wf(),
        q.scores.contains_key(id),
    ensures
        q.pools.contains_key(q.scores[id]),
        q.pools[q.scores[id]].contains(id),
{
}

/// The item at the head has the highest score of all.
pub proof fn law_head_is_highest(q: QueueView, head: Seq<char>, id: Seq<char>)
    requires
        q.wf(),
        q.peek() == Some(head),
        q.scores.contains_key(id),
    ensures
        q.scores.contains_key(head),
        q.scores[id] <= q.scores[head],
{
    lemma_next_wf(q);
    lemma_top(q);
    assert(q.pools.contains_key(q.scores[id]));
}

/// The items leave in the order of their scores: what leaves later has no
/// higher score than what left before.
pub proof fn law_next_never_rises(q: QueueView, first: Seq<char>, second: Seq<char>)
    requires
        q.wf(),
        q.peek() == Some(first),
        q.next().peek() == Some(second),
    ensures
        q.scores.contains_key(first),
        q.scores.contains_key(second),
        q.scores[second] <= q.scores[first],
{
    lemma_next_wf(q);
    lemma_next_wf(q.next());
    assert(q.next().scores.contains_key(second));
    law_head_is_highest(q, first, second);
}

} // verus!
