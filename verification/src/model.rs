//! The mathematical model of the queue: two maps that describe the same items,
//! one by identifier and one by score, and the operations on them.

use vstd::prelude::*;

verus! {

/// Why an update was turned down. The queue is left as it was.
#[derive(Clone, Copy, Debug, PartialEq, Eq, Structural)]
pub enum UpdateError {
    /// Adding the value to the item's current score leaves the 64-bit range.
    ScoreOverflow,
    /// The count of accepted updates has reached the end of the 64-bit range.
    UpdatesExhausted,
}

/// What a queue holds, as mathematics.
pub struct QueueView {
    /// The score of each item that is in the queue.
    pub scores: Map<Seq<char>, i64>,
    /// For each score that some item has, the items with that score, the one
    /// that has been there longest first.
    pub pools: Map<i64, Seq<Seq<char>>>,
    /// How many updates have been accepted so far.
    pub updates: int,
}

/// The identifier that an item returned by the queue stands for.
pub open spec fn named(item: Option<String>) -> Option<Seq<char>> {
    match item {
        Some(id) => Some(id@),
        None => None,
    }
}

/// The number of items in all the pools together.
pub open spec fn pooled(pools: Map<i64, Seq<Seq<char>>>) -> nat
    decreases pools.dom().len(),
    when pools.dom().finite()
{
    if pools.dom().len() == 0 {
        0
    } else {
        let s = pools.dom().choose();
        pools[s].len() + pooled(pools.remove(s))
    }
}

/// The pools after `id` has left the pool at `score`. A pool that this empties
/// is dropped.
pub open spec fn without(pools: Map<i64, Seq<Seq<char>>>, id: Seq<char>, score: i64) -> Map<
    i64,
    Seq<Seq<char>>,
> {
    let rest = pools[score].remove(pools[score].index_of(id));
    if rest.len() == 0 {
        pools.remove(score)
    } else {
        pools.insert(score, rest)
    }
}

/// The pools after `id` has joined the tail of the pool at `score`. The pool is
/// made if it is not there.
pub open spec fn with_tail(pools: Map<i64, Seq<Seq<char>>>, id: Seq<char>, score: i64) -> Map<
    i64,
    Seq<Seq<char>>,
> {
    if pools.contains_key(score) {
        pools.insert(score, pools[score].push(id))
    } else {
        pools.insert(score, seq![id])
    }
}

impl QueueView {
    /// The queue with nothing in it and no update accepted.
    pub open spec fn empty() -> QueueView {
        QueueView { scores: Map::empty(), pools: Map::empty(), updates: 0 }
    }

    /// The two maps describe the same items, no pool is empty, and the counts
    /// fit the machine.
    pub open spec fn wf(self) -> bool {
        &&& self.scores.dom().finite()
        &&& self.pools.dom().finite()
        &&& 0 <= self.updates <= i64::MAX
        &&& self.scores.dom().len() <= self.updates
        &&& self.scores.dom().len() == pooled(self.pools)
        &&& forall|s: i64| #[trigger]
            self.pools.contains_key(s) ==> self.pools[s].len() > 0 && self.pools[s].no_duplicates()
        &&& forall|s: i64, i: int|
            self.pools.contains_key(s) && 0 <= i < self.pools[s].len() ==> self.scores.contains_key(
                #[trigger] self.pools[s][i],
            ) && self.scores[self.pools[s][i]] == s
        &&& forall|id: Seq<char>| #[trigger]
            self.scores.contains_key(id) ==> self.pools.contains_key(self.scores[id])
                && self.pools[self.scores[id]].contains(id)
    }

    /// The number of items in the queue.
    pub open spec fn items(self) -> nat {
        self.scores.dom().len()
    }

    /// The number of pools, that is of scores that some item has.
    pub open spec fn pool_count(self) -> nat {
        self.pools.dom().len()
    }

    /// The score of `id`, if it is in the queue.
    pub open spec fn score(self, id: Seq<char>) -> Option<i64> {
        if self.scores.contains_key(id) {
            Some(self.scores[id])
        } else {
            None
        }
    }

    /// Whether the queue holds no item.
    pub open spec fn is_empty(self) -> bool {
        forall|s: i64| !self.pools.contains_key(s)
    }

    /// Whether `s` is the highest score that any item has.
    pub open spec fn is_top(self, s: i64) -> bool {
        &&& self.pools.contains_key(s)
        &&& forall|t: i64| self.pools.contains_key(t) ==> t <= s
    }

    /// The highest score that any item has. Arbitrary on the empty queue.
    pub open spec fn top(self) -> i64 {
        choose|s: i64| self.is_top(s)
    }

    /// The item that leaves next: the head of the pool at the highest score.
    pub open spec fn peek(self) -> Option<Seq<char>> {
        if self.is_empty() {
            None
        } else {
            Some(self.pools[self.top()][0])
        }
    }

    /// The queue after the item that `peek` shows has left.
    pub open spec fn next(self) -> QueueView {
        if self.is_empty() {
            self
        } else {
            let s = self.top();
            QueueView {
                scores: self.scores.remove(self.pools[s][0]),
                pools: if self.pools[s].len() == 1 {
                    self.pools.remove(s)
                } else {
                    self.pools.insert(s, self.pools[s].drop_first())
                },
                updates: self.updates,
            }
        }
    }

    /// The score that `id` has once `delta` is added: `delta` itself for an
    /// item that is not in the queue.
    pub open spec fn raised(self, id: Seq<char>, delta: i64) -> int {
        if self.scores.contains_key(id) {
            self.scores[id] + delta
        } else {
            delta as int
        }
    }

    /// Why the update of `id` by `delta` is turned down, if it is.
    pub open spec fn refusal(self, id: Seq<char>, delta: i64) -> Option<UpdateError> {
        if !(i64::MIN <= self.raised(id, delta) <= i64::MAX) {
            Some(UpdateError::ScoreOverflow)
        } else if self.updates >= i64::MAX {
            Some(UpdateError::UpdatesExhausted)
        } else {
            None
        }
    }

    /// The queue after the update of `id` by `delta` has been accepted: `id`
    /// has left the pool it was in and stands last in the pool of its new score.
    pub open spec fn update(self, id: Seq<char>, delta: i64) -> QueueView {
        let score = self.raised(id, delta) as i64;
        let left = if self.scores.contains_key(id) {
            without(self.pools, id, self.scores[id])
        } else {
            self.pools
        };
        QueueView {
            scores: self.scores.insert(id, score),
            pools: with_tail(left, id, score),
            updates: self.updates + 1,
        }
    }

    /// What an update of `id` by `delta` returns: the score that `id` had, if
    /// any, and the score it has now, or why the update is turned down.
    pub open spec fn update_outcome(self, id: Seq<char>, delta: i64) -> Result<
        (Option<i64>, i64),
        UpdateError,
    > {
        match self.refusal(id, delta) {
            Some(e) => Err(e),
            None => Ok((self.score(id), self.raised(id, delta) as i64)),
        }
    }

    /// The queue after an update of `id` by `delta` has been asked for,
    /// accepted or not.
    pub open spec fn after_update(self, id: Seq<char>, delta: i64) -> QueueView {
        if self.refusal(id, delta) is None {
            self.update(id, delta)
        } else {
            self
        }
    }
}

/// Taking one pool out of the sum leaves the sum of the others.
pub proof fn lemma_pooled_remove(pools: Map<i64, Seq<Seq<char>>>, s: i64)
    requires
        pools.dom().finite(),
        pools.contains_key(s),
    ensures
        pooled(pools) == pools[s].len() + pooled(pools.remove(s)),
    decreases pools.dom().len(),
{
    let c = pools.dom().choose();
    if c != s {
        lemma_pooled_remove(pools.remove(c), s);
        lemma_pooled_remove(pools.remove(s), c);
        assert(pools.remove(c).remove(s) =~= pools.remove(s).remove(c));
    }
}

/// Putting a pool at `s` makes the sum that pool's length and the others'.
pub proof fn lemma_pooled_insert(pools: Map<i64, Seq<Seq<char>>>, s: i64, pool: Seq<Seq<char>>)
    requires
        pools.dom().finite(),
    ensures
        pooled(pools.insert(s, pool)) == pool.len() + pooled(pools.remove(s)),
{
    lemma_pooled_remove(pools.insert(s, pool), s);
    assert(pools.insert(s, pool).remove(s) =~= pools.remove(s));
}

/// Where no pool is empty there are at least as many items as pools.
pub proof fn lemma_pooled_bounds_pools(pools: Map<i64, Seq<Seq<char>>>)
    requires
        pools.dom().finite(),
        forall|s: i64| #[trigger] pools.contains_key(s) ==> pools[s].len() > 0,
    ensures
        pools.dom().len() <= pooled(pools),
    decreases pools.dom().len(),
{
    if pools.dom().len() != 0 {
        let c = pools.dom().choose();
        lemma_pooled_bounds_pools(pools.remove(c));
    }
}

/// The two maps agree on every item but `id`, which is in no pool.
pub open spec fn detached(
    scores: Map<Seq<char>, i64>,
    pools: Map<i64, Seq<Seq<char>>>,
    id: Seq<char>,
) -> bool {
    &&& scores.dom().finite()
    &&& pools.dom().finite()
    &&& forall|s: i64| #[trigger]
        pools.contains_key(s) ==> pools[s].len() > 0 && pools[s].no_duplicates()
    &&& forall|s: i64, i: int|
        pools.contains_key(s) && 0 <= i < pools[s].len() ==> (#[trigger] pools[s][i]) != id
            && scores.contains_key(pools[s][i]) && scores[pools[s][i]] == s
    &&& forall|x: Seq<char>| #[trigger]
        scores.contains_key(x) && x != id ==> pools.contains_key(scores[x])
            && pools[scores[x]].contains(x)
}

/// An item that is not in the queue is in no pool.
pub proof fn lemma_fresh_is_detached(q: QueueView, id: Seq<char>)
    requires
        q.wf(),
        !q.scores.contains_key(id),
    ensures
        detached(q.scores, q.pools, id),
{
}

/// Taking an item out of its pool leaves the rest as it was, one item less.
pub proof fn lemma_detach(q: QueueView, id: Seq<char>)
    requires
        q.wf(),
        q.scores.contains_key(id),
    ensures
        detached(q.scores, without(q.pools, id, q.scores[id]), id),
        pooled(without(q.pools, id, q.scores[id])) + 1 == pooled(q.pools),
{
    let cur = q.scores[id];
    let pool = q.pools[cur];
    let k = pool.index_of(id);
    let rest = pool.remove(k);
    let left = without(q.pools, id, cur);
    assert(pool.contains(id));
    assert(0 <= k < pool.len() && pool[k] == id);
    assert(rest.len() == pool.len() - 1);
    assert forall|i: int| 0 <= i < rest.len() implies #[trigger] rest[i] == pool[if i < k {
        i
    } else {
        i + 1
    }] by {}
    lemma_pooled_remove(q.pools, cur);
    if rest.len() == 0 {
        assert(left == q.pools.remove(cur));
    } else {
        lemma_pooled_insert(q.pools, cur, rest);
    }
    assert forall|s: i64| #[trigger] left.contains_key(s) implies left[s].len() > 0
        && left[s].no_duplicates() by {
        if s == cur {
            assert forall|i: int, j: int|
                0 <= i < rest.len() && 0 <= j < rest.len() && i != j implies rest[i] != rest[j] by {
                let a = if i < k { i } else { i + 1 };
                let b = if j < k { j } else { j + 1 };
                assert(pool[a] != pool[b]);
            }
        } else {
            assert(q.pools.contains_key(s));
        }
    }
    assert forall|s: i64, i: int| left.contains_key(s) && 0 <= i < left[s].len() implies (
    #[trigger] left[s][i]) != id && q.scores.contains_key(left[s][i]) && q.scores[left[s][i]]
        == s by {
        if s == cur {
            let a = if i < k { i } else { i + 1 };
            assert(rest[i] == pool[a]);
            assert(pool[a] != pool[k]);
        } else {
            assert(q.pools.contains_key(s));
            assert(q.scores[q.pools[s][i]] == s);
        }
    }
    assert forall|x: Seq<char>| #[trigger] q.scores.contains_key(x) && x != id implies left.contains_key(
        q.scores[x],
    ) && left[q.scores[x]].contains(x) by {
        let s = q.scores[x];
        assert(q.pools[s].contains(x));
        if s == cur {
            let a = pool.index_of(x);
            assert(0 <= a < pool.len() && pool[a] == x);
            let i = if a < k { a } else { a - 1 };
            assert(rest[i] == x);
        }
    }
}

/// Putting a detached item at the tail of a pool makes the two maps agree on
/// every item again.
pub proof fn lemma_attach(
    scores: Map<Seq<char>, i64>,
    pools: Map<i64, Seq<Seq<char>>>,
    id: Seq<char>,
    score: i64,
)
    requires
        detached(scores, pools, id),
    ensures
        ({
            let q = QueueView {
                scores: scores.insert(id, score),
                pools: with_tail(pools, id, score),
                updates: 0,
            };
            &&& q.pools.dom().finite()
            &&& q.scores.dom().finite()
            &&& q.pools.dom() == pools.dom().insert(score)
            &&& pooled(q.pools) == pooled(pools) + 1
            &&& forall|s: i64| #[trigger]
                q.pools.contains_key(s) ==> q.pools[s].len() > 0 && q.pools[s].no_duplicates()
            &&& forall|s: i64, i: int|
                q.pools.contains_key(s) && 0 <= i < q.pools[s].len() ==> q.scores.contains_key(
                    #[trigger] q.pools[s][i],
                ) && q.scores[q.pools[s][i]] == s
            &&& forall|x: Seq<char>| #[trigger]
                q.scores.contains_key(x) ==> q.pools.contains_key(q.scores[x])
                    && q.pools[q.scores[x]].contains(x)
        }),
{
    let joined = with_tail(pools, id, score);
    let after = scores.insert(id, score);
    let grown = if pools.contains_key(score) {
        pools[score].push(id)
    } else {
        seq![id]
    };
    assert(joined == pools.insert(score, grown));
    lemma_pooled_insert(pools, score, grown);
    if pools.contains_key(score) {
        lemma_pooled_remove(pools, score);
    } else {
        assert(pools.remove(score) =~= pools);
    }
    assert(joined.dom() =~= pools.dom().insert(score));
    assert(grown[grown.len() - 1] == id);
    assert forall|s: i64| #[trigger] joined.contains_key(s) implies joined[s].len() > 0
        && joined[s].no_duplicates() by {
        if s == score {
            assert forall|i: int, j: int|
                0 <= i < grown.len() && 0 <= j < grown.len() && i != j implies grown[i]
                != grown[j] by {
                if i < grown.len() - 1 {
                    assert(grown[i] == pools[score][i]);
                }
                if j < grown.len() - 1 {
                    assert(grown[j] == pools[score][j]);
                }
            }
        } else {
            assert(pools.contains_key(s));
        }
    }
    assert forall|s: i64, i: int| joined.contains_key(s) && 0 <= i < joined[s].len() implies after.contains_key(
        #[trigger] joined[s][i],
    ) && after[joined[s][i]] == s by {
        if s == score {
            if i < grown.len() - 1 {
                assert(grown[i] == pools[score][i]);
            }
        } else {
            assert(pools.contains_key(s));
            assert(joined[s][i] == pools[s][i]);
        }
    }
    assert forall|x: Seq<char>| #[trigger] after.contains_key(x) implies joined.contains_key(
        after[x],
    ) && joined[after[x]].contains(x) by {
        if x == id {
            assert(grown[grown.len() - 1] == x);
        } else {
            assert(scores.contains_key(x));
            let s = scores[x];
            let a = pools[s].index_of(x);
            assert(pools[s].contains(x));
            assert(0 <= a < pools[s].len() && pools[s][a] == x);
            if s == score {
                assert(grown[a] == x);
            } else {
                assert(joined[s][a] == x);
            }
        }
    }
}

/// An accepted update leaves a queue whose two maps describe the same items.
pub proof fn lemma_update_wf(q: QueueView, id: Seq<char>, delta: i64)
    requires
        q.wf(),
        q.refusal(id, delta) is None,
    ensures
        q.update(id, delta).wf(),
        q.update(id, delta).items() == q.items() + (if q.scores.contains_key(id) {
            0nat
        } else {
            1nat
        }),
{
    let score = q.raised(id, delta) as i64;
    if q.scores.contains_key(id) {
        lemma_detach(q, id);
        lemma_attach(q.scores, without(q.pools, id, q.scores[id]), id, score);
        assert(q.scores.insert(id, score).dom() =~= q.scores.dom());
    } else {
        lemma_fresh_is_detached(q, id);
        lemma_attach(q.scores, q.pools, id, score);
    }
}

/// A finite set of scores that is not empty has a highest member.
pub proof fn lemma_highest_exists(keys: Set<i64>)
    requires
        keys.finite(),
        keys.len() > 0,
    ensures
        exists|m: i64| keys.contains(m) && forall|t: i64| keys.contains(t) ==> t <= m,
    decreases keys.len(),
{
    let c = keys.choose();
    let rest = keys.remove(c);
    if rest.len() == 0 {
        assert forall|t: i64| keys.contains(t) implies t <= c by {
            if t != c {
                assert(rest.contains(t));
            }
        }
    } else {
        lemma_highest_exists(rest);
        let m = choose|m: i64| rest.contains(m) && forall|t: i64| rest.contains(t) ==> t <= m;
        let h = if c > m { c } else { m };
        assert forall|t: i64| keys.contains(t) implies t <= h by {
            if t != c {
                assert(rest.contains(t));
            }
        }
        assert(keys.contains(h));
    }
}

/// A queue that is not empty has a highest score, and only one.
pub proof fn lemma_top(q: QueueView)
    requires
        q.pools.dom().finite(),
        !q.is_empty(),
    ensures
        q.is_top(q.top()),
        forall|s: i64| q.is_top(s) ==> s == q.top(),
{
    let k = choose|s: i64| q.pools.contains_key(s);
    assert(q.pools.dom().contains(k));
    assert(q.pools.dom().len() > 0) by {
        if q.pools.dom().len() == 0 {
            assert(q.pools.dom() =~= Set::empty());
        }
    }
    lemma_highest_exists(q.pools.dom());
    let m = choose|m: i64|
        q.pools.dom().contains(m) && forall|t: i64| q.pools.dom().contains(t) ==> t <= m;
    assert(q.is_top(m)) by {
        assert forall|t: i64| q.pools.contains_key(t) implies t <= m by {
            assert(q.pools.dom().contains(t));
        }
    }
}

/// After the item at the head has left, the two maps still describe the same
/// items, and there is one item less.
pub proof fn lemma_next_wf(q: QueueView)
    requires
        q.wf(),
    ensures
        q.next().wf(),
        q.is_empty() ==> q.peek() is None && q.items() == 0,
        !q.is_empty() ==> q.next().items() + 1 == q.items(),
        !q.is_empty() ==> q.peek() == Some(q.pools[q.top()][0]) && q.scores.contains_key(
            q.pools[q.top()][0],
        ) && q.scores[q.pools[q.top()][0]] == q.top(),
        !q.is_empty() ==> q.next().pools == without(q.pools, q.pools[q.top()][0], q.top()),
{
    if q.is_empty() {
        assert(q.pools.dom() =~= Set::empty());
        assert(q.scores.dom() =~= Set::empty()) by {
            assert forall|id: Seq<char>| !q.scores.contains_key(id) by {
                if q.scores.contains_key(id) {
                    assert(q.pools.contains_key(q.scores[id]));
                }
            }
        }
    } else {
        lemma_top(q);
        let s = q.top();
        let pool = q.pools[s];
        let head = pool[0];
        assert(q.pools.contains_key(s));
        assert(q.scores.contains_key(head) && q.scores[head] == s);
        let k = pool.index_of(head);
        assert(0 <= k < pool.len() && pool[k] == head);
        assert(k == 0);
        assert(pool.remove(0) =~= pool.drop_first());
        lemma_detach(q, head);
        let left = without(q.pools, head, s);
        assert(q.next().pools == left);
        let after = q.next();
        assert forall|t: i64, i: int| after.pools.contains_key(t) && 0 <= i
            < after.pools[t].len() implies after.scores.contains_key(#[trigger] after.pools[t][i])
            && after.scores[after.pools[t][i]] == t by {
            assert(left[t][i] != head);
        }
    }
}

} // verus!
