//! The priority queue itself: an index by identifier and an index by score,
//! kept in step.

use crate::index::IdIndex;
use crate::model::{
    lemma_detach, lemma_fresh_is_detached, lemma_next_wf, lemma_pooled_bounds_pools, lemma_top,
    lemma_update_wf, named, with_tail, without, QueueView, UpdateError,
};
use crate::stats::{PQueueStats, PQueueStatsTracker, VERSION};
use std::collections::{BTreeMap, VecDeque};
use vstd::prelude::*;

verus! {

/// The identifiers that a pool holds, in the pool's order.
pub open spec fn ids(pool: Seq<String>) -> Seq<Seq<char>> {
    Seq::new(pool.len(), |i: int| pool[i]@)
}

/// The pools that the index by score holds, as sequences of identifiers.
pub open spec fn pools_of(scores: Map<i64, VecDeque<String>>) -> Map<i64, Seq<Seq<char>>> {
    Map::new(|s: i64| scores.contains_key(s), |s: i64| ids(scores[s]@))
}

/// The highest key of `scores`, by `BTreeMap::last_key_value`, which returns
/// the entry with the maximum key of the map, or nothing for an empty map.
#[verifier::external_body]
fn highest(scores: &BTreeMap<i64, VecDeque<String>>) -> (top: Option<i64>)
    ensures
        match top {
            Some(s) => scores@.contains_key(s) && forall|t: i64|
                scores@.contains_key(t) ==> t <= s,
            None => forall|t: i64| !scores@.contains_key(t),
        },
{
    match scores.last_key_value() {
        Some((score, _)) => Some(*score),
        None => None,
    }
}

/// A priority queue of items with additive scores.
///
/// The item with the highest score leaves first; among items with one score,
/// the one that has had it longest.
pub struct PriorityQueue {
    /// The pool of each score that some item has.
    scores: BTreeMap<i64, VecDeque<String>>,
    /// The score of each item.
    items: IdIndex,
    /// The counters.
    stats: PQueueStatsTracker,
}

impl View for PriorityQueue {
    type V = QueueView;

    closed spec fn view(&self) -> QueueView {
        QueueView {
            scores: self.items@,
            pools: pools_of(self.scores@),
            updates: self.stats.updates as int,
        }
    }
}

impl PriorityQueue {
    /// The two indexes describe the same items and the counters count them.
    pub closed spec fn wf(&self) -> bool {
        &&& self.items.wf()
        &&& self@.wf()
        &&& self.stats.items == self@.items()
        &&& self.stats.pools == self@.pool_count()
    }

    /// When this queue was made.
    pub closed spec fn started(&self) -> chrono::NaiveDateTime {
        self.stats.start_time
    }

    /// What a queue in step holds is in step as mathematics.
    pub proof fn lemma_view_wf(&self)
        requires
            self.wf(),
        ensures
            self@.wf(),
    {
    }

    /// An empty queue, made now.
    pub fn new() -> (queue: Self)
        ensures
            queue.wf(),
            queue@ == QueueView::empty(),
    {
        PriorityQueue::since(crate::clock::now())
    }

    /// An empty queue that counts its uptime from `start_time`.
    pub fn since(start_time: chrono::NaiveDateTime) -> (queue: Self)
        ensures
            queue.wf(),
            queue@ == QueueView::empty(),
            queue.started() == start_time,
    {
        let queue = PriorityQueue {
            scores: BTreeMap::new(),
            items: IdIndex::new(),
            stats: PQueueStatsTracker { start_time, updates: 0, items: 0, pools: 0 },
        };
        assert(queue@.pools =~= Map::<i64, Seq<Seq<char>>>::empty());
        assert(queue@.pools.dom() =~= Set::<i64>::empty());
        assert(queue@.scores.dom() =~= Set::<Seq<char>>::empty());
        queue
    }

    /// When this queue was made.
    pub fn start_time(&self) -> (time: chrono::NaiveDateTime)
        ensures
            time == self.started(),
    {
        self.stats.start_time
    }

    /// The score of `item`, if it is in the queue.
    pub fn score(&self, item: &String) -> (score: Option<i64>)
        requires
            self.wf(),
        ensures
            score == self@.score(item@),
    {
        self.items.get(item)
    }

    /// The item that `next` would return, which stays in the queue.
    pub fn peek(&self) -> (item: Option<String>)
        requires
            self.wf(),
        ensures
            named(item) == self@.peek(),
    {
        match highest(&self.scores) {
            Some(top) => {
                proof {
                    self.lemma_top_is(top);
                }
                let pool = self.scores.get(&top).unwrap();
                assert(self@.pools[top].len() > 0);
                Some(pool[0].clone())
            },
            None => None,
        }
    }

    /// A score that is the highest key of the index by score is the model's
    /// highest score.
    proof fn lemma_top_is(&self, top: i64)
        requires
            self@.pools.dom().finite(),
            self.scores@.contains_key(top),
            forall|t: i64| self.scores@.contains_key(t) ==> t <= top,
        ensures
            !self@.is_empty(),
            self@.top() == top,
            self@.pools.contains_key(top),
            self@.pools[top] == ids(self.scores@[top]@),
    {
        assert(self@.pools.contains_key(top));
        assert(self@.is_top(top));
        lemma_top(self@);
    }

    /// Takes the item at the head of the queue out and returns it: the item
    /// that `peek` shows.
    pub fn next(&mut self) -> (item: Option<String>)
        requires
            old(self).wf(),
        ensures
            final(self).wf(),
            final(self)@ == old(self)@.next(),
            final(self).started() == old(self).started(),
            named(item) == old(self)@.peek(),
    {
        let ghost before = self@;
        match highest(&self.scores) {
            Some(top) => {
                proof {
                    self.lemma_top_is(top);
                    lemma_next_wf(before);
                }
                let mut pool = self.scores.remove(&top).unwrap();
                let ghost full = pool@;
                let id = pool.pop_front().unwrap();
                assert(ids(pool@) =~= ids(full).drop_first());
                if pool.len() > 0 {
                    self.scores.insert(top, pool);
                } else {
                    self.stats.pools = self.stats.pools - 1;
                }
                self.items.remove(&id);
                self.stats.items = self.stats.items - 1;
                assert(self@.pools =~= before.next().pools);
                assert(self@.pools.dom() =~= self.scores@.dom());
                assert(before.pools.dom() =~= old(self).scores@.dom());
                Some(id)
            },
            None => {
                assert(before.is_empty());
                None
            },
        }
    }

    /// Takes `item` out of the pool at `score`, and the pool out of the index
    /// if that empties it.
    fn remove_item(&mut self, item: &String, score: i64)
        requires
            old(self)@.pools.contains_key(score),
            old(self)@.pools[score].no_duplicates(),
            old(self)@.pools[score].contains(item@),
            old(self).stats.pools == old(self)@.pool_count(),
        ensures
            final(self)@.pools == without(old(self)@.pools, item@, score),
            final(self).stats.pools == final(self)@.pool_count(),
            final(self).items == old(self).items,
            final(self).stats.updates == old(self).stats.updates,
            final(self).stats.items == old(self).stats.items,
            final(self).stats.start_time == old(self).stats.start_time,
    {
        let ghost before = self@.pools;
        assert(before.dom() =~= self.scores@.dom());
        let mut pool = self.scores.remove(&score).unwrap();
        let ghost full = pool@;
        let ghost at = ids(full).index_of(item@);
        assert(0 <= at < full.len() && ids(full)[at] == item@);
        let mut k: usize = 0;
        while k < pool.len() && !(pool[k] == *item)
            invariant
                pool@ == full,
                k <= at < full.len(),
                full[at]@ == item@,
            decreases full.len() - k,
        {
            k += 1;
        }
        assert(ids(full)[k as int] == item@);
        assert(k == at);
        pool.remove(k);
        assert(ids(pool@) =~= ids(full).remove(at));
        if pool.len() > 0 {
            self.scores.insert(score, pool);
        } else {
            self.stats.pools = self.stats.pools - 1;
        }
        assert(self@.pools =~= without(before, item@, score));
        assert(self@.pools.dom() =~= self.scores@.dom());
    }

    /// Adds `delta` to the score of `item`, or puts `item` into the queue with
    /// the score `delta`, and moves it to the tail of the pool of its new
    /// score. Returns the score it had, if any, and the score it has now.
    ///
    /// An update that would take the score, or the count of updates, out of
    /// the 64-bit range is turned down and changes nothing.
    pub fn update(&mut self, item: String, delta: i64) -> (result: Result<
        (Option<i64>, i64),
        UpdateError,
    >)
        requires
            old(self).wf(),
        ensures
            final(self).wf(),
            final(self)@ == old(self)@.after_update(item@, delta),
            final(self).started() == old(self).started(),
            result == old(self)@.update_outcome(item@, delta),
    {
        let ghost before = self@;
        let current = self.items.get(&item);
        let new_score: i64 = match current {
            Some(score) => match score.checked_add(delta) {
                Some(sum) => sum,
                None => {
                    return Err(UpdateError::ScoreOverflow);
                },
            },
            None => delta,
        };
        if self.stats.updates == i64::MAX {
            return Err(UpdateError::UpdatesExhausted);
        }
        proof {
            lemma_update_wf(before, item@, delta);
        }
        match current {
            Some(score) => {
                proof {
                    lemma_detach(before, item@);
                }
                self.remove_item(&item, score);
            },
            None => {
                proof {
                    lemma_fresh_is_detached(before, item@);
                }
                self.stats.items = self.stats.items + 1;
            },
        }
        let ghost left = self@.pools;
        proof {
            assert(left.dom() =~= self.scores@.dom());
            lemma_pooled_bounds_pools(left);
        }
        self.items.set(item.clone(), new_score);
        let mut pool = match self.scores.remove(&new_score) {
            Some(pool) => pool,
            None => {
                self.stats.pools = self.stats.pools + 1;
                VecDeque::new()
            },
        };
        let ghost shorter = pool@;
        pool.push_back(item);
        assert(ids(pool@) =~= ids(shorter).push(item@));
        assert(shorter.len() == 0 ==> ids(pool@) =~= seq![item@]);
        self.scores.insert(new_score, pool);
        self.stats.updates = self.stats.updates + 1;
        assert(self@.pools =~= with_tail(left, item@, new_score));
        assert(self@.pools.dom() =~= self.scores@.dom());
        Ok((current, new_score))
    }

    /// A snapshot of the counters, with the uptime as of now.
    pub fn stats(&self) -> (stats: PQueueStats)
        requires
            self.wf(),
        ensures
            stats.version@ == VERSION@,
            stats.updates == self@.updates,
            stats.items == self@.items(),
            stats.pools == self@.pool_count(),
    {
        PQueueStats::from(&self.stats)
    }
}

} // verus!
