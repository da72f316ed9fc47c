//! The handle through which many holders share one queue.

use crate::model::{named, QueueView, UpdateError};
use crate::queue::PriorityQueue;
use crate::stats::{PQueueStats, VERSION};
use std::ops::DerefMut;
use std::sync::{Arc, LockResult, Mutex, MutexGuard, PoisonError};
use vstd::prelude::*;

verus! {

/// `std::sync::Mutex`. Opaque here.
#[verifier::external_type_specification]
#[verifier::external_body]
#[verifier::reject_recursive_types(T)]
pub struct ExMutex<T: ?Sized>(std::sync::Mutex<T>);

/// `std::sync::MutexGuard`. Opaque here.
#[verifier::external_type_specification]
#[verifier::external_body]
#[verifier::reject_recursive_types(T)]
pub struct ExMutexGuard<'a, T: ?Sized + 'a>(std::sync::MutexGuard<'a, T>);

/// `std::sync::PoisonError`. Opaque here.
#[verifier::external_type_specification]
#[verifier::external_body]
#[verifier::reject_recursive_types(T)]
pub struct ExPoisonError<T>(std::sync::PoisonError<T>);

/// What the mutex guards: a queue whose two indexes are in step.
struct Slot {
    queue: PriorityQueue,
}

impl Slot {
    #[verifier::type_invariant]
    spec fn holds_a_queue_in_step(&self) -> bool {
        self.queue.wf()
    }
}

/// A mutex around `slot`, by `Mutex::new`.
#[verifier::external_body]
fn guard_slot(slot: Slot) -> (mutex: Mutex<Slot>) {
    Mutex::new(slot)
}

/// Waits for the mutex, by `Mutex::lock`. The result is an error where a
/// holder panicked with the mutex locked; the guard is then inside the error.
///
/// `Mutex::lock` may panic or never return where the calling thread holds the
/// mutex already. No function of this library calls it with the guard alive.
#[verifier::external_body]
fn lock<'a>(mutex: &'a Mutex<Slot>) -> (result: LockResult<MutexGuard<'a, Slot>>) {
    mutex.lock()
}

/// The guard that a poisoned mutex handed out, by `PoisonError::into_inner`.
#[verifier::external_body]
fn recover<'a>(poisoned: PoisonError<MutexGuard<'a, Slot>>) -> (guard: MutexGuard<'a, Slot>) {
    poisoned.into_inner()
}

/// What the guard guards, by `MutexGuard`'s `DerefMut::deref_mut`.
#[verifier::external_body]
fn guarded<'a, 'b>(guard: &'a mut MutexGuard<'b, Slot>) -> (slot: &'a mut Slot) {
    guard.deref_mut()
}

/// A priority queue that many holders share.
///
/// A clone is another handle to the same queue, not a copy of it. Each
/// operation has the queue to itself while it runs.
#[derive(Clone)]
pub struct PQueue {
    queue: Arc<Mutex<Slot>>,
}

impl PQueue {
    /// A handle to a new, empty queue.
    pub fn new() -> Self {
        PQueue { queue: Arc::new(guard_slot(Slot { queue: PriorityQueue::new() })) }
    }

    /// Waits until this holder has the queue to itself.
    ///
    /// A mutex that a panic has poisoned is taken all the same: what it guards
    /// is a queue in step at every moment.
    fn acquire(&self) -> MutexGuard<'_, Slot> {
        match lock(&self.queue) {
            Ok(guard) => guard,
            Err(poisoned) => recover(poisoned),
        }
    }

    /// Updates the score of `item` in the shared queue as
    /// `PriorityQueue::update` does.
    ///
    /// Other holders may have changed the queue since this holder last saw
    /// it: the result is what the update returns on some queue in step.
    pub fn update(&self, item: String, delta: i64) -> (result: Result<
        (Option<i64>, i64),
        UpdateError,
    >)
        ensures
            exists|q: QueueView| q.wf() && result == #[trigger] q.update_outcome(item@, delta),
    {
        let mut guard = self.acquire();
        let slot = guarded(&mut guard);
        proof {
            use_type_invariant(&*slot);
        }
        let mut queue = PriorityQueue::since(slot.queue.start_time());
        std::mem::swap(&mut queue, &mut slot.queue);
        let ghost before = queue@;
        proof {
            queue.lemma_view_wf();
        }
        let result = queue.update(item, delta);
        slot.queue = queue;
        assert(before.wf() && result == before.update_outcome(item@, delta));
        result
    }

    /// The item at the head of the shared queue, which stays there.
    ///
    /// The result is what `PriorityQueue::peek` returns on some queue in step.
    pub fn peek(&self) -> (item: Option<String>)
        ensures
            exists|q: QueueView| q.wf() && named(item) == #[trigger] q.peek(),
    {
        let mut guard = self.acquire();
        let slot = guarded(&mut guard);
        proof {
            use_type_invariant(&*slot);
            slot.queue.lemma_view_wf();
        }
        let item = slot.queue.peek();
        assert(slot.queue@.wf() && named(item) == slot.queue@.peek());
        item
    }

    /// Takes the item at the head of the shared queue out and returns it.
    ///
    /// The result is what `PriorityQueue::next` returns on some queue in step.
    pub fn next(&self) -> (item: Option<String>)
        ensures
            exists|q: QueueView| q.wf() && named(item) == #[trigger] q.peek(),
    {
        let mut guard = self.acquire();
        let slot = guarded(&mut guard);
        proof {
            use_type_invariant(&*slot);
        }
        let mut queue = PriorityQueue::since(slot.queue.start_time());
        std::mem::swap(&mut queue, &mut slot.queue);
        let ghost before = queue@;
        proof {
            queue.lemma_view_wf();
        }
        let item = queue.next();
        slot.queue = queue;
        assert(before.wf() && named(item) == before.peek());
        item
    }

    /// The score of `item` in the shared queue, if it is there.
    ///
    /// The result is what `PriorityQueue::score` returns on some queue in
    /// step.
    pub fn score(&self, item: &String) -> (score: Option<i64>)
        ensures
            exists|q: QueueView| q.wf() && score == #[trigger] q.score(item@),
    {
        let mut guard = self.acquire();
        let slot = guarded(&mut guard);
        proof {
            use_type_invariant(&*slot);
            slot.queue.lemma_view_wf();
        }
        let score = slot.queue.score(item);
        assert(slot.queue@.wf() && score == slot.queue@.score(item@));
        score
    }

    /// A snapshot of the counters of the shared queue, with the uptime as of
    /// now: the counts of some queue in step.
    pub fn stats(&self) -> (stats: PQueueStats)
        ensures
            stats.version@ == VERSION@,
            exists|q: QueueView|
                q.wf() && stats.updates == q.updates && stats.items == #[trigger] q.items()
                    && stats.pools == q.pool_count(),
    {
        let mut guard = self.acquire();
        let slot = guarded(&mut guard);
        proof {
            use_type_invariant(&*slot);
            slot.queue.lemma_view_wf();
        }
        let stats = slot.queue.stats();
        assert(slot.queue@.wf() && stats.items == slot.queue@.items());
        stats
    }
}

impl Default for PQueue {
    /// A handle to a new, empty queue.
    fn default() -> Self {
        Self::new()
    }
}

/// The operations of a priority queue that is shared by handles.
pub trait PQueueOperations<T>: Sized {
    /// A new, empty queue.
    fn new() -> Self;

    /// Adds `new_score` to the score of `item`, or inserts it with that score.
    fn update(&self, item: T, new_score: i64);

    /// The item with the highest score, which stays in the queue.
    fn peek(&self) -> Option<T>;

    /// Takes the item with the highest score out and returns it.
    fn next(&self) -> Option<T>;

    /// The score of `item`, if it is in the queue.
    fn score(&self, item: &T) -> Option<i64>;

    /// A snapshot of the queue's statistics.
    fn stats(&self) -> PQueueStats;
}

} // verus!
