//! The index by identifier: which score each item has.
//!
//! The entries are kept in buckets by a hash of the identifier, so that an
//! item is found without looking at the others.

use std::collections::hash_map::DefaultHasher;
use std::collections::HashMap;
use std::hash::Hasher;
use vstd::prelude::*;
use vstd::std_specs::hash::DefaultHasherAdditionalSpecFns;
use vstd::string::StringSliceAdditionalSpecFns;

verus! {

/// One item and its score.
pub struct Entry {
    pub id: String,
    pub score: i64,
}

/// Whether some entry of `entries` is for `id`.
pub open spec fn holds(entries: Seq<Entry>, id: Seq<char>) -> bool {
    exists|i: int| 0 <= i < entries.len() && (#[trigger] entries[i]).id@ == id
}

/// The place of an entry for `id` in `entries`.
pub open spec fn place(entries: Seq<Entry>, id: Seq<char>) -> int {
    choose|i: int| 0 <= i < entries.len() && (#[trigger] entries[i]).id@ == id
}

/// No two entries are for the same item.
pub open spec fn distinct(entries: Seq<Entry>) -> bool {
    forall|i: int, j: int|
        0 <= i < entries.len() && 0 <= j < entries.len() && i != j ==> (#[trigger] entries[i]).id@
            != (#[trigger] entries[j]).id@
}

/// The score that `entries` holds for `id`, if any.
pub open spec fn lookup(entries: Seq<Entry>, id: Seq<char>) -> Option<i64> {
    if holds(entries, id) {
        Some(entries[place(entries, id)].score)
    } else {
        None
    }
}

/// The bucket in which the entry for `id` is kept: the hash that the standard
/// hasher makes of the bytes of `id`.
pub open spec fn slot_of(id: Seq<char>) -> u64 {
    DefaultHasher::spec_finish(seq![vstd::utf8::encode_utf8(id)])
}

/// The bucket in which the entry for `id` is kept.
pub fn slot(id: &String) -> (hash: u64)
    ensures
        hash == slot_of(id@),
{
    let mut hasher = DefaultHasher::new();
    hasher.write(id.as_str().as_bytes());
    assert(hasher@ =~= seq![vstd::utf8::encode_utf8(id@)]);
    hasher.finish()
}

/// The place of the entry for `id`, if there is one.
pub fn find(entries: &Vec<Entry>, id: &String) -> (found: Option<usize>)
    ensures
        match found {
            Some(i) => i < entries.len() && entries[i as int].id@ == id@,
            None => !holds(entries@, id@),
        },
{
    let mut i: usize = 0;
    while i < entries.len()
        invariant
            i <= entries.len(),
            forall|j: int| 0 <= j < i ==> (#[trigger] entries[j]).id@ != id@,
        decreases entries.len() - i,
    {
        if entries[i].id == *id {
            return Some(i);
        }
        i += 1;
    }
    None
}

/// An entry put in the place of the entry for the same item changes that
/// item's score and nothing else.
pub proof fn lemma_replaced(before: Seq<Entry>, i: int, entry: Entry)
    requires
        distinct(before),
        0 <= i < before.len(),
        before[i].id@ == entry.id@,
    ensures
        distinct(before.update(i, entry)),
        forall|x: Seq<char>|
            #[trigger] lookup(before.update(i, entry), x) == (if x == entry.id@ {
                Some(entry.score)
            } else {
                lookup(before, x)
            }),
{
    let after = before.update(i, entry);
    assert forall|x: Seq<char>| #[trigger] lookup(after, x) == (if x == entry.id@ {
        Some(entry.score)
    } else {
        lookup(before, x)
    }) by {
        if holds(before, x) {
            assert(after[place(before, x)].id@ == x);
        }
        if holds(after, x) {
            assert(before[place(after, x)].id@ == x);
        }
    }
}

/// An entry for an item that has none, put behind the others, gives that item
/// its score and changes nothing else.
pub proof fn lemma_appended(before: Seq<Entry>, entry: Entry)
    requires
        distinct(before),
        !holds(before, entry.id@),
    ensures
        distinct(before.push(entry)),
        forall|x: Seq<char>|
            #[trigger] lookup(before.push(entry), x) == (if x == entry.id@ {
                Some(entry.score)
            } else {
                lookup(before, x)
            }),
{
    let after = before.push(entry);
    assert(after[after.len() - 1].id@ == entry.id@);
    assert forall|x: Seq<char>| #[trigger] lookup(after, x) == (if x == entry.id@ {
        Some(entry.score)
    } else {
        lookup(before, x)
    }) by {
        if holds(before, x) {
            assert(after[place(before, x)].id@ == x);
        }
        if holds(after, x) && x != entry.id@ {
            assert(before[place(after, x)].id@ == x);
        }
    }
}

/// Taking an entry out, with the last entry moved into its place, takes that
/// item's score away and changes nothing else.
pub proof fn lemma_swapped_out(before: Seq<Entry>, i: int)
    requires
        distinct(before),
        0 <= i < before.len(),
    ensures
        distinct(before.update(i, before.last()).drop_last()),
        forall|x: Seq<char>|
            #[trigger] lookup(before.update(i, before.last()).drop_last(), x) == (if x
                == before[i].id@ {
                None
            } else {
                lookup(before, x)
            }),
{
    let after = before.update(i, before.last()).drop_last();
    let last = before.len() - 1;
    assert forall|j: int| 0 <= j < after.len() implies #[trigger] after[j] == before[if j == i {
        last
    } else {
        j
    }] by {}
    assert forall|x: Seq<char>| #[trigger] lookup(after, x) == (if x == before[i].id@ {
        None
    } else {
        lookup(before, x)
    }) by {
        if holds(before, x) && x != before[i].id@ {
            let p = place(before, x);
            let j = if p == last {
                i
            } else {
                p
            };
            assert(after[j].id@ == x);
        }
        if holds(after, x) {
            let j = place(after, x);
            let p = if j == i {
                last
            } else {
                j
            };
            assert(before[p].id@ == x);
        }
    }
}

/// The scores of the items in the queue, by identifier.
pub struct IdIndex {
    buckets: HashMap<u64, Vec<Entry>>,
}

impl View for IdIndex {
    type V = Map<Seq<char>, i64>;

    closed spec fn view(&self) -> Map<Seq<char>, i64> {
        Map::new(|id: Seq<char>| self.stored(id) is Some, |id: Seq<char>| self.stored(id)->0)
    }
}

impl IdIndex {
    /// The score that the bucket of `id` holds for `id`, if any.
    closed spec fn stored(&self, id: Seq<char>) -> Option<i64> {
        if self.buckets@.contains_key(slot_of(id)) {
            lookup(self.buckets@[slot_of(id)]@, id)
        } else {
            None
        }
    }

    /// Each item has one entry.
    pub closed spec fn wf(&self) -> bool {
        &&& forall|hash: u64| #[trigger]
            self.buckets@.contains_key(hash) ==> distinct(self.buckets@[hash]@)
        &&& self@.dom().finite()
    }

    /// An index of no items.
    pub fn new() -> (index: Self)
        ensures
            index.wf(),
            index@ == Map::<Seq<char>, i64>::empty(),
    {
        let index = IdIndex { buckets: HashMap::new() };
        assert(index@ =~= Map::<Seq<char>, i64>::empty());
        index
    }

    /// The score of `id`, if it is in the index.
    pub fn get(&self, id: &String) -> (score: Option<i64>)
        requires
            self.wf(),
        ensures
            score == (if self@.contains_key(id@) {
                Some(self@[id@])
            } else {
                None
            }),
    {
        let hash = slot(id);
        match self.buckets.get(&hash) {
            Some(bucket) => match find(bucket, id) {
                Some(i) => {
                    assert(holds(bucket@, id@));
                    Some(bucket[i].score)
                },
                None => None,
            },
            None => None,
        }
    }

    /// Gives `id` the score `score`, whether or not it had one.
    pub fn set(&mut self, id: String, score: i64)
        requires
            old(self).wf(),
        ensures
            final(self).wf(),
            final(self)@ == old(self)@.insert(id@, score),
    {
        let ghost key = id@;
        let hash = slot(&id);
        let mut bucket = match self.buckets.remove(&hash) {
            Some(bucket) => bucket,
            None => Vec::new(),
        };
        let ghost before = bucket@;
        assert(forall|x: Seq<char>| slot_of(x) == hash ==> old(self).stored(x) == lookup(before, x));
        match find(&bucket, &id) {
            Some(i) => {
                let entry = Entry { id, score };
                proof {
                    lemma_replaced(before, i as int, entry);
                }
                bucket.set(i, entry);
            },
            None => {
                let entry = Entry { id, score };
                proof {
                    lemma_appended(before, entry);
                }
                bucket.push(entry);
            },
        }
        self.buckets.insert(hash, bucket);
        assert forall|x: Seq<char>| #[trigger] self.stored(x) == (if x == key {
            Some(score)
        } else {
            old(self).stored(x)
        }) by {
            if slot_of(x) == hash {
                assert(self.stored(x) == lookup(bucket@, x));
            }
        }
        assert(self@ =~= old(self)@.insert(key, score));
    }

    /// Takes `id` out of the index, if it is there.
    pub fn remove(&mut self, id: &String)
        requires
            old(self).wf(),
        ensures
            final(self).wf(),
            final(self)@ == old(self)@.remove(id@),
    {
        let ghost key = id@;
        let hash = slot(id);
        match self.buckets.remove(&hash) {
            Some(bucket) => {
                let mut bucket = bucket;
                let ghost before = bucket@;
                match find(&bucket, id) {
                    Some(i) => {
                        proof {
                            lemma_swapped_out(before, i as int);
                        }
                        bucket.swap_remove(i);
                    },
                    None => {},
                }
                if bucket.len() > 0 {
                    self.buckets.insert(hash, bucket);
                }
                assert forall|x: Seq<char>| #[trigger] self.stored(x) == (if x == key {
                    None
                } else {
                    old(self).stored(x)
                }) by {
                    if slot_of(x) == hash {
                        assert(old(self).stored(x) == lookup(before, x));
                        if bucket@.len() > 0 {
                            assert(self.stored(x) == lookup(bucket@, x));
                        } else {
                            assert(!holds(bucket@, x));
                        }
                    }
                }
                assert(self@ =~= old(self)@.remove(key));
            },
            None => {
                assert(self@ =~= old(self)@.remove(key));
            },
        }
    }
}

} // verus!
