//! The record of rebuilt digests.

use vstd::prelude::*;
use std::collections::HashMap;
use crate::git_utils::object::ObjectId;

verus! {

/// The map that a sequence of pairs stands for: a later pair replaces an
/// earlier one with the same key.
spec fn pairs_map(pairs: Seq<(ObjectId, ObjectId)>) -> Map<ObjectId, ObjectId>
    decreases pairs.len(),
{
    if pairs.len() == 0 {
        Map::empty()
    } else {
        pairs_map(pairs.drop_last()).insert(pairs.last().0, pairs.last().1)
    }
}

/// No key occurs twice.
spec fn distinct_keys(pairs: Seq<(ObjectId, ObjectId)>) -> bool {
    forall|i: int, j: int| 0 <= i < j < pairs.len() ==> (#[trigger] pairs[i]).0 != (#[trigger] pairs[j]).0
}

/// The keys that a map sends to another digest than themselves.
pub open spec fn moved_keys(map: Map<ObjectId, ObjectId>) -> Set<ObjectId> {
    map.dom().filter(|k: ObjectId| map[k] != k)
}

/// The map of a sequence of pairs holds the keys of the pairs and no others.
proof fn lemma_pairs_map_dom(pairs: Seq<(ObjectId, ObjectId)>)
    ensures
        pairs_map(pairs).dom().finite(),
        forall|k: ObjectId|
            pairs_map(pairs).contains_key(k) <==> exists|i: int|
                0 <= i < pairs.len() && (#[trigger] pairs[i]).0 == k,
    decreases pairs.len(),
{
    if pairs.len() > 0 {
        let front = pairs.drop_last();
        lemma_pairs_map_dom(front);
        assert forall|k: ObjectId|
            (exists|i: int| 0 <= i < pairs.len() && (#[trigger] pairs[i]).0 == k) implies pairs_map(
            pairs,
        ).contains_key(k) by {
            let i = choose|i: int| 0 <= i < pairs.len() && (#[trigger] pairs[i]).0 == k;
            if i < pairs.len() - 1 {
                assert(front[i].0 == k);
            }
        }
    }
}

/// Where no key occurs twice, the map gives for each pair's key that pair's
/// value.
proof fn lemma_pairs_map_value(pairs: Seq<(ObjectId, ObjectId)>, i: int)
    requires
        distinct_keys(pairs),
        0 <= i < pairs.len(),
    ensures
        pairs_map(pairs).contains_key(pairs[i].0),
        pairs_map(pairs)[pairs[i].0] == pairs[i].1,
    decreases pairs.len(),
{
    let front = pairs.drop_last();
    if i < pairs.len() - 1 {
        lemma_pairs_map_value(front, i);
    }
}

/// A new entry adds one key, and one moved key unless it sends the key to
/// itself.
proof fn lemma_moved_keys_grow(map: Map<ObjectId, ObjectId>, key: ObjectId, value: ObjectId)
    requires
        map.dom().finite(),
        !map.contains_key(key),
    ensures
        moved_keys(map).finite(),
        moved_keys(map.insert(key, value)).finite(),
        moved_keys(map.insert(key, value)).len() == moved_keys(map).len() + (if key != value {
            1nat
        } else {
            0nat
        }),
        map.insert(key, value).dom().len() == map.dom().len() + 1,
        moved_keys(map).len() <= map.dom().len(),
{
    let after = map.insert(key, value);
    map.dom().lemma_len_filter(|k: ObjectId| map[k] != k);
    if key != value {
        assert(moved_keys(after) =~= moved_keys(map).insert(key));
    } else {
        assert(moved_keys(after) =~= moved_keys(map));
    }
}

/// The record of what each digest of the source history was rebuilt to. A
/// digest is entered once and its entry never changes.
pub struct IdMap {
    pairs: Vec<(ObjectId, ObjectId)>,
    index: HashMap<u64, Vec<usize>>,
}

impl View for IdMap {
    type V = Map<ObjectId, ObjectId>;

    closed spec fn view(&self) -> Map<ObjectId, ObjectId> {
        pairs_map(self.pairs@)
    }
}

impl IdMap {
    /// The pairs are distinct by key, and the index files each pair under the
    /// slot of its key.
    pub closed spec fn wf(&self) -> bool {
        &&& distinct_keys(self.pairs@)
        &&& forall|i: int|
            0 <= i < self.pairs@.len() ==> self.index@.contains_key(
                (#[trigger] self.pairs@[i]).0.slot_of(),
            ) && self.index@[self.pairs@[i].0.slot_of()]@.contains(i as usize)
        &&& forall|slot: u64, j: int|
            self.index@.contains_key(slot) && 0 <= j < self.index@[slot]@.len()
                ==> #[trigger] self.index@[slot]@[j] < self.pairs@.len()
    }

    /// The map without entries.
    pub fn new() -> (map: IdMap)
        ensures
            map.wf(),
            map@ == Map::<ObjectId, ObjectId>::empty(),
    {
        IdMap { pairs: Vec::new(), index: HashMap::new() }
    }

    /// What `key` was rebuilt to, if it was.
    pub fn get(&self, key: &ObjectId) -> (found: Option<ObjectId>)
        requires
            self.wf(),
        ensures
            found == (if self@.contains_key(*key) {
                Some(self@[*key])
            } else {
                None
            }),
    {
        proof {
            lemma_pairs_map_dom(self.pairs@);
        }
        let slot = key.slot();
        match self.index.get(&slot) {
            None => {
                None
            },
            Some(bucket) => {
                let mut j: usize = 0;
                while j < bucket.len()
                    invariant
                        j <= bucket.len(),
                        self.wf(),
                        self.index@.contains_key(slot),
                        *bucket == self.index@[slot],
                        slot == key.slot_of(),
                        forall|k: int| 0 <= k < j ==> self.pairs@[bucket@[k] as int].0 != *key,
                    decreases bucket.len() - j,
                {
                    let at = bucket[j];
                    if self.pairs[at].0.same(key) {
                        proof {
                            lemma_pairs_map_value(self.pairs@, at as int);
                        }
                        return Some(self.pairs[at].1);
                    }
                    j += 1;
                }
                assert(!self@.contains_key(*key)) by {
                    lemma_pairs_map_dom(self.pairs@);
                    if self@.contains_key(*key) {
                        let i = choose|i: int|
                            0 <= i < self.pairs@.len() && (#[trigger] self.pairs@[i]).0 == *key;
                        assert(i < self.pairs.len());
                    }
                }
                None
            },
        }
    }

    /// Whether `key` has an entry.
    pub fn contains(&self, key: &ObjectId) -> (r: bool)
        requires
            self.wf(),
        ensures
            r == self@.contains_key(*key),
    {
        self.get(key).is_some()
    }

    /// Enters `key` with what it was rebuilt to.
    pub fn insert(&mut self, key: ObjectId, value: ObjectId)
        requires
            old(self).wf(),
            !old(self)@.contains_key(key),
        ensures
            final(self).wf(),
            final(self)@ == old(self)@.insert(key, value),
    {
        proof {
            lemma_pairs_map_dom(self.pairs@);
        }
        let ghost before = self.pairs@;
        let at = self.pairs.len();
        let slot = key.slot();
        let mut bucket = match self.index.remove(&slot) {
            Some(bucket) => bucket,
            None => Vec::new(),
        };
        let ghost bucket_before = bucket@;
        bucket.push(at);
        self.index.insert(slot, bucket);
        self.pairs.push((key, value));
        proof {
            assert(self.pairs@.drop_last() =~= before);
            assert forall|i: int| 0 <= i < self.pairs@.len() implies self.index@.contains_key(
                (#[trigger] self.pairs@[i]).0.slot_of(),
            ) && self.index@[self.pairs@[i].0.slot_of()]@.contains(i as usize) by {
                if i == at {
                    assert(self.index@[slot]@[bucket_before.len() as int] == at);
                } else {
                    let s = before[i].0.slot_of();
                    if s == slot {
                        let k = choose|k: int|
                            0 <= k < bucket_before.len() && bucket_before[k] == i as usize;
                        assert(self.index@[slot]@[k] == i as usize);
                    }
                }
            }
        }
    }

    /// The number of digests entered.
    pub fn len(&self) -> (n: usize)
        requires
            self.wf(),
        ensures
            n == self@.dom().len(),
    {
        proof {
            self.lemma_len();
        }
        self.pairs.len()
    }

    /// The map holds as many digests as there are pairs.
    proof fn lemma_len(&self)
        requires
            self.wf(),
        ensures
            self@.dom().finite(),
            self@.dom().len() == self.pairs@.len(),
    {
        lemma_distinct_len(self.pairs@);
    }

    /// How many digests were rebuilt to another digest than themselves.
    pub fn moved(&self) -> (n: usize)
        requires
            self.wf(),
        ensures
            n == moved_keys(self@).len(),
            n <= self@.dom().len(),
    {
        let mut n: usize = 0;
        let mut i: usize = 0;
        proof {
            assert(moved_keys(pairs_map(Seq::empty())) =~= Set::empty());
        }
        while i < self.pairs.len()
            invariant
                i <= self.pairs.len(),
                self.wf(),
                n == moved_keys(pairs_map(self.pairs@.subrange(0, i as int))).len(),
                n <= i,
                pairs_map(self.pairs@.subrange(0, i as int)).dom().len() == i,
            decreases self.pairs.len() - i,
        {
            let ghost front = self.pairs@.subrange(0, i as int);
            let ghost next = self.pairs@.subrange(0, i + 1);
            proof {
                assert(next.drop_last() =~= front);
                lemma_pairs_map_dom(front);
                lemma_moved_keys_grow(pairs_map(front), self.pairs@[i as int].0, self.pairs@[i as int].1);
            }
            if !self.pairs[i].0.same(&self.pairs[i].1) {
                n += 1;
            }
            i += 1;
        }
        assert(self.pairs@.subrange(0, i as int) =~= self.pairs@);
        n
    }
}

/// Where no key occurs twice, the map holds as many keys as there are pairs.
proof fn lemma_distinct_len(pairs: Seq<(ObjectId, ObjectId)>)
    requires
        distinct_keys(pairs),
    ensures
        pairs_map(pairs).dom().finite(),
        pairs_map(pairs).dom().len() == pairs.len(),
    decreases pairs.len(),
{
    lemma_pairs_map_dom(pairs);
    if pairs.len() > 0 {
        let front = pairs.drop_last();
        lemma_distinct_len(front);
        lemma_pairs_map_dom(front);
    }
}

} // verus!
