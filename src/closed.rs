//! The closed set: a map from arrangement to the move that produced it, used both to
//! skip arrangements already expanded and to walk a solution back to its start.

use vstd::prelude::*;
use std::collections::HashMap;
use crate::grid::{Move, same_tiles};

verus! {

broadcast use vstd::std_specs::hash::group_hash_axioms;

/// Modulus of the bucket hash, a prime below 2^32.
pub const HASH_MOD: u64 = 4_294_967_291;

/// Bucket of an arrangement: its tiles read as digits base 31, modulo `HASH_MOD`.
pub open spec fn key_hash(s: Seq<usize>) -> u64
    decreases s.len(),
{
    if s.len() == 0 {
        0
    } else {
        ((key_hash(s.drop_last()) as int * 31 + (s.last() as int) % (HASH_MOD as int)) % (HASH_MOD as int)) as u64
    }
}

/// The bucket of an arrangement.
fn hash_of(key: &Vec<usize>) -> (r: u64)
    ensures
        r == key_hash(key@),
        r < HASH_MOD,
{
    let mut h: u64 = 0;
    let mut i: usize = 0;
    while i < key.len()
        invariant
            i <= key@.len(),
            h == key_hash(key@.subrange(0, i as int)),
            h < HASH_MOD,
        decreases key@.len() - i,
    {
        proof {
            let s = key@.subrange(0, i + 1);
            assert(s.drop_last() =~= key@.subrange(0, i as int));
            assert(s.last() == key@[i as int]);
        }
        h = (h * 31 + (key[i] as u64) % HASH_MOD) % HASH_MOD;
        i = i + 1;
    }
    proof {
        assert(key@.subrange(0, key@.len() as int) =~= key@);
    }
    h
}

/// Entries of one bucket: `(arrangement, move)`.
pub type Bucket = Vec<(Vec<usize>, Move)>;

/// Every entry of bucket `b` hashes to `h`, agrees with `model`, and no key occurs twice.
pub open spec fn bucket_ok(b: Seq<(Vec<usize>, Move)>, h: u64, model: Map<Seq<usize>, Move>) -> bool {
    &&& forall|i: int|
        0 <= i < b.len() ==> {
            &&& key_hash((#[trigger] b[i]).0@) == h
            &&& model.contains_key(b[i].0@)
            &&& model[b[i].0@] == b[i].1
        }
    &&& forall|i: int, j: int| 0 <= i < b.len() && 0 <= j < b.len() && i != j ==> b[i].0@ != b[j].0@
}

/// Key `k` has an entry in bucket `b`.
pub open spec fn bucket_has(b: Seq<(Vec<usize>, Move)>, k: Seq<usize>) -> bool {
    exists|i: int| 0 <= i < b.len() && (#[trigger] b[i]).0@ == k
}

/// Index of the entry for `key` in `bucket`.
fn find_entry(bucket: &Bucket, key: &Vec<usize>) -> (r: Option<usize>)
    requires
        forall|i: int, j: int|
            0 <= i < bucket@.len() && 0 <= j < bucket@.len() && i != j ==> bucket@[i].0@
                != bucket@[j].0@,
    ensures
        match r {
            Some(i) => i < bucket@.len() && bucket@[i as int].0@ == key@,
            None => !bucket_has(bucket@, key@),
        },
{
    let mut i: usize = 0;
    while i < bucket.len()
        invariant
            i <= bucket@.len(),
            forall|j: int| 0 <= j < i ==> (#[trigger] bucket@[j]).0@ != key@,
        decreases bucket@.len() - i,
    {
        if same_tiles(&bucket[i].0, key) {
            return Some(i);
        }
        i = i + 1;
    }
    None
}

/// Map from arrangement to the move that produced it.
pub struct ClosedSet {
    buckets: HashMap<u64, Bucket>,
    count: usize,
    model: Ghost<Map<Seq<usize>, Move>>,
}

impl View for ClosedSet {
    type V = Map<Seq<usize>, Move>;

    closed spec fn view(&self) -> Map<Seq<usize>, Move> {
        self.model@
    }
}

impl ClosedSet {
    /// The buckets hold exactly the entries of the model.
    pub closed spec fn well_formed(&self) -> bool {
        &&& forall|h: u64| #[trigger]
            self.buckets@.contains_key(h) ==> bucket_ok(self.buckets@[h]@, h, self.model@)
        &&& forall|k: Seq<usize>| #[trigger]
            self.model@.contains_key(k) ==> self.buckets@.contains_key(key_hash(k)) && bucket_has(
                self.buckets@[key_hash(k)]@,
                k,
            )
        &&& self.model@.dom().finite()
        &&& self.count == self.model@.len()
    }

    /// An empty closed set.
    pub fn new() -> (r: ClosedSet)
        ensures
            r.well_formed(),
            r@ == Map::<Seq<usize>, Move>::empty(),
    {
        ClosedSet { buckets: HashMap::new(), count: 0, model: Ghost(Map::empty()) }
    }

    /// Number of arrangements held.
    pub fn len(&self) -> (r: usize)
        requires
            self.well_formed(),
        ensures
            r == self@.len(),
    {
        self.count
    }

    /// The move recorded for `key`, if any.
    pub fn get(&self, key: &Vec<usize>) -> (r: Option<Move>)
        requires
            self.well_formed(),
        ensures
            r == (if self@.contains_key(key@) {
                Some(self@[key@])
            } else {
                None
            }),
    {
        let h = hash_of(key);
        match self.buckets.get(&h) {
            None => {
                proof {
                    if self.model@.contains_key(key@) {
                        assert(self.buckets@.contains_key(key_hash(key@)));
                    }
                }
                None
            },
            Some(bucket) => {
                proof {
                    assert(bucket_ok(bucket@, h, self.model@));
                }
                match find_entry(bucket, key) {
                    Some(i) => {
                        proof {
                            assert(bucket_ok(bucket@, h, self.model@));
                            assert(bucket@[i as int].0@ == key@);
                        }
                        Some(bucket[i].1)
                    },
                    None => {
                        proof {
                            if self.model@.contains_key(key@) {
                                assert(bucket_has(self.buckets@[key_hash(key@)]@, key@));
                            }
                        }
                        None
                    },
                }
            },
        }
    }

    /// Whether `key` is held.
    pub fn contains_key(&self, key: &Vec<usize>) -> (r: bool)
        requires
            self.well_formed(),
        ensures
            r == self@.contains_key(key@),
    {
        self.get(key).is_some()
    }

    /// Records `movement` for `key`, replacing an earlier record.
    pub fn insert(&mut self, key: Vec<usize>, movement: Move)
        requires
            old(self).well_formed(),
            old(self)@.len() < usize::MAX,
        ensures
            final(self).well_formed(),
            final(self)@ == old(self)@.insert(key@, movement),
            final(self)@.len() == if old(self)@.contains_key(key@) {
                old(self)@.len()
            } else {
                old(self)@.len() + 1
            },
    {
        let h = hash_of(&key);
        let ghost k = key@;
        let ghost old_model = self.model@;
        let ghost old_buckets = self.buckets@;
        let mut bucket = match self.buckets.remove(&h) {
            Some(b) => b,
            None => Vec::new(),
        };
        proof {
            if old_buckets.contains_key(h) {
                assert(bucket@ == old_buckets[h]@);
            } else {
                assert(bucket@.len() == 0);
            }
            assert(bucket_ok(bucket@, h, old_model));
        }
        let ghost new_model = old_model.insert(k, movement);
        let ghost mut at: int = 0;
        match find_entry(&bucket, &key) {
            Some(i) => {
                bucket.set(i, (key, movement));
                proof {
                    at = i as int;
                    assert(old_model.contains_key(k));
                    assert(new_model.dom() =~= old_model.dom());
                }
            },
            None => {
                bucket.push((key, movement));
                proof {
                    at = bucket@.len() - 1;
                    if old_model.contains_key(k) {
                        assert(bucket_has(old_buckets[key_hash(k)]@, k));
                    }
                    assert(new_model.dom() =~= old_model.dom().insert(k));
                }
                self.count = self.count + 1;
            },
        }
        self.model = Ghost(new_model);
        proof {
            assert(bucket@.len() > 0);
            let last = bucket@.len() - 1;
            assert forall|i: int| 0 <= i < bucket@.len() implies {
                &&& key_hash((#[trigger] bucket@[i]).0@) == h
                &&& new_model.contains_key(bucket@[i].0@)
                &&& new_model[bucket@[i].0@] == bucket@[i].1
            } by {
                if bucket@[i].0@ != k {
                    assert(old_model.contains_key(bucket@[i].0@));
                }
            }
            assert(bucket_ok(bucket@, h, new_model));
            assert(0 <= at < bucket@.len() && bucket@[at].0@ == k);
        }
        self.buckets.insert(h, bucket);
        proof {
            assert forall|g: u64| #[trigger] self.buckets@.contains_key(g) implies bucket_ok(
                self.buckets@[g]@,
                g,
                self.model@,
            ) by {
                if g != h {
                    let b = self.buckets@[g]@;
                    assert(b == old_buckets[g]@);
                    assert(bucket_ok(b, g, old_model));
                    assert forall|i: int| 0 <= i < b.len() implies {
                        &&& key_hash((#[trigger] b[i]).0@) == g
                        &&& new_model.contains_key(b[i].0@)
                        &&& new_model[b[i].0@] == b[i].1
                    } by {
                        assert(b[i].0@ != k);
                    }
                }
            }
            assert forall|q: Seq<usize>| #[trigger] self.model@.contains_key(q) implies self.buckets@.contains_key(
                key_hash(q),
            ) && bucket_has(self.buckets@[key_hash(q)]@, q) by {
                if q == k {
                    assert(bucket@[at].0@ == k);
                    assert(bucket_has(bucket@, k));
                } else if key_hash(q) == h {
                    assert(bucket_has(old_buckets[h]@, q));
                    let j = choose|j: int|
                        0 <= j < old_buckets[h]@.len() && (#[trigger] old_buckets[h]@[j]).0@ == q;
                    assert(bucket@[j].0@ == q);
                }
            }
        }
    }
}

} // verus!
