//! The visited store: for each canonical key the length of the shortest
//! program that is known to reach it. A length is only ever replaced by a
//! smaller one, and no key is ever removed.

use std::collections::HashMap;
use vstd::prelude::*;
use crate::order::{RowOrder, compare_rows};

verus! {

/// The rule of the store: a length is recorded for a key that has none, or
/// whose recorded length is larger; an equal or larger length is a
/// duplicate.
pub open spec fn improves(found: Option<u8>, length: u8) -> bool {
    match found {
        None => true,
        Some(old_length) => length < old_length,
    }
}

/// Decides whether a length is to be recorded, given what the store holds
/// for the key.
pub fn should_record(found: Option<u8>, length: u8) -> (yes: bool)
    ensures
        yes == improves(found, length),
{
    match found {
        None => true,
        Some(old_length) => length < old_length,
    }
}

/// A popped entry is stale when the store has since recorded a shorter
/// program for its key.
pub open spec fn superseded(found: Option<u8>, length: u8) -> bool {
    match found {
        None => false,
        Some(best) => best < length,
    }
}

/// Decides whether a popped entry is stale, given what the store holds for
/// its key.
pub fn is_stale(found: Option<u8>, length: u8) -> (yes: bool)
    ensures
        yes == superseded(found, length),
{
    match found {
        None => false,
        Some(best) => best < length,
    }
}

/// The modulus of the bucket number, a prime below 2^32.
pub const BUCKET_MODULUS: u64 = 4294967291;

/// The bucket number of a key.
pub open spec fn bucket_of(key: Seq<u8>) -> u64
    decreases key.len(),
{
    if key.len() == 0 {
        0
    } else {
        ((bucket_of(key.drop_last()) * 257 + key.last() + 1) % (BUCKET_MODULUS as int)) as u64
    }
}

/// The length that a bucket holds for a key: that of the latest entry with
/// that key.
pub open spec fn bucket_lookup(bucket: Seq<(Vec<u8>, u8)>, key: Seq<u8>) -> Option<u8>
    decreases bucket.len(),
{
    if bucket.len() == 0 {
        None
    } else if bucket.last().0@ == key {
        Some(bucket.last().1)
    } else {
        bucket_lookup(bucket.drop_last(), key)
    }
}

/// The visited store that lives in memory. The keys are kept in buckets by
/// their bucket number, in a hash map from numbers: of a hash map keyed by a
/// number `vstd` says what it holds after each call, of one keyed by bytes it
/// does not. What the store holds for a key is the latest entry with that key
/// in its bucket.
pub struct MemoryStore {
    buckets: HashMap<u64, Vec<(Vec<u8>, u8)>>,
}

/// Computes the bucket number of a key.
fn bucket_number(key: &Vec<u8>) -> (h: u64)
    ensures
        h == bucket_of(key@),
{
    let mut h: u64 = 0;
    let mut i: usize = 0;
    assert(key@.take(0) =~= Seq::<u8>::empty());
    while i < key.len()
        invariant
            i <= key.len(),
            h == bucket_of(key@.take(i as int)),
            h < BUCKET_MODULUS,
        decreases key.len() - i,
    {
        proof {
            let more = key@.take(i as int + 1);
            assert(more.drop_last() =~= key@.take(i as int));
            assert(more.last() == key@[i as int]);
        }
        let b: u64 = key[i] as u64;
        h = (h * 257 + b + 1) % BUCKET_MODULUS;
        i += 1;
    }
    assert(key@.take(i as int) =~= key@);
    h
}

/// Looks a key up in a bucket, the latest entry first.
fn scan_bucket(bucket: &Vec<(Vec<u8>, u8)>, key: &Vec<u8>) -> (found: Option<u8>)
    ensures
        found == bucket_lookup(bucket@, key@),
{
    let mut i: usize = bucket.len();
    assert(bucket@.take(i as int) =~= bucket@);
    while i > 0
        invariant
            i <= bucket.len(),
            bucket_lookup(bucket@, key@) == bucket_lookup(bucket@.take(i as int), key@),
        decreases i,
    {
        proof {
            let part = bucket@.take(i as int);
            assert(part.drop_last() =~= bucket@.take(i as int - 1));
            assert(part.last() == bucket@[i as int - 1]);
        }
        let o = compare_rows(&bucket[i - 1].0, key);
        if o == RowOrder::Equal {
            return Some(bucket[i - 1].1);
        }
        i -= 1;
    }
    None
}

impl MemoryStore {
    /// The length recorded for a key, if there is one.
    pub closed spec fn lookup(&self, key: Seq<u8>) -> Option<u8> {
        let h = bucket_of(key);
        if self.buckets@.contains_key(h) {
            bucket_lookup(self.buckets@[h]@, key)
        } else {
            None
        }
    }

    /// The store as a map from keys to lengths.
    pub open spec fn view(&self) -> Map<Seq<u8>, u8> {
        Map::new(|key: Seq<u8>| self.lookup(key).is_some(), |key: Seq<u8>| self.lookup(key).unwrap())
    }

    /// Makes an empty store.
    pub fn new() -> (store: MemoryStore)
        ensures
            store@ == Map::<Seq<u8>, u8>::empty(),
    {
        let store = MemoryStore { buckets: HashMap::new() };
        assert(store@ =~= Map::<Seq<u8>, u8>::empty());
        store
    }

    /// Looks a key up.
    pub fn get(&self, key: &Vec<u8>) -> (found: Option<u8>)
        ensures
            found == (if self@.contains_key(key@) {
                Some(self@[key@])
            } else {
                None
            }),
    {
        broadcast use vstd::std_specs::hash::group_hash_axioms;

        let h = bucket_number(key);
        match self.buckets.get(&h) {
            None => None,
            Some(bucket) => scan_bucket(bucket, key),
        }
    }

    /// Records a length for a key, whatever was recorded before.
    pub fn insert(&mut self, key: Vec<u8>, length: u8)
        ensures
            final(self)@ == old(self)@.insert(key@, length),
    {
        broadcast use vstd::std_specs::hash::group_hash_axioms;

        let h = bucket_number(&key);
        let ghost k = key@;
        let ghost before = self.buckets@;
        let taken = self.buckets.remove(&h);
        let ghost middle = self.buckets@;
        assert(middle == before.remove(h));
        let mut bucket: Vec<(Vec<u8>, u8)> = match taken {
            Some(b) => b,
            None => Vec::new(),
        };
        let ghost was = bucket@;
        assert(before.contains_key(h) ==> was == before[h]@);
        assert(!before.contains_key(h) ==> was.len() == 0);
        bucket.push((key, length));
        let ghost now = bucket@;
        assert(now.drop_last() =~= was);
        assert(now.last().0@ == k && now.last().1 == length);
        self.buckets.insert(h, bucket);
        proof {
            assert(self.buckets@ == middle.insert(h, bucket));
            assert forall|other: Seq<u8>| #[trigger]
                self.lookup(other) == (if other == k {
                    Some(length)
                } else {
                    old(self).lookup(other)
                }) by {
                let g = bucket_of(other);
                if g == h {
                    assert(self.buckets@[h]@ == now);
                    assert(self.lookup(other) == bucket_lookup(now, other));
                    if other != k {
                        assert(bucket_lookup(now, other) == bucket_lookup(was, other));
                    }
                } else {
                    assert(self.buckets@.contains_key(g) == before.contains_key(g));
                    if before.contains_key(g) {
                        assert(self.buckets@[g] == before[g]);
                    }
                }
            }
            assert(self@ =~= old(self)@.insert(k, length));
        }
    }

    /// Records a length for a key unless the store holds an equal or smaller
    /// one for it already, and tells whether it did.
    pub fn put(&mut self, key: Vec<u8>, length: u8) -> (recorded: bool)
        ensures
            recorded == improves(old(self).recorded(key@), length),
            final(self)@ == after_put(old(self)@, key@, length),
    {
        let found = self.get(&key);
        if should_record(found, length) {
            self.insert(key, length);
            true
        } else {
            false
        }
    }

    /// What the store holds for a key.
    pub open spec fn recorded(&self, key: Seq<u8>) -> Option<u8> {
        if self@.contains_key(key) {
            Some(self@[key])
        } else {
            None
        }
    }
}

/// What a store holds once a length is put for a key.
pub open spec fn after_put(held: Map<Seq<u8>, u8>, key: Seq<u8>, length: u8) -> Map<Seq<u8>, u8> {
    let found = if held.contains_key(key) {
        Some(held[key])
    } else {
        None
    };
    if improves(found, length) {
        held.insert(key, length)
    } else {
        held
    }
}

/// Of two lengths put for one key the smaller one stays: a second length that
/// is equal or larger leaves the first, a smaller one replaces it. This is
/// said of a store that does not hold a smaller length than the first for the
/// key already; one that does keeps that length.
pub proof fn lemma_put_keeps_minimum(
    before: Map<Seq<u8>, u8>,
    key: Seq<u8>,
    first: u8,
    second: u8,
)
    requires
        before.contains_key(key) ==> before[key] >= first,
    ensures
        ({
            let twice = after_put(after_put(before, key, first), key, second);
            &&& twice.contains_key(key)
            &&& second >= first ==> twice[key] == first
            &&& second < first ==> twice[key] == second
        }),
{
}

/// A put loses nothing: every key stays, none with a larger length, and the
/// key that is put has a length that is no larger than the one put.
pub proof fn lemma_put_never_loses(before: Map<Seq<u8>, u8>, key: Seq<u8>, length: u8)
    ensures
        ({
            let after = after_put(before, key, length);
            &&& after.contains_key(key) && after[key] <= length
            &&& forall|k: Seq<u8>| #[trigger]
                before.contains_key(k) ==> after.contains_key(k) && after[k] <= before[k]
        }),
{
}

} // verus!
