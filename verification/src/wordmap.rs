//! A map from byte strings to counts.
//!
//! vstd specifies `std`'s hash map for keys that are numbers, not for keys
//! that are strings. So the map is keyed by a number, a 64-bit hash of the
//! key's bytes that is computed here, and each bucket holds the keys with
//! that hash beside their counts. A bucket is searched from its newest
//! entry backwards, and the map's view is defined the same way, so it holds
//! of whatever the buckets contain.

use std::collections::HashMap;
use vstd::prelude::*;
use vstd::slice::*;

verus! {

broadcast use vstd::std_specs::hash::group_hash_axioms;

/// The hash of the empty key.
pub const HASH_SEED: u64 = 1469598103934665603;

/// What the hash is multiplied by before the next byte is added.
pub const HASH_FACTOR: u64 = 1099511628211;

/// One step of the hash: the hash of a key with `b` added to its end.
pub open spec fn hash_step(h: u64, b: u8) -> u64 {
    ((h * HASH_FACTOR + b) % 0x1_0000_0000_0000_0000) as u64
}

/// The hash of the first `n` bytes of `s`.
pub open spec fn hash_prefix(s: Seq<u8>, n: int) -> u64
    decreases n,
{
    if n <= 0 {
        HASH_SEED
    } else {
        hash_step(hash_prefix(s, n - 1), s[n - 1])
    }
}

/// The hash of a key.
pub open spec fn hash_of(s: Seq<u8>) -> u64 {
    hash_prefix(s, s.len() as int)
}

/// The hash of a key's prefix does not depend on what follows it.
pub proof fn lemma_hash_prefix_of_part(s: Seq<u8>, lo: int, hi: int, n: int)
    requires
        0 <= lo <= hi <= s.len(),
        0 <= n <= hi - lo,
    ensures
        hash_prefix(s.subrange(lo, hi), n) == hash_prefix(s.subrange(lo, lo + n), n),
    decreases n,
{
    if n > 0 {
        lemma_hash_prefix_of_part(s, lo, hi, n - 1);
        lemma_hash_prefix_of_part(s, lo, lo + n, n - 1);
    }
}

/// The hash of a key with one more byte at its end.
pub fn hash_extend(h: u64, b: u8) -> (r: u64)
    ensures
        r == hash_step(h, b),
{
    let wide: u128 = (h as u128) * (HASH_FACTOR as u128) + (b as u128);
    (wide % 0x1_0000_0000_0000_0000u128) as u64
}

/// The hash of a key.
pub fn hash_bytes(key: &[u8]) -> (r: u64)
    ensures
        r == hash_of(key@),
{
    let mut h: u64 = HASH_SEED;
    let mut i: usize = 0;
    while i < key.len()
        invariant
            0 <= i <= key@.len(),
            h == hash_prefix(key@, i as int),
        decreases key@.len() - i,
    {
        h = hash_extend(h, key[i]);
        i = i + 1;
    }
    h
}

/// Whether two byte strings are the same.
pub fn bytes_eq(a: &[u8], b: &[u8]) -> (r: bool)
    ensures
        r == (a@ == b@),
{
    if a.len() != b.len() {
        return false;
    }
    let mut i: usize = 0;
    while i < a.len()
        invariant
            0 <= i <= a@.len(),
            a@.len() == b@.len(),
            forall|j: int| 0 <= j < i ==> a@[j] == b@[j],
        decreases a@.len() - i,
    {
        if a[i] != b[i] {
            return false;
        }
        i = i + 1;
    }
    assert(a@ =~= b@);
    true
}

/// A copy of a byte string.
pub fn bytes_to_vec(a: &[u8]) -> (v: Vec<u8>)
    ensures
        v@ == a@,
{
    let mut v: Vec<u8> = Vec::new();
    let mut i: usize = 0;
    while i < a.len()
        invariant
            0 <= i <= a@.len(),
            v@ == a@.take(i as int),
        decreases a@.len() - i,
    {
        v.push(a[i]);
        assert(a@.take(i + 1) =~= a@.take(i as int).push(a@[i as int]));
        i = i + 1;
    }
    assert(a@.take(a@.len() as int) =~= a@);
    v
}

/// A key with the count that was put under it.
pub struct Entry {
    pub key: Vec<u8>,
    pub count: u64,
}

/// The index of the newest entry of `b` under key `k`, or -1.
pub open spec fn find(b: Seq<Entry>, k: Seq<u8>) -> int
    decreases b.len(),
{
    if b.len() == 0 {
        -1
    } else if b.last().key@ == k {
        b.len() - 1
    } else {
        find(b.drop_last(), k)
    }
}

proof fn lemma_find_range(b: Seq<Entry>, k: Seq<u8>)
    ensures
        -1 <= find(b, k) < b.len(),
        find(b, k) >= 0 ==> b[find(b, k)].key@ == k,
        forall|j: int| find(b, k) < j < b.len() ==> (#[trigger] b[j]).key@ != k,
    decreases b.len(),
{
    if b.len() > 0 && b.last().key@ != k {
        lemma_find_range(b.drop_last(), k);
        assert forall|j: int| find(b, k) < j < b.len() implies (#[trigger] b[j]).key@ != k by {
            if j < b.len() - 1 {
                assert(b.drop_last()[j] == b[j]);
            }
        }
    }
}

proof fn lemma_find_is(b: Seq<Entry>, k: Seq<u8>, i: int)
    requires
        -1 <= i < b.len(),
        i >= 0 ==> b[i].key@ == k,
        forall|j: int| i < j < b.len() ==> (#[trigger] b[j]).key@ != k,
    ensures
        find(b, k) == i,
    decreases b.len(),
{
    if b.len() > 0 {
        if b.last().key@ == k {
            assert(i == b.len() - 1);
        } else {
            let d = b.drop_last();
            assert forall|j: int| i < j < d.len() implies (#[trigger] d[j]).key@ != k by {
                assert(d[j] == b[j]);
            }
            if i >= 0 {
                assert(d[i] == b[i]);
            }
            lemma_find_is(d, k, i);
        }
    }
}

/// What a bucket holds under a key.
pub open spec fn bucket_get(b: Seq<Entry>, k: Seq<u8>) -> Option<u64> {
    if find(b, k) >= 0 {
        Some(b[find(b, k)].count)
    } else {
        None
    }
}

/// A map from byte strings to counts.
pub struct WordMap {
    buckets: HashMap<u64, Vec<Entry>>,
}

impl WordMap {
    /// What the map holds under a key.
    pub closed spec fn get_spec(&self, k: Seq<u8>) -> Option<u64> {
        if self.buckets@.contains_key(hash_of(k)) {
            bucket_get(self.buckets@[hash_of(k)]@, k)
        } else {
            None
        }
    }

    /// The map as a mathematical map.
    pub open spec fn view(&self) -> Map<Seq<u8>, u64> {
        Map::new(|k: Seq<u8>| self.get_spec(k) is Some, |k: Seq<u8>| self.get_spec(k)->0)
    }

    /// A map with nothing in it.
    pub fn new() -> (m: WordMap)
        ensures
            m@ == Map::<Seq<u8>, u64>::empty(),
    {
        let m = WordMap { buckets: HashMap::new() };
        assert(m@ =~= Map::<Seq<u8>, u64>::empty());
        m
    }

    /// Looks a key up whose hash the caller has at hand.
    pub fn get_hashed(&self, key: &[u8], h: u64) -> (r: Option<u64>)
        requires
            h == hash_of(key@),
        ensures
            r == (if self@.contains_key(key@) {
                Some(self@[key@])
            } else {
                None
            }),
    {
        match self.buckets.get(&h) {
            None => None,
            Some(bucket) => {
                let mut i: usize = bucket.len();
                while i > 0
                    invariant
                        0 <= i <= bucket@.len(),
                        h == hash_of(key@),
                        self.buckets@.contains_key(h),
                        self.buckets@[h] == *bucket,
                        forall|j: int| i <= j < bucket@.len() ==> (#[trigger] bucket@[j]).key@ != key@,
                    decreases i,
                {
                    i = i - 1;
                    if bytes_eq(bucket[i].key.as_slice(), key) {
                        proof {
                            lemma_find_is(bucket@, key@, i as int);
                        }
                        return Some(bucket[i].count);
                    }
                }
                proof {
                    lemma_find_is(bucket@, key@, -1);
                }
                None
            },
        }
    }

    /// The count under a key, if there is one.
    pub fn get(&self, key: &[u8]) -> (r: Option<u64>)
        ensures
            r == (if self@.contains_key(key@) {
                Some(self@[key@])
            } else {
                None
            }),
    {
        let h = hash_bytes(key);
        self.get_hashed(key, h)
    }

    /// Puts `count` under `key`, in place of what was there.
    pub fn set(&mut self, key: &[u8], count: u64)
        ensures
            final(self)@ == old(self)@.insert(key@, count),
    {
        let h = hash_bytes(key);
        let mut bucket: Vec<Entry> = match self.buckets.remove(&h) {
            Some(b) => b,
            None => Vec::new(),
        };
        let ghost before = bucket@;
        assert(forall|k: Seq<u8>|
            hash_of(k) == h ==> old(self).get_spec(k) == #[trigger] bucket_get(before, k)) by {
            assert forall|k: Seq<u8>| hash_of(k) == h implies old(self).get_spec(k)
                == #[trigger] bucket_get(before, k) by {
                if !old(self).buckets@.contains_key(h) {
                    assert(before.len() == 0);
                }
            }
        }
        bucket.push(Entry { key: bytes_to_vec(key), count });
        let ghost after = bucket@;
        proof {
            assert(after.drop_last() =~= before);
            assert(after.last().key@ == key@);
        }
        self.buckets.insert(h, bucket);
        proof {
            assert forall|k: Seq<u8>| #[trigger] final(self).get_spec(k) == (if k == key@ {
                Some(count)
            } else {
                old(self).get_spec(k)
            }) by {
                if hash_of(k) == h {
                    assert(final(self).buckets@[h]@ == after);
                    if k != key@ {
                        assert(find(after, k) == find(before, k));
                        if find(before, k) >= 0 {
                            lemma_find_range(before, k);
                            assert(after[find(before, k)] == before[find(before, k)]);
                        }
                    }
                } else {
                    assert(final(self).buckets@.contains_key(hash_of(k)) == old(
                        self,
                    ).buckets@.contains_key(hash_of(k)));
                }
            }
            assert(final(self)@ =~= old(self)@.insert(key@, count));
        }
    }
}

} // verus!
