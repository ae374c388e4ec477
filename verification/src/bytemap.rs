//! A map from byte strings to values. Entries are spread over buckets by the
//! number that the first bytes of their key make.

use std::collections::HashMap;
use vstd::prelude::*;

use crate::codec::{le_value, read_le};

verus! {

/// Whether two byte strings are the same.
pub fn same_bytes(a: &[u8], b: &[u8]) -> (same: bool)
    ensures
        same == (a@ == b@),
{
    if a.len() != b.len() {
        return false;
    }
    let mut i: usize = 0;
    while i < a.len()
        invariant
            i <= a.len(),
            a.len() == b.len(),
            forall|j: int| 0 <= j < i ==> a@[j] == b@[j],
        decreases a.len() - i,
    {
        if a[i] != b[i] {
            return false;
        }
        i = i + 1;
    }
    assert(a@ =~= b@);
    true
}

/// Length of the part of a key that decides its bucket.
pub open spec fn spread_len(key: Seq<u8>) -> int {
    if key.len() < 8 {
        key.len() as int
    } else {
        8
    }
}

/// The bucket of a key.
pub open spec fn bucket_of(key: Seq<u8>) -> nat {
    le_value(key.take(spread_len(key)))
}

fn bucket_number(key: &[u8]) -> (number: u64)
    ensures
        number == bucket_of(key@),
{
    let width: usize = if key.len() < 8 {
        key.len()
    } else {
        8
    };
    assert(key@.subrange(0, width as int) =~= key@.take(spread_len(key@)));
    read_le(key, 0, width)
}

/// The value of a key in a bucket.
pub open spec fn found_in<V>(bucket: Seq<(Vec<u8>, V)>, key: Seq<u8>) -> Option<V>
    decreases bucket.len(),
{
    if bucket.len() == 0 {
        None
    } else if bucket.last().0@ == key {
        Some(bucket.last().1)
    } else {
        found_in(bucket.drop_last(), key)
    }
}

/// A bucket holds no key twice.
pub open spec fn keys_once<V>(bucket: Seq<(Vec<u8>, V)>) -> bool {
    forall|i: int, j: int|
        0 <= i < j < bucket.len() ==> (#[trigger] bucket[i]).0@ != (#[trigger] bucket[j]).0@
}

proof fn lemma_found_at<V>(bucket: Seq<(Vec<u8>, V)>, key: Seq<u8>, at: int)
    requires
        keys_once(bucket),
        0 <= at < bucket.len(),
        bucket[at].0@ == key,
    ensures
        found_in(bucket, key) == Some(bucket[at].1),
    decreases bucket.len(),
{
    if at < bucket.len() - 1 {
        assert(bucket[at].0@ != bucket[bucket.len() - 1].0@);
        lemma_found_at(bucket.drop_last(), key, at);
    }
}

proof fn lemma_found_none<V>(bucket: Seq<(Vec<u8>, V)>, key: Seq<u8>)
    requires
        forall|i: int| 0 <= i < bucket.len() ==> (#[trigger] bucket[i]).0@ != key,
    ensures
        found_in(bucket, key) is None,
    decreases bucket.len(),
{
    if bucket.len() > 0 {
        lemma_found_none(bucket.drop_last(), key);
    }
}

proof fn lemma_found_some<V>(bucket: Seq<(Vec<u8>, V)>, key: Seq<u8>) -> (at: int)
    requires
        found_in(bucket, key) is Some,
    ensures
        0 <= at < bucket.len(),
        bucket[at].0@ == key,
    decreases bucket.len(),
{
    if bucket.last().0@ == key {
        bucket.len() - 1
    } else {
        lemma_found_some(bucket.drop_last(), key)
    }
}

/// Taking the entry at a place out of a bucket takes out its key alone.
proof fn lemma_found_removed<V>(bucket: Seq<(Vec<u8>, V)>, at: int, key: Seq<u8>)
    requires
        keys_once(bucket),
        0 <= at < bucket.len(),
    ensures
        keys_once(bucket.remove(at)),
        found_in(bucket.remove(at), key) == (if bucket[at].0@ == key {
            None
        } else {
            found_in(bucket, key)
        }),
{
    let rest = bucket.remove(at);
    if bucket[at].0@ == key {
        assert forall|i: int| 0 <= i < rest.len() implies (#[trigger] rest[i]).0@ != key by {
            if i < at {
                assert(bucket[i].0@ != bucket[at].0@);
            } else {
                assert(bucket[at].0@ != bucket[i + 1].0@);
            }
        }
        lemma_found_none(rest, key);
    } else if found_in(bucket, key) is Some {
        let place = lemma_found_some(bucket, key);
        lemma_found_at(bucket, key, place);
        let moved = if place < at {
            place
        } else {
            place - 1
        };
        assert(rest[moved] == bucket[place]);
        assert(keys_once(rest));
        lemma_found_at(rest, key, moved);
    } else {
        assert forall|i: int| 0 <= i < rest.len() implies (#[trigger] rest[i]).0@ != key by {
            let place = if i < at {
                i
            } else {
                i + 1
            };
            if bucket[place].0@ == key {
                lemma_found_at(bucket, key, place);
            }
        }
        lemma_found_none(rest, key);
    }
}

/// The place of a key in a bucket.
fn place_in<V>(bucket: &Vec<(Vec<u8>, V)>, key: &[u8]) -> (place: Option<usize>)
    ensures
        match place {
            Some(at) => at < bucket@.len() && bucket@[at as int].0@ == key@,
            None => forall|i: int| 0 <= i < bucket@.len() ==> (#[trigger] bucket@[i]).0@ != key@,
        },
{
    let mut i: usize = 0;
    while i < bucket.len()
        invariant
            i <= bucket.len(),
            forall|j: int| 0 <= j < i ==> (#[trigger] bucket@[j]).0@ != key@,
        decreases bucket.len() - i,
    {
        if same_bytes(bucket[i].0.as_slice(), key) {
            return Some(i);
        }
        i = i + 1;
    }
    None
}

/// A map from byte strings.
pub struct ByteMap<V> {
    buckets: HashMap<u64, Vec<(Vec<u8>, V)>>,
    count: u64,
}

impl<V> ByteMap<V> {
    /// The value of a key, if there is one.
    pub closed spec fn found(&self, key: Seq<u8>) -> Option<V> {
        if self.buckets@.contains_key(bucket_of(key) as u64) {
            found_in(self.buckets@[bucket_of(key) as u64]@, key)
        } else {
            None
        }
    }

    /// The keys with their values.
    pub open spec fn entries(&self) -> Map<Seq<u8>, V> {
        Map::new(|key: Seq<u8>| self.found(key) is Some, |key: Seq<u8>| self.found(key)->0)
    }

    /// Each key stands once, in its bucket, and is counted.
    pub closed spec fn wf(&self) -> bool {
        &&& forall|number: u64| #[trigger]
            self.buckets@.contains_key(number) ==> keys_once(self.buckets@[number]@)
        &&& self.entries().dom().finite()
        &&& self.entries().dom().len() == self.count
    }

    /// There are finitely many keys.
    pub proof fn lemma_finite(&self)
        requires
            self.wf(),
        ensures
            self.entries().dom().finite(),
    {
    }

    pub fn new() -> (map: ByteMap<V>)
        ensures
            map.wf(),
            map.entries() == Map::<Seq<u8>, V>::empty(),
    {
        let map = ByteMap { buckets: HashMap::new(), count: 0 };
        assert(map.entries() =~= Map::<Seq<u8>, V>::empty());
        map
    }

    pub fn len(&self) -> (count: u64)
        requires
            self.wf(),
        ensures
            count == self.entries().dom().len(),
            self.entries().dom().finite(),
    {
        self.count
    }

    pub fn get(&self, key: &[u8]) -> (value: Option<&V>)
        requires
            self.wf(),
        ensures
            match value {
                Some(value) => self.entries().contains_key(key@) && *value
                    == self.entries()[key@],
                None => !self.entries().contains_key(key@),
            },
    {
        let number: u64 = bucket_number(key);
        match self.buckets.get(&number) {
            Some(bucket) => match place_in(bucket, key) {
                Some(at) => {
                    proof {
                        lemma_found_at(bucket@, key@, at as int);
                    }
                    Some(&bucket[at].1)
                },
                None => {
                    proof {
                        lemma_found_none(bucket@, key@);
                    }
                    None
                },
            },
            None => None,
        }
    }

    /// Sets the value of a key, in place of any earlier one.
    pub fn insert(&mut self, key: Vec<u8>, value: V)
        requires
            old(self).wf(),
            old(self).entries().dom().len() < u64::MAX,
        ensures
            final(self).wf(),
            final(self).entries() == old(self).entries().insert(key@, value),
    {
        let number: u64 = bucket_number(key.as_slice());
        let ghost before = *self;
        let mut bucket: Vec<(Vec<u8>, V)> = match self.buckets.remove(&number) {
            Some(bucket) => bucket,
            None => Vec::new(),
        };
        let ghost was = bucket@;
        proof {
            assert forall|k: Seq<u8>| bucket_of(k) as u64 == number implies before.found(k)
                == #[trigger] found_in(was, k) by {
                if !before.buckets@.contains_key(number) {
                    assert(was =~= Seq::empty());
                }
            }
            assert(keys_once(was));
        }
        let place = place_in(&bucket, key.as_slice());
        let ghost name = key@;
        match place {
            Some(at) => {
                proof {
                    lemma_found_at(was, name, at as int);
                }
                let _ = bucket.remove(at);
                assert(bucket@ == was.remove(at as int));
            },
            None => {
                proof {
                    lemma_found_none(was, name);
                }
                self.count = self.count + 1;
            },
        }
        let ghost rest = bucket@;
        bucket.push((key, value));
        let ghost now = bucket@;
        let _ = self.buckets.insert(number, bucket);
        proof {
            assert forall|k: Seq<u8>| #[trigger] found_in(rest, k) == (if k == name {
                None
            } else {
                found_in(was, k)
            }) by {
                match place {
                    Some(at) => {
                        lemma_found_removed(was, at as int, k);
                    },
                    None => {},
                }
            }
            match place {
                Some(at) => {
                    lemma_found_removed(was, at as int, name);
                },
                None => {},
            }
            assert(now.drop_last() =~= rest);
            assert forall|i: int| 0 <= i < rest.len() implies (#[trigger] rest[i]).0@ != name by {
                if rest[i].0@ == name {
                    lemma_found_at(rest, name, i);
                }
            }
            assert(keys_once(now));
            assert forall|k: Seq<u8>| #[trigger] self.found(k) == (if k == name {
                Some(value)
            } else {
                before.found(k)
            }) by {
                if bucket_of(k) as u64 == number {
                    assert(self.found(k) == found_in(now, k));
                    assert(found_in(rest, k) == (if k == name {
                        None
                    } else {
                        found_in(was, k)
                    }));
                    assert(before.found(k) == found_in(was, k));
                }
            }
            assert(self.entries() =~= before.entries().insert(name, value));
            assert(before.entries().contains_key(name) == (place is Some)) by {
                assert(before.found(name) == found_in(was, name));
            }
        }
    }

    /// Takes a key out, with its value.
    pub fn remove(&mut self, key: &[u8])
        requires
            old(self).wf(),
        ensures
            final(self).wf(),
            final(self).entries() == old(self).entries().remove(key@),
    {
        let number: u64 = bucket_number(key);
        let ghost before = *self;
        let mut bucket: Vec<(Vec<u8>, V)> = match self.buckets.remove(&number) {
            Some(bucket) => bucket,
            None => Vec::new(),
        };
        let ghost was = bucket@;
        proof {
            assert forall|k: Seq<u8>| bucket_of(k) as u64 == number implies before.found(k)
                == #[trigger] found_in(was, k) by {
                if !before.buckets@.contains_key(number) {
                    assert(was =~= Seq::empty());
                }
            }
            assert(keys_once(was));
        }
        let place = place_in(&bucket, key);
        match place {
            Some(at) => {
                proof {
                    lemma_found_at(was, key@, at as int);
                    assert(before.found(key@) == found_in(was, key@));
                    assert(before.entries().dom().contains(key@));
                }
                let _ = bucket.remove(at);
                self.count = self.count - 1;
                assert(bucket@ == was.remove(at as int));
            },
            None => {
                proof {
                    lemma_found_none(was, key@);
                    assert(before.found(key@) == found_in(was, key@));
                    assert(!before.entries().dom().contains(key@));
                }
            },
        }
        let ghost now = bucket@;
        let _ = self.buckets.insert(number, bucket);
        proof {
            match place {
                Some(at) => {
                    lemma_found_removed(was, at as int, key@);
                },
                None => {},
            }
            assert forall|k: Seq<u8>| #[trigger] self.found(k) == (if k == key@ {
                None
            } else {
                before.found(k)
            }) by {
                if bucket_of(k) as u64 == number {
                    assert(self.found(k) == found_in(now, k));
                    assert(before.found(k) == found_in(was, k));
                    match place {
                        Some(at) => {
                            lemma_found_removed(was, at as int, k);
                        },
                        None => {},
                    }
                }
            }
            assert(self.entries() =~= before.entries().remove(key@));
        }
    }
}

} // verus!
