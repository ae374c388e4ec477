//! Finding the locking script of a spent output: a bounded cache of the
//! outputs seen lately answers most lookups, the node the rest.

use std::collections::VecDeque;
use vstd::prelude::*;
use vstd::set_lib::*;

use crate::bytemap::{same_bytes, ByteMap};
use crate::codec::{
    le_bytes, le_value, lemma_byte_spans, lemma_le_bytes_len, lemma_le_value_bound,
    lemma_read_written_field, lemma_write_read_field, push_bytes, push_le,
};
use crate::digest::hex_encode;
use crate::filter::types::{display_hex, reversed, OutPoint, TransparentTx, TxInput};

verus! {

/// Previous transactions asked for in one batch.
pub const PREVOUT_BATCH: usize = 16;

/// Transactions whose outputs are kept unless told otherwise.
pub const DEFAULT_CACHE_TRANSACTIONS: usize = 200_000;

/// An output: its transaction's id and its index.
pub type Place = (Seq<u8>, u32);

/// The key of an output.
pub open spec fn key_of(place: Place) -> Seq<u8> {
    place.0 + le_bytes(place.1 as nat, 4)
}

/// The output of a key.
pub open spec fn place_of(key: Seq<u8>) -> Place {
    (key.take(32), le_value(key.skip(32)) as u32)
}

proof fn lemma_key_of(place: Place)
    requires
        place.0.len() == 32,
    ensures
        key_of(place).len() == 36,
        place_of(key_of(place)) == place,
{
    lemma_le_bytes_len(place.1 as nat, 4);
    lemma_byte_spans();
    lemma_read_written_field(place.1 as nat, 4);
    let key = key_of(place);
    assert(key.take(32) =~= place.0);
    assert(key.skip(32) =~= le_bytes(place.1 as nat, 4));
}

proof fn lemma_place_of(key: Seq<u8>)
    requires
        key.len() == 36,
    ensures
        place_of(key).0.len() == 32,
        key_of(place_of(key)) == key,
{
    let field = key.skip(32);
    lemma_le_value_bound(field);
    lemma_byte_spans();
    lemma_write_read_field(field);
    assert(key_of(place_of(key)) =~= key);
}

fn output_key(hash: &[u8; 32], index: u32) -> (key: Vec<u8>)
    ensures
        key@ == key_of((hash@, index)),
{
    let mut key: Vec<u8> = Vec::new();
    push_bytes(&mut key, hash);
    push_le(&mut key, index as u64, 4);
    assert(key@ =~= key_of((hash@, index)));
    key
}

/// The outputs known after those of one more transaction.
pub open spec fn with_outputs(
    known: Map<Place, Seq<u8>>,
    txid: Seq<u8>,
    outputs: Seq<Vec<u8>>,
    n: nat,
) -> Map<Place, Seq<u8>>
    decreases n,
{
    if n == 0 {
        known
    } else {
        with_outputs(known, txid, outputs, (n - 1) as nat).insert(
            (txid, (n - 1) as u32),
            outputs[n - 1]@,
        )
    }
}

/// The outputs known without the first `n` of a transaction.
pub open spec fn without_outputs(known: Map<Place, Seq<u8>>, txid: Seq<u8>, n: nat) -> Map<
    Place,
    Seq<u8>,
>
    decreases n,
{
    if n == 0 {
        known
    } else {
        without_outputs(known, txid, (n - 1) as nat).remove((txid, (n - 1) as u32))
    }
}

/// What is known of one output after a transaction went in.
pub proof fn lemma_with_outputs(
    known: Map<Place, Seq<u8>>,
    txid: Seq<u8>,
    outputs: Seq<Vec<u8>>,
    n: nat,
    place: Place,
)
    requires
        n <= outputs.len(),
        n <= u32::MAX,
    ensures
        ({
            let after = with_outputs(known, txid, outputs, n);
            if place.0 == txid && place.1 < n {
                after.contains_key(place) && after[place] == outputs[place.1 as int]@
            } else {
                &&& after.contains_key(place) == known.contains_key(place)
                &&& known.contains_key(place) ==> after[place] == known[place]
            }
        }),
    decreases n,
{
    if n > 0 {
        lemma_with_outputs(known, txid, outputs, (n - 1) as nat, place);
    }
}

/// What is known of one output after a transaction was dropped.
pub proof fn lemma_without_outputs(
    known: Map<Place, Seq<u8>>,
    txid: Seq<u8>,
    n: nat,
    place: Place,
)
    requires
        n <= u32::MAX,
    ensures
        ({
            let after = without_outputs(known, txid, n);
            if place.0 == txid && place.1 < n {
                !after.contains_key(place)
            } else {
                &&& after.contains_key(place) == known.contains_key(place)
                &&& known.contains_key(place) ==> after[place] == known[place]
            }
        }),
    decreases n,
{
    if n > 0 {
        lemma_without_outputs(known, txid, (n - 1) as nat, place);
    }
}

/// Place of the first entry with an id, or the number of entries.
pub open spec fn age_of(ages: Seq<(Seq<u8>, u32)>, txid: Seq<u8>) -> int
    decreases ages.len(),
{
    if ages.len() == 0 || ages[0].0 == txid {
        0
    } else {
        1 + age_of(ages.drop_first(), txid)
    }
}

proof fn lemma_age_of(ages: Seq<(Seq<u8>, u32)>, txid: Seq<u8>)
    ensures
        0 <= age_of(ages, txid) <= ages.len(),
        age_of(ages, txid) < ages.len() ==> ages[age_of(ages, txid)].0 == txid,
        forall|k: int| 0 <= k < age_of(ages, txid) ==> (#[trigger] ages[k]).0 != txid,
    decreases ages.len(),
{
    if ages.len() > 0 && ages[0].0 != txid {
        let rest = ages.drop_first();
        lemma_age_of(rest, txid);
        assert forall|k: int| 0 <= k < age_of(ages, txid) implies (#[trigger] ages[k]).0
            != txid by {
            if k > 0 {
                assert(rest[k - 1] == ages[k]);
            }
        }
    }
}

proof fn lemma_is_age_of(ages: Seq<(Seq<u8>, u32)>, txid: Seq<u8>, at: int)
    requires
        0 <= at <= ages.len(),
        at < ages.len() ==> ages[at].0 == txid,
        forall|k: int| 0 <= k < at ==> (#[trigger] ages[k]).0 != txid,
    ensures
        age_of(ages, txid) == at,
{
    lemma_age_of(ages, txid);
    let found = age_of(ages, txid);
    if found < at {
        assert(ages[found].0 != txid);
    }
    if at < found {
        assert(ages[at].0 != txid);
    }
}

/// Whether every transaction is listed once, and is known with all its outputs.
pub open spec fn listed_are_known(
    ages: Seq<(Seq<u8>, u32)>,
    known: Map<Place, Seq<u8>>,
) -> bool {
    &&& forall|i: int, j: int|
        0 <= i < j < ages.len() ==> (#[trigger] ages[i]).0 != (#[trigger] ages[j]).0
    &&& forall|k: int| 0 <= k < ages.len() ==> (#[trigger] ages[k]).1 >= 1
    &&& forall|k: int, index: u32|
        0 <= k < ages.len() && index < ages[k].1 ==> #[trigger] known.contains_key(
            (ages[k].0, index),
        )
}

/// Outputs of the transactions seen lately; the oldest transaction goes first.
pub struct OutputCache {
    scripts: ByteMap<Vec<u8>>,
    order: VecDeque<([u8; 32], u32)>,
    capacity: usize,
}

impl OutputCache {
    /// The outputs that are known, with their scripts.
    pub closed spec fn known(&self) -> Map<Place, Seq<u8>> {
        Map::new(
            |place: Place|
                place.0.len() == 32 && self.scripts.entries().contains_key(key_of(place)),
            |place: Place| self.scripts.entries()[key_of(place)]@,
        )
    }

    /// Transactions in the order in which they came, with their output counts.
    pub closed spec fn ages(&self) -> Seq<(Seq<u8>, u32)> {
        self.order@.map_values(|entry: ([u8; 32], u32)| (entry.0@, entry.1))
    }

    /// How many transactions are kept.
    pub closed spec fn limit(&self) -> nat {
        self.capacity as nat
    }

    pub closed spec fn wf(&self) -> bool {
        &&& self.scripts.wf()
        &&& forall|key: Seq<u8>| #[trigger]
            self.scripts.entries().contains_key(key) ==> key.len() == 36
        &&& self.order@.len() <= self.capacity
        &&& self.capacity >= 1
        &&& listed_are_known(self.ages(), self.known())
    }

    /// Never more transactions are kept than the cache was made for, none of
    /// them twice, and each with all its outputs.
    pub proof fn law_cache_stays_bounded(&self)
        requires
            self.wf(),
        ensures
            self.ages().len() <= self.limit(),
            self.limit() >= 1,
            listed_are_known(self.ages(), self.known()),
    {
    }

    proof fn lemma_known_size(&self)
        requires
            self.scripts.wf(),
            forall|key: Seq<u8>| #[trigger]
                self.scripts.entries().contains_key(key) ==> key.len() == 36,
        ensures
            self.known().dom().finite(),
            self.known().dom().len() == self.scripts.entries().dom().len(),
    {
        let keys = self.scripts.entries().dom();
        let places = self.known().dom();
        let f = |key: Seq<u8>| place_of(key);
        self.scripts.lemma_finite();
        assert forall|a: Seq<u8>, b: Seq<u8>|
            keys.contains(a) && keys.contains(b) && f(a) == f(b) implies a == b by {
            assert(self.scripts.entries().contains_key(a));
            assert(self.scripts.entries().contains_key(b));
            lemma_place_of(a);
            lemma_place_of(b);
        }
        assert forall|place: Place| keys.map(f).contains(place) <==> places.contains(place) by {
            if keys.map(f).contains(place) {
                let key = choose|key: Seq<u8>| keys.contains(key) && f(key) == place;
                assert(self.scripts.entries().contains_key(key));
                lemma_place_of(key);
            }
            if places.contains(place) {
                lemma_key_of(place);
                assert(keys.contains(key_of(place)));
                assert(f(key_of(place)) == place);
            }
        }
        assert(keys.map(f) =~= places);
        lemma_map_size(keys, places, f);
    }

    /// An empty cache for at least one transaction.
    pub fn new(capacity: usize) -> (cache: OutputCache)
        ensures
            cache.wf(),
            cache.known() == Map::<Place, Seq<u8>>::empty(),
            cache.ages().len() == 0,
            cache.limit() == (if capacity == 0 {
                1
            } else {
                capacity as nat
            }),
    {
        let cache = OutputCache {
            scripts: ByteMap::new(),
            order: VecDeque::new(),
            capacity: if capacity == 0 {
                1
            } else {
                capacity
            },
        };
        assert(cache.known() =~= Map::<Place, Seq<u8>>::empty());
        cache
    }

    pub fn get(&self, outpoint: &OutPoint) -> (script: Option<&Vec<u8>>)
        requires
            self.wf(),
        ensures
            match script {
                Some(script) => self.known().contains_key(outpoint.place()) && script@
                    == self.known()[outpoint.place()],
                None => !self.known().contains_key(outpoint.place()),
            },
    {
        let key = output_key(&outpoint.hash, outpoint.index);
        self.scripts.get(key.as_slice())
    }

    /// Known outputs.
    pub fn len(&self) -> (count: u64)
        requires
            self.wf(),
        ensures
            self.known().dom().finite(),
            count == self.known().dom().len(),
    {
        proof {
            self.lemma_known_size();
        }
        self.scripts.len()
    }

    pub fn is_empty(&self) -> (empty: bool)
        requires
            self.wf(),
        ensures
            empty == (self.known() == Map::<Place, Seq<u8>>::empty()),
    {
        proof {
            self.lemma_known_size();
            if self.known().dom().len() == 0 {
                self.known().dom().lemma_len0_is_empty();
                assert(self.known() =~= Map::<Place, Seq<u8>>::empty());
            } else {
                assert(self.known() != Map::<Place, Seq<u8>>::empty());
            }
        }
        self.scripts.len() == 0
    }

    fn put(&mut self, hash: &[u8; 32], index: u32, script: &[u8])
        requires
            old(self).scripts.wf(),
            forall|key: Seq<u8>| #[trigger]
                old(self).scripts.entries().contains_key(key) ==> key.len() == 36,
            old(self).scripts.entries().dom().len() < u64::MAX,
        ensures
            final(self).scripts.wf(),
            forall|key: Seq<u8>| #[trigger]
                final(self).scripts.entries().contains_key(key) ==> key.len() == 36,
            final(self).order == old(self).order,
            final(self).capacity == old(self).capacity,
            final(self).known() == old(self).known().insert((hash@, index), script@),
            final(self).scripts.entries().dom().len() <= old(self).scripts.entries().dom().len()
                + 1,
    {
        let key = output_key(hash, index);
        let mut copy: Vec<u8> = Vec::new();
        push_bytes(&mut copy, script);
        assert(copy@ =~= script@);
        let ghost place = (hash@, index);
        proof {
            lemma_key_of(place);
            self.scripts.lemma_finite();
        }
        self.scripts.insert(key, copy);
        proof {
            assert forall|other: Place| other.0.len() == 32 && key_of(other) == key_of(
                place,
            ) implies other == place by {
                lemma_key_of(other);
            }
            assert(self.known() =~= old(self).known().insert(place, script@));
        }
    }

    fn drop_output(&mut self, hash: &[u8; 32], index: u32)
        requires
            old(self).scripts.wf(),
            forall|key: Seq<u8>| #[trigger]
                old(self).scripts.entries().contains_key(key) ==> key.len() == 36,
        ensures
            final(self).scripts.wf(),
            forall|key: Seq<u8>| #[trigger]
                final(self).scripts.entries().contains_key(key) ==> key.len() == 36,
            final(self).order == old(self).order,
            final(self).capacity == old(self).capacity,
            final(self).known() == old(self).known().remove((hash@, index)),
    {
        let key = output_key(hash, index);
        let ghost place = (hash@, index);
        proof {
            lemma_key_of(place);
        }
        self.scripts.remove(key.as_slice());
        proof {
            assert forall|other: Place| other.0.len() == 32 && key_of(other) == key_of(
                place,
            ) implies other == place by {
                lemma_key_of(other);
            }
            assert(self.known() =~= old(self).known().remove(place));
        }
    }

    /// Whether the cache is what it was with one more transaction. One that was
    /// listed already moves to the end; otherwise the oldest one is dropped
    /// where that is one too many.
    pub open spec fn took_in(&self, before: &OutputCache, transaction: TransparentTx) -> bool {
        let txid = transaction.txid@;
        let count = transaction.outputs@.len();
        let at = age_of(before.ages(), txid);
        if count == 0 {
            &&& self.known() == before.known()
            &&& self.ages() == before.ages()
        } else if at < before.ages().len() {
            &&& self.known() == with_outputs(
                without_outputs(before.known(), txid, before.ages()[at].1 as nat),
                txid,
                transaction.outputs@,
                count,
            )
            &&& self.ages() == before.ages().remove(at).push((txid, count as u32))
        } else if before.ages().len() < before.limit() {
            &&& self.known() == with_outputs(before.known(), txid, transaction.outputs@, count)
            &&& self.ages() == before.ages().push((txid, count as u32))
        } else {
            &&& self.known() == with_outputs(
                without_outputs(before.known(), before.ages()[0].0, before.ages()[0].1 as nat),
                txid,
                transaction.outputs@,
                count,
            )
            &&& self.ages() == before.ages().drop_first().push((txid, count as u32))
        }
    }

    /// Whether every output of a transaction is known.
    pub open spec fn knows_outputs(&self, transaction: TransparentTx) -> bool {
        forall|index: u32|
            index < transaction.outputs@.len() ==> #[trigger] self.known().contains_key(
                (transaction.txid@, index),
            ) && self.known()[(transaction.txid@, index)] == transaction.outputs@[index as int]@
    }

    /// Place of a listed transaction, or the number of them.
    fn listed_at(&self, txid: &[u8; 32]) -> (at: usize)
        requires
            self.wf(),
        ensures
            at == age_of(self.ages(), txid@),
            at <= self.order@.len(),
    {
        let first = output_key(txid, 0);
        let recorded: bool = self.scripts.get(first.as_slice()).is_some();
        let len: usize = self.order.len();
        if !recorded {
            proof {
                assert(!self.known().contains_key((txid@, 0u32)));
                assert forall|k: int| 0 <= k < len implies (#[trigger] self.ages()[k]).0
                    != txid@ by {
                    assert(self.ages()[k].1 >= 1);
                    assert(self.known().contains_key((self.ages()[k].0, 0u32)));
                }
                lemma_is_age_of(self.ages(), txid@, len as int);
            }
            return len;
        }
        let mut at: usize = 0;
        while at < len
            invariant
                at <= len,
                len == self.order@.len(),
                forall|k: int| 0 <= k < at ==> (#[trigger] self.ages()[k]).0 != txid@,
            decreases len - at,
        {
            let entry = &self.order[at];
            assert(self.ages()[at as int] == (entry.0@, entry.1));
            if same_bytes(&entry.0, txid) {
                proof {
                    lemma_is_age_of(self.ages(), txid@, at as int);
                }
                return at;
            }
            at = at + 1;
        }
        proof {
            lemma_is_age_of(self.ages(), txid@, at as int);
        }
        at
    }

    /// Drops a listed transaction and its outputs.
    fn drop_listed(&mut self, at: usize)
        requires
            old(self).wf(),
            at < old(self).ages().len(),
        ensures
            final(self).wf(),
            final(self).capacity == old(self).capacity,
            final(self).ages() == old(self).ages().remove(at as int),
            final(self).known() == without_outputs(
                old(self).known(),
                old(self).ages()[at as int].0,
                old(self).ages()[at as int].1 as nat,
            ),
    {
        let ghost known = self.known();
        let ghost ages = self.ages();
        if let Some((hash, dropped)) = self.order.remove(at) {
            assert(ages[at as int] == (hash@, dropped));
            assert(self.ages() =~= ages.remove(at as int));
            assert(self.known() =~= known);
            let ghost left = self.order;
            let mut k: u32 = 0;
            while k < dropped
                invariant
                    k <= dropped,
                    self.scripts.wf(),
                    forall|key: Seq<u8>| #[trigger]
                        self.scripts.entries().contains_key(key) ==> key.len() == 36,
                    self.order == left,
                    self.capacity == old(self).capacity,
                    self.known() == without_outputs(known, hash@, k as nat),
                decreases dropped - k,
            {
                self.drop_output(&hash, k);
                k = k + 1;
            }
            proof {
                let rest = ages.remove(at as int);
                assert(self.ages() =~= rest);
                assert forall|i: int, index: u32|
                    0 <= i < rest.len() && index < rest[i].1 implies #[trigger] self.known().contains_key(
                    (rest[i].0, index),
                ) by {
                    let from = if i < at {
                        i
                    } else {
                        i + 1
                    };
                    assert(rest[i] == ages[from]);
                    assert(known.contains_key((ages[from].0, index)));
                    lemma_without_outputs(known, hash@, dropped as nat, (rest[i].0, index));
                }
                assert forall|i: int, j: int| 0 <= i < j < rest.len() implies (
                #[trigger] rest[i]).0 != (#[trigger] rest[j]).0 by {
                    let a = if i < at {
                        i
                    } else {
                        i + 1
                    };
                    let b = if j < at {
                        j
                    } else {
                        j + 1
                    };
                    assert(rest[i] == ages[a] && rest[j] == ages[b]);
                }
                assert forall|i: int| 0 <= i < rest.len() implies (#[trigger] rest[i]).1 >= 1 by {
                    let from = if i < at {
                        i
                    } else {
                        i + 1
                    };
                    assert(rest[i] == ages[from]);
                }
            }
        }
    }

    /// Takes in the outputs of a transaction, which are then known. Where that
    /// is one transaction too many, the outputs of the oldest one are dropped.
    #[verifier::spinoff_prover]
    pub fn insert_transaction(&mut self, transaction: &TransparentTx)
        requires
            old(self).wf(),
            transaction.outputs@.len() <= u32::MAX,
            old(self).known().dom().len() + transaction.outputs@.len() <= u64::MAX,
        ensures
            final(self).wf(),
            final(self).limit() == old(self).limit(),
            final(self).took_in(old(self), *transaction),
            final(self).knows_outputs(*transaction),
    {
        let outputs = &transaction.outputs;
        let count: usize = outputs.len();
        if count == 0 {
            return ;
        }
        let ghost txid = transaction.txid@;
        let ghost start = *self;
        proof {
            start.lemma_known_size();
            lemma_age_of(start.ages(), txid);
        }
        let at: usize = self.listed_at(&transaction.txid);
        if at < self.order.len() {
            self.drop_listed(at);
        } else if self.order.len() >= self.capacity {
            self.drop_listed(0);
            assert(self.ages() =~= start.ages().drop_first());
        }
        let ghost before = self.known();
        let ghost ages = self.ages();
        proof {
            self.lemma_known_size();
            assert forall|place: Place| before.contains_key(place) implies start.known().contains_key(
                place,
            ) by {
                if at < start.ages().len() {
                    lemma_without_outputs(
                        start.known(),
                        txid,
                        start.ages()[at as int].1 as nat,
                        place,
                    );
                } else if start.ages().len() >= start.limit() {
                    lemma_without_outputs(
                        start.known(),
                        start.ages()[0].0,
                        start.ages()[0].1 as nat,
                        place,
                    );
                }
            }
            assert(before.dom().subset_of(start.known().dom()));
            lemma_len_subset(before.dom(), start.known().dom());
            assert forall|k: int| 0 <= k < ages.len() implies (#[trigger] ages[k]).0 != txid by {
                if at < start.ages().len() {
                    let from = if k < at {
                        k
                    } else {
                        k + 1
                    };
                    assert(ages[k] == start.ages()[from]);
                    assert(start.ages()[at as int].0 == txid);
                } else if start.ages().len() >= start.limit() {
                    assert(ages[k] == start.ages()[k + 1]);
                } else {
                    assert(ages[k] == start.ages()[k]);
                }
            }
        }
        assert(self.ages().len() == self.order@.len());
        assert(start.ages().len() == start.order@.len());
        let ghost size = self.scripts.entries().dom().len();
        let mut i: usize = 0;
        while i < count
            invariant
                i <= count,
                count == outputs.len(),
                count <= u32::MAX,
                *outputs == transaction.outputs,
                self.scripts.wf(),
                forall|key: Seq<u8>| #[trigger]
                    self.scripts.entries().contains_key(key) ==> key.len() == 36,
                self.ages() == ages,
                self.order@.len() < self.capacity,
                self.capacity == start.capacity,
                size + count <= u64::MAX,
                self.scripts.entries().dom().len() <= size + i,
                self.known() == with_outputs(before, transaction.txid@, outputs@, i as nat),
            decreases count - i,
        {
            self.put(&transaction.txid, i as u32, outputs[i].as_slice());
            assert(self.ages() =~= ages);
            i = i + 1;
        }
        let ghost added = self.known();
        self.order.push_back((transaction.txid, count as u32));
        proof {
            let grown = ages.push((txid, count as u32));
            assert(self.ages() =~= grown);
            assert(self.known() =~= added);
            assert forall|k: int, index: u32|
                0 <= k < grown.len() && index < grown[k].1 implies #[trigger] added.contains_key(
                (grown[k].0, index),
            ) by {
                lemma_with_outputs(before, txid, outputs@, count as nat, (grown[k].0, index));
                if k < ages.len() {
                    assert(grown[k] == ages[k]);
                    assert(before.contains_key((ages[k].0, index)));
                }
            }
            assert forall|index: u32| index < transaction.outputs@.len() implies #[trigger] self.known().contains_key(
                (transaction.txid@, index),
            ) && self.known()[(transaction.txid@, index)] == transaction.outputs@[index as int]@ by {
                lemma_with_outputs(before, txid, outputs@, count as nat, (txid, index));
            }
            assert(self.knows_outputs(*transaction));
        }
    }
}

/// A transaction that goes into the cache is known there with all its outputs,
/// and nothing else is dropped but the outputs of the oldest transaction.
pub proof fn law_only_the_oldest_is_dropped(
    before: OutputCache,
    after: OutputCache,
    transaction: TransparentTx,
    place: Place,
)
    requires
        before.wf(),
        after.took_in(&before, transaction),
        transaction.outputs@.len() <= u32::MAX,
    ensures
        place.0 == transaction.txid@ && place.1 < transaction.outputs@.len()
            ==> after.known().contains_key(place) && after.known()[place]
            == transaction.outputs@[place.1 as int]@,
        place.0 != transaction.txid@ && !(before.ages().len() == before.limit()
            && before.ages()[0].0 == place.0) ==> after.known().contains_key(place)
            == before.known().contains_key(place) && (before.known().contains_key(place)
            ==> after.known()[place] == before.known()[place]),
{
    let txid = transaction.txid@;
    let count = transaction.outputs@.len();
    let at = age_of(before.ages(), txid);
    lemma_age_of(before.ages(), txid);
    if count > 0 {
        let left = if at < before.ages().len() {
            lemma_without_outputs(before.known(), txid, before.ages()[at].1 as nat, place);
            without_outputs(before.known(), txid, before.ages()[at].1 as nat)
        } else if before.ages().len() < before.limit() {
            before.known()
        } else {
            lemma_without_outputs(
                before.known(),
                before.ages()[0].0,
                before.ages()[0].1 as nat,
                place,
            );
            without_outputs(before.known(), before.ages()[0].0, before.ages()[0].1 as nat)
        };
        lemma_with_outputs(left, txid, transaction.outputs@, count, place);
    }
}

/// Outputs that inputs spend, in order.
pub open spec fn spent_places(inputs: Seq<TxInput>) -> Seq<Place>
    decreases inputs.len(),
{
    if inputs.len() == 0 {
        Seq::empty()
    } else {
        match inputs.last() {
            TxInput::Coinbase => spent_places(inputs.drop_last()),
            TxInput::PrevOut(outpoint) => spent_places(inputs.drop_last()).push(outpoint.place()),
        }
    }
}

/// Outputs that the first `n` transactions spend, in order.
pub open spec fn all_spent_places(transactions: Seq<TransparentTx>, n: int) -> Seq<Place>
    decreases n,
{
    if n <= 0 {
        Seq::empty()
    } else {
        all_spent_places(transactions, n - 1) + spent_places(transactions[n - 1].inputs@)
    }
}

/// Ids of the transactions whose outputs are spent and not known, each at its
/// first place.
pub open spec fn wanted_ids(places: Seq<Place>, known: Map<Place, Seq<u8>>) -> Seq<Seq<u8>>
    decreases places.len(),
{
    if places.len() == 0 {
        Seq::empty()
    } else {
        let head = wanted_ids(places.drop_last(), known);
        if known.contains_key(places.last()) || head.contains(places.last().0) {
            head
        } else {
            head.push(places.last().0)
        }
    }
}

/// Hashes as people read them.
pub open spec fn display_texts(hashes: Seq<Seq<u8>>) -> Seq<Seq<char>> {
    hashes.map_values(|hash: Seq<u8>| display_hex(hash))
}

/// Transactions to ask the node for before a block's elements are extracted.
pub fn wanted_transactions(cache: &OutputCache, transactions: &[TransparentTx]) -> (wanted: Vec<
    String,
>)
    requires
        cache.wf(),
    ensures
        crate::text::texts(wanted@) == display_texts(
            wanted_ids(
                all_spent_places(transactions@, transactions@.len() as int),
                cache.known(),
            ),
        ),
{
    let mut wanted: Vec<String> = Vec::new();
    let mut seen: ByteMap<bool> = ByteMap::new();
    let ghost mut ids: Seq<Seq<u8>> = Seq::empty();
    let mut t: usize = 0;
    assert(crate::text::texts(wanted@) =~= display_texts(ids));
    assert(ids =~= wanted_ids(all_spent_places(transactions@, 0), cache.known()));
    while t < transactions.len()
        invariant
            t <= transactions.len(),
            cache.wf(),
            seen.wf(),
            forall|id: Seq<u8>| #[trigger] seen.entries().contains_key(id) <==> ids.contains(id),
            seen.entries().dom().len() == ids.len(),
            ids.len() == wanted@.len(),
            crate::text::texts(wanted@) == display_texts(ids),
            ids == wanted_ids(all_spent_places(transactions@, t as int), cache.known()),
        decreases transactions.len() - t,
    {
        let inputs = &transactions[t].inputs;
        let ghost base = all_spent_places(transactions@, t as int);
        let mut i: usize = 0;
        assert(base + spent_places(inputs@.take(0)) =~= base);
        while i < inputs.len()
            invariant
                i <= inputs.len(),
                cache.wf(),
                seen.wf(),
                forall|id: Seq<u8>| #[trigger]
                    seen.entries().contains_key(id) <==> ids.contains(id),
                seen.entries().dom().len() == ids.len(),
                ids.len() == wanted@.len(),
                crate::text::texts(wanted@) == display_texts(ids),
                ids == wanted_ids(base + spent_places(inputs@.take(i as int)), cache.known()),
            decreases inputs.len() - i,
        {
            assert(inputs@.take(i + 1).drop_last() =~= inputs@.take(i as int));
            let ghost before = base + spent_places(inputs@.take(i as int));
            match &inputs[i] {
                TxInput::Coinbase => {},
                TxInput::PrevOut(outpoint) => {
                    let ghost now = base + spent_places(inputs@.take(i + 1));
                    proof {
                        assert(now =~= before.push(outpoint.place()));
                        assert(now.drop_last() =~= before);
                        assert(seen.entries().contains_key(outpoint.hash@) <==> ids.contains(
                            outpoint.hash@,
                        ));
                    }
                    let cached: bool = match cache.get(outpoint) {
                        Some(_) => true,
                        None => false,
                    };
                    let asked: bool = match seen.get(&outpoint.hash) {
                        Some(_) => true,
                        None => false,
                    };
                    if !cached && !asked {
                        let mut key: Vec<u8> = Vec::new();
                        push_bytes(&mut key, &outpoint.hash);
                        proof {
                            seen.lemma_finite();
                            assert(key@ =~= outpoint.hash@);
                            assert(wanted.len() <= usize::MAX);
                        }
                        let ghost old_ids = ids;
                        let ghost old_texts = crate::text::texts(wanted@);
                        wanted.push(hex_encode(reversed(&outpoint.hash).as_slice()));
                        proof {
                            ids = ids.push(outpoint.hash@);
                            assert(wanted.len() <= usize::MAX);
                            let label = display_hex(outpoint.hash@);
                            assert(crate::text::texts(wanted@) =~= old_texts.push(label));
                            assert(display_texts(ids) =~= display_texts(old_ids).push(label));
                        }
                        seen.insert(key, true);
                        proof {
                            assert forall|id: Seq<u8>| #[trigger]
                                seen.entries().contains_key(id) <==> ids.contains(id) by {
                                if ids.contains(id) {
                                    let k = ids.index_of(id);
                                    if k < old_ids.len() {
                                        assert(old_ids[k] == id);
                                        assert(old_ids.contains(id));
                                    }
                                }
                                if old_ids.contains(id) {
                                    let k = old_ids.index_of(id);
                                    assert(ids[k] == id);
                                }
                                assert(ids[old_ids.len() as int] == outpoint.hash@);
                            }
                        }
                    }
                },
            }
            i = i + 1;
        }
        assert(inputs@.take(i as int) =~= inputs@);
        t = t + 1;
    }
    wanted
}

/// What a lookup needs.
#[derive(Debug)]
pub enum LookupStep {
    /// The script, from the cache.
    Found(Vec<u8>),
    /// The transaction of this id, as people read it, from the node.
    Fetch(String),
}

/// The cache, with a count of what it answered.
pub struct CachedOutputs {
    pub cache: OutputCache,
    /// Lookups that had to go to the node.
    pub rpc_lookups: u64,
    /// Lookups answered from the cache.
    pub cache_hits: u64,
}

impl CachedOutputs {
    pub fn new(cache: OutputCache) -> (outputs: CachedOutputs)
        ensures
            outputs.cache == cache,
            outputs.rpc_lookups == 0,
            outputs.cache_hits == 0,
    {
        CachedOutputs { cache, rpc_lookups: 0, cache_hits: 0 }
    }

    /// Starts to look an output up.
    pub fn begin_lookup(&mut self, outpoint: &OutPoint) -> (step: LookupStep)
        requires
            old(self).cache.wf(),
            old(self).rpc_lookups < u64::MAX,
            old(self).cache_hits < u64::MAX,
        ensures
            final(self).cache == old(self).cache,
            match step {
                LookupStep::Found(script) => {
                    &&& old(self).cache.known().contains_key(outpoint.place())
                    &&& script@ == old(self).cache.known()[outpoint.place()]
                    &&& final(self).cache_hits == old(self).cache_hits + 1
                    &&& final(self).rpc_lookups == old(self).rpc_lookups
                },
                LookupStep::Fetch(txid) => {
                    &&& !old(self).cache.known().contains_key(outpoint.place())
                    &&& txid@ == display_hex(outpoint.hash@)
                    &&& final(self).cache_hits == old(self).cache_hits
                    &&& final(self).rpc_lookups == old(self).rpc_lookups + 1
                },
            },
    {
        match self.cache.get(outpoint) {
            Some(script) => {
                let mut copy: Vec<u8> = Vec::new();
                push_bytes(&mut copy, script.as_slice());
                assert(copy@ =~= script@);
                self.cache_hits = self.cache_hits + 1;
                LookupStep::Found(copy)
            },
            None => {
                self.rpc_lookups = self.rpc_lookups + 1;
                LookupStep::Fetch(hex_encode(reversed(&outpoint.hash).as_slice()))
            },
        }
    }

    /// Goes on with what the node has under the id, if anything: the whole
    /// transaction is cached, and the script is that of the output's index.
    pub fn finish_lookup(&mut self, outpoint: &OutPoint, fetched: Option<&TransparentTx>) -> (
        script: Option<Vec<u8>>)
        requires
            old(self).cache.wf(),
            fetched matches Some(transaction) ==> (transaction.outputs@.len() <= u32::MAX && old(
                self,
            ).cache.known().dom().len() + transaction.outputs@.len() <= u64::MAX),
        ensures
            final(self).cache.wf(),
            final(self).rpc_lookups == old(self).rpc_lookups,
            final(self).cache_hits == old(self).cache_hits,
            final(self).cache.limit() == old(self).cache.limit(),
            match fetched {
                Some(transaction) => final(self).cache.took_in(&old(self).cache, *transaction),
                None => final(self).cache == old(self).cache,
            },
            match script {
                Some(script) => fetched is Some && outpoint.index < fetched->0.outputs@.len()
                    && script@ == fetched->0.outputs@[outpoint.index as int]@,
                None => fetched is None || outpoint.index >= fetched->0.outputs@.len(),
            },
    {
        match fetched {
            None => None,
            Some(transaction) => {
                self.cache.insert_transaction(transaction);
                let index: u64 = outpoint.index as u64;
                if index < transaction.outputs.len() as u64 {
                    let mut copy: Vec<u8> = Vec::new();
                    push_bytes(&mut copy, transaction.outputs[index as usize].as_slice());
                    assert(copy@ =~= transaction.outputs@[index as int]@);
                    Some(copy)
                } else {
                    None
                }
            },
        }
    }
}

/// Taking outputs in makes each of them known by its number, and leaves what is
/// known of everything else.
pub proof fn law_outputs_are_known_by_their_number(
    known: Map<Place, Seq<u8>>,
    txid: Seq<u8>,
    outputs: Seq<Vec<u8>>,
    n: nat,
    place: Place,
)
    requires
        n <= outputs.len(),
        n <= u32::MAX,
    ensures
        ({
            let after = with_outputs(known, txid, outputs, n);
            if place.0 == txid && place.1 < n {
                after.contains_key(place) && after[place] == outputs[place.1 as int]@
            } else {
                &&& after.contains_key(place) == known.contains_key(place)
                &&& known.contains_key(place) ==> after[place] == known[place]
            }
        }),
    decreases n,
{
    if n > 0 {
        law_outputs_are_known_by_their_number(known, txid, outputs, (n - 1) as nat, place);
        assert((n - 1) as u32 == n - 1);
    }
}

/// Dropping the outputs of a transaction leaves what is known of everything else.
pub proof fn law_dropped_outputs_are_no_longer_known(
    known: Map<Place, Seq<u8>>,
    txid: Seq<u8>,
    n: nat,
    place: Place,
)
    requires
        n <= u32::MAX,
    ensures
        ({
            let after = without_outputs(known, txid, n);
            if place.0 == txid && place.1 < n {
                !after.contains_key(place)
            } else {
                &&& after.contains_key(place) == known.contains_key(place)
                &&& known.contains_key(place) ==> after[place] == known[place]
            }
        }),
    decreases n,
{
    if n > 0 {
        law_dropped_outputs_are_no_longer_known(known, txid, (n - 1) as nat, place);
        assert((n - 1) as u32 == n - 1);
    }
}

/// A transaction's age is the first place that it has in the list.
pub proof fn law_ages_are_places_in_the_list(ages: Seq<(Seq<u8>, u32)>, txid: Seq<u8>)
    ensures
        0 <= age_of(ages, txid) <= ages.len(),
        age_of(ages, txid) < ages.len() ==> ages[age_of(ages, txid)].0 == txid,
        forall|i: int| 0 <= i < age_of(ages, txid) ==> (#[trigger] ages[i]).0 != txid,
    decreases ages.len(),
{
    if ages.len() > 0 && ages[0].0 != txid {
        let rest = ages.drop_first();
        law_ages_are_places_in_the_list(rest, txid);
        assert forall|i: int| 0 <= i < age_of(ages, txid) implies (#[trigger] ages[i]).0 != txid by {
            if i > 0 {
                assert(rest[i - 1] == ages[i]);
            }
        }
    }
}

/// Every input but a coinbase spends a place, in the order of the inputs.
pub proof fn law_inputs_spend_in_order(inputs: Seq<TxInput>)
    ensures
        spent_places(inputs) == inputs.filter(|input: TxInput| input is PrevOut).map_values(
            |input: TxInput| (input->PrevOut_0.hash@, input->PrevOut_0.index),
        ),
    decreases inputs.len(),
{
    reveal(Seq::filter);
    let spends = |input: TxInput| input is PrevOut;
    let place = |input: TxInput| (input->PrevOut_0.hash@, input->PrevOut_0.index);
    if inputs.len() > 0 {
        law_inputs_spend_in_order(inputs.drop_last());
    }
    assert(spent_places(inputs) =~= inputs.filter(spends).map_values(place));
}

/// A place is among those that transactions spend exactly where an input of one of
/// them spends it.
pub proof fn law_every_input_is_counted(transactions: Seq<TransparentTx>, n: int, place: Place)
    requires
        0 <= n <= transactions.len(),
    ensures
        all_spent_places(transactions, n).contains(place) <==> exists|t: int, i: int|
            {
                &&& 0 <= t < n
                &&& 0 <= i < transactions[t].inputs@.len()
                &&& (#[trigger] transactions[t].inputs@[i]) matches TxInput::PrevOut(spent)
                    && (spent.hash@, spent.index) == place
            },
    decreases n,
{
    if n > 0 {
        law_every_input_is_counted(transactions, n - 1, place);
        let before = all_spent_places(transactions, n - 1);
        let own = spent_places(transactions[n - 1].inputs@);
        let all = all_spent_places(transactions, n);
        lemma_input_spends(transactions[n - 1].inputs@, place);
        if all.contains(place) {
            let k = all.index_of(place);
            if k < before.len() {
                assert(before[k] == place);
                let (t, i) = choose|t: int, i: int|
                    {
                        &&& 0 <= t < n - 1
                        &&& 0 <= i < transactions[t].inputs@.len()
                        &&& (#[trigger] transactions[t].inputs@[i]) matches TxInput::PrevOut(spent)
                            && (spent.hash@, spent.index) == place
                    };
                assert(transactions[t].inputs@[i] is PrevOut);
            } else {
                assert(own[k - before.len()] == place);
                let i = choose|i: int|
                    0 <= i < transactions[n - 1].inputs@.len() && ((
                    #[trigger] transactions[n - 1].inputs@[i]) matches TxInput::PrevOut(spent)
                        && (spent.hash@, spent.index) == place);
                assert(transactions[n - 1].inputs@[i] is PrevOut);
            }
        }
        if before.contains(place) {
            assert(all[before.index_of(place)] == place);
        }
        if own.contains(place) {
            assert(all[before.len() + own.index_of(place)] == place);
        }
    }
}

proof fn lemma_input_spends(inputs: Seq<TxInput>, place: Place)
    ensures
        spent_places(inputs).contains(place) <==> exists|i: int|
            0 <= i < inputs.len() && ((#[trigger] inputs[i]) matches TxInput::PrevOut(spent)
                && (spent.hash@, spent.index) == place),
    decreases inputs.len(),
{
    if inputs.len() > 0 {
        let head = inputs.drop_last();
        let last = inputs.len() - 1;
        lemma_input_spends(head, place);
        let before = spent_places(head);
        let all = spent_places(inputs);
        if all.contains(place) {
            let k = all.index_of(place);
            if k < before.len() {
                assert(before[k] == place);
                let i = choose|i: int|
                    0 <= i < head.len() && ((#[trigger] head[i]) matches TxInput::PrevOut(spent)
                        && (spent.hash@, spent.index) == place);
                assert(inputs[i] is PrevOut);
            } else {
                assert(inputs[last] is PrevOut);
            }
        }
        if exists|i: int|
            0 <= i < inputs.len() && ((#[trigger] inputs[i]) matches TxInput::PrevOut(spent) && (
            spent.hash@,
            spent.index,
        ) == place) {
            let i = choose|i: int|
                0 <= i < inputs.len() && ((#[trigger] inputs[i]) matches TxInput::PrevOut(spent)
                    && (spent.hash@, spent.index) == place);
            if i < last {
                assert(head[i] == inputs[i]);
                assert(all[before.index_of(place)] == place);
            } else {
                assert(all[all.len() - 1] == place);
            }
        }
    } else {
        assert(!spent_places(inputs).contains(place));
    }
}

/// The transactions that are asked for are those of the places that are not known,
/// each once.
pub proof fn law_unknown_transactions_are_asked_for_once(
    places: Seq<Place>,
    known: Map<Place, Seq<u8>>,
    id: Seq<u8>,
)
    ensures
        wanted_ids(places, known).no_duplicates(),
        wanted_ids(places, known).contains(id) <==> exists|k: int|
            0 <= k < places.len() && (#[trigger] places[k]).0 == id && !known.contains_key(
                places[k],
            ),
    decreases places.len(),
{
    if places.len() > 0 {
        let head = places.drop_last();
        let last = places.len() - 1;
        let before = wanted_ids(head, known);
        let all = wanted_ids(places, known);
        law_unknown_transactions_are_asked_for_once(head, known, id);
        law_unknown_transactions_are_asked_for_once(head, known, places[last].0);
        if all.contains(id) {
            let i = all.index_of(id);
            if i < before.len() {
                assert(before[i] == id);
                let k = choose|k: int|
                    0 <= k < head.len() && (#[trigger] head[k]).0 == id && !known.contains_key(
                        head[k],
                    );
                assert(places[k].0 == id);
            } else {
                assert(places[last].0 == id);
            }
        }
        if exists|k: int|
            0 <= k < places.len() && (#[trigger] places[k]).0 == id && !known.contains_key(
                places[k],
            ) {
            let k = choose|k: int|
                0 <= k < places.len() && (#[trigger] places[k]).0 == id && !known.contains_key(
                    places[k],
                );
            if k < last {
                assert(head[k] == places[k]);
                assert(all[before.index_of(id)] == id);
            } else if before.contains(id) {
                assert(all[before.index_of(id)] == id);
            } else {
                assert(all[all.len() - 1] == id);
            }
        }
    } else {
        assert(!wanted_ids(places, known).contains(id));
    }
}

/// A transaction that goes into the cache becomes the newest there. One that was there
/// only moves, and nothing is dropped for it; for another the oldest makes room where
/// the cache is full.
pub proof fn law_the_newest_comes_last(
    before: OutputCache,
    after: OutputCache,
    transaction: TransparentTx,
    place: Place,
)
    requires
        before.wf(),
        after.took_in(&before, transaction),
        0 < transaction.outputs@.len() <= u32::MAX,
    ensures
        ({
            let txid = transaction.txid@;
            let was_there = exists|k: int|
                0 <= k < before.ages().len() && (#[trigger] before.ages()[k]).0 == txid;
            &&& after.ages().last() == (txid, transaction.outputs@.len() as u32)
            &&& was_there ==> after.ages().drop_last() == before.ages().filter(
                |entry: (Seq<u8>, u32)| entry.0 != txid,
            )
            &&& was_there && place.0 != txid ==> after.known().contains_key(place)
                == before.known().contains_key(place)
            &&& !was_there && before.ages().len() < before.limit() ==> after.ages().drop_last()
                == before.ages()
            &&& !was_there && before.ages().len() >= before.limit() ==> after.ages().drop_last()
                == before.ages().skip(1) && (place.0 == before.ages()[0].0 && place.1
                < before.ages()[0].1 ==> !after.known().contains_key(place))
        }),
{
    let txid = transaction.txid@;
    let count = transaction.outputs@.len();
    let ages = before.ages();
    let at = age_of(ages, txid);
    law_ages_are_places_in_the_list(ages, txid);
    if at < ages.len() {
        assert(ages[at].0 == txid);
        assert forall|i: int, j: int| 0 <= i < j < ages.len() implies (#[trigger] ages[i]).0 != (
        #[trigger] ages[j]).0 by {}
        lemma_filter_one(ages, txid, at);
        assert(after.ages().drop_last() =~= ages.remove(at));
        law_dropped_outputs_are_no_longer_known(before.known(), txid, ages[at].1 as nat, place);
        law_outputs_are_known_by_their_number(
            without_outputs(before.known(), txid, ages[at].1 as nat),
            txid,
            transaction.outputs@,
            count,
            place,
        );
    } else if ages.len() < before.limit() {
        assert(after.ages().drop_last() =~= ages);
    } else {
        assert(after.ages().drop_last() =~= ages.skip(1));
        let oldest = ages[0];
        law_dropped_outputs_are_no_longer_known(before.known(), oldest.0, oldest.1 as nat, place);
        law_outputs_are_known_by_their_number(
            without_outputs(before.known(), oldest.0, oldest.1 as nat),
            txid,
            transaction.outputs@,
            count,
            place,
        );
        before.law_cache_stays_bounded();
        assert(ages[0].0 != txid);
    }
}

proof fn lemma_filter_one(ages: Seq<(Seq<u8>, u32)>, txid: Seq<u8>, at: int)
    requires
        0 <= at < ages.len(),
        ages[at].0 == txid,
        forall|i: int, j: int|
            0 <= i < j < ages.len() ==> (#[trigger] ages[i]).0 != (#[trigger] ages[j]).0,
    ensures
        ages.remove(at) == ages.filter(|entry: (Seq<u8>, u32)| entry.0 != txid),
    decreases ages.len(),
{
    reveal(Seq::filter);
    let other = |entry: (Seq<u8>, u32)| entry.0 != txid;
    let head = ages.drop_last();
    let last = ages.len() - 1;
    assert forall|i: int, j: int| 0 <= i < j < head.len() implies (#[trigger] head[i]).0 != (
    #[trigger] head[j]).0 by {
        assert(head[i] == ages[i] && head[j] == ages[j]);
    }
    if at < last {
        lemma_filter_one(head, txid, at);
        assert(ages[last].0 != ages[at].0);
        assert(ages.remove(at) =~= head.remove(at).push(ages[last]));
    } else {
        assert forall|i: int| 0 <= i < head.len() implies (#[trigger] head[i]).0 != txid by {
            assert(head[i] == ages[i]);
            assert(ages[i].0 != ages[last].0);
        }
        lemma_filter_none(head, txid);
        assert(ages.remove(at) =~= head);
    }
}

proof fn lemma_filter_none(ages: Seq<(Seq<u8>, u32)>, txid: Seq<u8>)
    requires
        forall|i: int| 0 <= i < ages.len() ==> (#[trigger] ages[i]).0 != txid,
    ensures
        ages.filter(|entry: (Seq<u8>, u32)| entry.0 != txid) == ages,
    decreases ages.len(),
{
    reveal(Seq::filter);
    if ages.len() > 0 {
        let head = ages.drop_last();
        assert forall|i: int| 0 <= i < head.len() implies (#[trigger] head[i]).0 != txid by {
            assert(head[i] == ages[i]);
        }
        lemma_filter_none(head, txid);
        assert(ages[ages.len() - 1].0 != txid);
        assert(ages =~= head.push(ages.last()));
    }
}

} // verus!
