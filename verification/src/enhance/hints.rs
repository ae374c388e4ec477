//! Hints that workers computed, kept so that an unchanged shard is not
//! prepared twice. A hint is found again by the worker, the shard, where the
//! shard starts in the query, and the digest of its rows.

use vstd::prelude::*;

use crate::text::{begins_with, decimal, push_decimal, same_text, starts_with_text};

verus! {

/// Start of the keys of one worker's shard.
pub open spec fn shard_prefix(worker: Seq<char>, shard_id: u64) -> Seq<char> {
    worker + ":"@ + decimal(shard_id as nat) + ":"@
}

/// Key of a hint.
pub open spec fn hint_key(
    worker: Seq<char>,
    shard_id: u64,
    query_row_start: u64,
    rows_sha256: Seq<char>,
) -> Seq<char> {
    shard_prefix(worker, shard_id) + decimal(query_row_start as nat) + ":"@ + rows_sha256
}

fn shard_prefix_text(worker: &str, shard_id: u64) -> (text: String)
    ensures
        text@ == shard_prefix(worker@, shard_id),
{
    let mut text = String::from_str(worker);
    text.append(":");
    push_decimal(&mut text, shard_id);
    text.append(":");
    text
}

fn hint_key_text(worker: &str, shard_id: u64, query_row_start: u64, rows_sha256: &str) -> (text:
    String)
    ensures
        text@ == hint_key(worker@, shard_id, query_row_start, rows_sha256@),
{
    let mut text = shard_prefix_text(worker, shard_id);
    push_decimal(&mut text, query_row_start);
    text.append(":");
    text.append(rows_sha256);
    text
}

/// A kept hint: its key and its coefficients.
#[derive(Debug)]
pub struct HintEntry {
    pub key: String,
    pub hint: Vec<u64>,
}

/// The hint under a key.
pub open spec fn hint_under(entries: Seq<HintEntry>, key: Seq<char>) -> Option<Seq<u64>>
    decreases entries.len(),
{
    if entries.len() == 0 {
        None
    } else if entries.last().key@ == key {
        Some(entries.last().hint@)
    } else {
        hint_under(entries.drop_last(), key)
    }
}

/// The entries whose keys do not start with a prefix.
pub open spec fn without_prefix(entries: Seq<HintEntry>, prefix: Seq<char>) -> Seq<HintEntry>
    decreases entries.len(),
{
    if entries.len() == 0 {
        Seq::empty()
    } else if begins_with(entries.last().key@, prefix) {
        without_prefix(entries.drop_last(), prefix)
    } else {
        without_prefix(entries.drop_last(), prefix).push(entries.last())
    }
}

/// The hints that are kept for one table.
#[derive(Debug)]
pub struct HintCache {
    entries: Vec<HintEntry>,
}

impl HintCache {
    pub closed spec fn kept(&self) -> Seq<HintEntry> {
        self.entries@
    }

    pub fn new() -> (cache: HintCache)
        ensures
            cache.kept().len() == 0,
    {
        HintCache { entries: Vec::new() }
    }

    /// The hint for these very rows, if it is kept.
    pub fn lookup(
        &self,
        worker: &str,
        shard_id: u64,
        query_row_start: u64,
        rows_sha256: &str,
    ) -> (hint: Option<&Vec<u64>>)
        ensures
            match hint {
                Some(hint) => hint_under(
                    self.kept(),
                    hint_key(worker@, shard_id, query_row_start, rows_sha256@),
                ) == Some(hint@),
                None => hint_under(
                    self.kept(),
                    hint_key(worker@, shard_id, query_row_start, rows_sha256@),
                ) is None,
            },
    {
        let key = hint_key_text(worker, shard_id, query_row_start, rows_sha256);
        let mut n: usize = self.entries.len();
        assert(self.entries@.take(n as int) =~= self.entries@);
        while n > 0
            invariant
                n <= self.entries.len(),
                key@ == hint_key(worker@, shard_id, query_row_start, rows_sha256@),
                hint_under(self.entries@, key@) == hint_under(self.entries@.take(n as int), key@),
            decreases n,
        {
            assert(self.entries@.take(n as int).drop_last() =~= self.entries@.take(n - 1));
            if same_text(self.entries[n - 1].key.as_str(), key.as_str()) {
                return Some(&self.entries[n - 1].hint);
            }
            n = n - 1;
        }
        None
    }

    /// Keeps a hint in place of every other hint of the worker's shard.
    pub fn store(
        &mut self,
        worker: &str,
        shard_id: u64,
        query_row_start: u64,
        rows_sha256: &str,
        hint: Vec<u64>,
    )
        ensures
            final(self).kept().len() == without_prefix(
                old(self).kept(),
                shard_prefix(worker@, shard_id),
            ).len() + 1,
            final(self).kept().drop_last() == without_prefix(
                old(self).kept(),
                shard_prefix(worker@, shard_id),
            ),
            final(self).kept().last().key@ == hint_key(
                worker@,
                shard_id,
                query_row_start,
                rows_sha256@,
            ),
            final(self).kept().last().hint == hint,
    {
        let prefix = shard_prefix_text(worker, shard_id);
        let key = hint_key_text(worker, shard_id, query_row_start, rows_sha256);
        let ghost before = self.entries@;
        let mut n: usize = self.entries.len();
        let ghost mut left: Seq<HintEntry> = Seq::empty();
        assert(before.take(n as int) =~= before);
        assert(before.take(n as int) + left =~= self.entries@);
        assert(without_prefix(before, prefix@) =~= without_prefix(before.take(n as int), prefix@)
            + left);
        while n > 0
            invariant
                n <= before.len(),
                self.entries@ == before.take(n as int) + left,
                without_prefix(before, prefix@) == without_prefix(before.take(n as int), prefix@)
                    + left,
            decreases n,
        {
            n = n - 1;
            proof {
                assert(before.take(n + 1).drop_last() =~= before.take(n as int));
                assert(self.entries@[n as int] == before[n as int]);
            }
            if starts_with_text(self.entries[n].key.as_str(), prefix.as_str()) {
                let _ = self.entries.remove(n);
                assert(self.entries@ =~= before.take(n as int) + left);
            } else {
                proof {
                    let kept = seq![before[n as int]] + left;
                    assert(self.entries@ =~= before.take(n as int) + kept);
                    assert(without_prefix(before.take(n + 1), prefix@) + left
                        =~= without_prefix(before.take(n as int), prefix@) + kept);
                    left = kept;
                }
            }
        }
        assert(self.entries@ =~= without_prefix(before, prefix@));
        self.entries.push(HintEntry { key, hint });
        assert(self.entries@.drop_last() =~= without_prefix(before, prefix@));
    }

    /// Starts to prepare a shard on a replica. Where a hint is kept for these
    /// very rows, it will do if the replica holds the shard still.
    pub fn begin_prepare(
        &self,
        worker: &str,
        shard_id: u64,
        query_row_start: u64,
        rows_sha256: &str,
    ) -> (step: PrepareStep)
        ensures
            ({
                let kept = hint_under(
                    self.kept(),
                    hint_key(worker@, shard_id, query_row_start, rows_sha256@),
                );
                match step {
                    PrepareStep::Ensure(hint) => kept == Some(hint@),
                    PrepareStep::Send => kept is None,
                    _ => false,
                }
            }),
    {
        match self.lookup(worker, shard_id, query_row_start, rows_sha256) {
            Some(hint) => {
                let copy = hint.clone();
                assert(copy@ =~= hint@);
                PrepareStep::Ensure(copy)
            },
            None => PrepareStep::Send,
        }
    }

    /// Goes on with the hint that the replica sent. One of another length than
    /// the table's hints have is refused and not kept.
    pub fn after_fetch(
        &mut self,
        worker: &str,
        shard_id: u64,
        query_row_start: u64,
        rows_sha256: &str,
        fetched: Result<Vec<u64>, String>,
        hint_len: usize,
    ) -> (step: PrepareStep)
        ensures
            match fetched {
                Ok(hint) => if hint@.len() == hint_len {
                    &&& step matches PrepareStep::Done(done) && done@ == hint@
                    &&& final(self).kept().len() > 0
                    &&& final(self).kept().drop_last() == without_prefix(
                        old(self).kept(),
                        shard_prefix(worker@, shard_id),
                    )
                    &&& final(self).kept().last().key@ == hint_key(
                        worker@,
                        shard_id,
                        query_row_start,
                        rows_sha256@,
                    )
                    &&& final(self).kept().last().hint@ == hint@
                } else {
                    &&& step matches PrepareStep::Fail(message) && message@
                        == "hint has the wrong length"@
                    &&& final(self).kept() == old(self).kept()
                },
                Err(message) => {
                    &&& step == PrepareStep::Fail(message)
                    &&& final(self).kept() == old(self).kept()
                },
            },
    {
        match fetched {
            Ok(hint) => {
                if hint.len() != hint_len {
                    return PrepareStep::Fail(String::from_str("hint has the wrong length"));
                }
                let copy = hint.clone();
                assert(copy@ =~= hint@);
                self.store(worker, shard_id, query_row_start, rows_sha256, copy);
                PrepareStep::Done(hint)
            },
            Err(message) => PrepareStep::Fail(message),
        }
    }
}

/// What preparing a shard on a replica needs next.
#[derive(Debug)]
pub enum PrepareStep {
    /// Ask the replica whether it holds the shard still; the hint is kept.
    Ensure(Vec<u64>),
    /// Send the replica the rows of the shard.
    Send,
    /// Ask the replica for its hint.
    Fetch,
    /// The replica holds the shard, and this is its hint.
    Done(Vec<u64>),
    /// The replica did not prepare the shard.
    Fail(String),
}

/// Goes on with whether the replica holds the shard: where it does not, it is
/// sent the rows.
pub fn after_ensure(hint: Vec<u64>, held: bool) -> (step: PrepareStep)
    ensures
        step == (if held {
            PrepareStep::Done(hint)
        } else {
            PrepareStep::Send
        }),
{
    if held {
        PrepareStep::Done(hint)
    } else {
        PrepareStep::Send
    }
}

/// Goes on with what the replica made of the rows.
pub fn after_send(sent: Result<(), String>) -> (step: PrepareStep)
    ensures
        step == (match sent {
            Ok(()) => PrepareStep::Fetch,
            Err(message) => PrepareStep::Fail(message),
        }),
{
    match sent {
        Ok(()) => PrepareStep::Fetch,
        Err(message) => PrepareStep::Fail(message),
    }
}

/// What is stored is found again under its key, and is the only hint that is
/// kept for the worker's shard; a hint of any other shard is found as before.
pub proof fn law_store_then_lookup(
    before: Seq<HintEntry>,
    after: Seq<HintEntry>,
    worker: Seq<char>,
    shard_id: u64,
    query_row_start: u64,
    rows_sha256: Seq<char>,
    other: Seq<char>,
)
    requires
        after.len() > 0,
        after.drop_last() == without_prefix(before, shard_prefix(worker, shard_id)),
        after.last().key@ == hint_key(worker, shard_id, query_row_start, rows_sha256),
    ensures
        hint_under(after, hint_key(worker, shard_id, query_row_start, rows_sha256)) == Some(
            after.last().hint@,
        ),
        begins_with(other, shard_prefix(worker, shard_id)) && other != after.last().key@
            ==> hint_under(after, other) is None,
        !begins_with(other, shard_prefix(worker, shard_id)) ==> hint_under(after, other)
            == hint_under(before, other),
{
    let prefix = shard_prefix(worker, shard_id);
    let key = hint_key(worker, shard_id, query_row_start, rows_sha256);
    assert(key.take(prefix.len() as int) =~= prefix);
    assert(begins_with(key, prefix));
    lemma_without_prefix(before, prefix, other);
}

proof fn lemma_without_prefix(entries: Seq<HintEntry>, prefix: Seq<char>, key: Seq<char>)
    ensures
        begins_with(key, prefix) ==> hint_under(without_prefix(entries, prefix), key) is None,
        !begins_with(key, prefix) ==> hint_under(without_prefix(entries, prefix), key)
            == hint_under(entries, key),
    decreases entries.len(),
{
    if entries.len() > 0 {
        lemma_without_prefix(entries.drop_last(), prefix, key);
        let rest = without_prefix(entries.drop_last(), prefix);
        assert(rest.push(entries.last()).drop_last() =~= rest);
    }
}

/// Entries under a prefix leave; the others stay, in their order.
pub proof fn law_entries_under_the_prefix_leave(entries: Seq<HintEntry>, prefix: Seq<char>)
    ensures
        without_prefix(entries, prefix) == entries.filter(
            |entry: HintEntry|
                !(prefix.len() <= entry.key@.len() && entry.key@.take(prefix.len() as int)
                    == prefix),
        ),
    decreases entries.len(),
{
    reveal(Seq::filter);
    let other = |entry: HintEntry|
        !(prefix.len() <= entry.key@.len() && entry.key@.take(prefix.len() as int) == prefix);
    if entries.len() > 0 {
        law_entries_under_the_prefix_leave(entries.drop_last(), prefix);
    }
    assert(without_prefix(entries, prefix) =~= entries.filter(other));
}

/// The hint under a key is that of the last entry with the key.
pub proof fn law_the_last_hint_under_a_key_counts(entries: Seq<HintEntry>, key: Seq<char>)
    ensures
        match hint_under(entries, key) {
            Some(hint) => exists|i: int|
                {
                    &&& 0 <= i < entries.len()
                    &&& (#[trigger] entries[i]).key@ == key
                    &&& entries[i].hint@ == hint
                    &&& forall|j: int| i < j < entries.len() ==> (#[trigger] entries[j]).key@ != key
                },
            None => forall|j: int| 0 <= j < entries.len() ==> (#[trigger] entries[j]).key@ != key,
        },
    decreases entries.len(),
{
    if entries.len() > 0 {
        let head = entries.drop_last();
        let last = entries.len() - 1;
        if entries[last].key@ != key {
            law_the_last_hint_under_a_key_counts(head, key);
            if let Some(hint) = hint_under(head, key) {
                let i = choose|i: int|
                    {
                        &&& 0 <= i < head.len()
                        &&& (#[trigger] head[i]).key@ == key
                        &&& head[i].hint@ == hint
                        &&& forall|j: int|
                            i < j < head.len() ==> (#[trigger] head[j]).key@ != key
                    };
                assert(entries[i].key@ == key);
                assert forall|j: int| i < j < entries.len() implies (#[trigger] entries[j]).key@
                    != key by {
                    if j < last {
                        assert(head[j] == entries[j]);
                    }
                }
            } else {
                assert forall|j: int| 0 <= j < entries.len() implies (#[trigger] entries[j]).key@
                    != key by {
                    if j < last {
                        assert(head[j] == entries[j]);
                    }
                }
            }
        } else {
            assert(entries[last].key@ == key);
        }
    }
}

} // verus!
