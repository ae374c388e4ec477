//! From the transactions of an accepted block to the elements of its filter.
//!
//! The elements are the locking scripts of the outputs that the block creates
//! and of those that it spends, each once, without the empty ones and without
//! those that start with `OP_RETURN`. A spent output that is not known stops
//! the block: it never counts as an empty script, for then a wallet would be
//! told that it had no activity.

use vstd::prelude::*;

use crate::bytemap::ByteMap;
use crate::digest::hex_encode;
use crate::filter::types::{
    covers_script, display_hex, is_filter_element, reversed, OutPoint, TransparentTx, TxInput,
};
use crate::text::{decimal, push_decimal};

verus! {

/// Why a block has no filter.
#[derive(Debug)]
pub enum ExtractError {
    /// The output that a transaction spends is not known.
    MissingPreviousOutput(String),
    /// The output could not be looked up.
    Lookup { outpoint: String, source: String },
}

impl ExtractError {
    pub fn message(&self) -> (text: String)
        ensures
            text@ == (match self {
                ExtractError::MissingPreviousOutput(label) => "previous output "@ + label@
                    + " is unavailable; refusing to build a partial filter"@,
                ExtractError::Lookup { outpoint, source } => "previous output lookup failed for "@
                    + outpoint@ + ": "@ + source@,
            }),
    {
        match self {
            ExtractError::MissingPreviousOutput(label) => {
                let mut text = String::from_str("previous output ");
                text.append(label.as_str());
                text.append(" is unavailable; refusing to build a partial filter");
                text
            },
            ExtractError::Lookup { outpoint, source } => {
                let mut text = String::from_str("previous output lookup failed for ");
                text.append(outpoint.as_str());
                text.append(": ");
                text.append(source.as_str());
                text
            },
        }
    }
}

/// An outpoint as people look it up.
pub open spec fn outpoint_text(place: (Seq<u8>, u32)) -> Seq<char> {
    display_hex(place.0) + ":"@ + decimal(place.1 as nat)
}

/// An outpoint for diagnostics.
pub fn outpoint_label(outpoint: &OutPoint) -> (label: String)
    ensures
        label@ == outpoint_text(outpoint.place()),
{
    let mut label = hex_encode(reversed(&outpoint.hash).as_slice());
    label.append(":");
    push_decimal(&mut label, outpoint.index as u64);
    label
}

/// Supplies the locking script of an output created before a block.
pub trait PreviousOutputs {
    /// The locking script of an output, or `None` where it is not known.
    fn lock_script(&mut self, outpoint: &OutPoint) -> (script: Result<Option<Vec<u8>>, String>);
}

/// The order of byte strings: by the first byte that differs, a start before
/// what it is a start of.
pub open spec fn bytes_before(a: Seq<u8>, b: Seq<u8>) -> bool
    decreases b.len(),
{
    if b.len() == 0 {
        false
    } else if a.len() == 0 {
        true
    } else if a[0] != b[0] {
        a[0] < b[0]
    } else {
        bytes_before(a.drop_first(), b.drop_first())
    }
}

/// One byte string is before another exactly if it is a proper start of it, or if
/// at the first place where they differ its byte is the smaller one.
pub proof fn law_byte_strings_are_ordered_by_their_first_difference(
    a: Seq<u8>,
    b: Seq<u8>,
    k: int,
)
    requires
        0 <= k <= a.len(),
        k <= b.len(),
        a.take(k) == b.take(k),
        k == a.len() || k == b.len() || a[k] != b[k],
    ensures
        bytes_before(a, b) == (if k == b.len() {
            false
        } else if k == a.len() {
            true
        } else {
            a[k] < b[k]
        }),
    decreases k,
{
    if k > 0 {
        assert(a[0] == a.take(k)[0] && b[0] == b.take(k)[0]);
        assert(a.drop_first().take(k - 1) =~= a.take(k).drop_first());
        assert(b.drop_first().take(k - 1) =~= b.take(k).drop_first());
        law_byte_strings_are_ordered_by_their_first_difference(
            a.drop_first(),
            b.drop_first(),
            k - 1,
        );
    }
}

proof fn lemma_before_irreflexive(a: Seq<u8>)
    ensures
        !bytes_before(a, a),
    decreases a.len(),
{
    if a.len() > 0 {
        lemma_before_irreflexive(a.drop_first());
    }
}

proof fn lemma_before_total(a: Seq<u8>, b: Seq<u8>)
    ensures
        a == b || bytes_before(a, b) || bytes_before(b, a),
    decreases a.len(),
{
    if a.len() > 0 && b.len() > 0 && a[0] == b[0] {
        lemma_before_total(a.drop_first(), b.drop_first());
        if a.drop_first() == b.drop_first() {
            assert(a =~= seq![a[0]] + a.drop_first());
            assert(b =~= seq![b[0]] + b.drop_first());
        }
    } else if a.len() == 0 && b.len() == 0 {
        assert(a =~= b);
    }
}

proof fn lemma_before_transitive(a: Seq<u8>, b: Seq<u8>, c: Seq<u8>)
    requires
        bytes_before(a, b),
        bytes_before(b, c),
    ensures
        bytes_before(a, c),
    decreases c.len(),
{
    if a.len() > 0 && a[0] == b[0] && b[0] == c[0] {
        lemma_before_transitive(a.drop_first(), b.drop_first(), c.drop_first());
    }
}

fn precedes(a: &[u8], b: &[u8]) -> (before: bool)
    ensures
        before == bytes_before(a@, b@),
{
    let mut i: usize = 0;
    assert(a@.skip(0) =~= a@);
    assert(b@.skip(0) =~= b@);
    while i < a.len() && i < b.len()
        invariant
            i <= a.len(),
            i <= b.len(),
            bytes_before(a@, b@) == bytes_before(a@.skip(i as int), b@.skip(i as int)),
        decreases a.len() - i,
    {
        proof {
            assert(a@.skip(i as int).drop_first() =~= a@.skip(i + 1));
            assert(b@.skip(i as int).drop_first() =~= b@.skip(i + 1));
        }
        if a[i] != b[i] {
            return a[i] < b[i];
        }
        i = i + 1;
    }
    i < b.len()
}

/// Byte strings as values.
pub open spec fn strings(list: Seq<Vec<u8>>) -> Seq<Seq<u8>> {
    list.map_values(|item: Vec<u8>| item@)
}

/// Each string comes before all that follow it.
pub open spec fn strictly_ascending(list: Seq<Seq<u8>>) -> bool {
    forall|i: int, j: int|
        0 <= i < j < list.len() ==> bytes_before(#[trigger] list[i], #[trigger] list[j])
}

/// A strictly ascending list is determined by what it holds.
pub proof fn law_ascending_lists_are_determined_by_their_members(a: Seq<Seq<u8>>, b: Seq<Seq<u8>>)
    requires
        strictly_ascending(a),
        strictly_ascending(b),
        forall|s: Seq<u8>| a.contains(s) <==> b.contains(s),
    ensures
        a == b,
    decreases a.len(),
{
    if a.len() == 0 {
        if b.len() > 0 {
            assert(b.contains(b[0]));
            assert(a.contains(b[0]));
        }
        assert(a =~= b);
    } else {
        assert(a.contains(a.last()));
        let j = b.index_of(a.last());
        assert(b.contains(b.last()));
        let i = a.index_of(b.last());
        assert(a[i] == b.last() && b[j] == a.last());
        if a.last() != b.last() {
            assert(bytes_before(a[i], a.last()));
            assert(bytes_before(b[j], b.last()));
            lemma_before_transitive(a.last(), b.last(), a.last());
            lemma_before_irreflexive(a.last());
        }
        let c = a.drop_last();
        let d = b.drop_last();
        assert forall|s: Seq<u8>| c.contains(s) <==> d.contains(s) by {
            lemma_last_stands_once(a, s);
            lemma_last_stands_once(b, s);
        }
        law_ascending_lists_are_determined_by_their_members(c, d);
        assert(a =~= c.push(a.last()));
        assert(b =~= d.push(b.last()));
    }
}

proof fn lemma_last_stands_once(list: Seq<Seq<u8>>, s: Seq<u8>)
    requires
        strictly_ascending(list),
        list.len() > 0,
    ensures
        list.drop_last().contains(s) <==> list.contains(s) && s != list.last(),
{
    if list.drop_last().contains(s) {
        let i = list.drop_last().index_of(s);
        assert(list[i] == s);
        assert(bytes_before(list[i], list[list.len() - 1]));
        lemma_before_irreflexive(s);
    }
    if list.contains(s) && s != list.last() {
        let i = list.index_of(s);
        assert(list.drop_last()[i] == s);
    }
}

/// Puts a script into its place, unless it stands there already.
fn insert_element(elements: &mut Vec<Vec<u8>>, script: &[u8])
    requires
        strictly_ascending(strings(old(elements)@)),
    ensures
        strictly_ascending(strings(final(elements)@)),
        forall|s: Seq<u8>|
            strings(final(elements)@).contains(s) <==> strings(old(elements)@).contains(s) || s
                == script@,
{
    let ghost before = strings(elements@);
    let mut low: usize = 0;
    let mut high: usize = elements.len();
    while low < high
        invariant
            low <= high <= elements.len(),
            before == strings(elements@),
            strictly_ascending(before),
            forall|i: int| 0 <= i < low ==> bytes_before(#[trigger] before[i], script@),
            forall|i: int| high <= i < before.len() ==> !bytes_before(#[trigger] before[i], script@),
        decreases high - low,
    {
        let middle: usize = low + (high - low) / 2;
        assert(before[middle as int] == elements@[middle as int]@);
        if precedes(elements[middle].as_slice(), script) {
            proof {
                assert forall|i: int| 0 <= i < middle + 1 implies bytes_before(
                    #[trigger] before[i],
                    script@,
                ) by {
                    if i < middle {
                        lemma_before_transitive(before[i], before[middle as int], script@);
                    }
                }
            }
            low = middle + 1;
        } else {
            proof {
                assert forall|i: int| middle <= i < before.len() implies !bytes_before(
                    #[trigger] before[i],
                    script@,
                ) by {
                    if i > middle && bytes_before(before[i], script@) {
                        lemma_before_transitive(before[middle as int], before[i], script@);
                    }
                }
            }
            high = middle;
        }
    }
    if low < elements.len() && crate::bytemap::same_bytes(elements[low].as_slice(), script) {
        assert(before[low as int] == script@);
        return ;
    }
    let mut copy: Vec<u8> = Vec::new();
    crate::codec::push_bytes(&mut copy, script);
    assert(copy@ =~= script@);
    elements.insert(low, copy);
    proof {
        let after = strings(elements@);
        assert(after =~= before.insert(low as int, script@));
        assert forall|i: int, j: int| 0 <= i < j < after.len() implies bytes_before(
            #[trigger] after[i],
            #[trigger] after[j],
        ) by {
            let l = low as int;
            if j < l {
                assert(after[i] == before[i] && after[j] == before[j]);
            } else if j == l {
                assert(after[i] == before[i]);
            } else if i > l {
                assert(after[i] == before[i - 1] && after[j] == before[j - 1]);
            } else {
                assert(after[j] == before[j - 1]);
                assert(before[l] != script@);
                lemma_before_total(before[l], script@);
                if j - 1 > l {
                    lemma_before_transitive(script@, before[l], before[j - 1]);
                }
                if i < l {
                    assert(after[i] == before[i]);
                    lemma_before_transitive(before[i], script@, before[j - 1]);
                }
            }
        }
        assert forall|s: Seq<u8>| after.contains(s) <==> before.contains(s) || s == script@ by {
            if after.contains(s) {
                let i = after.index_of(s);
                if i < low {
                    assert(before[i] == s);
                } else if i > low {
                    assert(before[i - 1] == s);
                }
            }
            if before.contains(s) {
                let i = before.index_of(s);
                if i < low {
                    assert(after[i] == s);
                } else {
                    assert(after[i + 1] == s);
                }
            }
            assert(after[low as int] == script@);
        }
    }
}

/// Whether a transaction of the block creates an output.
pub open spec fn created(transactions: Seq<TransparentTx>, place: (Seq<u8>, u32)) -> bool {
    exists|t: int|
        0 <= t < transactions.len() && (#[trigger] transactions[t]).txid@ == place.0 && place.1
            < transactions[t].outputs@.len()
}

/// Outputs of earlier blocks that these inputs spend, in order.
pub open spec fn outside_spends(
    inputs: Seq<TxInput>,
    transactions: Seq<TransparentTx>,
) -> Seq<(Seq<u8>, u32)>
    decreases inputs.len(),
{
    if inputs.len() == 0 {
        Seq::empty()
    } else {
        let head = outside_spends(inputs.drop_last(), transactions);
        match inputs.last() {
            TxInput::Coinbase => head,
            TxInput::PrevOut(outpoint) => if created(transactions, outpoint.place()) {
                head
            } else {
                head.push(outpoint.place())
            },
        }
    }
}

/// Outputs of earlier blocks that the first `n` transactions spend, in order.
pub open spec fn needed(transactions: Seq<TransparentTx>, n: int) -> Seq<(Seq<u8>, u32)>
    decreases n,
{
    if n <= 0 {
        Seq::empty()
    } else {
        needed(transactions, n - 1) + outside_spends(transactions[n - 1].inputs@, transactions)
    }
}

/// Outputs of earlier blocks that the block spends, in order.
pub open spec fn needed_by(transactions: Seq<TransparentTx>) -> Seq<(Seq<u8>, u32)> {
    needed(transactions, transactions.len() as int)
}

/// Whether some input of the block spends an output.
pub open spec fn spent_by(transactions: Seq<TransparentTx>, place: (Seq<u8>, u32)) -> bool {
    exists|t: int, i: int|
        0 <= t < transactions.len() && 0 <= i < transactions[t].inputs@.len() && spends(
            #[trigger] transactions[t].inputs@[i],
            place,
        )
}

/// Whether an input spends an output.
pub open spec fn spends(input: TxInput, place: (Seq<u8>, u32)) -> bool {
    input matches TxInput::PrevOut(outpoint) && outpoint.place() == place
}

proof fn lemma_outside_spends(
    inputs: Seq<TxInput>,
    transactions: Seq<TransparentTx>,
    place: (Seq<u8>, u32),
)
    ensures
        outside_spends(inputs, transactions).contains(place) <==> (!created(transactions, place)
            && exists|i: int| 0 <= i < inputs.len() && spends(#[trigger] inputs[i], place)),
    decreases inputs.len(),
{
    if inputs.len() > 0 {
        let head = inputs.drop_last();
        let was = outside_spends(head, transactions);
        let now = outside_spends(inputs, transactions);
        lemma_outside_spends(head, transactions, place);
        let n = inputs.len() - 1;
        if now.contains(place) {
            let k = now.index_of(place);
            if k < was.len() {
                assert(was[k] == place);
                assert(was.contains(place));
                let i = choose|i: int| 0 <= i < head.len() && spends(#[trigger] head[i], place);
                assert(spends(inputs[i], place));
            } else {
                assert(spends(inputs[n], place));
            }
        }
        if !created(transactions, place) && exists|i: int|
            0 <= i < inputs.len() && spends(#[trigger] inputs[i], place) {
            let i = choose|i: int| 0 <= i < inputs.len() && spends(#[trigger] inputs[i], place);
            if i < n {
                assert(spends(head[i], place));
                assert(was.contains(place));
                let k = was.index_of(place);
                assert(now[k] == place);
            } else {
                assert(now == was.push(place));
                assert(now[was.len() as int] == place);
            }
        }
    }
}

proof fn lemma_needed(transactions: Seq<TransparentTx>, n: int, place: (Seq<u8>, u32))
    requires
        0 <= n <= transactions.len(),
    ensures
        needed(transactions, n).contains(place) <==> (!created(transactions, place) && exists|
            t: int,
            i: int,
        |
            0 <= t < n && 0 <= i < transactions[t].inputs@.len() && spends(
                #[trigger] transactions[t].inputs@[i],
                place,
            )),
    decreases n,
{
    if n > 0 {
        lemma_needed(transactions, n - 1, place);
        lemma_outside_spends(transactions[n - 1].inputs@, transactions, place);
        let was = needed(transactions, n - 1);
        let more = outside_spends(transactions[n - 1].inputs@, transactions);
        let now = needed(transactions, n);
        if now.contains(place) {
            let k = now.index_of(place);
            if k < was.len() {
                assert(was[k] == place);
                assert(was.contains(place));
                let (t, i) = choose|t: int, i: int|
                    0 <= t < n - 1 && 0 <= i < transactions[t].inputs@.len() && spends(
                        #[trigger] transactions[t].inputs@[i],
                        place,
                    );
                assert(spends(transactions[t].inputs@[i], place));
            } else {
                assert(more[k - was.len()] == place);
                assert(more.contains(place));
            }
        }
        if !created(transactions, place) && exists|t: int, i: int|
            0 <= t < n && 0 <= i < transactions[t].inputs@.len() && spends(
                #[trigger] transactions[t].inputs@[i],
                place,
            ) {
            let (t, i) = choose|t: int, i: int|
                0 <= t < n && 0 <= i < transactions[t].inputs@.len() && spends(
                    #[trigger] transactions[t].inputs@[i],
                    place,
                );
            if t < n - 1 {
                assert(was.contains(place));
                let k = was.index_of(place);
                assert(now[k] == place);
            } else {
                assert(more.contains(place));
                let k = more.index_of(place);
                assert(now[was.len() + k] == place);
            }
        }
    }
}

/// An output is looked up exactly if the block spends it and does not create
/// it: neither a coinbase input nor a spend within the block needs a lookup.
pub proof fn law_lookups_are_for_outside_spends(
    transactions: Seq<TransparentTx>,
    place: (Seq<u8>, u32),
)
    ensures
        needed_by(transactions).contains(place) <==> spent_by(transactions, place) && !created(
            transactions,
            place,
        ),
{
    lemma_needed(transactions, transactions.len() as int, place);
}

/// A spent output is looked up unless a transaction of the block has its id and
/// so many outputs.
pub proof fn law_every_outside_spend_is_looked_up(
    transactions: Seq<TransparentTx>,
    t: int,
    i: int,
)
    requires
        0 <= t < transactions.len(),
        0 <= i < transactions[t].inputs@.len(),
        transactions[t].inputs@[i] is PrevOut,
    ensures
        ({
            let spent = transactions[t].inputs@[i]->PrevOut_0;
            needed_by(transactions).contains((spent.hash@, spent.index)) <==> forall|u: int|
                0 <= u < transactions.len() && (#[trigger] transactions[u]).txid@ == spent.hash@
                    ==> transactions[u].outputs@.len() <= spent.index
        }),
{
    let spent = transactions[t].inputs@[i]->PrevOut_0;
    let place = (spent.hash@, spent.index);
    law_lookups_are_for_outside_spends(transactions, place);
    assert(spends(transactions[t].inputs@[i], place));
    assert(spent_by(transactions, place));
}

/// Whatever is looked up is spent by an input of the block.
pub proof fn law_only_spends_are_looked_up(transactions: Seq<TransparentTx>, k: int)
    requires
        0 <= k < needed_by(transactions).len(),
    ensures
        exists|u: int, j: int|
            {
                &&& 0 <= u < transactions.len()
                &&& 0 <= j < transactions[u].inputs@.len()
                &&& (#[trigger] transactions[u].inputs@[j]) matches TxInput::PrevOut(spent)
                    && needed_by(transactions)[k] == (spent.hash@, spent.index)
            },
{
    let listed = needed_by(transactions)[k];
    assert(needed_by(transactions).contains(listed));
    law_lookups_are_for_outside_spends(transactions, listed);
    let (u, j) = choose|u: int, j: int|
        0 <= u < transactions.len() && 0 <= j < transactions[u].inputs@.len() && spends(
            #[trigger] transactions[u].inputs@[j],
            listed,
        );
    assert(transactions[u].inputs@[j] is PrevOut);
}

/// Outpoints as values.
pub open spec fn places(outpoints: Seq<OutPoint>) -> Seq<(Seq<u8>, u32)> {
    outpoints.map_values(|outpoint: OutPoint| outpoint.place())
}

/// The most outputs among the first `n` transactions of an id, if there is one.
pub open spec fn most_outputs(
    transactions: Seq<TransparentTx>,
    n: int,
    txid: Seq<u8>,
) -> Option<nat>
    decreases n,
{
    if n <= 0 {
        None
    } else {
        let before = most_outputs(transactions, n - 1, txid);
        let here = transactions[n - 1].outputs@.len();
        if transactions[n - 1].txid@ != txid {
            before
        } else {
            match before {
                Some(most) => Some(
                    if most < here {
                        here
                    } else {
                        most
                    },
                ),
                None => Some(here),
            }
        }
    }
}

proof fn lemma_most_outputs(transactions: Seq<TransparentTx>, n: int, place: (Seq<u8>, u32))
    requires
        0 <= n <= transactions.len(),
    ensures
        (most_outputs(transactions, n, place.0) is Some && place.1 < most_outputs(
            transactions,
            n,
            place.0,
        )->0) <==> exists|t: int|
            0 <= t < n && (#[trigger] transactions[t]).txid@ == place.0 && place.1
                < transactions[t].outputs@.len(),
    decreases n,
{
    if n > 0 {
        lemma_most_outputs(transactions, n - 1, place);
        assert(transactions[n - 1] == transactions[n - 1]);
    }
}

/// Whether a map gives the most outputs of an id among the first `n`
/// transactions.
spec fn counted(
    counts: Map<Seq<u8>, u64>,
    transactions: Seq<TransparentTx>,
    n: int,
    txid: Seq<u8>,
) -> bool {
    match most_outputs(transactions, n, txid) {
        Some(most) => counts.contains_key(txid) && counts[txid] == most,
        None => !counts.contains_key(txid),
    }
}

fn outputs_by_txid(transactions: &[TransparentTx]) -> (counts: ByteMap<u64>)
    ensures
        counts.wf(),
        forall|txid: Seq<u8>| #[trigger] counted(counts.entries(), transactions@, transactions@.len() as int, txid),
{
    let mut counts: ByteMap<u64> = ByteMap::new();
    let mut i: usize = 0;
    while i < transactions.len()
        invariant
            i <= transactions.len(),
            counts.wf(),
            counts.entries().dom().len() <= i,
            forall|txid: Seq<u8>| #[trigger] counted(counts.entries(), transactions@, i as int, txid),
        decreases transactions.len() - i,
    {
        let here: u64 = transactions[i].outputs.len() as u64;
        let txid: &[u8] = &transactions[i].txid;
        assert(counted(counts.entries(), transactions@, i as int, txid@));
        let most: u64 = match counts.get(txid) {
            Some(most) => if *most < here {
                here
            } else {
                *most
            },
            None => here,
        };
        let mut key: Vec<u8> = Vec::new();
        crate::codec::push_bytes(&mut key, txid);
        let ghost before = counts.entries();
        proof {
            counts.lemma_finite();
            assert(key@ =~= txid@);
            assert(counted(before, transactions@, i as int, txid@));
        }
        counts.insert(key, most);
        proof {
            assert forall|id: Seq<u8>| #[trigger] counted(
                counts.entries(),
                transactions@,
                i + 1,
                id,
            ) by {
                assert(counted(before, transactions@, i as int, id));
            }
        }
        i = i + 1;
    }
    counts
}

/// The outputs to look up for a block, in order.
pub fn needed_outpoints(transactions: &[TransparentTx]) -> (outpoints: Vec<OutPoint>)
    ensures
        places(outpoints@) == needed_by(transactions@),
{
    let counts = outputs_by_txid(transactions);
    let mut outpoints: Vec<OutPoint> = Vec::new();
    let mut t: usize = 0;
    assert(places(outpoints@) =~= needed(transactions@, 0));
    while t < transactions.len()
        invariant
            t <= transactions.len(),
            counts.wf(),
            forall|txid: Seq<u8>| #[trigger] counted(counts.entries(), transactions@, transactions@.len() as int, txid),
            places(outpoints@) == needed(transactions@, t as int),
        decreases transactions.len() - t,
    {
        let inputs = &transactions[t].inputs;
        let ghost base = needed(transactions@, t as int);
        let mut i: usize = 0;
        assert(base + outside_spends(inputs@.take(0), transactions@) =~= base);
        while i < inputs.len()
            invariant
                i <= inputs.len(),
                counts.wf(),
                forall|txid: Seq<u8>| #[trigger] counted(counts.entries(), transactions@, transactions@.len() as int, txid),
                places(outpoints@) == base + outside_spends(
                    inputs@.take(i as int),
                    transactions@,
                ),
            decreases inputs.len() - i,
        {
            assert(inputs@.take(i + 1).drop_last() =~= inputs@.take(i as int));
            let ghost before = places(outpoints@);
            match &inputs[i] {
                TxInput::Coinbase => {},
                TxInput::PrevOut(outpoint) => {
                    proof {
                        lemma_most_outputs(
                            transactions@,
                            transactions@.len() as int,
                            outpoint.place(),
                        );
                        assert(counted(
                            counts.entries(),
                            transactions@,
                            transactions@.len() as int,
                            outpoint.hash@,
                        ));
                    }
                    let inside: bool = match counts.get(&outpoint.hash) {
                        Some(most) => (outpoint.index as u64) < *most,
                        None => false,
                    };
                    assert(inside == created(transactions@, outpoint.place()));
                    if !inside {
                        outpoints.push(*outpoint);
                        assert(places(outpoints@) =~= before.push(outpoint.place()));
                        assert(base + outside_spends(inputs@.take(i + 1), transactions@)
                            =~= before.push(outpoint.place()));
                    }
                },
            }
            i = i + 1;
        }
        assert(inputs@.take(i as int) =~= inputs@);
        t = t + 1;
    }
    outpoints
}

/// Whether a script locks an output that the block creates.
pub open spec fn is_output(transactions: Seq<TransparentTx>, script: Seq<u8>) -> bool {
    exists|t: int, o: int|
        0 <= t < transactions.len() && 0 <= o < transactions[t].outputs@.len() && (
        #[trigger] transactions[t].outputs@[o])@ == script
}

/// Whether a script is an element of the block's filter, given the scripts of
/// the outputs that were looked up.
pub open spec fn is_element(
    transactions: Seq<TransparentTx>,
    looked_up: Seq<Seq<u8>>,
    script: Seq<u8>,
) -> bool {
    covers_script(script) && (is_output(transactions, script) || looked_up.contains(script))
}

/// Whether this is the block's element list: in ascending order, each element
/// once.
pub open spec fn is_element_list(
    elements: Seq<Seq<u8>>,
    transactions: Seq<TransparentTx>,
    looked_up: Seq<Seq<u8>>,
) -> bool {
    &&& strictly_ascending(elements)
    &&& forall|script: Seq<u8>|
        #![trigger elements.contains(script)]
        elements.contains(script) <==> is_element(transactions, looked_up, script)
}

/// The element list of a block, given the scripts of the outputs that were
/// looked up for it. The script of an output that the block both creates and
/// spends is an element already.
pub fn assemble_elements(transactions: &[TransparentTx], looked_up: &Vec<Vec<u8>>) -> (elements:
    Vec<Vec<u8>>)
    ensures
        is_element_list(strings(elements@), transactions@, strings(looked_up@)),
        forall|t: int, o: int|
            0 <= t < transactions@.len() && 0 <= o < transactions@[t].outputs@.len() ==> {
                let script = (#[trigger] transactions@[t].outputs@[o])@;
                strings(elements@).contains(script) <==> script.len() > 0 && script[0] != 0x6a
            },
        forall|k: int|
            0 <= k < looked_up@.len() ==> {
                let script = (#[trigger] looked_up@[k])@;
                strings(elements@).contains(script) <==> script.len() > 0 && script[0] != 0x6a
            },
{
    let mut elements: Vec<Vec<u8>> = Vec::new();
    assert(strings(elements@) =~= Seq::empty());
    let mut t: usize = 0;
    while t < transactions.len()
        invariant
            t <= transactions.len(),
            strictly_ascending(strings(elements@)),
            forall|s: Seq<u8>|
                #![trigger strings(elements@).contains(s)]
                strings(elements@).contains(s) <==> covers_script(s) && exists|x: int, o: int|
                    0 <= x < t && 0 <= o < transactions@[x].outputs@.len() && (
                    #[trigger] transactions@[x].outputs@[o])@ == s,
        decreases transactions.len() - t,
    {
        let outputs = &transactions[t].outputs;
        let ghost base = strings(elements@);
        let mut o: usize = 0;
        while o < outputs.len()
            invariant
                o <= outputs.len(),
                strictly_ascending(strings(elements@)),
                forall|s: Seq<u8>|
                    #![trigger strings(elements@).contains(s)]
                    strings(elements@).contains(s) <==> base.contains(s) || (covers_script(s)
                        && exists|k: int| 0 <= k < o && (#[trigger] outputs@[k])@ == s),
            decreases outputs.len() - o,
        {
            let ghost before = strings(elements@);
            if is_filter_element(outputs[o].as_slice()) {
                insert_element(&mut elements, outputs[o].as_slice());
            }
            proof {
                assert forall|s: Seq<u8>|
                    #![trigger strings(elements@).contains(s)]
                    strings(elements@).contains(s) <==> base.contains(s) || (covers_script(s)
                        && exists|k: int| 0 <= k < o + 1 && (#[trigger] outputs@[k])@ == s) by {
                    assert(strings(elements@).contains(s) <==> before.contains(s) || (
                    covers_script(s) && s == outputs@[o as int]@));
                    if exists|k: int| 0 <= k < o + 1 && (#[trigger] outputs@[k])@ == s {
                        let k = choose|k: int| 0 <= k < o + 1 && (#[trigger] outputs@[k])@ == s;
                        if k < o {
                            assert(exists|j: int| 0 <= j < o && (#[trigger] outputs@[j])@ == s);
                        }
                    }
                }
            }
            o = o + 1;
        }
        proof {
            assert forall|s: Seq<u8>|
                #![trigger strings(elements@).contains(s)]
                strings(elements@).contains(s) <==> covers_script(s) && exists|x: int, k: int|
                    0 <= x < t + 1 && 0 <= k < transactions@[x].outputs@.len() && (
                    #[trigger] transactions@[x].outputs@[k])@ == s by {
                assert(base.contains(s) <==> covers_script(s) && exists|x: int, k: int|
                    0 <= x < t && 0 <= k < transactions@[x].outputs@.len() && (
                    #[trigger] transactions@[x].outputs@[k])@ == s);
                if exists|k: int| 0 <= k < outputs@.len() && (#[trigger] outputs@[k])@ == s {
                    let k = choose|k: int|
                        0 <= k < outputs@.len() && (#[trigger] outputs@[k])@ == s;
                    assert(transactions@[t as int].outputs@[k]@ == s);
                }
                if exists|x: int, k: int|
                    0 <= x < t + 1 && 0 <= k < transactions@[x].outputs@.len() && (
                    #[trigger] transactions@[x].outputs@[k])@ == s {
                    let (x, k) = choose|x: int, k: int|
                        0 <= x < t + 1 && 0 <= k < transactions@[x].outputs@.len() && (
                        #[trigger] transactions@[x].outputs@[k])@ == s;
                    if x == t {
                        assert(outputs@[k]@ == s);
                    } else {
                        assert(transactions@[x].outputs@[k]@ == s);
                    }
                }
            }
        }
        t = t + 1;
    }
    let ghost base = strings(elements@);
    let mut i: usize = 0;
    while i < looked_up.len()
        invariant
            i <= looked_up.len(),
            strictly_ascending(strings(elements@)),
            forall|s: Seq<u8>|
                #![trigger base.contains(s)]
                base.contains(s) <==> covers_script(s) && is_output(transactions@, s),
            forall|s: Seq<u8>|
                #![trigger strings(elements@).contains(s)]
                strings(elements@).contains(s) <==> base.contains(s) || (covers_script(s)
                    && exists|k: int| 0 <= k < i && (#[trigger] looked_up@[k])@ == s),
        decreases looked_up.len() - i,
    {
        let ghost before = strings(elements@);
        if is_filter_element(looked_up[i].as_slice()) {
            insert_element(&mut elements, looked_up[i].as_slice());
        }
        proof {
            assert forall|s: Seq<u8>|
                #![trigger strings(elements@).contains(s)]
                strings(elements@).contains(s) <==> base.contains(s) || (covers_script(s)
                    && exists|k: int| 0 <= k < i + 1 && (#[trigger] looked_up@[k])@ == s) by {
                assert(strings(elements@).contains(s) <==> before.contains(s) || (covers_script(s)
                    && s == looked_up@[i as int]@));
                if exists|k: int| 0 <= k < i + 1 && (#[trigger] looked_up@[k])@ == s {
                    let k = choose|k: int| 0 <= k < i + 1 && (#[trigger] looked_up@[k])@ == s;
                    if k < i {
                        assert(exists|j: int| 0 <= j < i && (#[trigger] looked_up@[j])@ == s);
                    }
                }
            }
        }
        i = i + 1;
    }
    proof {
        let given = strings(looked_up@);
        assert forall|s: Seq<u8>|
            #![trigger strings(elements@).contains(s)]
            strings(elements@).contains(s) <==> is_element(transactions@, given, s) by {
            assert(base.contains(s) <==> covers_script(s) && is_output(transactions@, s));
            if given.contains(s) {
                let k = given.index_of(s);
                assert(looked_up@[k]@ == s);
            }
            if exists|k: int| 0 <= k < i && (#[trigger] looked_up@[k])@ == s {
                let k = choose|k: int| 0 <= k < i && (#[trigger] looked_up@[k])@ == s;
                assert(given[k] == s);
            }
        }
    }
    elements
}

/// Whether there is one script for each output that is looked up.
pub open spec fn answers_all(transactions: Seq<TransparentTx>, looked_up: Seq<Seq<u8>>) -> bool {
    looked_up.len() == needed_by(transactions).len()
}

/// What a lookup gives: a script, or that the output is not known, or why it
/// could not be looked up.
pub type Answer = Result<Option<Vec<u8>>, String>;

/// Whether a lookup gave a script.
pub open spec fn is_script(answer: Answer) -> bool {
    answer is Ok && answer->Ok_0 is Some
}

/// Place of the first answer that is no script, or the number of answers.
pub open spec fn first_failure(answers: Seq<Answer>) -> int
    decreases answers.len(),
{
    if answers.len() == 0 || !is_script(answers[0]) {
        0
    } else {
        1 + first_failure(answers.drop_first())
    }
}

/// Answers fail first where the answer is no script and all before it are.
pub proof fn lemma_first_failure(answers: Seq<Answer>, at: int)
    requires
        0 <= at <= answers.len(),
        forall|i: int| 0 <= i < at ==> is_script(#[trigger] answers[i]),
        at < answers.len() ==> !is_script(answers[at]),
    ensures
        first_failure(answers) == at,
    decreases answers.len(),
{
    if at > 0 {
        let rest = answers.drop_first();
        assert forall|i: int| 0 <= i < at - 1 implies is_script(#[trigger] rest[i]) by {
            assert(rest[i] == answers[i + 1]);
        }
        lemma_first_failure(rest, at - 1);
    }
}

/// The scripts that answers gave.
pub open spec fn scripts_of(answers: Seq<Answer>) -> Seq<Seq<u8>> {
    answers.map_values(|answer: Answer| answer->Ok_0->Some_0@)
}

/// Whether an error is what the answer to the lookup of an output gives.
pub open spec fn is_failure(error: ExtractError, place: (Seq<u8>, u32), answer: Answer) -> bool {
    match answer {
        Ok(Some(_)) => false,
        Ok(None) => error matches ExtractError::MissingPreviousOutput(label) && label@
            == outpoint_text(place),
        Err(words) => error matches ExtractError::Lookup { outpoint, source } && outpoint@
            == outpoint_text(place) && source@ == words@,
    }
}

/// What the answers to lookups come to: their scripts, in order, or the error
/// of the first one that is no script.
pub fn settle_lookups(outpoints: &Vec<OutPoint>, answers: Vec<Answer>) -> (out: Result<
    Vec<Vec<u8>>,
    ExtractError,
>)
    requires
        outpoints@.len() == answers@.len(),
    ensures
        match out {
            Ok(scripts) => {
                &&& first_failure(answers@) == answers@.len()
                &&& strings(scripts@) == scripts_of(answers@)
            },
            Err(error) => {
                let at = first_failure(answers@);
                &&& at < answers@.len()
                &&& is_failure(error, outpoints@[at].place(), answers@[at])
            },
        },
{
    let ghost given = answers@;
    let mut i: usize = 0;
    while i < answers.len()
        invariant
            i <= answers.len(),
            answers@ == given,
            outpoints@.len() == given.len(),
            forall|k: int| 0 <= k < i ==> is_script(#[trigger] given[k]),
        decreases answers.len() - i,
    {
        let failed: Option<ExtractError> = match &answers[i] {
            Ok(Some(_)) => None,
            Ok(None) => Some(
                ExtractError::MissingPreviousOutput(outpoint_label(&outpoints[i])),
            ),
            Err(words) => Some(
                ExtractError::Lookup {
                    outpoint: outpoint_label(&outpoints[i]),
                    source: words.clone(),
                },
            ),
        };
        if let Some(error) = failed {
            proof {
                lemma_first_failure(given, i as int);
            }
            return Err(error);
        }
        i = i + 1;
    }
    proof {
        lemma_first_failure(given, given.len() as int);
    }
    let mut rest = answers;
    assert(rest@ =~= given.take(rest@.len() as int));
    let mut turned: Vec<Vec<u8>> = Vec::new();
    while rest.len() > 0
        invariant
            rest@.len() + turned@.len() == given.len(),
            rest@ == given.take(rest@.len() as int),
            forall|k: int| 0 <= k < given.len() ==> is_script(#[trigger] given[k]),
            forall|k: int|
                0 <= k < turned@.len() ==> (#[trigger] turned@[k])@ == scripts_of(
                    given,
                )[given.len() - 1 - k],
        decreases rest.len(),
    {
        let ghost len = rest@.len();
        let last = rest.pop();
        proof {
            assert(last == Some(given[len - 1]));
            assert(is_script(given[len - 1]));
            assert(rest@ =~= given.take(len - 1));
        }
        if let Some(Ok(Some(script))) = last {
            turned.push(script);
        }
    }
    let mut scripts: Vec<Vec<u8>> = Vec::new();
    let ghost all = turned@;
    while turned.len() > 0
        invariant
            turned@.len() + scripts@.len() == given.len(),
            all.len() == given.len(),
            turned@ == all.take(turned@.len() as int),
            forall|k: int|
                0 <= k < all.len() ==> (#[trigger] all[k])@ == scripts_of(given)[given.len() - 1
                    - k],
            forall|k: int|
                0 <= k < scripts@.len() ==> (#[trigger] scripts@[k])@ == scripts_of(given)[k],
        decreases turned.len(),
    {
        let ghost len = turned@.len();
        let last = turned.pop();
        proof {
            assert(last == Some(all[len - 1]));
            assert(turned@ =~= all.take(len - 1));
        }
        if let Some(script) = last {
            scripts.push(script);
        }
    }
    assert(strings(scripts@) =~= scripts_of(given));
    Ok(scripts)
}

/// The elements are exactly the scripts that the block creates or that were
/// looked up, without empty ones and without those whose first byte is that of
/// `OP_RETURN`, each once. No other script is left out, whatever its type.
pub proof fn law_no_script_is_left_out(
    elements: Seq<Seq<u8>>,
    transactions: Seq<TransparentTx>,
    looked_up: Seq<Seq<u8>>,
)
    requires
        is_element_list(elements, transactions, looked_up),
    ensures
        forall|t: int, o: int|
            0 <= t < transactions.len() && 0 <= o < transactions[t].outputs@.len() ==> {
                let script = (#[trigger] transactions[t].outputs@[o])@;
                elements.contains(script) <==> script.len() > 0 && script[0] != 0x6a
            },
        forall|k: int|
            0 <= k < looked_up.len() ==> (elements.contains(#[trigger] looked_up[k]) <==> looked_up[
                k
            ].len() > 0 && looked_up[k][0] != 0x6a),
        forall|e: int|
            0 <= e < elements.len() ==> (#[trigger] elements[e]).len() > 0 && elements[e][0] != 0x6a
                && (looked_up.contains(elements[e]) || exists|t: int, o: int|
                0 <= t < transactions.len() && 0 <= o < transactions[t].outputs@.len() && (
                #[trigger] transactions[t].outputs@[o])@ == elements[e]),
        elements.no_duplicates(),
{
    assert forall|t: int, o: int|
        0 <= t < transactions.len() && 0 <= o < transactions[t].outputs@.len() implies {
        let script = (#[trigger] transactions[t].outputs@[o])@;
        elements.contains(script) <==> script.len() > 0 && script[0] != 0x6a
    } by {
        assert(is_output(transactions, transactions[t].outputs@[o]@));
    }
    assert forall|k: int| 0 <= k < looked_up.len() implies (elements.contains(
        #[trigger] looked_up[k],
    ) <==> looked_up[k].len() > 0 && looked_up[k][0] != 0x6a) by {
        assert(looked_up.contains(looked_up[k]));
    }
    assert forall|e: int| 0 <= e < elements.len() implies (#[trigger] elements[e]).len() > 0
        && elements[e][0] != 0x6a && (looked_up.contains(elements[e]) || exists|t: int, o: int|
        0 <= t < transactions.len() && 0 <= o < transactions[t].outputs@.len() && (
        #[trigger] transactions[t].outputs@[o])@ == elements[e]) by {
        assert(elements.contains(elements[e]));
        assert(is_element(transactions, looked_up, elements[e]));
    }
    assert forall|i: int, j: int| 0 <= i < j < elements.len() implies elements[i] != elements[j] by {
        lemma_before_irreflexive(elements[i]);
    }
}

/// Whether a resolver, in some state of its own, answers the lookup of an
/// output so.
pub open spec fn may_answer<P: PreviousOutputs>(outpoint: OutPoint, answer: Answer) -> bool {
    exists|previous: &mut P| #[trigger]
        call_ensures(P::lock_script, (previous, &outpoint), answer)
}

/// Whether these are outputs that a block needs and the answers to their
/// lookups: in order, each from the resolver, and no more after one that is no
/// script.
pub open spec fn asked<P: PreviousOutputs>(
    transactions: Seq<TransparentTx>,
    outpoints: Seq<OutPoint>,
    answers: Seq<Answer>,
) -> bool {
    let failed = first_failure(answers);
    &&& places(outpoints) == needed_by(transactions)
    &&& answers.len() <= outpoints.len()
    &&& forall|i: int|
        0 <= i < answers.len() ==> may_answer::<P>(outpoints[i], #[trigger] answers[i])
    &&& if failed < answers.len() {
        failed == answers.len() - 1
    } else {
        answers.len() == outpoints.len()
    }
}

/// Whether a result is what the answers to lookups come to: the element list
/// with their scripts, or the error of the one that is no script.
pub open spec fn follows(
    elements: Result<Vec<Vec<u8>>, ExtractError>,
    transactions: Seq<TransparentTx>,
    outpoints: Seq<OutPoint>,
    answers: Seq<Answer>,
) -> bool {
    let failed = first_failure(answers);
    match elements {
        Ok(elements) => failed == answers.len() && is_element_list(
            strings(elements@),
            transactions,
            scripts_of(answers),
        ),
        Err(error) => failed < answers.len() && is_failure(
            error,
            outpoints[failed].place(),
            answers[failed],
        ),
    }
}

/// The element list of a block. Every output of an earlier block that it
/// spends is looked up, in order; the first one that is not known, or cannot
/// be looked up, is the error.
pub fn extract_elements<P: PreviousOutputs>(
    transactions: &[TransparentTx],
    previous: &mut P,
) -> (elements: Result<Vec<Vec<u8>>, ExtractError>)
    ensures
        needed_by(transactions@).len() == 0 ==> elements is Ok,
        exists|outpoints: Seq<OutPoint>, answers: Seq<Answer>| #[trigger]
            asked::<P>(transactions@, outpoints, answers) && follows(
                elements,
                transactions@,
                outpoints,
                answers,
            ),
        elements matches Ok(list) ==> {
            &&& forall|t: int, o: int|
                0 <= t < transactions@.len() && 0 <= o < transactions@[t].outputs@.len() ==> {
                    let script = (#[trigger] transactions@[t].outputs@[o])@;
                    strings(list@).contains(script) <==> script.len() > 0 && script[0] != 0x6a
                }
            &&& forall|e: int|
                0 <= e < list@.len() ==> (#[trigger] list@[e])@.len() > 0 && list@[e]@[0] != 0x6a
        },
{
    let outpoints = needed_outpoints(transactions);
    let mut tried: Vec<OutPoint> = Vec::new();
    let mut answers: Vec<Answer> = Vec::new();
    let mut stopped: bool = false;
    let mut i: usize = 0;
    while i < outpoints.len() && !stopped
        invariant
            i <= outpoints.len(),
            answers@.len() == i,
            tried@ == outpoints@.take(i as int),
            stopped ==> i > 0,
            forall|k: int|
                0 <= k < i ==> may_answer::<P>(outpoints@[k], #[trigger] answers@[k]),
            forall|k: int| 0 <= k < i - 1 ==> is_script(#[trigger] answers@[k]),
            i > 0 ==> stopped == !is_script(answers@[i - 1]),
        decreases outpoints.len() - i,
    {
        let outpoint: OutPoint = outpoints[i];
        let answer = previous.lock_script(&outpoint);
        assert(may_answer::<P>(outpoint, answer));
        let found: bool = match &answer {
            Ok(Some(_)) => true,
            _ => false,
        };
        stopped = !found;
        tried.push(outpoint);
        answers.push(answer);
        assert(tried@ =~= outpoints@.take(i + 1));
        i = i + 1;
    }
    let ghost given = answers@;
    proof {
        if stopped {
            lemma_first_failure(given, i - 1);
        } else {
            assert forall|k: int| 0 <= k < i implies is_script(#[trigger] given[k]) by {
                if k == i - 1 {
                    assert(is_script(given[i - 1]));
                }
            }
            lemma_first_failure(given, i as int);
        }
        assert(asked::<P>(transactions@, outpoints@, given));
    }
    let elements = match settle_lookups(&tried, answers) {
        Ok(looked_up) => Ok(assemble_elements(transactions, &looked_up)),
        Err(error) => Err(error),
    };
    proof {
        let failed = first_failure(given);
        if failed < given.len() {
            assert(tried@[failed] == outpoints@[failed]);
        }
        assert(follows(elements, transactions@, outpoints@, given));
        assert(places(outpoints@).len() == outpoints@.len());
        if elements is Ok {
            let list = elements->Ok_0;
            law_no_script_is_left_out(strings(list@), transactions@, scripts_of(given));
            assert forall|e: int| 0 <= e < list@.len() implies (#[trigger] list@[e])@.len() > 0
                && list@[e]@[0] != 0x6a by {
                assert(strings(list@)[e] == list@[e]@);
            }
        }
    }
    elements
}

/// Whether a script is an element when every lookup is answered from one
/// history: `script_of` gives the script of each earlier output.
pub open spec fn is_element_under(
    transactions: Seq<TransparentTx>,
    script_of: spec_fn((Seq<u8>, u32)) -> Seq<u8>,
    script: Seq<u8>,
) -> bool {
    covers_script(script) && (is_output(transactions, script) || exists|place: (Seq<u8>, u32)|
        #[trigger] spent_by(transactions, place) && !created(transactions, place) && script_of(
            place,
        ) == script)
}

/// The elements do not depend on the order of the transactions.
pub proof fn law_elements_are_order_independent(
    a: Seq<TransparentTx>,
    b: Seq<TransparentTx>,
    script_of: spec_fn((Seq<u8>, u32)) -> Seq<u8>,
    script: Seq<u8>,
)
    requires
        forall|tx: TransparentTx| a.contains(tx) <==> b.contains(tx),
    ensures
        is_element_under(a, script_of, script) <==> is_element_under(b, script_of, script),
{
    lemma_same_transactions(a, b, script_of, script);
    lemma_same_transactions(b, a, script_of, script);
}

proof fn lemma_same_transactions(
    a: Seq<TransparentTx>,
    b: Seq<TransparentTx>,
    script_of: spec_fn((Seq<u8>, u32)) -> Seq<u8>,
    script: Seq<u8>,
)
    requires
        forall|tx: TransparentTx| a.contains(tx) <==> b.contains(tx),
    ensures
        is_element_under(a, script_of, script) ==> is_element_under(b, script_of, script),
{
    if is_element_under(a, script_of, script) {
        if is_output(a, script) {
            let (t, o) = choose|t: int, o: int|
                0 <= t < a.len() && 0 <= o < a[t].outputs@.len() && (#[trigger] a[t].outputs@[o])@
                    == script;
            assert(a.contains(a[t]));
            let u = b.index_of(a[t]);
            assert(b[u].outputs@[o]@ == script);
            assert(is_output(b, script));
        } else {
            let place = choose|place: (Seq<u8>, u32)|
                #[trigger] spent_by(a, place) && !created(a, place) && script_of(place) == script;
            let (t, i) = choose|t: int, i: int|
                0 <= t < a.len() && 0 <= i < a[t].inputs@.len() && spends(
                    #[trigger] a[t].inputs@[i],
                    place,
                );
            assert(a.contains(a[t]));
            let u = b.index_of(a[t]);
            assert(spends(b[u].inputs@[i], place));
            assert(spent_by(b, place));
            if created(b, place) {
                let v = choose|v: int|
                    0 <= v < b.len() && (#[trigger] b[v]).txid@ == place.0 && place.1
                        < b[v].outputs@.len();
                assert(b.contains(b[v]));
                let w = a.index_of(b[v]);
                assert(a[w].txid@ == place.0);
                assert(created(a, place));
            }
        }
    }
}

/// Lookups that are answered from one history give the elements under that
/// history.
pub proof fn law_elements_under_a_history(
    transactions: Seq<TransparentTx>,
    script_of: spec_fn((Seq<u8>, u32)) -> Seq<u8>,
    looked_up: Seq<Seq<u8>>,
    script: Seq<u8>,
)
    requires
        answers_all(transactions, looked_up),
        forall|i: int|
            0 <= i < looked_up.len() ==> #[trigger] looked_up[i] == script_of(
                needed_by(transactions)[i],
            ),
    ensures
        is_element(transactions, looked_up, script) <==> is_element_under(
            transactions,
            script_of,
            script,
        ),
{
    let places = needed_by(transactions);
    if looked_up.contains(script) {
        let i = looked_up.index_of(script);
        assert(looked_up[i] == script_of(places[i]));
        assert(places.contains(places[i]));
        law_lookups_are_for_outside_spends(transactions, places[i]);
        assert(spent_by(transactions, places[i]));
    }
    if exists|place: (Seq<u8>, u32)|
        #[trigger] spent_by(transactions, place) && !created(transactions, place) && script_of(
            place,
        ) == script {
        let place = choose|place: (Seq<u8>, u32)|
            #[trigger] spent_by(transactions, place) && !created(transactions, place) && script_of(
                place,
            ) == script;
        law_lookups_are_for_outside_spends(transactions, place);
        let i = places.index_of(place);
        assert(looked_up[i] == script);
    }
}

/// Where extraction succeeds, every lookup gave a script, there was one lookup for
/// each output that is needed, and a script is in the list exactly where it is not
/// empty, does not begin with the byte of `OP_RETURN`, and the block creates it or a
/// lookup gave it.
pub proof fn law_extraction_lists_exactly_the_scripts<P: PreviousOutputs>(
    elements: Vec<Vec<u8>>,
    transactions: Seq<TransparentTx>,
    outpoints: Seq<OutPoint>,
    answers: Seq<Answer>,
    script: Seq<u8>,
)
    requires
        asked::<P>(transactions, outpoints, answers),
        follows(Ok(elements), transactions, outpoints, answers),
    ensures
        answers.len() == needed_by(transactions).len(),
        forall|k: int|
            0 <= k < answers.len() ==> (#[trigger] answers[k]) is Ok && answers[k]->Ok_0 is Some,
        strings(elements@).contains(script) <==> {
            &&& script.len() > 0
            &&& script[0] != 0x6a
            &&& (exists|t: int, o: int|
                0 <= t < transactions.len() && 0 <= o < transactions[t].outputs@.len() && (
                #[trigger] transactions[t].outputs@[o])@ == script) || (exists|k: int|
                0 <= k < answers.len() && (#[trigger] answers[k])->Ok_0->Some_0@ == script)
        },
{
    lemma_scripts_before_failure(answers);
    assert(places(outpoints).len() == outpoints.len());
    assert(is_element(transactions, scripts_of(answers), script) == strings(elements@).contains(
        script,
    ));
    if scripts_of(answers).contains(script) {
        let k = scripts_of(answers).index_of(script);
        assert(answers[k]->Ok_0->Some_0@ == script);
    }
    if exists|k: int| 0 <= k < answers.len() && (#[trigger] answers[k])->Ok_0->Some_0@ == script {
        let k = choose|k: int|
            0 <= k < answers.len() && (#[trigger] answers[k])->Ok_0->Some_0@ == script;
        assert(scripts_of(answers)[k] == script);
    }
}

/// Where extraction fails, the last lookup that was made is the one that gave no
/// script, all before it did, and the error names its output.
pub proof fn law_extraction_fails_at_the_first_lookup_without_a_script<P: PreviousOutputs>(
    error: ExtractError,
    transactions: Seq<TransparentTx>,
    outpoints: Seq<OutPoint>,
    answers: Seq<Answer>,
)
    requires
        asked::<P>(transactions, outpoints, answers),
        follows(Err(error), transactions, outpoints, answers),
    ensures
        0 < answers.len() <= needed_by(transactions).len(),
        forall|k: int|
            0 <= k < answers.len() - 1 ==> (#[trigger] answers[k]) is Ok && answers[k]->Ok_0 is Some,
        ({
            let spent = needed_by(transactions)[answers.len() - 1];
            match answers.last() {
                Ok(found) => found is None && (error matches ExtractError::MissingPreviousOutput(
                    label,
                ) && label@ == display_hex(spent.0) + ":"@ + decimal(spent.1 as nat)),
                Err(words) => error matches ExtractError::Lookup { outpoint, source } && outpoint@
                    == display_hex(spent.0) + ":"@ + decimal(spent.1 as nat) && source@ == words@,
            }
        }),
{
    lemma_scripts_before_failure(answers);
    assert(places(outpoints)[answers.len() - 1] == outpoints[answers.len() - 1].place());
}

proof fn lemma_scripts_before_failure(answers: Seq<Answer>)
    ensures
        0 <= first_failure(answers) <= answers.len(),
        forall|k: int|
            0 <= k < first_failure(answers) ==> is_script(#[trigger] answers[k]),
    decreases answers.len(),
{
    if answers.len() > 0 && is_script(answers[0]) {
        let rest = answers.drop_first();
        lemma_scripts_before_failure(rest);
        assert forall|k: int| 0 <= k < first_failure(answers) implies is_script(
            #[trigger] answers[k],
        ) by {
            if k > 0 {
                assert(rest[k - 1] == answers[k]);
            }
        }
    }
}

} // verus!
