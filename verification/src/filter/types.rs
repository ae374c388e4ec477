//! Hashes, scripts and transactions, as far as the filters look at them.

use vstd::prelude::*;

use crate::bytemap::same_bytes;
use crate::digest::{hex_bytes, hex_decode, hex_encode, hex_text, is_hex, law_hex_round_trip};

verus! {

/// Copies 32 bytes into an array.
pub fn thirty_two(bytes: &[u8]) -> (out: [u8; 32])
    requires
        bytes.len() == 32,
    ensures
        out@ == bytes@,
{
    let mut out = [0u8;32];
    let mut i: usize = 0;
    while i < 32
        invariant
            i <= 32,
            bytes.len() == 32,
            forall|j: int| 0 <= j < i ==> out@[j] == bytes@[j],
        decreases 32 - i,
    {
        let ghost before = out@;
        out[i] = bytes[i];
        assert(out@ == before.update(i as int, bytes@[i as int]));
        i = i + 1;
    }
    assert(out@ =~= bytes@);
    out
}

/// The bytes from last to first.
pub fn reversed(bytes: &[u8]) -> (out: Vec<u8>)
    ensures
        out@ == bytes@.reverse(),
{
    let mut out: Vec<u8> = Vec::new();
    let mut left: usize = bytes.len();
    while left > 0
        invariant
            left <= bytes.len(),
            out@.len() == bytes.len() - left,
            forall|i: int| 0 <= i < out@.len() ==> out@[i] == bytes@[bytes@.len() - 1 - i],
        decreases left,
    {
        left = left - 1;
        out.push(bytes[left]);
    }
    assert(out@ =~= bytes@.reverse());
    out
}

/// A hash as people read it: the bytes from last to first, in hexadecimal.
pub open spec fn display_hex(bytes: Seq<u8>) -> Seq<char> {
    hex_text(bytes.reverse())
}

/// Hash of a block, in internal byte order.
#[derive(Clone, Copy, Debug, PartialEq, Eq)]
pub struct BlockHash {
    bytes: [u8; 32],
}

impl View for BlockHash {
    type V = Seq<u8>;

    closed spec fn view(&self) -> Seq<u8> {
        self.bytes@
    }
}

impl BlockHash {
    pub fn from_internal_bytes(bytes: [u8; 32]) -> (hash: BlockHash)
        ensures
            hash@ == bytes@,
    {
        BlockHash { bytes }
    }

    /// A hash has 32 bytes.
    pub proof fn lemma_len(&self)
        ensures
            self@.len() == 32,
    {
    }

    pub fn internal_bytes(&self) -> (bytes: &[u8; 32])
        ensures
            bytes@ == self@,
    {
        &self.bytes
    }

    pub fn to_display_hex(&self) -> (text: String)
        ensures
            text@ == display_hex(self@),
    {
        hex_encode(reversed(&self.bytes).as_slice())
    }

    /// The hash that a display text stands for: 64 hexadecimal digits of
    /// either case.
    pub fn from_display_hex(text: &str) -> (hash: Option<BlockHash>)
        ensures
            match hash {
                Some(hash) => is_hex(text@) && text@.len() == 64 && hash@ == hex_bytes(
                    text@,
                ).reverse(),
                None => !(is_hex(text@) && text@.len() == 64),
            },
    {
        match hex_decode(text) {
            Ok(bytes) => if bytes.len() == 32 {
                Some(BlockHash { bytes: thirty_two(reversed(bytes.as_slice()).as_slice()) })
            } else {
                None
            },
            Err(_) => None,
        }
    }

    pub fn same(&self, other: &BlockHash) -> (same: bool)
        ensures
            same == (self@ == other@),
    {
        same_bytes(&self.bytes, &other.bytes)
    }
}

/// The display text of a hash reads back as the hash.
pub proof fn law_display_hex_round_trip(hash: BlockHash)
    ensures
        is_hex(display_hex(hash@)),
        display_hex(hash@).len() == 64,
        hex_bytes(display_hex(hash@)).reverse() == hash@,
{
    hash.lemma_len();
    law_hex_round_trip(hash@.reverse());
    assert(hash@.reverse().reverse() =~= hash@);
}

/// First byte of a script whose output cannot be spent.
pub const OP_RETURN: u8 = 0x6a;

/// Whether a filter covers a script: it is not empty, and its first opcode is
/// not `OP_RETURN`.
pub open spec fn covers_script(script: Seq<u8>) -> bool {
    script.len() > 0 && script[0] != OP_RETURN
}

pub fn is_filter_element(script: &[u8]) -> (covered: bool)
    ensures
        covered == covers_script(script@),
{
    script.len() > 0 && script[0] != OP_RETURN
}

/// An output of an earlier transaction.
#[derive(Clone, Copy, Debug, PartialEq, Eq)]
pub struct OutPoint {
    /// Transaction id, in internal byte order.
    pub hash: [u8; 32],
    pub index: u32,
}

impl OutPoint {
    /// The outpoint as a value.
    pub open spec fn place(&self) -> (Seq<u8>, u32) {
        (self.hash@, self.index)
    }
}

/// What a transaction input spends.
#[derive(Clone, Copy, Debug, PartialEq, Eq)]
pub enum TxInput {
    Coinbase,
    PrevOut(OutPoint),
}

impl TxInput {
    /// What it spends, if anything.
    pub open spec fn spent(&self) -> Option<(Seq<u8>, u32)> {
        match self {
            TxInput::Coinbase => None,
            TxInput::PrevOut(outpoint) => Some(outpoint.place()),
        }
    }
}

/// The transparent part of a transaction: its id, what its inputs spend, and
/// the locking scripts of its outputs.
pub type TxParts = (Seq<u8>, Seq<Option<(Seq<u8>, u32)>>, Seq<Seq<u8>>);

/// A transaction, as far as its transparent part goes.
#[derive(Debug, PartialEq, Eq)]
pub struct TransparentTx {
    /// Transaction id, in internal byte order.
    pub txid: [u8; 32],
    pub inputs: Vec<TxInput>,
    /// Locking scripts of the outputs.
    pub outputs: Vec<Vec<u8>>,
}

impl TransparentTx {
    pub open spec fn parts(&self) -> TxParts {
        (
            self.txid@,
            Seq::new(self.inputs@.len(), |i: int| self.inputs@[i].spent()),
            Seq::new(self.outputs@.len(), |i: int| self.outputs@[i]@),
        )
    }
}

/// A hash is shown from its last byte to its first, each byte as two digits.
pub proof fn law_hashes_are_shown_from_the_last_byte(bytes: Seq<u8>, i: int)
    requires
        0 <= i < bytes.len(),
    ensures
        display_hex(bytes).len() == 2 * bytes.len(),
        display_hex(bytes)[2 * i] == "0123456789abcdef"@[bytes[bytes.len() - 1 - i] as int / 16],
        display_hex(bytes)[2 * i + 1] == "0123456789abcdef"@[bytes[bytes.len() - 1 - i] as int % 16],
{
    crate::digest::law_hex_digits(bytes.reverse(), i);
}

} // verus!
