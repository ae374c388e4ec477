//! What the filter service makes of the node's cookie and replies.

use std::sync::Arc;
use vstd::prelude::*;
use zakura_chain::block::Block;
use zakura_chain::serialization::ZcashDeserialize;
use zakura_chain::transaction::Transaction;
use zakura_chain::transparent::Input;

use crate::digest::{hex_bytes, hex_decode, hex_fault, is_hex};
use crate::filter::types::{BlockHash, OutPoint, TransparentTx, TxInput, TxParts};
use crate::text::{push_signed, signed_decimal, split_first, split_once_at, trim_text, trimmed};

verus! {

/// User name and password of a cookie.
pub open spec fn cookie_parts(cookie: Seq<char>) -> Option<(Seq<char>, Seq<char>)> {
    match split_first(trimmed(cookie), ':') {
        Some((username, password)) => if username.len() == 0 || password.len() == 0 {
            None
        } else {
            Some((username, password))
        },
        None => None,
    }
}

/// Reads a cookie: user name and password, parted by the first colon, neither
/// of them empty.
pub fn parse_cookie(cookie: &str) -> (parts: Option<(String, String)>)
    ensures
        match parts {
            Some((username, password)) => cookie_parts(cookie@) == Some((username@, password@)),
            None => cookie_parts(cookie@) is None,
        },
{
    let text = trim_text(cookie);
    match split_once_at(text.as_str(), ':') {
        Some((username, password)) => {
            if username.as_str().unicode_len() == 0 || password.as_str().unicode_len() == 0 {
                None
            } else {
                Some((username, password))
            }
        },
        None => None,
    }
}

/// Why nothing came of a call to the node.
#[derive(Debug, PartialEq, Eq)]
pub enum ZakuraError {
    Http(String),
    Cookie(String),
    InvalidCookie,
    Rpc(i64, String),
    MissingResult,
    Hex(String),
    Block(String),
    /// The transaction's id, and why it could not be read.
    Transaction(String, String),
}

impl ZakuraError {
    /// The error in words.
    pub open spec fn words(&self) -> Seq<char> {
        match self {
            ZakuraError::Http(reason) => "HTTP error: "@ + reason@,
            ZakuraError::Cookie(reason) => "cookie error: "@ + reason@,
            ZakuraError::InvalidCookie => "invalid RPC cookie"@,
            ZakuraError::Rpc(code, message) => "RPC returned "@ + signed_decimal(*code as int)
                + ": "@ + message@,
            ZakuraError::MissingResult => "RPC response is missing a result"@,
            ZakuraError::Hex(reason) => "invalid hex: "@ + reason@,
            ZakuraError::Block(reason) => "could not parse block: "@ + reason@,
            ZakuraError::Transaction(txid, reason) => "could not parse transaction "@ + txid@
                + ": "@ + reason@,
        }
    }

    pub fn message(&self) -> (text: String)
        ensures
            text@ == self.words(),
    {
        match self {
            ZakuraError::Http(reason) => joined("HTTP error: ", reason.as_str()),
            ZakuraError::Cookie(reason) => joined("cookie error: ", reason.as_str()),
            ZakuraError::InvalidCookie => String::from_str("invalid RPC cookie"),
            ZakuraError::Rpc(code, message) => {
                let mut text = String::from_str("RPC returned ");
                push_signed(&mut text, *code);
                text.append(": ");
                text.append(message.as_str());
                text
            },
            ZakuraError::MissingResult => String::from_str("RPC response is missing a result"),
            ZakuraError::Hex(reason) => joined("invalid hex: ", reason.as_str()),
            ZakuraError::Block(reason) => joined("could not parse block: ", reason.as_str()),
            ZakuraError::Transaction(txid, reason) => {
                let mut text = joined("could not parse transaction ", txid.as_str());
                text.append(": ");
                text.append(reason.as_str());
                text
            },
        }
    }
}

fn joined(head: &str, tail: &str) -> (text: String)
    ensures
        text@ == head@ + tail@,
{
    let mut text = String::from_str(head);
    text.append(tail);
    text
}

/// Code of the error for a transaction that the node does not have.
pub const NO_TRANSACTION_CODE: i64 = -5;

/// What a reply holds.
pub fn check_reply<T>(unauthorized: bool, error: Option<(i64, String)>, result: Option<T>) -> (reply:
    Result<T, ZakuraError>)
    ensures
        reply == (if unauthorized {
            Err(ZakuraError::InvalidCookie)
        } else {
            match error {
                Some((code, message)) => Err(ZakuraError::Rpc(code, message)),
                None => match result {
                    Some(result) => Ok(result),
                    None => Err(ZakuraError::MissingResult),
                },
            }
        }),
{
    if unauthorized {
        return Err(ZakuraError::InvalidCookie);
    }
    match error {
        Some((code, message)) => Err(ZakuraError::Rpc(code, message)),
        None => match result {
            Some(result) => Ok(result),
            None => Err(ZakuraError::MissingResult),
        },
    }
}

/// A reply to a request for a transaction: one that the node does not have is
/// no failure, but nothing either.
pub fn optional_reply<T>(reply: Result<T, ZakuraError>) -> (found: Result<Option<T>, ZakuraError>)
    ensures
        found == (match reply {
            Ok(result) => Ok(Some(result)),
            Err(ZakuraError::Rpc(code, message)) => if code == NO_TRANSACTION_CODE {
                Ok(None)
            } else {
                Err(ZakuraError::Rpc(code, message))
            },
            Err(failure) => Err(failure),
        }),
{
    match reply {
        Ok(result) => Ok(Some(result)),
        Err(ZakuraError::Rpc(code, message)) => {
            if code == NO_TRANSACTION_CODE {
                Ok(None)
            } else {
                Err(ZakuraError::Rpc(code, message))
            }
        },
        Err(failure) => Err(failure),
    }
}

#[verifier::external_type_specification]
#[verifier::external_body]
pub struct ExBlock(Block);

#[verifier::external_type_specification]
#[verifier::external_body]
pub struct ExTransaction(Transaction);

/// Transparent part of a transaction.
pub uninterp spec fn parts_of(transaction: Transaction) -> TxParts;

/// Whether a transaction can be written again, which every one that was read
/// can: its id is computed from that.
pub uninterp spec fn writable(transaction: Transaction) -> bool;

/// Transparent part of the transaction that bytes start with, if they start
/// with one.
pub uninterp spec fn transaction_in(raw: Seq<u8>) -> Option<TxParts>;

/// What is said of bytes that start with no transaction.
pub uninterp spec fn transaction_fault(raw: Seq<u8>) -> Seq<char>;

/// Calls `zakura_chain::transaction::Transaction::zcash_deserialize`, and
/// `to_string` on its error. Whether it reads a transaction, and which, and
/// what it says otherwise, depends on the bytes alone.
#[verifier::external_body]
pub(crate) fn read_transaction(raw: &[u8]) -> (transaction: Result<Transaction, String>)
    ensures
        match transaction {
            Ok(transaction) => {
                &&& transaction_in(raw@) == Some(parts_of(transaction))
                &&& writable(transaction)
            },
            Err(message) => {
                &&& transaction_in(raw@) is None
                &&& message@ == transaction_fault(raw@)
            },
        },
{
    Transaction::zcash_deserialize(raw).map_err(|error| error.to_string())
}

/// Takes a transaction's transparent part out of it, one thing for one:
/// `Transaction::hash`, `inputs` and `outputs`.
#[verifier::external_body]
pub(crate) fn transparent_part(transaction: &Transaction) -> (part: TransparentTx)
    requires
        writable(*transaction),
    ensures
        part.parts() == parts_of(*transaction),
{
    let inputs = transaction.inputs().iter().map(|input| match input {
        Input::Coinbase { .. } => TxInput::Coinbase,
        Input::PrevOut { outpoint, .. } => TxInput::PrevOut(
            OutPoint { hash: outpoint.hash.0, index: outpoint.index },
        ),
    }).collect();
    let outputs = transaction.outputs().iter().map(
        |output| output.lock_script.as_raw_bytes().to_vec(),
    ).collect();
    TransparentTx { txid: transaction.hash().0, inputs, outputs }
}

/// Hash of a block, and the transparent parts of its transactions.
pub uninterp spec fn contents_of(block: Block) -> (Seq<u8>, Seq<TxParts>);

/// Hash of the block that bytes start with, and the transparent parts of its
/// transactions.
pub uninterp spec fn block_in(raw: Seq<u8>) -> Option<(Seq<u8>, Seq<TxParts>)>;

/// What is said of bytes that start with no block.
pub uninterp spec fn block_fault(raw: Seq<u8>) -> Seq<char>;

/// Whether a block came from bytes: its header has a version that can be
/// written again, and so can its transactions.
pub uninterp spec fn was_read(block: Block) -> bool;

/// Calls `zakura_chain::block::Block::zcash_deserialize`, and `to_string` on
/// its error. Whether it reads a block, and which, and what it says otherwise,
/// depends on the bytes alone.
#[verifier::external_body]
pub(crate) fn read_block(raw: &[u8]) -> (block: Result<Block, String>)
    ensures
        match block {
            Ok(block) => {
                &&& block_in(raw@) == Some(contents_of(block))
                &&& was_read(block)
            },
            Err(message) => {
                &&& block_in(raw@) is None
                &&& message@ == block_fault(raw@)
            },
        },
{
    Block::zcash_deserialize(raw).map_err(|error| error.to_string())
}

/// Calls `zakura_chain::block::Block::hash`, which writes the header again.
#[verifier::external_body]
pub(crate) fn hash_of(block: &Block) -> (hash: [u8; 32])
    requires
        was_read(*block),
    ensures
        hash@ == contents_of(*block).0,
{
    block.hash().0
}

/// Takes the transactions out of a block that was read.
#[verifier::external_body]
pub(crate) fn transactions_of(block: Block) -> (transactions: Vec<Arc<Transaction>>)
    requires
        was_read(block),
    ensures
        transactions@.len() == contents_of(block).1.len(),
        forall|i: int|
            0 <= i < transactions@.len() ==> {
                &&& parts_of(*#[trigger] transactions@[i]) == contents_of(block).1[i]
                &&& writable(*transactions@[i])
            },
{
    block.transactions
}

/// A block, as far as its transparent part goes.
#[derive(Debug)]
pub struct TransparentBlock {
    pub hash: BlockHash,
    pub transactions: Vec<TransparentTx>,
}

impl TransparentBlock {
    pub open spec fn contents(&self) -> (Seq<u8>, Seq<TxParts>) {
        (
            self.hash@,
            Seq::new(self.transactions@.len(), |i: int| self.transactions@[i].parts()),
        )
    }
}

/// Reads a block from the hexadecimal text that the node answers with.
pub fn block(raw_hex: &str) -> (block: Result<TransparentBlock, ZakuraError>)
    ensures
        match block {
            Ok(block) => {
                &&& is_hex(raw_hex@)
                &&& block_in(hex_bytes(raw_hex@)) == Some(block.contents())
            },
            Err(ZakuraError::Hex(reason)) => !is_hex(raw_hex@) && reason@ == hex_fault(raw_hex@),
            Err(ZakuraError::Block(reason)) => {
                &&& is_hex(raw_hex@)
                &&& block_in(hex_bytes(raw_hex@)) is None
                &&& reason@ == block_fault(hex_bytes(raw_hex@))
            },
            Err(_) => false,
        },
{
    let raw = match hex_decode(raw_hex) {
        Ok(raw) => raw,
        Err(reason) => {
            return Err(ZakuraError::Hex(reason));
        },
    };
    let block = match read_block(raw.as_slice()) {
        Ok(block) => block,
        Err(reason) => {
            return Err(ZakuraError::Block(reason));
        },
    };
    let hash = BlockHash::from_internal_bytes(hash_of(&block));
    let ghost contents = contents_of(block);
    let list = transactions_of(block);
    let mut transactions: Vec<TransparentTx> = Vec::new();
    let mut i: usize = 0;
    while i < list.len()
        invariant
            i <= list.len(),
            list@.len() == contents.1.len(),
            forall|k: int|
                0 <= k < list@.len() ==> parts_of(*#[trigger] list@[k]) == contents.1[k] && writable(
                    *list@[k],
                ),
            transactions@.len() == i,
            forall|k: int| 0 <= k < i ==> (#[trigger] transactions@[k]).parts() == contents.1[k],
        decreases list.len() - i,
    {
        assert(writable(*list@[i as int]));
        transactions.push(transparent_part(&*list[i]));
        i = i + 1;
    }
    let block = TransparentBlock { hash, transactions };
    assert(block.contents().1 =~= contents.1);
    Ok(block)
}

/// Reads a transaction from the hexadecimal text that the node answers with.
pub fn transaction(txid: &str, raw_hex: &str) -> (transaction: Result<TransparentTx, ZakuraError>)
    ensures
        match transaction {
            Ok(transaction) => {
                &&& is_hex(raw_hex@)
                &&& transaction_in(hex_bytes(raw_hex@)) == Some(transaction.parts())
            },
            Err(ZakuraError::Hex(reason)) => !is_hex(raw_hex@) && reason@ == hex_fault(raw_hex@),
            Err(ZakuraError::Transaction(id, reason)) => {
                &&& is_hex(raw_hex@)
                &&& transaction_in(hex_bytes(raw_hex@)) is None
                &&& id@ == txid@
                &&& reason@ == transaction_fault(hex_bytes(raw_hex@))
            },
            Err(_) => false,
        },
{
    let raw = match hex_decode(raw_hex) {
        Ok(raw) => raw,
        Err(reason) => {
            return Err(ZakuraError::Hex(reason));
        },
    };
    match read_transaction(raw.as_slice()) {
        Ok(transaction) => Ok(transparent_part(&transaction)),
        Err(reason) => Err(ZakuraError::Transaction(String::from_str(txid), reason)),
    }
}

/// A cookie is a user name and a password with a colon between them, neither empty and
/// no colon in the name, with nothing but white space around.
pub proof fn law_cookies_part_at_the_first_colon(cookie: Seq<char>)
    ensures
        match cookie_parts(cookie) {
            Some((username, password)) => {
                &&& trimmed(cookie) == username.push(':') + password
                &&& username.len() > 0
                &&& password.len() > 0
                &&& !username.contains(':')
            },
            None => {
                ||| !trimmed(cookie).contains(':')
                ||| trimmed(cookie)[0] == ':'
                ||| forall|i: int|
                    0 <= i < trimmed(cookie).len() - 1 ==> #[trigger] trimmed(cookie)[i] != ':'
            },
        },
{
    let text = trimmed(cookie);
    crate::text::law_texts_split_at_the_first_separator(text, ':');
    if let Some((username, password)) = split_first(text, ':') {
        if username.len() > 0 && password.len() == 0 {
            assert forall|i: int| 0 <= i < text.len() - 1 implies #[trigger] text[i] != ':' by {
                assert(text[i] == username[i]);
            }
        } else if username.len() == 0 {
            assert((username.push(':') + password)[0] == ':');
        }
    }
}

} // verus!
