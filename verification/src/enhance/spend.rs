//! Reorg-aware log of transparent spends.
//!
//! Entries are fixed-width byte strings. A fixed-width append-only block index
//! avoids rewriting a multi-million-block manifest during a backfill; a
//! checkpoint says how many blocks of it are committed. The journal owns the
//! images of both files; reading and writing them is left to the caller.

use vstd::prelude::*;

use crate::codec::{
    copy_range, le_bytes, le_value, lemma_byte_spans, lemma_le_bytes_len, lemma_read_written_field,
    lemma_write_read_field, push_bytes, push_le, read_le, zeros,
};
use crate::digest::{hex_bytes, hex_decode, hex_encode, hex_text, is_hex, law_hex_round_trip};

verus! {

/// Width of one block record in the index.
pub const BLOCK_BYTES: usize = 56;

/// Blocks below the tip that the warm table covers.
pub const WARM_BLOCKS: u64 = 100_000;

/// The eight bytes an index starts with: `TSPBLK01`.
pub open spec fn index_magic() -> Seq<u8> {
    seq![84u8, 83u8, 80u8, 66u8, 76u8, 75u8, 48u8, 49u8]
}

/// One indexed block.
#[derive(Debug)]
pub struct SpendBlock {
    pub height: u64,
    pub hash: String,
    pub first_position: u64,
    pub entry_count: u64,
}

/// Why a spend journal refused something.
#[derive(Debug, Clone, Copy, PartialEq, Eq, Structural)]
pub enum SpendError {
    /// The index does not start with its magic bytes.
    InvalidIndex,
    /// The checkpoint does not fit the machine's word.
    CheckpointExceedsWord,
    /// The checkpoint counts more blocks than the index holds.
    CheckpointExceedsIndex,
    /// Two neighbouring index records do not continue one another.
    NonContiguousIndex,
    /// The indexed entries do not fit in memory.
    EntriesExceedMemory,
    /// A block does not follow the last one.
    NonContiguousBlock,
    /// A block hash is not 32 bytes of hexadecimal.
    InvalidHash,
    /// Entries outside the log were asked for.
    OutsideLog,
}

impl SpendError {
    /// The message shown to an operator.
    pub fn message(&self) -> (text: &'static str)
        ensures
            text@ == (match self {
                SpendError::InvalidIndex => "invalid transparent-spend block index"@,
                SpendError::CheckpointExceedsWord => "checkpoint exceeds usize"@,
                SpendError::CheckpointExceedsIndex =>
                    "transparent-spend checkpoint exceeds block index"@,
                SpendError::NonContiguousIndex => "non-contiguous transparent-spend block index"@,
                SpendError::EntriesExceedMemory => "transparent-spend entries exceed memory"@,
                SpendError::NonContiguousBlock => "transparent-spend blocks must be contiguous"@,
                SpendError::InvalidHash => "invalid block hash"@,
                SpendError::OutsideLog => "failed to fill whole buffer"@,
            }),
    {
        match self {
            SpendError::InvalidIndex => "invalid transparent-spend block index",
            SpendError::CheckpointExceedsWord => "checkpoint exceeds usize",
            SpendError::CheckpointExceedsIndex => "transparent-spend checkpoint exceeds block index",
            SpendError::NonContiguousIndex => "non-contiguous transparent-spend block index",
            SpendError::EntriesExceedMemory => "transparent-spend entries exceed memory",
            SpendError::NonContiguousBlock => "transparent-spend blocks must be contiguous",
            SpendError::InvalidHash => "invalid block hash",
            SpendError::OutsideLog => "failed to fill whole buffer",
        }
    }
}

/// Whether a text is a 32-byte hash in hexadecimal.
pub open spec fn is_hash(text: Seq<char>) -> bool {
    is_hex(text) && text.len() == 64
}

/// The index record of a block.
pub open spec fn block_record(block: SpendBlock) -> Seq<u8> {
    le_bytes(block.height as nat, 8) + hex_bytes(block.hash@) + le_bytes(
        block.first_position as nat,
        8,
    ) + le_bytes(block.entry_count as nat, 8)
}

/// Whether a block is what an index record says.
pub open spec fn reads_as(record: Seq<u8>, block: SpendBlock) -> bool {
    &&& block.height == le_value(record.subrange(0, 8))
    &&& block.hash@ == hex_text(record.subrange(8, 40))
    &&& block.first_position == le_value(record.subrange(40, 48))
    &&& block.entry_count == le_value(record.subrange(48, 56))
}

/// The records of blocks, one after the other.
pub open spec fn index_body(blocks: Seq<SpendBlock>) -> Seq<u8>
    decreases blocks.len(),
{
    if blocks.len() == 0 {
        Seq::empty()
    } else {
        index_body(blocks.drop_last()) + block_record(blocks.last())
    }
}

/// A whole index file.
pub open spec fn index_image(blocks: Seq<SpendBlock>) -> Seq<u8> {
    index_magic() + index_body(blocks)
}

/// The record of block `i` in an index file.
pub open spec fn index_record(index: Seq<u8>, i: int) -> Seq<u8> {
    index.subrange(8 + 56 * i, 8 + 56 * (i + 1))
}

/// Whether `b` may come right after `a`.
pub open spec fn links(a: SpendBlock, b: SpendBlock) -> bool {
    &&& a.height + 1 == b.height
    &&& a.first_position + a.entry_count == b.first_position
}

pub open spec fn contiguous(blocks: Seq<SpendBlock>) -> bool {
    forall|i: int| 0 <= i < blocks.len() - 1 ==> links(#[trigger] blocks[i], blocks[i + 1])
}

/// Whether two neighbouring records continue one another.
pub open spec fn records_link(a: Seq<u8>, b: Seq<u8>) -> bool {
    &&& le_value(a.subrange(0, 8)) + 1 == le_value(b.subrange(0, 8))
    &&& le_value(a.subrange(40, 48)) + le_value(a.subrange(48, 56)) == le_value(
        b.subrange(40, 48),
    )
}

/// Entries that a block list accounts for.
pub open spec fn total_entries(blocks: Seq<SpendBlock>) -> nat {
    if blocks.len() == 0 {
        0
    } else {
        (blocks.last().first_position + blocks.last().entry_count) as nat
    }
}

/// Cut or zero-extended to a length.
pub open spec fn resized(bytes: Seq<u8>, len: nat) -> Seq<u8> {
    if len <= bytes.len() {
        bytes.take(len as int)
    } else {
        bytes + zeros((len - bytes.len()) as nat)
    }
}

proof fn lemma_record_len(block: SpendBlock)
    requires
        is_hash(block.hash@),
    ensures
        block_record(block).len() == 56,
        hex_bytes(block.hash@).len() == 32,
{
    lemma_le_bytes_len(block.height as nat, 8);
    lemma_le_bytes_len(block.first_position as nat, 8);
    lemma_le_bytes_len(block.entry_count as nat, 8);
}

/// A record read from the index is written back as it was.
proof fn lemma_record_of_read(record: Seq<u8>, block: SpendBlock)
    requires
        record.len() == 56,
        reads_as(record, block),
    ensures
        is_hash(block.hash@),
        block_record(block) == record,
{
    let a = record.subrange(0, 8);
    let h = record.subrange(8, 40);
    let b = record.subrange(40, 48);
    let c = record.subrange(48, 56);
    law_hex_round_trip(h);
    lemma_write_read_field(a);
    lemma_write_read_field(b);
    lemma_write_read_field(c);
    assert(block_record(block) =~= a + h + b + c);
    assert(a + h + b + c =~= record);
}

/// A written record reads as the block, its hash in lowercase.
pub proof fn law_block_record_round_trip(block: SpendBlock)
    requires
        is_hash(block.hash@),
    ensures
        le_value(block_record(block).subrange(0, 8)) == block.height,
        hex_text(block_record(block).subrange(8, 40)) == hex_text(hex_bytes(block.hash@)),
        le_value(block_record(block).subrange(40, 48)) == block.first_position,
        le_value(block_record(block).subrange(48, 56)) == block.entry_count,
{
    lemma_record_len(block);
    let a = le_bytes(block.height as nat, 8);
    let h = hex_bytes(block.hash@);
    let b = le_bytes(block.first_position as nat, 8);
    let c = le_bytes(block.entry_count as nat, 8);
    lemma_le_bytes_len(block.height as nat, 8);
    lemma_le_bytes_len(block.first_position as nat, 8);
    lemma_le_bytes_len(block.entry_count as nat, 8);
    let record = block_record(block);
    assert(record.subrange(0, 8) =~= a);
    assert(record.subrange(8, 40) =~= h);
    assert(record.subrange(40, 48) =~= b);
    assert(record.subrange(48, 56) =~= c);
    lemma_byte_spans();
    lemma_read_written_field(block.height as nat, 8);
    lemma_read_written_field(block.first_position as nat, 8);
    lemma_read_written_field(block.entry_count as nat, 8);
}

proof fn lemma_index_body(blocks: Seq<SpendBlock>)
    requires
        forall|i: int| 0 <= i < blocks.len() ==> is_hash((#[trigger] blocks[i]).hash@),
    ensures
        index_body(blocks).len() == 56 * blocks.len(),
        forall|i: int|
            0 <= i < blocks.len() ==> index_record(index_image(blocks), i) == block_record(
                #[trigger] blocks[i],
            ),
    decreases blocks.len(),
{
    if blocks.len() > 0 {
        let head = blocks.drop_last();
        lemma_index_body(head);
        lemma_record_len(blocks.last());
        assert forall|i: int| 0 <= i < blocks.len() implies index_record(index_image(blocks), i)
            == block_record(#[trigger] blocks[i]) by {
            if i < head.len() {
                assert(head[i] == blocks[i]);
                assert(index_record(index_image(blocks), i) =~= index_record(index_image(head), i));
            } else {
                assert(index_record(index_image(blocks), i) =~= block_record(blocks.last()));
            }
        }
    }
}

proof fn lemma_index_body_take(blocks: Seq<SpendBlock>, keep: int)
    requires
        0 <= keep <= blocks.len(),
        forall|i: int| 0 <= i < blocks.len() ==> is_hash((#[trigger] blocks[i]).hash@),
    ensures
        index_image(blocks.take(keep)) == index_image(blocks).take(8 + 56 * keep),
    decreases blocks.len(),
{
    lemma_index_body(blocks);
    if keep == blocks.len() {
        assert(blocks.take(keep) == blocks);
        assert(index_image(blocks).take(8 + 56 * keep) =~= index_image(blocks));
    } else {
        let head = blocks.drop_last();
        lemma_index_body_take(head, keep);
        lemma_index_body(head);
        assert(head.take(keep) == blocks.take(keep));
        assert(index_image(blocks).take(8 + 56 * keep) =~= index_image(head).take(8 + 56 * keep));
    }
}

proof fn lemma_heights(blocks: Seq<SpendBlock>, i: int, j: int)
    requires
        contiguous(blocks),
        0 <= i <= j < blocks.len(),
    ensures
        blocks[j].height == blocks[i].height + (j - i),
        blocks[i].first_position <= blocks[j].first_position,
        i < j ==> blocks[i].first_position + blocks[i].entry_count <= blocks[j].first_position,
    decreases j - i,
{
    if i < j {
        lemma_heights(blocks, i, j - 1);
        assert(links(blocks[j - 1], blocks[j - 1 + 1]));
    }
}

/// The log, its block index, and the blocks decoded from it.
pub struct SpendJournal {
    entry_bytes: usize,
    blocks: Vec<SpendBlock>,
    entries: Vec<u8>,
    index: Vec<u8>,
}

impl SpendJournal {
    /// Width of one entry.
    pub closed spec fn width(&self) -> nat {
        self.entry_bytes as nat
    }

    /// Indexed blocks, oldest first.
    pub closed spec fn history(&self) -> Seq<SpendBlock> {
        self.blocks@
    }

    /// The entries file.
    pub closed spec fn log(&self) -> Seq<u8> {
        self.entries@
    }

    /// The index file.
    pub closed spec fn index(&self) -> Seq<u8> {
        self.index@
    }

    /// The entry at a position.
    pub open spec fn entry(&self, position: int) -> Seq<u8> {
        self.log().subrange(position * self.width(), (position + 1) * self.width())
    }

    /// The index encodes a contiguous run of blocks, and the log holds exactly
    /// the entries they account for.
    pub open spec fn wf(&self) -> bool {
        &&& self.width() > 0
        &&& forall|i: int|
            0 <= i < self.history().len() ==> is_hash((#[trigger] self.history()[i]).hash@)
        &&& contiguous(self.history())
        &&& self.index() == index_image(self.history())
        &&& self.log().len() == total_entries(self.history()) * self.width()
    }

    /// Opens a journal from its two files and its checkpoint: what lies beyond
    /// the checkpoint is dropped. A fresh journal has an index of just the
    /// magic bytes and a checkpoint of zero.
    pub fn open(entry_bytes: usize, entries: Vec<u8>, index: Vec<u8>, checkpoint: u64) -> (opened:
        Result<SpendJournal, SpendError>)
        requires
            entry_bytes > 0,
        ensures
            ({
                let magic = index@.len() >= 8 && index@.take(8) == index_magic();
                let complete = (index@.len() - 8) / 56;
                let gap = exists|i: int|
                    0 <= i < checkpoint - 1 && !records_link(
                        #[trigger] index_record(index@, i),
                        index_record(index@, i + 1),
                    );
                match opened {
                    Ok(journal) => {
                        &&& magic
                        &&& checkpoint <= complete
                        &&& !gap
                        &&& journal.wf()
                        &&& journal.width() == entry_bytes
                        &&& journal.history().len() == checkpoint
                        &&& forall|i: int|
                            0 <= i < checkpoint ==> reads_as(
                                index_record(index@, i),
                                #[trigger] journal.history()[i],
                            )
                        &&& journal.index() == index@.take(8 + 56 * checkpoint)
                        &&& journal.log() == resized(
                            entries@,
                            total_entries(journal.history()) * journal.width(),
                        )
                    },
                    Err(SpendError::InvalidIndex) => !magic,
                    Err(SpendError::CheckpointExceedsWord) => magic && checkpoint > usize::MAX,
                    Err(SpendError::CheckpointExceedsIndex) => magic && checkpoint > complete,
                    Err(SpendError::NonContiguousIndex) => magic && checkpoint <= complete && gap,
                    Err(SpendError::EntriesExceedMemory) => {
                        &&& magic
                        &&& 0 < checkpoint <= complete
                        &&& !gap
                        &&& (le_value(index_record(index@, checkpoint - 1).subrange(40, 48))
                            + le_value(index_record(index@, checkpoint - 1).subrange(48, 56)))
                            * entry_bytes > usize::MAX
                    },
                    Err(_) => false,
                }
            }),
    {
        let magic: [u8; 8] = [84, 83, 80, 66, 76, 75, 48, 49];
        let mut at: usize = 0;
        if index.len() < 8 {
            return Err(SpendError::InvalidIndex);
        }
        while at < 8
            invariant
                at <= 8 <= index.len(),
                magic@ == index_magic(),
                forall|j: int| 0 <= j < at ==> index@[j] == magic@[j],
            decreases 8 - at,
        {
            if index[at] != magic[at] {
                assert(index@.take(8)[at as int] != index_magic()[at as int]);
                return Err(SpendError::InvalidIndex);
            }
            at = at + 1;
        }
        assert(index@.take(8) =~= index_magic());
        if checkpoint > usize::MAX as u64 {
            return Err(SpendError::CheckpointExceedsWord);
        }
        let committed: usize = checkpoint as usize;
        let complete: usize = (index.len() - 8) / BLOCK_BYTES;
        if committed > complete {
            return Err(SpendError::CheckpointExceedsIndex);
        }
        let mut blocks: Vec<SpendBlock> = Vec::new();
        let mut i: usize = 0;
        while i < committed
            invariant
                i <= committed <= complete,
                committed == checkpoint,
                complete == (index@.len() - 8) / 56,
                index@.len() <= usize::MAX,
                index@.len() >= 8,
                index@.take(8) == index_magic(),
                blocks@.len() == i,
                forall|j: int|
                    0 <= j < i ==> reads_as(index_record(index@, j), #[trigger] blocks@[j]),
                forall|j: int|
                    0 <= j < i - 1 ==> records_link(
                        #[trigger] index_record(index@, j),
                        index_record(index@, j + 1),
                    ),
            decreases committed - i,
        {
            let start: usize = 8 + BLOCK_BYTES * i;
            let ghost record = index_record(index@, i as int);
            let height: u64 = read_le(index.as_slice(), start, 8);
            let hash_bytes = copy_range(index.as_slice(), start + 8, start + 40);
            let hash = hex_encode(hash_bytes.as_slice());
            let first_position: u64 = read_le(index.as_slice(), start + 40, 8);
            let entry_count: u64 = read_le(index.as_slice(), start + 48, 8);
            proof {
                assert(record.subrange(0, 8) =~= index@.subrange(start as int, start + 8));
                assert(record.subrange(8, 40) =~= index@.subrange(start + 8, start + 40));
                assert(record.subrange(40, 48) =~= index@.subrange(start + 40, start + 48));
                assert(record.subrange(48, 56) =~= index@.subrange(start + 48, start + 56));
            }
            if i > 0 {
                let last = &blocks[i - 1];
                let ends: Option<u64> = last.first_position.checked_add(last.entry_count);
                let next_height: Option<u64> = last.height.checked_add(1);
                assert(reads_as(index_record(index@, i - 1), blocks@[i - 1]));
                let continues: bool = match (next_height, ends) {
                    (Some(next), Some(end)) => next == height && end == first_position,
                    _ => false,
                };
                if !continues {
                    assert(!records_link(
                        index_record(index@, i - 1),
                        index_record(index@, i - 1 + 1),
                    ));
                    return Err(SpendError::NonContiguousIndex);
                }
            }
            let block = SpendBlock { height, hash, first_position, entry_count };
            assert(reads_as(record, block));
            blocks.push(block);
            i = i + 1;
        }
        proof {
            assert forall|j: int| 0 <= j < blocks@.len() implies is_hash((#[trigger] blocks@[j]).hash@)
                by {
                assert(index_record(index@, j).len() == 56);
                lemma_record_of_read(index_record(index@, j), blocks@[j]);
            }
            assert forall|j: int| 0 <= j < blocks@.len() - 1 implies links(
                #[trigger] blocks@[j],
                blocks@[j + 1],
            ) by {
                assert(records_link(index_record(index@, j), index_record(index@, j + 1)));
            }
            lemma_index_of_reads(index@, blocks@);
        }
        let total: u64 = if committed == 0 {
            0
        } else {
            let last = &blocks[committed - 1];
            assert(reads_as(index_record(index@, committed - 1), blocks@[committed - 1]));
            match last.first_position.checked_add(last.entry_count) {
                Some(total) => total,
                None => {
                    assert(blocks@[committed - 1].first_position + blocks@[committed - 1].entry_count
                        <= (blocks@[committed - 1].first_position
                        + blocks@[committed - 1].entry_count) * entry_bytes) by (nonlinear_arith)
                        requires
                            entry_bytes >= 1,
                    ;
                    return Err(SpendError::EntriesExceedMemory);
                },
            }
        };
        assert(total as nat == total_entries(blocks@));
        let bytes: usize = match total.checked_mul(entry_bytes as u64) {
            Some(bytes) => {
                if bytes > usize::MAX as u64 {
                    assert(0 * entry_bytes == 0) by (nonlinear_arith);
                    return Err(SpendError::EntriesExceedMemory);
                }
                bytes as usize
            },
            None => {
                assert(0 * entry_bytes == 0) by (nonlinear_arith);
                return Err(SpendError::EntriesExceedMemory);
            },
        };
        let mut entries = entries;
        let ghost stored = entries@;
        entries.resize(bytes, 0);
        assert(entries@ =~= resized(stored, bytes as nat));
        let mut index = index;
        index.truncate(8 + BLOCK_BYTES * committed);
        Ok(SpendJournal { entry_bytes, blocks, entries, index })
    }

    pub fn committed_height(&self) -> (height: Option<u64>)
        ensures
            height == (if self.history().len() == 0 {
                None
            } else {
                Some(self.history().last().height)
            }),
    {
        match self.last_block() {
            Some(block) => Some(block.height),
            None => None,
        }
    }

    pub fn last_block(&self) -> (block: Option<&SpendBlock>)
        ensures
            match block {
                Some(block) => self.history().len() > 0 && *block == self.history().last(),
                None => self.history().len() == 0,
            },
    {
        if self.blocks.len() == 0 {
            None
        } else {
            Some(&self.blocks[self.blocks.len() - 1])
        }
    }

    pub fn blocks(&self) -> (blocks: &[SpendBlock])
        ensures
            blocks@ == self.history(),
    {
        self.blocks.as_slice()
    }

    /// The entries file to persist.
    pub fn entries_image(&self) -> (bytes: &[u8])
        ensures
            bytes@ == self.log(),
    {
        self.entries.as_slice()
    }

    /// The index file to persist.
    pub fn index_file(&self) -> (bytes: &[u8])
        ensures
            bytes@ == self.index(),
    {
        self.index.as_slice()
    }

    /// Appends one block's entries. A block must follow the last one and name
    /// itself by a 32-byte hash; otherwise nothing changes.
    pub fn append_block(&mut self, height: u64, hash: String, entries: &[Vec<u8>]) -> (done: Result<
        (),
        SpendError,
    >)
        requires
            old(self).wf(),
            forall|i: int|
                0 <= i < entries@.len() ==> (#[trigger] entries@[i])@.len() == old(self).width(),
        ensures
            final(self).wf(),
            final(self).width() == old(self).width(),
            ({
                let follows = old(self).history().len() > 0 ==> old(self).history().last().height
                    + 1 == height;
                match done {
                    Ok(()) => {
                        &&& follows
                        &&& is_hash(hash@)
                        &&& final(self).history() == old(self).history().push(
                            (SpendBlock {
                                height,
                                hash,
                                first_position: total_entries(old(self).history()) as u64,
                                entry_count: entries@.len() as u64,
                            }),
                        )
                        &&& final(self).log() == old(self).log()
                            + crate::enhance::store::joined(entries@)
                    },
                    Err(error) => {
                        &&& final(self).history() == old(self).history()
                        &&& final(self).log() == old(self).log()
                        &&& final(self).index() == old(self).index()
                        &&& if !follows {
                            error == SpendError::NonContiguousBlock
                        } else {
                            error == SpendError::InvalidHash && !is_hash(hash@)
                        }
                    },
                }
            }),
    {
        let count: usize = self.blocks.len();
        let mut first_position: u64 = 0;
        proof {
            assert(self.entries.len() <= usize::MAX);
            let n = total_entries(self.blocks@) as int;
            assert(n <= n * self.entry_bytes) by (nonlinear_arith)
                requires
                    n >= 0,
                    self.entry_bytes >= 1,
            ;
        }
        if count > 0 {
            let last = &self.blocks[count - 1];
            match last.height.checked_add(1) {
                Some(next) => {
                    if next != height {
                        return Err(SpendError::NonContiguousBlock);
                    }
                },
                None => {
                    return Err(SpendError::NonContiguousBlock);
                },
            }
            first_position = last.first_position + last.entry_count;
        }
        let hash_bytes = match hex_decode(hash.as_str()) {
            Ok(bytes) => {
                if bytes.len() != 32 {
                    return Err(SpendError::InvalidHash);
                }
                bytes
            },
            Err(_) => {
                return Err(SpendError::InvalidHash);
            },
        };
        let ghost before = self.entries@;
        let ghost was = self.blocks@;
        let ghost width = self.entry_bytes as int;
        let mut log: Vec<u8> = Vec::new();
        std::mem::swap(&mut log, &mut self.entries);
        let mut k: usize = 0;
        while k < entries.len()
            invariant
                k <= entries.len(),
                forall|i: int| 0 <= i < entries@.len() ==> (#[trigger] entries@[i])@.len() == width,
                log@ == before + crate::enhance::store::joined(entries@.take(k as int)),
                log@.len() == before.len() + k * width,
            decreases entries.len() - k,
        {
            push_bytes(&mut log, entries[k].as_slice());
            assert(entries@.take(k + 1).drop_last() == entries@.take(k as int));
            assert(entries@.take(k + 1).last() == entries@[k as int]);
            assert((k + 1) * width == k * width + width) by (nonlinear_arith);
            k = k + 1;
        }
        assert(entries@.take(k as int) == entries@);
        let entry_count: u64 = entries.len() as u64;
        push_le(&mut self.index, height, 8);
        push_bytes(&mut self.index, hash_bytes.as_slice());
        push_le(&mut self.index, first_position, 8);
        push_le(&mut self.index, entry_count, 8);
        let block = SpendBlock { height, hash, first_position, entry_count };
        proof {
            let n = entry_count as int;
            let m = first_position as int;
            assert((m + n) * width == m * width + n * width) by (nonlinear_arith);
            let after = was.push(block);
            assert(after.drop_last() == was);
            assert(self.index@ =~= index_image(after));
            assert forall|i: int| 0 <= i < after.len() - 1 implies links(
                #[trigger] after[i],
                after[i + 1],
            ) by {
                if i < was.len() - 1 {
                    assert(links(was[i], was[i + 1]));
                }
            }
        }
        self.entries = log;
        self.blocks.push(block);
        Ok(())
    }

    /// Commits to every block appended so far: the checkpoint to persist.
    pub fn sync(&self) -> (checkpoint: Vec<u8>)
        ensures
            checkpoint@ == le_bytes(self.history().len(), 8),
    {
        let mut checkpoint: Vec<u8> = Vec::new();
        push_le(&mut checkpoint, self.blocks.len() as u64, 8);
        assert(checkpoint@ =~= le_bytes(self.history().len(), 8));
        checkpoint
    }

    /// `count` consecutive entries from position `first`. None are there wherever
    /// they are asked for.
    pub fn read_entries(&self, first: u64, count: usize) -> (read: Result<
        Vec<Vec<u8>>,
        SpendError,
    >)
        requires
            self.wf(),
        ensures
            match read {
                Ok(read) => {
                    &&& count == 0 || first + count <= total_entries(self.history())
                    &&& read@.len() == count
                    &&& forall|i: int|
                        0 <= i < count ==> (#[trigger] read@[i])@ == self.entry(first + i)
                },
                Err(error) => {
                    &&& error == SpendError::OutsideLog
                    &&& count > 0
                    &&& first + count > total_entries(self.history())
                },
            },
    {
        if count == 0 {
            return Ok(Vec::new());
        }
        let total: u64 = self.entry_total();
        match first.checked_add(count as u64) {
            None => Err(SpendError::OutsideLog),
            Some(end) => {
                if end > total {
                    return Err(SpendError::OutsideLog);
                }
                let mut read: Vec<Vec<u8>> = Vec::new();
                let mut i: usize = 0;
                while i < count
                    invariant
                        i <= count,
                        self.wf(),
                        first + count <= total,
                        total == total_entries(self.history()),
                        read@.len() == i,
                        forall|j: int|
                            0 <= j < i ==> (#[trigger] read@[j])@ == self.entry(first + j),
                    decreases count - i,
                {
                    proof {
                        let p = first + i;
                        let w = self.entry_bytes as int;
                        assert(self.entries.len() <= usize::MAX);
                        assert((p + 1) * w == p * w + w) by (nonlinear_arith);
                        assert(0 <= p * w && (p + 1) * w <= total * w && p <= p * w)
                            by (nonlinear_arith)
                            requires
                                0 <= p,
                                p + 1 <= total,
                                w >= 1,
                        ;
                    }
                    let from: usize = (first + i as u64) as usize * self.entry_bytes;
                    read.push(copy_range(self.entries.as_slice(), from, from + self.entry_bytes));
                    i = i + 1;
                }
                Ok(read)
            },
        }
    }

    /// Entries that the indexed blocks account for.
    pub fn entry_total(&self) -> (total: u64)
        requires
            self.wf(),
        ensures
            total == total_entries(self.history()),
    {
        let count: usize = self.blocks.len();
        if count == 0 {
            0
        } else {
            proof {
                assert(self.entries.len() <= usize::MAX);
                let n = total_entries(self.blocks@) as int;
                assert(n <= n * self.entry_bytes) by (nonlinear_arith)
                    requires
                        n >= 0,
                        self.entry_bytes >= 1,
                ;
            }
            self.blocks[count - 1].first_position + self.blocks[count - 1].entry_count
        }
    }

    /// How many blocks are not above a height.
    pub fn blocks_up_to(&self, height: u64) -> (keep: usize)
        requires
            self.wf(),
        ensures
            keep <= self.history().len(),
            forall|i: int| 0 <= i < keep ==> (#[trigger] self.history()[i]).height <= height,
            forall|i: int|
                keep <= i < self.history().len() ==> (#[trigger] self.history()[i]).height > height,
    {
        let mut low: usize = 0;
        let mut high: usize = self.blocks.len();
        while low < high
            invariant
                low <= high <= self.blocks@.len(),
                contiguous(self.blocks@),
                forall|i: int| 0 <= i < low ==> (#[trigger] self.blocks@[i]).height <= height,
                forall|i: int|
                    high <= i < self.blocks@.len() ==> (#[trigger] self.blocks@[i]).height > height,
            decreases high - low,
        {
            let mid: usize = low + (high - low) / 2;
            if self.blocks[mid].height <= height {
                assert forall|i: int| 0 <= i < mid + 1 implies (
                #[trigger] self.blocks@[i]).height <= height by {
                    lemma_heights(self.blocks@, i, mid as int);
                }
                low = mid + 1;
            } else {
                assert forall|i: int| mid <= i < self.blocks@.len() implies (
                #[trigger] self.blocks@[i]).height > height by {
                    lemma_heights(self.blocks@, mid as int, i);
                }
                high = mid;
            }
        }
        low
    }

    /// Drops every block above a height, or all of them, with their entries.
    /// What remains is to be committed with [`SpendJournal::sync`].
    pub fn rewind_to_height(&mut self, height: Option<u64>)
        requires
            old(self).wf(),
        ensures
            final(self).wf(),
            final(self).width() == old(self).width(),
            exists|keep: int|
                #![trigger old(self).history().take(keep)]
                {
                    &&& 0 <= keep <= old(self).history().len()
                    &&& height is None ==> keep == 0
                    &&& forall|i: int|
                        0 <= i < keep ==> (#[trigger] old(self).history()[i]).height <= height->0
                    &&& height is Some ==> forall|i: int|
                        keep <= i < old(self).history().len() ==> (#[trigger] old(
                            self,
                        ).history()[i]).height > height->0
                    &&& final(self).history() == old(self).history().take(keep)
                    &&& final(self).log() == old(self).log().take(
                        (total_entries(old(self).history().take(keep)) * old(self).width()) as int,
                    )
                },
    {
        let keep: usize = match height {
            Some(height) => self.blocks_up_to(height),
            None => 0,
        };
        let ghost was = self.blocks@;
        let ghost kept = was.take(keep as int);
        proof {
            lemma_index_body_take(was, keep as int);
            lemma_index_body(was);
            let w = self.entry_bytes as int;
            let a = total_entries(kept) as int;
            let b = total_entries(was) as int;
            if keep > 0 {
                lemma_heights(was, keep - 1, was.len() - 1);
            }
            assert(a <= b);
            assert(0 <= a * w <= b * w && a <= a * w) by (nonlinear_arith)
                requires
                    0 <= a <= b,
                    w >= 1,
            ;
            assert(self.entries.len() <= usize::MAX);
            assert(self.index.len() <= usize::MAX);
        }
        self.blocks.truncate(keep);
        assert(self.blocks@ == kept);
        let total: u64 = if keep == 0 {
            0
        } else {
            self.blocks[keep - 1].first_position + self.blocks[keep - 1].entry_count
        };
        self.entries.truncate(total as usize * self.entry_bytes);
        self.index.truncate(8 + BLOCK_BYTES * keep);
        proof {
            assert forall|i: int| 0 <= i < kept.len() - 1 implies links(
                #[trigger] kept[i],
                kept[i + 1],
            ) by {
                assert(links(was[i], was[i + 1]));
            }
            assert(old(self).history().take(keep as int) == kept);
        }
    }
}

proof fn lemma_index_of_reads(index: Seq<u8>, blocks: Seq<SpendBlock>)
    requires
        index.len() >= 8 + 56 * blocks.len(),
        index.take(8) == index_magic(),
        forall|j: int|
            0 <= j < blocks.len() ==> reads_as(index_record(index, j), #[trigger] blocks[j]),
    ensures
        index_image(blocks) == index.take((8 + 56 * blocks.len()) as int),
    decreases blocks.len(),
{
    if blocks.len() == 0 {
        assert(index_image(blocks) =~= index.take(8));
    } else {
        let n = blocks.len() - 1;
        let head = blocks.drop_last();
        assert forall|j: int| 0 <= j < head.len() implies reads_as(
            index_record(index, j),
            #[trigger] head[j],
        ) by {
            assert(head[j] == blocks[j]);
        }
        lemma_index_of_reads(index, head);
        assert(reads_as(index_record(index, n), blocks[n]));
        lemma_record_of_read(index_record(index, n), blocks.last());
        assert(index_image(blocks) =~= index_image(head) + index_record(index, n));
        assert(index.take(8 + 56 * n) + index_record(index, n) =~= index.take(8 + 56 * (n + 1)));
    }
}

/// A restart keeps what was committed and nothing else: whatever was appended
/// after the checkpoint is gone, and every committed block reads as it was
/// appended, its hash in lowercase.
pub proof fn law_restart_keeps_the_checkpointed_prefix(
    committed: &SpendJournal,
    tail: Seq<u8>,
    index_tail: Seq<u8>,
    reopened: &SpendJournal,
)
    requires
        committed.wf(),
        reopened.wf(),
        reopened.width() == committed.width(),
        reopened.history().len() == committed.history().len(),
        forall|i: int|
            0 <= i < committed.history().len() ==> reads_as(
                index_record(committed.index() + index_tail, i),
                #[trigger] reopened.history()[i],
            ),
        reopened.log() == resized(
            committed.log() + tail,
            total_entries(reopened.history()) * reopened.width(),
        ),
    ensures
        forall|i: int|
            0 <= i < committed.history().len() ==> {
                &&& (#[trigger] reopened.history()[i]).height == committed.history()[i].height
                &&& reopened.history()[i].hash@ == hex_text(
                    hex_bytes(committed.history()[i].hash@),
                )
                &&& reopened.history()[i].first_position == committed.history()[i].first_position
                &&& reopened.history()[i].entry_count == committed.history()[i].entry_count
            },
        reopened.log() == committed.log(),
{
    let blocks = committed.history();
    lemma_index_body(blocks);
    assert forall|i: int| 0 <= i < blocks.len() implies {
        &&& (#[trigger] reopened.history()[i]).height == blocks[i].height
        &&& reopened.history()[i].hash@ == hex_text(hex_bytes(blocks[i].hash@))
        &&& reopened.history()[i].first_position == blocks[i].first_position
        &&& reopened.history()[i].entry_count == blocks[i].entry_count
    } by {
        assert(index_record(committed.index() + index_tail, i) =~= index_record(
            committed.index(),
            i,
        ));
        law_block_record_round_trip(blocks[i]);
    }
    assert(total_entries(reopened.history()) == total_entries(blocks));
    assert((committed.log() + tail).take(committed.log().len() as int) =~= committed.log());
}

/// Where the log divides at a tip: entries of blocks up to `cold_end_height`
/// are cold, the rest warm.
pub struct SpendPartition {
    pub cold_end_height: u64,
    pub cold: Vec<Vec<u8>>,
    pub warm: Vec<Vec<u8>>,
}

/// The last cold height at a tip.
pub open spec fn cold_end(tip_height: u64) -> int {
    if tip_height >= WARM_BLOCKS {
        tip_height - WARM_BLOCKS
    } else {
        0
    }
}

impl SpendPartition {
    /// Divides the log at the trailing `WARM_BLOCKS` blocks.
    pub fn at_tip(log: &SpendJournal, tip_height: u64) -> (parts: SpendPartition)
        requires
            log.wf(),
        ensures
            parts.cold_end_height == cold_end(tip_height),
            tip_height >= 100_000 ==> parts.cold_end_height == tip_height - 100_000,
            tip_height < 100_000 ==> parts.cold_end_height == 0,
            parts.cold@.len() + parts.warm@.len() == total_entries(log.history()),
            forall|i: int| 0 <= i < parts.cold@.len() ==> (#[trigger] parts.cold@[i])@ == log.entry(i),
            forall|i: int|
                0 <= i < parts.warm@.len() ==> (#[trigger] parts.warm@[i])@ == log.entry(
                    parts.cold@.len() + i,
                ),
            // A block's entries lie wholly on one side, by its height.
            forall|b: int|
                0 <= b < log.history().len() && (#[trigger] log.history()[b]).height
                    <= cold_end(tip_height) ==> log.history()[b].first_position
                    + log.history()[b].entry_count <= parts.cold@.len(),
            forall|b: int|
                0 <= b < log.history().len() && (#[trigger] log.history()[b]).height > cold_end(
                    tip_height,
                ) ==> log.history()[b].first_position >= parts.cold@.len(),
    {
        let cold_end_height: u64 = if tip_height >= WARM_BLOCKS {
            tip_height - WARM_BLOCKS
        } else {
            0
        };
        let cold_blocks: usize = log.blocks_up_to(cold_end_height);
        let total: u64 = log.entry_total();
        let blocks = log.blocks();
        let cold_count: u64 = if cold_blocks < blocks.len() {
            blocks[cold_blocks].first_position
        } else {
            total
        };
        proof {
            let h = log.history();
            if cold_blocks < h.len() {
                lemma_heights(h, cold_blocks as int, h.len() - 1);
            }
            let w = log.width() as int;
            assert(total <= total * w) by (nonlinear_arith)
                requires
                    w >= 1,
                    total >= 0,
            ;
            log.lemma_log_fits();
        }
        let cold = match log.read_entries(0, cold_count as usize) {
            Ok(read) => read,
            Err(_) => {
                assert(false);
                Vec::new()
            },
        };
        let warm = match log.read_entries(cold_count, (total - cold_count) as usize) {
            Ok(read) => read,
            Err(_) => {
                assert(false);
                Vec::new()
            },
        };
        proof {
            let h = log.history();
            assert forall|b: int|
                0 <= b < h.len() && (#[trigger] h[b]).height <= cold_end(tip_height) implies h[b].first_position
                + h[b].entry_count <= cold@.len() by {
                if cold_blocks < h.len() {
                    lemma_heights(h, b, cold_blocks as int);
                } else {
                    lemma_heights(h, b, h.len() - 1);
                }
            }
            assert forall|b: int|
                0 <= b < h.len() && (#[trigger] h[b]).height > cold_end(
                    tip_height,
                ) implies h[b].first_position >= cold@.len() by {
                lemma_heights(h, cold_blocks as int, b);
            }
        }
        SpendPartition { cold_end_height, cold, warm }
    }
}

impl SpendJournal {
    /// The log is held in memory, so its length is a machine word.
    pub proof fn lemma_log_fits(&self)
        ensures
            self.log().len() <= usize::MAX,
    {
        assert(self.entries.len() <= usize::MAX);
    }
}

/// The entries of contiguous blocks follow one another without a gap: there are as
/// many as the blocks count, together with those before the first block.
pub proof fn law_blocks_count_their_entries(blocks: Seq<SpendBlock>)
    requires
        contiguous(blocks),
        blocks.len() > 0,
    ensures
        total_entries(blocks) == blocks.map_values(
            |block: SpendBlock| block.entry_count as int,
        ).fold_left(blocks[0].first_position as int, |sum: int, count: int| sum + count),
    decreases blocks.len(),
{
    let counts = blocks.map_values(|block: SpendBlock| block.entry_count as int);
    let plus = |sum: int, count: int| sum + count;
    let start = blocks[0].first_position as int;
    if blocks.len() > 1 {
        let head = blocks.drop_last();
        assert forall|i: int| 0 <= i < head.len() - 1 implies links(
            #[trigger] head[i],
            head[i + 1],
        ) by {
            assert(links(blocks[i], blocks[i + 1]));
        }
        law_blocks_count_their_entries(head);
        assert(counts.drop_last() =~= head.map_values(
            |block: SpendBlock| block.entry_count as int,
        ));
        assert(links(blocks[blocks.len() - 2], blocks[blocks.len() - 1]));
    } else {
        assert(counts.drop_last() =~= Seq::empty());
        assert(counts.drop_last().fold_left(start, plus) == start);
    }
    assert(counts.fold_left(start, plus) == plus(
        counts.drop_last().fold_left(start, plus),
        counts.last(),
    ));
}

/// A file of another length keeps what it has of the bytes and holds zeros beyond.
pub proof fn law_resizing_keeps_the_bytes(bytes: Seq<u8>, len: nat, i: int)
    requires
        0 <= i < len,
    ensures
        resized(bytes, len).len() == len,
        resized(bytes, len)[i] == if i < bytes.len() {
            bytes[i]
        } else {
            0
        },
{
}

/// The trailing hundred thousand blocks are warm.
pub proof fn law_the_last_hundred_thousand_blocks_are_warm(tip_height: u64, height: u64)
    requires
        0 < height <= tip_height,
    ensures
        height > cold_end(tip_height) <==> tip_height - height < 100_000,
{
}

/// Every block's record stands behind the index's eight bytes, in its place.
pub proof fn law_every_block_has_its_index_record(blocks: Seq<SpendBlock>, i: int)
    requires
        0 <= i < blocks.len(),
        forall|k: int| 0 <= k < blocks.len() ==> is_hash((#[trigger] blocks[k]).hash@),
    ensures
        index_image(blocks).len() == 8 + 56 * blocks.len(),
        index_image(blocks).subrange(8 + 56 * i, 8 + 56 * i + 56) == block_record(blocks[i]),
{
    lemma_index_body(blocks);
    assert(index_image(blocks).subrange(8 + 56 * i, 8 + 56 * i + 56) =~= index_body(
        blocks,
    ).subrange(56 * i, 56 * i + 56));
}

} // verus!
