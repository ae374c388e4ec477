//! Appends finalized enhancement records to the active journal.

use vstd::prelude::*;

use crate::enhance::store::{
    joined, BlockEntry, RecordJournal, StoreError, StoreManifest,
};
use crate::enhance::types::{enhance_layout, DatabaseId};
use crate::text::{decimal, push_decimal};

verus! {

/// Why a block could not be ingested.
#[derive(Debug)]
pub enum IngestError {
    Store(StoreError),
    Invariant(String),
}

impl IngestError {
    /// The message shown to an operator.
    pub fn message(&self) -> (text: String)
        ensures
            text@ == (match self {
                IngestError::Store(StoreError::Invariant(detail)) => "journal error: "@
                    + ("store invariant violated: "@ + detail@),
                IngestError::Invariant(detail) => "ingest invariant violated: "@ + detail@,
            }),
    {
        match self {
            IngestError::Store(error) => {
                let mut text = String::from_str("journal error: ");
                let inner = error.message();
                text.append(inner.as_str());
                text
            },
            IngestError::Invariant(detail) => {
                let mut text = String::from_str("ingest invariant violated: ");
                text.append(detail.as_str());
                text
            },
        }
    }
}

/// A finalized block: its records end the tree at `tree_size`.
pub struct CanonicalBlock {
    pub height: u64,
    pub hash: String,
    pub records: Vec<Vec<u8>>,
    pub tree_size: u64,
}

impl CanonicalBlock {
    /// Position of the block's first record, where there is one.
    pub open spec fn first_position(self) -> int {
        self.tree_size - self.records@.len()
    }
}

/// The enhancement table's journal.
pub struct EnhanceJournal {
    pub records: RecordJournal,
}

impl EnhanceJournal {
    /// Opens the journal from its stored manifest and log. The second part of
    /// the result names the directory for an incompatible predecessor.
    pub fn open(stored: Option<StoreManifest>, log: Vec<u8>) -> (opened: Result<
        (EnhanceJournal, Option<String>),
        IngestError,
    >)
        ensures
            match opened {
                Ok((journal, superseded)) => RecordJournal::open_outcome(
                    Ok((crate::enhance::store::OpenedJournal { journal: journal.records, superseded })),
                    DatabaseId::Enhance.wire_name(),
                    Some(DatabaseId::Enhance),
                    enhance_layout(),
                    stored,
                    log@,
                ),
                Err(IngestError::Store(error)) => RecordJournal::open_outcome(
                    Err(error),
                    DatabaseId::Enhance.wire_name(),
                    Some(DatabaseId::Enhance),
                    enhance_layout(),
                    stored,
                    log@,
                ),
                Err(IngestError::Invariant(_)) => false,
            },
    {
        match RecordJournal::open(DatabaseId::Enhance, enhance_layout(), stored, log) {
            Ok(opened) => Ok((EnhanceJournal { records: opened.journal }, opened.superseded)),
            Err(error) => Err(IngestError::Store(error)),
        }
    }

    pub fn committed_height(&self) -> (height: Option<u64>)
        ensures
            height == (if self.records.history().len() == 0 {
                None
            } else {
                Some(self.records.history().last().height)
            }),
    {
        match self.records.last_block() {
            Some(block) => Some(block.height),
            None => None,
        }
    }

    pub fn highest_committed(&self) -> (block: Option<(u64, String)>)
        ensures
            match block {
                Some((height, hash)) => {
                    &&& self.records.history().len() > 0
                    &&& height == self.records.history().last().height
                    &&& hash == self.records.history().last().hash
                },
                None => self.records.history().len() == 0,
            },
    {
        match self.records.last_block() {
            Some(block) => Some((block.height, block.hash.clone())),
            None => None,
        }
    }

    /// Whether a block of this height is already in the journal.
    pub open spec fn holds(&self, height: u64) -> bool {
        self.records.history().len() > 0 && self.records.history().last().height >= height
    }

    /// Whether the journal ends inside the block, or right before it.
    pub open spec fn meets(&self, block: CanonicalBlock) -> bool {
        block.first_position() <= self.records.size() <= block.tree_size
    }

    /// Records of the block that the journal does not hold yet.
    pub open spec fn missing(&self, block: CanonicalBlock) -> Seq<Vec<u8>> {
        block.records@.skip(self.records.size() - block.first_position())
    }

    /// Appends a block: what is already held is skipped, and a block that
    /// leaves a gap is refused. An error leaves the journal as it was.
    pub fn append_block(&mut self, block: &CanonicalBlock) -> (done: Result<(), IngestError>)
        requires
            old(self).records.wf(),
        ensures
            final(self).records.wf(),
            final(self).records.label() == old(self).records.label(),
            final(self).records.backed_table() == old(self).records.backed_table(),
            final(self).records.geometry() == old(self).records.geometry(),
            done is Err || old(self).holds(block.height) ==> {
                &&& final(self).records.image() == old(self).records.image()
                &&& final(self).records.size() == old(self).records.size()
                &&& final(self).records.history() == old(self).records.history()
            },
            match done {
                Ok(()) => old(self).holds(block.height) || {
                    &&& block.first_position() >= 0
                    &&& old(self).meets(*block)
                    &&& old(self).records.follows(block.height)
                    &&& forall|i: int|
                        0 <= i < old(self).missing(*block).len() ==> (#[trigger] old(self).missing(
                            *block,
                        )[i])@.len() == old(self).records.geometry().record_bytes
                    &&& final(self).records.size() == block.tree_size
                    &&& final(self).records.image() == old(self).records.image() + joined(
                        old(self).missing(*block),
                    )
                    &&& final(self).records.history() == old(self).records.history().push(
                        (BlockEntry {
                            height: block.height,
                            hash: block.hash,
                            first_position: old(self).records.size() as u64,
                            action_count: old(self).missing(*block).len() as u64,
                        }),
                    )
                },
                Err(IngestError::Invariant(detail)) => {
                    &&& !old(self).holds(block.height)
                    &&& block.first_position() < 0 || !old(self).meets(*block)
                    &&& detail@ == (if block.first_position() < 0 {
                        "block exceeds tree size"@
                    } else {
                        "journal continuity mismatch at height "@ + decimal(block.height as nat)
                            + ": journal "@ + decimal(old(self).records.size()) + ", block "@
                            + decimal(block.first_position() as nat) + ".."@ + decimal(
                            block.tree_size as nat,
                        )
                    })
                },
                Err(IngestError::Store(_)) => {
                    &&& !old(self).holds(block.height)
                    &&& block.first_position() >= 0
                    &&& old(self).meets(*block)
                    &&& !old(self).records.follows(block.height) || exists|i: int|
                        0 <= i < old(self).missing(*block).len() && (#[trigger] old(self).missing(
                            *block,
                        )[i])@.len() != old(self).records.geometry().record_bytes
                },
            },
    {
        if let Some(last) = self.records.last_block() {
            if last.height >= block.height {
                return Ok(());
            }
        }
        let count: u64 = block.records.len() as u64;
        if count > block.tree_size {
            return Err(IngestError::Invariant(String::from_str("block exceeds tree size")));
        }
        let first: u64 = block.tree_size - count;
        let held: u64 = self.records.tree_size();
        if held < first || held > block.tree_size {
            let mut detail = String::from_str("journal continuity mismatch at height ");
            push_decimal(&mut detail, block.height);
            detail.append(": journal ");
            push_decimal(&mut detail, held);
            detail.append(", block ");
            push_decimal(&mut detail, first);
            detail.append("..");
            push_decimal(&mut detail, block.tree_size);
            return Err(IngestError::Invariant(detail));
        }
        let skip: usize = (held - first) as usize;
        let ghost rest = block.records@.skip(skip as int);
        let missing = vstd::slice::slice_subrange(
            block.records.as_slice(),
            skip,
            block.records.len(),
        );
        assert(missing@ == rest);
        match self.records.append_block(block.height, block.hash.clone(), missing) {
            Ok(()) => Ok(()),
            Err(error) => {
                assert(!old(self).records.follows(block.height) || exists|i: int|
                    0 <= i < missing@.len() && (#[trigger] missing@[i])@.len() != old(
                        self,
                    ).records.geometry().record_bytes);
                Err(IngestError::Store(error))
            },
        }
    }
}

/// What is missing of a block are its last records: together with what the journal
/// holds they reach the block's tree size.
pub proof fn law_missing_records_complete_the_block(journal: &EnhanceJournal, block: CanonicalBlock)
    requires
        journal.meets(block),
    ensures
        journal.records.size() + journal.missing(block).len() == block.tree_size,
        journal.missing(block) == block.records@.skip(
            block.records@.len() - journal.missing(block).len(),
        ),
{
}

} // verus!
