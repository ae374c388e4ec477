//! Append-only journal of fixed-size records, indexed by position from zero.
//!
//! The journal owns the image of its record log and the manifest that commits
//! to it; reading and writing the two files is left to the caller.

use std::ops::RangeInclusive;
use vstd::prelude::*;

use crate::codec::{copy_range, pad_zeros, push_bytes, zeros};
use crate::digest::{hex_text, sha256, sha256_hex};
use crate::enhance::types::{DatabaseId, DatabaseLayout};
use crate::text::{decimal, push_decimal, same_text};

verus! {

/// Version 5 is the 725-byte record. Older journals are kept under a
/// superseded directory and derived again from the chain.
pub const STORE_VERSION: u16 = 5;

/// A violated store invariant, in words.
#[derive(Debug)]
pub enum StoreError {
    Invariant(String),
}

impl StoreError {
    /// The message shown to an operator.
    pub fn message(&self) -> (text: String)
        ensures
            text@ == (match self {
                StoreError::Invariant(detail) => "store invariant violated: "@ + detail@,
            }),
    {
        match self {
            StoreError::Invariant(detail) => {
                let mut text = String::from_str("store invariant violated: ");
                text.append(detail.as_str());
                text
            },
        }
    }
}

/// One committed block.
#[derive(Debug, PartialEq, Eq)]
pub struct BlockEntry {
    pub height: u64,
    pub hash: String,
    pub first_position: u64,
    pub action_count: u64,
}

/// The table an unnamed journal of version 3 or older belongs to.
pub fn default_table() -> (name: String)
    ensures
        name@ == "action"@,
{
    String::from_str("action")
}

/// What a journal has committed to.
#[derive(Debug)]
pub struct StoreManifest {
    pub version: u16,
    pub table: String,
    pub tree_size: u64,
    pub blocks: Vec<BlockEntry>,
}

/// The records, one after the other.
pub open spec fn joined(records: Seq<Vec<u8>>) -> Seq<u8>
    decreases records.len(),
{
    if records.len() == 0 {
        Seq::empty()
    } else {
        joined(records.drop_last()) + records.last()@
    }
}

proof fn lemma_joined(records: Seq<Vec<u8>>, size: nat)
    requires
        forall|i: int| 0 <= i < records.len() ==> (#[trigger] records[i])@.len() == size,
    ensures
        joined(records).len() == records.len() * size,
        forall|i: int|
            0 <= i < records.len() ==> joined(records).subrange(i * size, (i + 1) * size) == (
            #[trigger] records[i])@,
    decreases records.len(),
{
    if records.len() > 0 {
        let head = records.drop_last();
        lemma_joined(head, size);
        let n = head.len() as int;
        assert((n + 1) * size == n * size + size) by (nonlinear_arith);
        assert forall|i: int| 0 <= i < records.len() implies joined(records).subrange(
            i * size,
            (i + 1) * size,
        ) == (#[trigger] records[i])@ by {
            assert((i + 1) * size == i * size + size) by (nonlinear_arith);
            if i < n {
                assert(head[i] == records[i]);
                assert((i + 1) * size <= n * size) by (nonlinear_arith)
                    requires
                        i + 1 <= n,
                        size >= 0,
                ;
                assert(0 <= i * size) by (nonlinear_arith)
                    requires
                        i >= 0,
                        size >= 0,
                ;
                assert(joined(records).subrange(i * size, (i + 1) * size) =~= joined(
                    head,
                ).subrange(i * size, (i + 1) * size));
            } else {
                assert(joined(records).subrange(i * size, (i + 1) * size) =~= records.last()@);
            }
        }
    }
}

/// The blocks without the trailing ones above a height, or none at all.
pub open spec fn kept_blocks(blocks: Seq<BlockEntry>, height: Option<u64>) -> Seq<BlockEntry>
    decreases blocks.len(),
{
    match height {
        None => Seq::empty(),
        Some(limit) => if blocks.len() > 0 && blocks.last().height > limit {
            kept_blocks(blocks.drop_last(), height)
        } else {
            blocks
        },
    }
}

/// Positions up to the end of the last block.
pub open spec fn blocks_end(blocks: Seq<BlockEntry>) -> int {
    if blocks.len() == 0 {
        0
    } else {
        blocks.last().first_position + blocks.last().action_count
    }
}

/// Whether blocks follow one another, in height and in position, from position
/// zero up to a size.
pub open spec fn blocks_chain(blocks: Seq<BlockEntry>, size: int) -> bool {
    &&& blocks.len() > 0 ==> blocks[0].first_position == 0
    &&& forall|i: int|
        #![trigger blocks[i]]
        0 < i < blocks.len() ==> blocks[i].height == blocks[i - 1].height + 1
            && blocks[i].first_position == blocks[i - 1].first_position + blocks[i
            - 1].action_count
    &&& blocks_end(blocks) == size
}

/// Positions of all blocks together.
pub open spec fn action_total(blocks: Seq<BlockEntry>) -> int
    decreases blocks.len(),
{
    if blocks.len() == 0 {
        0
    } else {
        action_total(blocks.drop_last()) + blocks.last().action_count
    }
}

proof fn lemma_chain_start(blocks: Seq<BlockEntry>, size: int, n: int)
    requires
        blocks_chain(blocks, size),
        0 <= n <= blocks.len(),
    ensures
        blocks_chain(blocks.take(n), blocks_end(blocks.take(n))),
        0 < n < blocks.len() ==> blocks_end(blocks.take(n)) == blocks[n].first_position,
        blocks_end(blocks.take(n)) <= size,
    decreases blocks.len() - n,
{
    let start = blocks.take(n);
    assert forall|i: int|
        #![trigger start[i]]
        0 < i < start.len() implies start[i].height == start[i - 1].height + 1
        && start[i].first_position == start[i - 1].first_position + start[i - 1].action_count by {
        assert(start[i] == blocks[i] && start[i - 1] == blocks[i - 1]);
    }
    if n < blocks.len() {
        lemma_chain_start(blocks, size, n + 1);
        assert(blocks.take(n + 1).last() == blocks[n]);
        if n > 0 {
            assert(start.last() == blocks[n - 1]);
        }
    } else {
        assert(start =~= blocks);
    }
}

proof fn lemma_kept_is_start(blocks: Seq<BlockEntry>, height: Option<u64>)
    ensures
        kept_blocks(blocks, height).len() <= blocks.len(),
        kept_blocks(blocks, height) == blocks.take(kept_blocks(blocks, height).len() as int),
    decreases blocks.len(),
{
    let kept = kept_blocks(blocks, height);
    if height is None {
        assert(kept =~= blocks.take(0));
    } else if blocks.len() > 0 && blocks.last().height > height->0 {
        lemma_kept_is_start(blocks.drop_last(), height);
        assert(blocks.drop_last().take(kept.len() as int) =~= blocks.take(kept.len() as int));
    } else {
        assert(kept =~= blocks.take(kept.len() as int));
    }
}

/// The positions of blocks that follow one another add up to the size.
pub proof fn law_positions_add_up(blocks: Seq<BlockEntry>, size: int)
    requires
        blocks_chain(blocks, size),
    ensures
        action_total(blocks) == size,
    decreases blocks.len(),
{
    if blocks.len() > 0 {
        let n = blocks.len() - 1;
        lemma_chain_start(blocks, size, n as int);
        assert(blocks.drop_last() =~= blocks.take(n as int));
        law_positions_add_up(blocks.drop_last(), blocks_end(blocks.take(n as int)));
    }
}

/// Rewinding to the height before a block takes back exactly that block: the
/// blocks are the ones before it, and they end where its records began.
pub proof fn law_rewind_undoes_append(blocks: Seq<BlockEntry>, entry: BlockEntry)
    requires
        entry.first_position == blocks_end(blocks),
        blocks.len() > 0 ==> entry.height == blocks.last().height + 1,
    ensures
        ({
            let before = if blocks.len() == 0 {
                None
            } else {
                Some(blocks.last().height)
            };
            &&& kept_blocks(blocks.push(entry), before) == blocks
            &&& blocks_end(kept_blocks(blocks.push(entry), before)) == entry.first_position
        }),
{
    reveal_with_fuel(kept_blocks, 2);
    assert(blocks.push(entry).drop_last() =~= blocks);
    if blocks.len() == 0 {
        assert(blocks =~= Seq::empty());
    }
}

/// Append-only journal of one table's records.
pub struct RecordJournal {
    name: String,
    table: Option<DatabaseId>,
    layout: DatabaseLayout,
    manifest: StoreManifest,
    log: Vec<u8>,
}

/// A journal after opening, and the directory that an incompatible predecessor
/// has to be moved to first, if there was one.
pub struct OpenedJournal {
    pub journal: RecordJournal,
    pub superseded: Option<String>,
}

/// Whether a stored manifest belongs to this journal.
pub open spec fn compatible(manifest: StoreManifest, name: Seq<char>) -> bool {
    manifest.version == STORE_VERSION && manifest.table@ == name
}

/// Directory name for a journal that is set aside.
pub open spec fn superseded_name(manifest: StoreManifest) -> Seq<char> {
    "superseded-v"@ + decimal(manifest.version as nat) + "-"@ + manifest.table@
}

impl RecordJournal {
    /// The name the journal was opened under.
    pub closed spec fn label(&self) -> Seq<char> {
        self.name@
    }

    pub closed spec fn backed_table(&self) -> Option<DatabaseId> {
        self.table
    }

    pub closed spec fn geometry(&self) -> DatabaseLayout {
        self.layout
    }

    /// Populated positions.
    pub closed spec fn size(&self) -> nat {
        self.manifest.tree_size as nat
    }

    /// Committed blocks, oldest first.
    pub closed spec fn history(&self) -> Seq<BlockEntry> {
        self.manifest.blocks@
    }

    /// The bytes of the record log.
    pub closed spec fn image(&self) -> Seq<u8> {
        self.log@
    }

    /// Whether the blocks follow one another, in height and in position, and end
    /// where the records do. Stored blocks are not looked at when a journal is
    /// opened, so this holds of a journal that began empty, however often it was
    /// appended to, rewound and opened again.
    pub open spec fn in_order(&self) -> bool {
        blocks_chain(self.history(), self.size() as int)
    }

    /// The record at a position.
    pub open spec fn record(&self, position: int) -> Seq<u8> {
        let width = self.geometry().record_bytes as int;
        self.image().subrange(position * width, (position + 1) * width)
    }

    /// The bytes of so many records from a position on.
    pub open spec fn records_from(&self, start: nat, count: nat) -> Seq<u8> {
        let width = self.geometry().record_bytes as int;
        self.image().subrange(start * width, (start + count) * width)
    }

    /// The log holds exactly the committed records, under this version and
    /// name.
    pub closed spec fn wf(&self) -> bool {
        &&& self.layout.valid()
        &&& self.log@.len() == self.manifest.tree_size * self.layout.record_bytes
        &&& self.manifest.version == STORE_VERSION
        &&& self.manifest.table@ == self.name@
    }

    /// What well-formedness says in terms of the other views.
    pub proof fn lemma_wf(&self)
        requires
            self.wf(),
        ensures
            self.geometry().valid(),
            self.image().len() == self.size() * self.geometry().record_bytes,
            self.size() <= u64::MAX,
    {
    }

    /// Positions of a shard that are populated.
    pub open spec fn populated(&self, shard_id: nat) -> nat {
        let width = self.geometry().positions_per_shard();
        let start = shard_id * width;
        if self.size() <= start {
            0
        } else if self.size() - start < width {
            (self.size() - start) as nat
        } else {
            width
        }
    }

    /// The full padded shard: populated records in order, then zero bytes.
    pub open spec fn shard_rows(&self, shard_id: nat) -> Seq<u8> {
        let width = self.geometry().record_bytes as int;
        let start = shard_id * self.geometry().positions_per_shard();
        let present = self.image().subrange(
            start * width,
            (start + self.populated(shard_id)) * width,
        );
        present + zeros((self.geometry().shard_size() - present.len()) as nat)
    }

    /// The last shard with a populated position (shard zero when there is none).
    pub open spec fn last_shard(&self) -> nat {
        if self.size() == 0 {
            0
        } else {
            ((self.size() - 1) / self.geometry().positions_per_shard() as int) as nat
        }
    }

    /// Whether this is the journal that opening the stored state gives.
    pub open spec fn opened_from(
        &self,
        name: Seq<char>,
        table: Option<DatabaseId>,
        layout: DatabaseLayout,
        stored: Option<StoreManifest>,
        log: Seq<u8>,
    ) -> bool {
        &&& layout.valid() ==> self.wf()
        &&& self.label() == name
        &&& self.backed_table() == table
        &&& self.geometry() == layout
        &&& match stored {
            Some(manifest) if compatible(manifest, name) => {
                &&& self.size() == manifest.tree_size
                &&& self.history() == manifest.blocks@
                &&& self.image() == log.take(manifest.tree_size * layout.record_bytes)
            },
            _ => {
                &&& self.size() == 0
                &&& self.history().len() == 0
                &&& self.image().len() == 0
            },
        }
    }

    /// Opens the journal of a served table from its stored manifest and log.
    pub fn open(
        table: DatabaseId,
        layout: DatabaseLayout,
        stored: Option<StoreManifest>,
        log: Vec<u8>,
    ) -> (opened: Result<OpenedJournal, StoreError>)
        ensures
            Self::open_outcome(opened, table.wire_name(), Some(table), layout, stored, log@),
    {
        Self::open_inner(table.as_str(), Some(table), layout, stored, log)
    }

    /// Opens a journal that is not itself a served table (a log other tables
    /// are built from).
    pub fn open_log(
        name: &str,
        layout: DatabaseLayout,
        stored: Option<StoreManifest>,
        log: Vec<u8>,
    ) -> (opened: Result<OpenedJournal, StoreError>)
        ensures
            Self::open_outcome(opened, name@, None, layout, stored, log@),
    {
        Self::open_inner(name, None, layout, stored, log)
    }

    /// What opening gives: an incompatible journal is set aside and restarted
    /// empty, an uncommitted tail is dropped, and a log shorter than its
    /// manifest is refused.
    pub open spec fn open_outcome(
        opened: Result<OpenedJournal, StoreError>,
        name: Seq<char>,
        table: Option<DatabaseId>,
        layout: DatabaseLayout,
        stored: Option<StoreManifest>,
        log: Seq<u8>,
    ) -> bool {
        match opened {
            Ok(opened) => {
                &&& opened.journal.opened_from(name, table, layout, stored, log)
                &&& match stored {
                    Some(manifest) if compatible(manifest, name) => {
                        &&& manifest.tree_size * layout.record_bytes <= log.len()
                        &&& opened.superseded is None
                    },
                    Some(manifest) => opened.superseded matches Some(path) && path@
                        == superseded_name(manifest),
                    None => opened.superseded is None,
                }
            },
            Err(StoreError::Invariant(detail)) => {
                &&& stored matches Some(manifest)
                &&& compatible(manifest, name)
                &&& if manifest.tree_size * layout.record_bytes > u64::MAX {
                    detail@ == "record length overflow"@
                } else {
                    &&& log.len() < manifest.tree_size * layout.record_bytes
                    &&& detail@ == "records file is shorter than committed manifest"@
                }
            },
        }
    }

    fn open_inner(
        name: &str,
        table: Option<DatabaseId>,
        layout: DatabaseLayout,
        stored: Option<StoreManifest>,
        log: Vec<u8>,
    ) -> (opened: Result<OpenedJournal, StoreError>)
        ensures
            Self::open_outcome(opened, name@, table, layout, stored, log@),
    {
        let fresh = StoreManifest {
            version: STORE_VERSION,
            table: String::from_str(name),
            tree_size: 0,
            blocks: Vec::new(),
        };
        assert(0 * layout.record_bytes == 0) by (nonlinear_arith);
        match stored {
            None => Ok(
                OpenedJournal {
                    journal: RecordJournal {
                        name: String::from_str(name),
                        table,
                        layout,
                        manifest: fresh,
                        log: Vec::new(),
                    },
                    superseded: None,
                },
            ),
            Some(manifest) => {
                if manifest.version != STORE_VERSION || !same_text(manifest.table.as_str(), name) {
                    let mut path = String::from_str("superseded-v");
                    push_decimal(&mut path, manifest.version as u64);
                    path.append("-");
                    path.append(manifest.table.as_str());
                    return Ok(
                        OpenedJournal {
                            journal: RecordJournal {
                                name: String::from_str(name),
                                table,
                                layout,
                                manifest: fresh,
                                log: Vec::new(),
                            },
                            superseded: Some(path),
                        },
                    );
                }
                let record_bytes: u64 = layout.record_bytes as u64;
                match manifest.tree_size.checked_mul(record_bytes) {
                    None => Err(
                        StoreError::Invariant(String::from_str("record length overflow")),
                    ),
                    Some(expected) => {
                        let have: u64 = log.len() as u64;
                        if have < expected {
                            return Err(
                                StoreError::Invariant(
                                    String::from_str(
                                        "records file is shorter than committed manifest",
                                    ),
                                ),
                            );
                        }
                        let mut log = log;
                        log.truncate(expected as usize);
                        Ok(
                            OpenedJournal {
                                journal: RecordJournal {
                                    name: String::from_str(name),
                                    table,
                                    layout,
                                    manifest,
                                    log,
                                },
                                superseded: None,
                            },
                        )
                    },
                }
            },
        }
    }

    /// The served table this journal backs, if any.
    pub fn table(&self) -> (table: Option<DatabaseId>)
        ensures
            table == self.backed_table(),
    {
        self.table
    }

    pub fn name(&self) -> (name: &str)
        ensures
            name@ == self.label(),
    {
        self.name.as_str()
    }

    pub fn layout(&self) -> (layout: &DatabaseLayout)
        ensures
            *layout == self.geometry(),
    {
        &self.layout
    }

    pub fn tree_size(&self) -> (size: u64)
        ensures
            size == self.size(),
    {
        self.manifest.tree_size
    }

    pub fn last_block(&self) -> (block: Option<&BlockEntry>)
        ensures
            match block {
                Some(block) => self.history().len() > 0 && *block == self.history().last(),
                None => self.history().len() == 0,
            },
    {
        if self.manifest.blocks.len() == 0 {
            None
        } else {
            Some(&self.manifest.blocks[self.manifest.blocks.len() - 1])
        }
    }

    pub fn blocks(&self) -> (blocks: &[BlockEntry])
        ensures
            blocks@ == self.history(),
    {
        self.manifest.blocks.as_slice()
    }

    /// The manifest to persist.
    pub fn manifest(&self) -> (manifest: &StoreManifest)
        requires
            self.wf(),
        ensures
            compatible(*manifest, self.label()),
            manifest.tree_size == self.size(),
            manifest.blocks@ == self.history(),
    {
        &self.manifest
    }

    /// The record log to persist.
    pub fn log(&self) -> (log: &[u8])
        ensures
            log@ == self.image(),
    {
        self.log.as_slice()
    }

    /// Whether a block at `height` may follow what is committed.
    pub open spec fn follows(&self, height: u64) -> bool {
        self.history().len() > 0 ==> height == self.history().last().height + 1
    }

    /// Appends one block's records. A block must follow the last one, and
    /// every record must have the layout's size; otherwise nothing changes.
    pub fn append_block(&mut self, height: u64, hash: String, records: &[Vec<u8>]) -> (done: Result<
        (),
        StoreError,
    >)
        requires
            old(self).wf(),
            old(self).history().len() > 0 ==> old(self).history().last().height < u64::MAX,
        ensures
            final(self).wf(),
            final(self).label() == old(self).label(),
            final(self).backed_table() == old(self).backed_table(),
            final(self).geometry() == old(self).geometry(),
            old(self).in_order() ==> final(self).in_order(),
            match done {
                Ok(()) => {
                    &&& old(self).follows(height)
                    &&& forall|i: int|
                        0 <= i < records@.len() ==> (#[trigger] records@[i])@.len()
                            == old(self).geometry().record_bytes
                    &&& final(self).image() == old(self).image() + joined(records@)
                    &&& final(self).size() == old(self).size() + records@.len()
                    &&& final(self).history() == old(self).history().push(
                        (BlockEntry {
                            height,
                            hash,
                            first_position: old(self).size() as u64,
                            action_count: records@.len() as u64,
                        }),
                    )
                    &&& forall|p: int|
                        0 <= p < old(self).size() ==> #[trigger] final(self).record(p) == old(
                            self,
                        ).record(p)
                    &&& forall|i: int|
                        0 <= i < records@.len() ==> final(self).record(old(self).size() + i) == (
                        #[trigger] records@[i])@
                },
                Err(StoreError::Invariant(detail)) => {
                    &&& final(self).image() == old(self).image()
                    &&& final(self).size() == old(self).size()
                    &&& final(self).history() == old(self).history()
                    &&& if !old(self).follows(height) {
                        detail@ == "block height "@ + decimal(height as nat) + " does not follow "@
                            + decimal(old(self).history().last().height as nat)
                    } else {
                        exists|bad: int|
                            #![trigger records@[bad]]
                            0 <= bad < records@.len() && records@[bad]@.len() != old(
                                self,
                            ).geometry().record_bytes && (forall|i: int|
                                0 <= i < bad ==> (#[trigger] records@[i])@.len() == old(
                                    self,
                                ).geometry().record_bytes) && detail@ == "record has "@ + decimal(
                                records@[bad]@.len() as nat,
                            ) + " bytes, layout needs "@ + decimal(
                                old(self).geometry().record_bytes as nat,
                            )
                    }
                },
            },
    {
        if self.manifest.blocks.len() > 0 {
            let previous: u64 = self.manifest.blocks[self.manifest.blocks.len() - 1].height;
            if height != previous + 1 {
                let mut detail = String::from_str("block height ");
                push_decimal(&mut detail, height);
                detail.append(" does not follow ");
                push_decimal(&mut detail, previous);
                return Err(StoreError::Invariant(detail));
            }
        }
        let mut i: usize = 0;
        while i < records.len()
            invariant
                i <= records.len(),
                *self == *old(self),
                self.wf(),
                self.follows(height),
                forall|j: int|
                    0 <= j < i ==> (#[trigger] records@[j])@.len() == self.layout.record_bytes,
            decreases records.len() - i,
        {
            let size: usize = records[i].len();
            if size != self.layout.record_bytes {
                let mut detail = String::from_str("record has ");
                push_decimal(&mut detail, size as u64);
                detail.append(" bytes, layout needs ");
                push_decimal(&mut detail, self.layout.record_bytes as u64);
                assert(records@[i as int]@.len() != old(self).geometry().record_bytes);
                return Err(StoreError::Invariant(detail));
            }
            i = i + 1;
        }
        let ghost width = self.layout.record_bytes as int;
        let ghost before = self.log@;
        let first_position: u64 = self.manifest.tree_size;
        let mut k: usize = 0;
        let mut log: Vec<u8> = Vec::new();
        std::mem::swap(&mut log, &mut self.log);
        while k < records.len()
            invariant
                k <= records.len(),
                log@ == before + joined(records@.take(k as int)),
            decreases records.len() - k,
        {
            push_bytes(&mut log, records[k].as_slice());
            assert(records@.take(k + 1).drop_last() == records@.take(k as int));
            assert(records@.take(k + 1).last() == records@[k as int]);
            k = k + 1;
        }
        proof {
            assert(records@.take(k as int) == records@);
            lemma_joined(records@, width as nat);
            let n = records@.len() as int;
            let m = first_position as int;
            assert((m + n) * width == m * width + n * width) by (nonlinear_arith);
            assert(m + n <= (m + n) * width) by (nonlinear_arith)
                requires
                    width >= 1,
                    m + n >= 0,
            ;
            assert(log.len() <= usize::MAX);
        }
        let count: u64 = records.len() as u64;
        self.log = log;
        self.manifest.tree_size = first_position + count;
        self.manifest.blocks.push(
            BlockEntry { height, hash, first_position, action_count: count },
        );
        proof {
            let m = first_position as int;
            let was = *old(self);
            assert forall|p: int| 0 <= p < was.size() implies #[trigger] self.record(p)
                == was.record(p) by {
                assert((p + 1) * width == p * width + width) by (nonlinear_arith);
                assert(0 <= p * width && (p + 1) * width <= m * width) by (nonlinear_arith)
                    requires
                        0 <= p,
                        p + 1 <= m,
                        width >= 0,
                ;
                assert(self.record(p) =~= was.record(p));
            }
            assert forall|i: int| 0 <= i < records@.len() implies self.record(was.size() + i) == (
            #[trigger] records@[i])@ by {
                assert((m + i) * width == m * width + i * width) by (nonlinear_arith);
                assert((m + i + 1) * width == m * width + (i + 1) * width) by (nonlinear_arith);
                assert((i + 1) * width == i * width + width) by (nonlinear_arith);
                assert(0 <= i * width) by (nonlinear_arith)
                    requires
                        i >= 0,
                        width >= 0,
                ;
                assert((i + 1) * width <= records@.len() * width) by (nonlinear_arith)
                    requires
                        i + 1 <= records@.len(),
                        width >= 0,
                ;
                let added = joined(records@).subrange(i * width, (i + 1) * width);
                assert(added == records@[i]@);
                assert(self.record(was.size() + i) =~= added);
            }
        }
        proof {
            if old(self).in_order() {
                let was = old(self).history();
                let now = self.history();
                assert forall|i: int|
                    #![trigger now[i]]
                    0 < i < now.len() implies now[i].height == now[i - 1].height + 1
                    && now[i].first_position == now[i - 1].first_position + now[i
                    - 1].action_count by {
                    if i < was.len() {
                        assert(now[i] == was[i] && now[i - 1] == was[i - 1]);
                    } else {
                        assert(now[i - 1] == was.last());
                    }
                }
                if was.len() > 0 {
                    assert(now[0] == was[0]);
                }
            }
        }
        Ok(())
    }

    /// Takes back the trailing blocks above a height, or all blocks, with their
    /// records. A manifest whose remaining blocks end beyond the log is left
    /// alone.
    pub fn rewind_to_height(&mut self, height: Option<u64>) -> (done: Result<(), StoreError>)
        requires
            old(self).wf(),
        ensures
            final(self).wf(),
            final(self).label() == old(self).label(),
            final(self).backed_table() == old(self).backed_table(),
            final(self).geometry() == old(self).geometry(),
            old(self).in_order() ==> final(self).in_order() && done is Ok,
            ({
                let kept = kept_blocks(old(self).history(), height);
                match done {
                    Ok(()) => {
                        &&& blocks_end(kept) <= old(self).size()
                        &&& final(self).history() == kept
                        &&& final(self).size() == blocks_end(kept)
                        &&& final(self).image() == old(self).image().take(
                            blocks_end(kept) * old(self).geometry().record_bytes,
                        )
                    },
                    Err(StoreError::Invariant(detail)) => {
                        &&& blocks_end(kept) > old(self).size()
                        &&& detail@ == "blocks reach beyond the committed records"@
                        &&& final(self).history() == old(self).history()
                        &&& final(self).size() == old(self).size()
                        &&& final(self).image() == old(self).image()
                    },
                }
            }),
    {
        proof {
            let kept = kept_blocks(self.history(), height);
            lemma_kept_is_start(self.history(), height);
            if self.in_order() {
                lemma_chain_start(self.history(), self.size() as int, kept.len() as int);
            }
        }
        let blocks = &self.manifest.blocks;
        let mut keep: usize = 0;
        if let Some(limit) = height {
            keep = blocks.len();
            assert(blocks@.take(keep as int) =~= blocks@);
            while keep > 0 && blocks[keep - 1].height > limit
                invariant
                    keep <= blocks.len(),
                    height == Some(limit),
                    kept_blocks(blocks@, height) == kept_blocks(blocks@.take(keep as int), height),
                decreases keep,
            {
                assert(blocks@.take(keep as int).drop_last() =~= blocks@.take(keep - 1));
                keep = keep - 1;
            }
        }
        assert(kept_blocks(blocks@, height) =~= blocks@.take(keep as int));
        let end: Option<u64> = if keep == 0 {
            Some(0)
        } else {
            blocks[keep - 1].first_position.checked_add(blocks[keep - 1].action_count)
        };
        let size: u64 = match end {
            Some(end) => end,
            None => {
                return Err(
                    StoreError::Invariant(
                        String::from_str("blocks reach beyond the committed records"),
                    ),
                );
            },
        };
        if size > self.manifest.tree_size {
            return Err(
                StoreError::Invariant(
                    String::from_str("blocks reach beyond the committed records"),
                ),
            );
        }
        proof {
            let width = self.layout.record_bytes as int;
            let all = self.manifest.tree_size as int;
            assert(0 <= size * width <= all * width) by (nonlinear_arith)
                requires
                    0 <= size <= all,
                    width >= 0,
            ;
            assert(size <= size * width) by (nonlinear_arith)
                requires
                    0 <= size,
                    width >= 1,
            ;
            assert(self.log.len() <= usize::MAX);
        }
        self.manifest.blocks.truncate(keep);
        self.log.truncate(size as usize * self.layout.record_bytes);
        self.manifest.tree_size = size;
        assert(old(self).in_order() ==> self.in_order());
        Ok(())
    }

    /// Shards with at least one populated position, from shard zero: none where
    /// the journal is empty.
    pub fn shard_ids(&self) -> (ids: RangeInclusive<u64>)
        requires
            self.wf(),
        ensures
            forall|s: u64|
                ids@.start <= s <= ids@.end <==> #[trigger] self.populated(s as nat) > 0,
            self.size() > 0 ==> ids@.start == 0 && ids@.end == self.last_shard(),
            self.size() == 0 ==> ids@.start == 1 && ids@.end == 0,
            !ids@.exhausted,
    {
        proof {
            self.layout.lemma_valid_bounds();
            if self.size() > 0 {
                assert forall|s: u64|
                    0 <= s <= self.last_shard() <==> #[trigger] self.populated(s as nat) > 0 by {
                    law_shards_cover_the_journal(self, s as nat);
                }
            }
        }
        if self.manifest.tree_size == 0 {
            RangeInclusive::new(1, 0)
        } else {
            RangeInclusive::new(
                0,
                (self.manifest.tree_size - 1) / self.layout.shard_positions() as u64,
            )
        }
    }

    /// The full padded shard. Deterministic, so its digest is stable.
    pub fn read_shard_rows(&self, shard_id: u64) -> (rows: Result<Vec<u8>, StoreError>)
        requires
            self.wf(),
        ensures
            match rows {
                Ok(rows) => {
                    &&& shard_id * self.geometry().positions_per_shard() < self.size()
                    &&& rows@ == self.shard_rows(shard_id as nat)
                    &&& rows@.len() == self.geometry().shard_size()
                },
                Err(StoreError::Invariant(detail)) => {
                    &&& shard_id * self.geometry().positions_per_shard() >= self.size()
                    &&& detail@ == (if shard_id * self.geometry().positions_per_shard() > u64::MAX {
                        "shard position overflow"@
                    } else {
                        "shard "@ + decimal(shard_id as nat) + " is outside stored coverage"@
                    })
                },
            },
    {
        proof {
            self.layout.lemma_valid_bounds();
        }
        let positions: u64 = self.layout.shard_positions() as u64;
        match shard_id.checked_mul(positions) {
            None => Err(StoreError::Invariant(String::from_str("shard position overflow"))),
            Some(start) => {
                if start >= self.manifest.tree_size {
                    let mut detail = String::from_str("shard ");
                    push_decimal(&mut detail, shard_id);
                    detail.append(" is outside stored coverage");
                    return Err(StoreError::Invariant(detail));
                }
                let left: u64 = self.manifest.tree_size - start;
                let available: u64 = if left < positions {
                    left
                } else {
                    positions
                };
                let ghost width = self.layout.record_bytes as int;
                proof {
                    assert(self.log.len() <= usize::MAX);
                    let size = self.manifest.tree_size as int;
                    let s = start as int;
                    let a = available as int;
                    assert((s + a) * width == s * width + a * width) by (nonlinear_arith);
                    assert((s + a) * width <= size * width) by (nonlinear_arith)
                        requires
                            s + a <= size,
                            width >= 0,
                    ;
                    assert(0 <= s * width && 0 <= a * width) by (nonlinear_arith)
                        requires
                            s >= 0,
                            a >= 0,
                            width >= 0,
                    ;
                    assert(a * width <= positions * width) by (nonlinear_arith)
                        requires
                            a <= positions,
                            width >= 0,
                    ;
                    assert(s <= size * width && s <= s * width && a <= a * width)
                        by (nonlinear_arith)
                        requires
                            width >= 1,
                            0 <= s <= size,
                            0 <= a,
                    ;
                }
                let from: usize = start as usize * self.layout.record_bytes;
                let to: usize = from + available as usize * self.layout.record_bytes;
                let mut rows = copy_range(self.log.as_slice(), from, to);
                pad_zeros(&mut rows, self.layout.shard_bytes());
                assert(rows@ == self.shard_rows(shard_id as nat));
                Ok(rows)
            },
        }
    }

    /// Raw bytes of `count` consecutive records from `start`, all of which
    /// must be populated.
    pub fn read_records(&self, start: u64, count: usize) -> (bytes: Result<Vec<u8>, StoreError>)
        requires
            self.wf(),
        ensures
            match bytes {
                Ok(bytes) => {
                    &&& start + count <= self.size()
                    &&& bytes@ == self.records_from(start as nat, count as nat)
                },
                Err(StoreError::Invariant(detail)) => {
                    &&& start + count > self.size()
                    &&& detail@ == (if start + count > u64::MAX {
                        "record range overflow"@
                    } else {
                        "records "@ + decimal(start as nat) + ".."@ + decimal(
                            (start + count) as nat,
                        ) + " exceed the journal's "@ + decimal(self.size()) + " positions"@
                    })
                },
            },
    {
        match start.checked_add(count as u64) {
            None => Err(StoreError::Invariant(String::from_str("record range overflow"))),
            Some(end) => {
                if end > self.manifest.tree_size {
                    let mut detail = String::from_str("records ");
                    push_decimal(&mut detail, start);
                    detail.append("..");
                    push_decimal(&mut detail, end);
                    detail.append(" exceed the journal's ");
                    push_decimal(&mut detail, self.manifest.tree_size);
                    detail.append(" positions");
                    return Err(StoreError::Invariant(detail));
                }
                proof {
                    let width = self.layout.record_bytes as int;
                    let s = start as int;
                    let e = end as int;
                    let size = self.manifest.tree_size as int;
                    assert(self.log.len() <= usize::MAX);
                    assert(0 <= s * width <= e * width <= size * width) by (nonlinear_arith)
                        requires
                            0 <= s <= e <= size,
                            width >= 0,
                    ;
                    assert(s <= s * width && e <= e * width) by (nonlinear_arith)
                        requires
                            width >= 1,
                            0 <= s,
                            0 <= e,
                    ;
                }
                let from: usize = start as usize * self.layout.record_bytes;
                let to: usize = end as usize * self.layout.record_bytes;
                Ok(copy_range(self.log.as_slice(), from, to))
            },
        }
    }

    pub fn populated_positions_in_shard(&self, shard_id: u64) -> (count: u64)
        requires
            self.wf(),
        ensures
            count == self.populated(shard_id as nat),
    {
        proof {
            self.layout.lemma_valid_bounds();
        }
        let positions: u64 = self.layout.shard_positions() as u64;
        match shard_id.checked_mul(positions) {
            None => 0,
            Some(start) => {
                if self.manifest.tree_size <= start {
                    0
                } else if self.manifest.tree_size - start < positions {
                    self.manifest.tree_size - start
                } else {
                    positions
                }
            },
        }
    }

    /// The digest that identifies a shard's rows.
    pub fn rows_digest(rows: &[u8]) -> (digest: String)
        ensures
            digest@ == hex_text(sha256(rows@)),
    {
        sha256_hex(rows)
    }
}

/// A journal that began empty is in order, and one that is in order stays so
/// when it is opened again from what it persisted.
pub proof fn law_journals_begin_in_order(
    journal: &RecordJournal,
    reopened: &RecordJournal,
    fresh: &RecordJournal,
    manifest: StoreManifest,
    log: Seq<u8>,
)
    requires
        fresh.opened_from(fresh.label(), fresh.backed_table(), fresh.geometry(), None, log),
        journal.in_order(),
        compatible(manifest, journal.label()),
        manifest.tree_size == journal.size(),
        manifest.blocks@ == journal.history(),
        reopened.opened_from(
            journal.label(),
            journal.backed_table(),
            journal.geometry(),
            Some(manifest),
            log,
        ),
    ensures
        fresh.in_order(),
        reopened.in_order(),
{
}

/// What was appended is read back from where the journal ended, and what was
/// there before is read as before.
pub proof fn law_appended_records_read_back(
    before: &RecordJournal,
    after: &RecordJournal,
    records: Seq<Vec<u8>>,
    start: nat,
    count: nat,
)
    requires
        before.wf(),
        after.wf(),
        after.geometry() == before.geometry(),
        after.image() == before.image() + joined(records),
        after.size() == before.size() + records.len(),
    ensures
        after.records_from(before.size(), records.len()) == joined(records),
        start + count <= before.size() ==> after.records_from(start, count)
            == before.records_from(start, count),
{
    before.lemma_wf();
    after.lemma_wf();
    let width = before.geometry().record_bytes as int;
    assert(after.records_from(before.size(), records.len()) =~= joined(records));
    if start + count <= before.size() {
        let size = before.size() as int;
        assert((start + count) * width <= size * width && 0 <= start * width <= (start + count)
            * width) by (nonlinear_arith)
            requires
                start + count <= size,
                width >= 0,
                start >= 0,
                count >= 0,
        ;
        assert(after.records_from(start, count) =~= before.records_from(start, count));
    }
}

/// Reopening a journal from what it persisted gives it back: same records,
/// same blocks, same size.
pub proof fn law_reopening_restores(journal: &RecordJournal, reopened: &RecordJournal, manifest: StoreManifest)
    requires
        journal.wf(),
        compatible(manifest, journal.label()),
        manifest.tree_size == journal.size(),
        manifest.blocks@ == journal.history(),
        reopened.opened_from(
            journal.label(),
            journal.backed_table(),
            journal.geometry(),
            Some(manifest),
            journal.image(),
        ),
    ensures
        reopened.image() == journal.image(),
        reopened.size() == journal.size(),
        reopened.history() == journal.history(),
        forall|p: int| #[trigger] reopened.record(p) == journal.record(p),
{
    journal.lemma_wf();
    assert(journal.image().take(journal.image().len() as int) == journal.image());
}

/// Bytes appended to the log without a manifest that counts them are gone
/// after reopening.
pub proof fn law_reopening_drops_an_uncommitted_tail(
    journal: &RecordJournal,
    reopened: &RecordJournal,
    manifest: StoreManifest,
    tail: Seq<u8>,
)
    requires
        journal.wf(),
        compatible(manifest, journal.label()),
        manifest.tree_size == journal.size(),
        manifest.blocks@ == journal.history(),
        reopened.opened_from(
            journal.label(),
            journal.backed_table(),
            journal.geometry(),
            Some(manifest),
            journal.image() + tail,
        ),
    ensures
        reopened.image() == journal.image(),
        reopened.history() == journal.history(),
{
    journal.lemma_wf();
    assert((journal.image() + tail).take(journal.image().len() as int) == journal.image());
}

/// Every shard up to the last has populated positions, all before the last
/// are full, and none after it has any.
pub proof fn law_shards_cover_the_journal(journal: &RecordJournal, shard_id: nat)
    requires
        journal.wf(),
        journal.size() > 0,
    ensures
        shard_id <= journal.last_shard() ==> journal.populated(shard_id) > 0,
        shard_id < journal.last_shard() ==> journal.populated(shard_id)
            == journal.geometry().positions_per_shard(),
        shard_id > journal.last_shard() ==> journal.populated(shard_id) == 0,
{
    journal.lemma_wf();
    journal.geometry().lemma_valid_bounds();
    let width = journal.geometry().positions_per_shard() as int;
    let size = journal.size() as int;
    let last = journal.last_shard() as int;
    vstd::arithmetic::div_mod::lemma_fundamental_div_mod(size - 1, width);
    assert(last * width <= size - 1 < (last + 1) * width) by (nonlinear_arith)
        requires
            size - 1 == width * last + (size - 1) % width,
            0 <= (size - 1) % width < width,
    ;
    let s = shard_id as int;
    if s < last {
        assert((s + 1) * width <= last * width) by (nonlinear_arith)
            requires
                s + 1 <= last,
                width > 0,
        ;
        assert((s + 1) * width == s * width + width) by (nonlinear_arith);
    } else if s > last {
        assert((last + 1) * width <= s * width) by (nonlinear_arith)
            requires
                last + 1 <= s,
                width > 0,
        ;
    }
}

/// A populated record is found in its shard at its slot, unchanged.
pub proof fn law_shard_rows_hold_the_records(journal: &RecordJournal, position: nat)
    requires
        journal.wf(),
        position < journal.size(),
    ensures
        ({
            let width = journal.geometry().record_bytes as int;
            let per_shard = journal.geometry().positions_per_shard() as int;
            let shard = position as int / per_shard;
            let slot = position as int % per_shard;
            journal.shard_rows(shard as nat).subrange(slot * width, (slot + 1) * width)
                == journal.record(position as int)
        }),
{
    journal.lemma_wf();
    journal.geometry().lemma_valid_bounds();
    let width = journal.geometry().record_bytes as int;
    let per_shard = journal.geometry().positions_per_shard() as int;
    let size = journal.size() as int;
    let shard = position as int / per_shard;
    let slot = position as int % per_shard;
    vstd::arithmetic::div_mod::lemma_fundamental_div_mod(position as int, per_shard);
    assert(shard >= 0) by (nonlinear_arith)
        requires
            position as int == per_shard * shard + slot,
            position as int >= 0,
            0 <= slot < per_shard,
    ;
    let start = shard * per_shard;
    assert(position as int == start + slot) by (nonlinear_arith)
        requires
            position as int == per_shard * shard + slot,
            start == shard * per_shard,
    ;
    let held = journal.populated(shard as nat) as int;
    assert(slot < held);
    assert((slot + 1) * width == slot * width + width) by (nonlinear_arith);
    assert((start + slot) * width == start * width + slot * width) by (nonlinear_arith);
    assert((start + slot + 1) * width == start * width + (slot + 1) * width) by (nonlinear_arith);
    assert((start + held) * width == start * width + held * width) by (nonlinear_arith);
    assert(0 <= slot * width && (slot + 1) * width <= held * width) by (nonlinear_arith)
        requires
            0 <= slot,
            slot + 1 <= held,
            width >= 0,
    ;
    assert(0 <= start * width) by (nonlinear_arith)
        requires
            start >= 0,
            width >= 0,
    ;
    assert((start + held) * width <= size * width) by (nonlinear_arith)
        requires
            start + held <= size,
            width >= 0,
    ;
    assert(journal.shard_rows(shard as nat).subrange(slot * width, (slot + 1) * width)
        =~= journal.record(position as int));
}

/// Rewinding to a height keeps the blocks up to it; rewinding to none keeps none.
pub proof fn law_rewinding_keeps_the_blocks_up_to_a_height(blocks: Seq<BlockEntry>, height: u64)
    requires
        forall|i: int, j: int|
            0 <= i < j < blocks.len() ==> (#[trigger] blocks[i]).height < (
            #[trigger] blocks[j]).height,
    ensures
        kept_blocks(blocks, Some(height)) == blocks.filter(
            |block: BlockEntry| block.height <= height,
        ),
        kept_blocks(blocks, None).len() == 0,
    decreases blocks.len(),
{
    reveal(Seq::filter);
    let low = |block: BlockEntry| block.height <= height;
    if blocks.len() > 0 {
        let head = blocks.drop_last();
        assert forall|i: int, j: int| 0 <= i < j < head.len() implies (#[trigger] head[i]).height
            < (#[trigger] head[j]).height by {
            assert(head[i] == blocks[i] && head[j] == blocks[j]);
        }
        law_rewinding_keeps_the_blocks_up_to_a_height(head, height);
        if blocks.last().height <= height {
            assert forall|i: int| 0 <= i < blocks.len() implies low(#[trigger] blocks[i]) by {
                if i < blocks.len() - 1 {
                    assert(blocks[i].height < blocks[blocks.len() - 1].height);
                }
            }
            lemma_filter_all(blocks, low);
        }
    }
    assert(kept_blocks(blocks, Some(height)) =~= blocks.filter(low));
}

proof fn lemma_filter_all(blocks: Seq<BlockEntry>, keep: spec_fn(BlockEntry) -> bool)
    requires
        forall|i: int| 0 <= i < blocks.len() ==> keep(#[trigger] blocks[i]),
    ensures
        blocks.filter(keep) == blocks,
    decreases blocks.len(),
{
    reveal(Seq::filter);
    if blocks.len() > 0 {
        let head = blocks.drop_last();
        assert forall|i: int| 0 <= i < head.len() implies keep(#[trigger] head[i]) by {
            assert(head[i] == blocks[i]);
        }
        lemma_filter_all(head, keep);
        assert(keep(blocks[blocks.len() - 1]));
        assert(blocks =~= head.push(blocks.last()));
    }
}

/// Records one behind the other: each begins where those before it end.
pub proof fn law_records_stand_one_behind_the_other(records: Seq<Vec<u8>>, size: nat, k: int)
    requires
        0 <= k < records.len(),
        forall|i: int| 0 <= i < records.len() ==> (#[trigger] records[i])@.len() == size,
    ensures
        joined(records).len() == records.len() * size,
        joined(records).subrange(k * size, k * size + size) == records[k]@,
{
    lemma_joined(records, size);
    assert((k + 1) * size == k * size + size) by (nonlinear_arith);
}

} // verus!
