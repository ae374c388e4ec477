//! Storage of one filter per block.
//!
//! A filter belongs to its block's hash and never changes; which blocks are
//! covered is kept apart, as the list of hashes by height. So a change of the
//! best chain takes back coverage and leaves every filter where it is.
//!
//! The store owns the images of three files. `filters.bin` holds the filters,
//! one after the other; `index.bin` has a 76-byte record for each, the block's
//! hash, offset and length of the filter, and its digest; `chain.bin` has the
//! 32-byte hash of each covered block, from the start height on. A checkpoint
//! of 24 bytes holds the lengths of the three that are durable. Reading and
//! writing the files is left to the caller.

use vstd::prelude::*;

use crate::bytemap::{same_bytes, ByteMap};
use crate::codec::{
    copy_range, le_bytes, le_value, lemma_byte_spans, lemma_le_bytes_len, lemma_read_written_field,
    push_bytes, push_le, read_le,
};
use crate::filter::types::{display_hex, thirty_two, BlockHash};
use crate::text::{decimal, push_decimal, same_text};

verus! {

/// Changes whenever a file's layout does. A store of another version is set
/// aside.
pub const STORE_VERSION: u16 = 1;

pub const INDEX_RECORD_BYTES: usize = 76;

pub const CHAIN_RECORD_BYTES: usize = 32;

/// Why the store refused.
#[derive(Debug)]
pub enum StoreError {
    Invariant(String),
    /// A filter's place reaches beyond the filters.
    ShortRead,
}

impl StoreError {
    pub fn message(&self) -> (text: String)
        ensures
            text@ == (match self {
                StoreError::Invariant(detail) => "store invariant violated: "@ + detail@,
                StoreError::ShortRead => "I/O error: failed to fill whole buffer"@,
            }),
    {
        match self {
            StoreError::Invariant(detail) => {
                let mut text = String::from_str("store invariant violated: ");
                text.append(detail.as_str());
                text
            },
            StoreError::ShortRead => String::from_str("I/O error: failed to fill whole buffer"),
        }
    }
}

/// What a store is pinned to.
#[derive(Debug)]
pub struct Meta {
    pub version: u16,
    pub profile: String,
    /// Chain identity, as people read it.
    pub genesis_hash: String,
    pub start_height: u64,
}

/// What a directory says of the store in it.
#[derive(Debug)]
pub enum StoredMeta {
    Absent,
    Unreadable,
    Found(Meta),
}

/// A filter, with its block and its digest.
#[derive(Debug)]
pub struct StoredFilter {
    pub block_hash: BlockHash,
    pub bytes: Vec<u8>,
    pub digest: [u8; 32],
}

/// Block hash of an index record.
pub open spec fn index_hash(index: Seq<u8>, n: int) -> Seq<u8> {
    index.subrange(76 * n, 76 * n + 32)
}

/// Offset of the filter of an index record.
pub open spec fn index_offset(index: Seq<u8>, n: int) -> nat {
    le_value(index.subrange(76 * n + 32, 76 * n + 40))
}

/// Length of the filter of an index record.
pub open spec fn index_length(index: Seq<u8>, n: int) -> nat {
    le_value(index.subrange(76 * n + 40, 76 * n + 44))
}

/// Digest of the filter of an index record.
pub open spec fn index_digest(index: Seq<u8>, n: int) -> Seq<u8> {
    index.subrange(76 * n + 44, 76 * n + 76)
}

/// The last one of the first `n` records that is of a block.
pub open spec fn last_record(index: Seq<u8>, n: int, hash: Seq<u8>) -> Option<int>
    decreases n,
{
    if n <= 0 {
        None
    } else if index_hash(index, n - 1) == hash {
        Some(n - 1)
    } else {
        last_record(index, n - 1, hash)
    }
}

proof fn lemma_last_record(index: Seq<u8>, n: int, hash: Seq<u8>)
    ensures
        last_record(index, n, hash) matches Some(at) ==> (0 <= at < n && index_hash(index, at)
            == hash),
    decreases n,
{
    if n > 0 && index_hash(index, n - 1) != hash {
        lemma_last_record(index, n - 1, hash);
    }
}

/// Records beyond the first `n` do not matter to them.
proof fn lemma_last_record_prefix(a: Seq<u8>, b: Seq<u8>, n: int, hash: Seq<u8>)
    requires
        0 <= n,
        76 * n <= a.len() <= b.len(),
        a == b.take(a.len() as int),
    ensures
        last_record(a, n, hash) == last_record(b, n, hash),
    decreases n,
{
    if n > 0 {
        assert(index_hash(a, n - 1) =~= index_hash(b, n - 1));
        lemma_last_record_prefix(a, b, n - 1, hash);
    }
}

/// The record that a filter gets in the index.
pub open spec fn index_record(hash: Seq<u8>, offset: nat, length: nat, digest: Seq<u8>) -> Seq<u8> {
    hash + le_bytes(offset, 8) + le_bytes(length, 4) + digest
}

proof fn lemma_appended_record(
    index: Seq<u8>,
    hash: Seq<u8>,
    offset: nat,
    length: nat,
    digest: Seq<u8>,
)
    requires
        index.len() % 76 == 0,
        hash.len() == 32,
        digest.len() == 32,
        offset <= u64::MAX,
        length <= u32::MAX,
    ensures
        index_record(hash, offset, length, digest).len() == 76,
        ({
            let n = (index.len() / 76) as int;
            let grown = index + index_record(hash, offset, length, digest);
            &&& grown.len() == 76 * (n + 1)
            &&& index_hash(grown, n) == hash
            &&& index_offset(grown, n) == offset
            &&& index_length(grown, n) == length
            &&& index_digest(grown, n) == digest
        }),
{
    lemma_le_bytes_len(offset, 8);
    lemma_le_bytes_len(length, 4);
    lemma_byte_spans();
    lemma_read_written_field(offset, 8);
    lemma_read_written_field(length, 4);
    let n = (index.len() / 76) as int;
    assert(index.len() == 76 * n);
    let grown = index + index_record(hash, offset, length, digest);
    assert(index_hash(grown, n) =~= hash);
    assert(grown.subrange(76 * n + 32, 76 * n + 40) =~= le_bytes(offset, 8));
    assert(grown.subrange(76 * n + 40, 76 * n + 44) =~= le_bytes(length, 4));
    assert(index_digest(grown, n) =~= digest);
}

/// Hash of the covered block at a place.
pub open spec fn chain_hash(chain: Seq<u8>, i: int) -> Seq<u8> {
    chain.subrange(32 * i, 32 * i + 32)
}

/// The first place from `from` on with this hash.
pub open spec fn chain_place(chain: Seq<u8>, from: int, hash: Seq<u8>) -> Option<int>
    decreases chain.len() - 32 * from,
{
    if from < 0 || 32 * (from + 1) > chain.len() {
        None
    } else if chain_hash(chain, from) == hash {
        Some(from)
    } else {
        chain_place(chain, from + 1, hash)
    }
}

/// The place of a hash is the first one that holds it; where there is none, no
/// whole entry holds it.
pub proof fn lemma_chain_place(chain: Seq<u8>, from: int, hash: Seq<u8>)
    requires
        0 <= from,
    ensures
        match chain_place(chain, from, hash) {
            Some(at) => {
                &&& from <= at
                &&& 32 * (at + 1) <= chain.len()
                &&& chain.subrange(32 * at, 32 * at + 32) == hash
                &&& forall|j: int|
                    from <= j < at ==> #[trigger] chain.subrange(32 * j, 32 * j + 32) != hash
            },
            None => forall|j: int|
                from <= j && 32 * (j + 1) <= chain.len() ==> #[trigger] chain.subrange(
                    32 * j,
                    32 * j + 32,
                ) != hash,
        },
    decreases chain.len() - 32 * from,
{
    if 32 * (from + 1) <= chain.len() && chain_hash(chain, from) != hash {
        lemma_chain_place(chain, from + 1, hash);
    }
}

/// The filter that an index names for a block, with its digest: nothing where
/// the block has none or its place reaches beyond the filters.
pub open spec fn filter_at(filters: Seq<u8>, index: Seq<u8>, hash: Seq<u8>) -> Option<
    (Seq<u8>, Seq<u8>),
> {
    match last_record(index, (index.len() / 76) as int, hash) {
        None => None,
        Some(n) => {
            let offset = index_offset(index, n) as int;
            let end = offset + index_length(index, n);
            if end <= filters.len() {
                Some((filters.subrange(offset, end), index_digest(index, n)))
            } else {
                None
            }
        },
    }
}

/// What is read of a block after its filter was appended is that filter; what
/// is read of any other block is what was read before.
pub proof fn law_read_after_append(
    filters: Seq<u8>,
    index: Seq<u8>,
    hash: Seq<u8>,
    filter: Seq<u8>,
    digest: Seq<u8>,
    other: Seq<u8>,
)
    requires
        index.len() % 76 == 0,
        hash.len() == 32,
        digest.len() == 32,
        filters.len() <= u64::MAX,
        filter.len() <= u32::MAX,
    ensures
        ({
            let grown = index + index_record(hash, filters.len(), filter.len(), digest);
            &&& filter_at(filters + filter, grown, hash) == Some((filter, digest))
            &&& other != hash && filter_at(filters, index, other) is Some ==> filter_at(
                filters + filter,
                grown,
                other,
            ) == filter_at(filters, index, other)
        }),
{
    let record = index_record(hash, filters.len(), filter.len(), digest);
    let grown = index + record;
    let n = (index.len() / 76) as int;
    lemma_appended_record(index, hash, filters.len(), filter.len(), digest);
    assert(grown.len() / 76 == n + 1);
    let all = filters + filter;
    assert(all.subrange(filters.len() as int, (filters.len() + filter.len()) as int) =~= filter);
    assert(grown.take(index.len() as int) =~= index);
    if other != hash {
        lemma_last_record_prefix(index, grown, n, other);
        lemma_last_record(index, n, other);
        if filter_at(filters, index, other) is Some {
            let at = last_record(index, n, other)->0;
            assert(grown.subrange(76 * at + 32, 76 * at + 40) =~= index.subrange(
                76 * at + 32,
                76 * at + 40,
            ));
            assert(grown.subrange(76 * at + 40, 76 * at + 44) =~= index.subrange(
                76 * at + 40,
                76 * at + 44,
            ));
            assert(index_digest(grown, at) =~= index_digest(index, at));
            let offset = index_offset(index, at) as int;
            let end = offset + index_length(index, at);
            assert(all.subrange(offset, end) =~= filters.subrange(offset, end));
        }
    }
}

/// A checkpoint: the durable lengths of filters, index and chain.
pub open spec fn checkpoint_bytes(filters: nat, index: nat, chain: nat) -> Seq<u8> {
    le_bytes(filters, 8) + le_bytes(index, 8) + le_bytes(chain, 8)
}

/// The lengths that a checkpoint holds; all zero where there is none.
pub open spec fn checkpoint_lengths(checkpoint: Option<Seq<u8>>) -> (nat, nat, nat) {
    match checkpoint {
        None => (0, 0, 0),
        Some(bytes) => (
            le_value(bytes.subrange(0, 8)),
            le_value(bytes.subrange(8, 16)),
            le_value(bytes.subrange(16, 24)),
        ),
    }
}

proof fn lemma_checkpoint(filters: nat, index: nat, chain: nat)
    requires
        filters <= u64::MAX,
        index <= u64::MAX,
        chain <= u64::MAX,
    ensures
        checkpoint_bytes(filters, index, chain).len() == 24,
        checkpoint_lengths(Some(checkpoint_bytes(filters, index, chain))) == (
            filters,
            index,
            chain,
        ),
{
    lemma_byte_spans();
    lemma_le_bytes_len(filters, 8);
    lemma_le_bytes_len(index, 8);
    lemma_le_bytes_len(chain, 8);
    lemma_read_written_field(filters, 8);
    lemma_read_written_field(index, 8);
    lemma_read_written_field(chain, 8);
    let bytes = checkpoint_bytes(filters, index, chain);
    assert(bytes.subrange(0, 8) =~= le_bytes(filters, 8));
    assert(bytes.subrange(8, 16) =~= le_bytes(index, 8));
    assert(bytes.subrange(16, 24) =~= le_bytes(chain, 8));
}

/// The three files and the checkpoint, as found.
pub struct StoredFiles {
    pub filters: Vec<u8>,
    pub index: Vec<u8>,
    pub chain: Vec<u8>,
    pub checkpoint: Option<Vec<u8>>,
}

/// A checkpoint as a value.
pub open spec fn checkpoint_view(checkpoint: Option<Vec<u8>>) -> Option<Seq<u8>> {
    match checkpoint {
        Some(bytes) => Some(bytes@),
        None => None,
    }
}

/// Why stored files cannot be opened.
pub open spec fn files_issue(
    filters: Seq<u8>,
    index: Seq<u8>,
    chain: Seq<u8>,
    checkpoint: Option<Seq<u8>>,
) -> Option<Seq<char>> {
    let lengths = checkpoint_lengths(checkpoint);
    if checkpoint is Some && checkpoint->0.len() != 24 {
        Some("checkpoint is not 24 bytes"@)
    } else if filters.len() < lengths.0 {
        Some("filters.bin"@ + " is shorter than its checkpoint"@)
    } else if index.len() < lengths.1 {
        Some("index.bin"@ + " is shorter than its checkpoint"@)
    } else if chain.len() < lengths.2 {
        Some("chain.bin"@ + " is shorter than its checkpoint"@)
    } else if lengths.1 % 76 != 0 {
        Some("index.bin is not a whole number of records"@)
    } else if lengths.2 % 32 != 0 {
        Some("chain.bin is not a whole number of records"@)
    } else {
        None
    }
}

/// Whether what a directory says is what is wanted. A directory that says
/// nothing is taken as it is.
pub open spec fn meta_fits(
    stored: StoredMeta,
    profile: Seq<char>,
    genesis_hash: Seq<char>,
    start_height: u64,
) -> bool {
    match stored {
        StoredMeta::Absent => true,
        StoredMeta::Unreadable => false,
        StoredMeta::Found(meta) => {
            &&& meta.version == STORE_VERSION
            &&& meta.profile@ == profile
            &&& meta.genesis_hash@ == genesis_hash
            &&& meta.start_height == start_height
        },
    }
}

/// The directory that an unfitting store is moved to.
pub open spec fn superseded_name(stored: StoredMeta) -> Seq<char> {
    match stored {
        StoredMeta::Found(meta) => "superseded-v"@ + decimal(meta.version as nat) + "-"@
            + meta.profile@,
        _ => "superseded-unreadable"@,
    }
}

/// A store after opening.
pub struct OpenedFilterStore {
    pub store: FilterStore,
    /// The directory to move the files to first, where they do not fit.
    pub superseded: Option<String>,
    /// Whether the metadata has to be written.
    pub writes_meta: bool,
}

/// Storage of one filter per block.
pub struct FilterStore {
    meta: Meta,
    /// Block hash to its last index record.
    by_hash: ByteMap<u64>,
    filters: Vec<u8>,
    index: Vec<u8>,
    chain: Vec<u8>,
}

/// Whether a map finds the last record of a block among the first `n`.
spec fn finds(map: Map<Seq<u8>, u64>, index: Seq<u8>, n: int, hash: Seq<u8>) -> bool {
    match last_record(index, n, hash) {
        Some(at) => map.contains_key(hash) && map[hash] == at,
        None => !map.contains_key(hash),
    }
}

impl FilterStore {
    pub closed spec fn filter_image(&self) -> Seq<u8> {
        self.filters@
    }

    pub closed spec fn index_image(&self) -> Seq<u8> {
        self.index@
    }

    pub closed spec fn chain_image(&self) -> Seq<u8> {
        self.chain@
    }

    pub closed spec fn pinned_profile(&self) -> Seq<char> {
        self.meta.profile@
    }

    pub closed spec fn pinned_genesis(&self) -> Seq<char> {
        self.meta.genesis_hash@
    }

    pub closed spec fn first_height(&self) -> nat {
        self.meta.start_height as nat
    }

    /// Covered blocks.
    pub open spec fn covered(&self) -> nat {
        self.chain_image().len() / 32
    }

    /// Index records.
    pub open spec fn records(&self) -> nat {
        self.index_image().len() / 76
    }

    /// Blocks that have a filter.
    pub open spec fn stored_hashes(&self) -> Set<Seq<u8>> {
        Set::new(
            |hash: Seq<u8>| last_record(self.index_image(), self.records() as int, hash) is Some,
        )
    }

    /// No block has two records.
    pub open spec fn tidy(&self) -> bool {
        self.stored_hashes().len() == self.records()
    }

    /// The height that the next block must have.
    pub open spec fn next(&self) -> nat {
        self.first_height() + self.covered()
    }

    pub closed spec fn wf(&self) -> bool {
        &&& self.by_hash.wf()
        &&& self.index@.len() % 76 == 0
        &&& self.chain@.len() % 32 == 0
        &&& forall|hash: Seq<u8>| #[trigger]
            finds(self.by_hash.entries(), self.index@, self.index@.len() as int / 76, hash)
        &&& self.by_hash.entries().dom().len() <= self.index@.len() / 76
        &&& self.meta.start_height + self.chain@.len() / 32 <= u64::MAX
        &&& self.meta.version == STORE_VERSION
    }

    /// What well-formedness says in terms of the other views.
    pub proof fn lemma_wf(&self)
        requires
            self.wf(),
        ensures
            self.index_image().len() % 76 == 0,
            self.chain_image().len() % 32 == 0,
            self.next() <= u64::MAX,
            self.stored_hashes().finite(),
            self.stored_hashes().len() <= self.records(),
    {
        self.lemma_stored_hashes();
    }

    proof fn lemma_stored_hashes(&self)
        requires
            self.wf(),
        ensures
            self.stored_hashes() == self.by_hash.entries().dom(),
            self.stored_hashes().finite(),
    {
        self.by_hash.lemma_finite();
        assert forall|hash: Seq<u8>|
            self.stored_hashes().contains(hash) <==> self.by_hash.entries().dom().contains(
                hash,
            ) by {
            assert(finds(self.by_hash.entries(), self.index@, self.index@.len() as int / 76, hash));
        }
        assert(self.stored_hashes() =~= self.by_hash.entries().dom());
    }

    /// Whether opening gives this store.
    pub open spec fn opened_from(
        &self,
        profile: Seq<char>,
        genesis_hash: Seq<char>,
        start_height: u64,
        filters: Seq<u8>,
        index: Seq<u8>,
        chain: Seq<u8>,
        checkpoint: Option<Seq<u8>>,
    ) -> bool {
        let lengths = checkpoint_lengths(checkpoint);
        &&& self.wf()
        &&& self.pinned_profile() == profile
        &&& self.pinned_genesis() == genesis_hash
        &&& self.first_height() == start_height
        &&& self.filter_image() == filters.take(lengths.0 as int)
        &&& self.index_image() == index.take(lengths.1 as int)
        &&& self.chain_image() == chain.take(lengths.2 as int)
    }

    /// Opens a store from what its directory holds. Files of another store are
    /// set aside and a fresh store is begun; what was written after the last
    /// checkpoint is dropped.
    pub fn open(
        profile: &str,
        genesis_hash: &str,
        start_height: u64,
        stored: StoredMeta,
        files: StoredFiles,
    ) -> (opened: Result<OpenedFilterStore, StoreError>)
        requires
            start_height + files.chain@.len() / 32 <= u64::MAX,
        ensures
            match opened {
                Ok(opened) => if meta_fits(stored, profile@, genesis_hash@, start_height) {
                    &&& files_issue(
                        files.filters@,
                        files.index@,
                        files.chain@,
                        checkpoint_view(files.checkpoint),
                    ) is None
                    &&& opened.store.opened_from(
                        profile@,
                        genesis_hash@,
                        start_height,
                        files.filters@,
                        files.index@,
                        files.chain@,
                        checkpoint_view(files.checkpoint),
                    )
                    &&& opened.superseded is None
                    &&& opened.writes_meta == (stored is Absent)
                } else {
                    &&& opened.store.opened_from(
                        profile@,
                        genesis_hash@,
                        start_height,
                        Seq::empty(),
                        Seq::empty(),
                        Seq::empty(),
                        None,
                    )
                    &&& opened.superseded is Some
                    &&& opened.superseded->0@ == superseded_name(stored)
                    &&& opened.writes_meta
                },
                Err(StoreError::Invariant(detail)) => {
                    &&& meta_fits(stored, profile@, genesis_hash@, start_height)
                    &&& files_issue(
                        files.filters@,
                        files.index@,
                        files.chain@,
                        checkpoint_view(files.checkpoint),
                    ) == Some(detail@)
                },
                Err(StoreError::ShortRead) => false,
            },
    {
        let meta = Meta {
            version: STORE_VERSION,
            profile: String::from_str(profile),
            genesis_hash: String::from_str(genesis_hash),
            start_height,
        };
        let fits: bool = match &stored {
            StoredMeta::Absent => true,
            StoredMeta::Unreadable => false,
            StoredMeta::Found(found) => found.version == STORE_VERSION && same_text(
                found.profile.as_str(),
                profile,
            ) && same_text(found.genesis_hash.as_str(), genesis_hash) && found.start_height
                == start_height,
        };
        if !fits {
            let superseded = match &stored {
                StoredMeta::Found(found) => {
                    let mut name = String::from_str("superseded-v");
                    push_decimal(&mut name, found.version as u64);
                    name.append("-");
                    name.append(found.profile.as_str());
                    name
                },
                _ => String::from_str("superseded-unreadable"),
            };
            let store = FilterStore {
                meta,
                by_hash: ByteMap::new(),
                filters: Vec::new(),
                index: Vec::new(),
                chain: Vec::new(),
            };
            proof {
                assert forall|hash: Seq<u8>| #[trigger]
                    finds(store.by_hash.entries(), store.index@, 0, hash) by {}
                assert(Seq::<u8>::empty().take(0) =~= Seq::<u8>::empty());
                assert(store.filters@ =~= Seq::<u8>::empty());
                assert(store.index@ =~= Seq::<u8>::empty());
                assert(store.chain@ =~= Seq::<u8>::empty());
            }
            return Ok(
                OpenedFilterStore { store, superseded: Some(superseded), writes_meta: true },
            );
        }
        let writes_meta: bool = match &stored {
            StoredMeta::Absent => true,
            _ => false,
        };
        let lengths: (u64, u64, u64) = match &files.checkpoint {
            None => (0, 0, 0),
            Some(bytes) => {
                if bytes.len() != 24 {
                    return Err(
                        StoreError::Invariant(String::from_str("checkpoint is not 24 bytes")),
                    );
                }
                (
                    read_le(bytes.as_slice(), 0, 8),
                    read_le(bytes.as_slice(), 8, 8),
                    read_le(bytes.as_slice(), 16, 8),
                )
            },
        };
        if (files.filters.len() as u64) < lengths.0 {
            return Err(shorter_than_checkpoint("filters.bin"));
        }
        if (files.index.len() as u64) < lengths.1 {
            return Err(shorter_than_checkpoint("index.bin"));
        }
        if (files.chain.len() as u64) < lengths.2 {
            return Err(shorter_than_checkpoint("chain.bin"));
        }
        if lengths.1 % 76 != 0 {
            return Err(
                StoreError::Invariant(
                    String::from_str("index.bin is not a whole number of records"),
                ),
            );
        }
        if lengths.2 % 32 != 0 {
            return Err(
                StoreError::Invariant(
                    String::from_str("chain.bin is not a whole number of records"),
                ),
            );
        }
        let mut filters = files.filters;
        let mut index = files.index;
        let mut chain = files.chain;
        filters.truncate(lengths.0 as usize);
        index.truncate(lengths.1 as usize);
        chain.truncate(lengths.2 as usize);
        let by_hash = index_by_hash(&index);
        let store = FilterStore { meta, by_hash, filters, index, chain };
        assert(store.wf());
        Ok(OpenedFilterStore { store, superseded: None, writes_meta })
    }

    pub fn profile(&self) -> (profile: &str)
        ensures
            profile@ == self.pinned_profile(),
    {
        self.meta.profile.as_str()
    }

    pub fn genesis_hash(&self) -> (hash: &str)
        ensures
            hash@ == self.pinned_genesis(),
    {
        self.meta.genesis_hash.as_str()
    }

    pub fn start_height(&self) -> (height: u64)
        ensures
            height == self.first_height(),
    {
        self.meta.start_height
    }

    /// The metadata to persist.
    pub fn meta(&self) -> (meta: &Meta)
        requires
            self.wf(),
        ensures
            meta.version == STORE_VERSION,
            meta.profile@ == self.pinned_profile(),
            meta.genesis_hash@ == self.pinned_genesis(),
            meta.start_height == self.first_height(),
    {
        &self.meta
    }

    /// The filters to persist.
    pub fn filter_bytes(&self) -> (bytes: &[u8])
        ensures
            bytes@ == self.filter_image(),
    {
        self.filters.as_slice()
    }

    /// The index to persist.
    pub fn index_bytes(&self) -> (bytes: &[u8])
        ensures
            bytes@ == self.index_image(),
    {
        self.index.as_slice()
    }

    /// The covered hashes to persist.
    pub fn chain_bytes(&self) -> (bytes: &[u8])
        ensures
            bytes@ == self.chain_image(),
    {
        self.chain.as_slice()
    }

    /// Blocks that have a filter, on whichever branch.
    pub fn filters_stored(&self) -> (count: u64)
        requires
            self.wf(),
        ensures
            count == self.stored_hashes().len(),
    {
        proof {
            self.lemma_stored_hashes();
        }
        self.by_hash.len()
    }

    /// The highest covered height.
    pub fn covered_through(&self) -> (height: Option<u64>)
        requires
            self.wf(),
        ensures
            height == (if self.covered() == 0 {
                None
            } else {
                Some((self.next() - 1) as u64)
            }),
    {
        let covered: u64 = self.chain.len() as u64 / 32;
        if covered == 0 {
            None
        } else {
            Some(self.meta.start_height + (covered - 1))
        }
    }

    /// The height that the next block must have.
    pub fn next_height(&self) -> (height: u64)
        requires
            self.wf(),
        ensures
            height == self.next(),
    {
        self.meta.start_height + self.chain.len() as u64 / 32
    }

    /// The covered block at a height.
    pub fn block_hash_at(&self, height: u64) -> (hash: Option<BlockHash>)
        requires
            self.wf(),
        ensures
            match hash {
                Some(hash) => self.first_height() <= height < self.next() && hash@ == chain_hash(
                    self.chain_image(),
                    height - self.first_height(),
                ),
                None => !(self.first_height() <= height < self.next()),
            },
    {
        if height < self.meta.start_height {
            return None;
        }
        let place: u64 = height - self.meta.start_height;
        let covered: u64 = self.chain.len() as u64 / 32;
        if place >= covered {
            return None;
        }
        assert(32 * place + 32 <= self.chain.len());
        let at: usize = place as usize * 32;
        Some(self.hash_at(at))
    }

    fn hash_at(&self, at: usize) -> (hash: BlockHash)
        requires
            at + 32 <= self.chain.len(),
        ensures
            hash@ == self.chain@.subrange(at as int, at + 32),
    {
        let bytes = copy_range(self.chain.as_slice(), at, at + 32);
        BlockHash::from_internal_bytes(thirty_two(bytes.as_slice()))
    }

    /// The lowest height at which a block is covered.
    pub fn height_of(&self, hash: BlockHash) -> (height: Option<u64>)
        requires
            self.wf(),
        ensures
            match height {
                Some(height) => {
                    &&& self.first_height() <= height < self.next()
                    &&& chain_place(self.chain_image(), 0, hash@) == Some(
                        height - self.first_height(),
                    )
                },
                None => chain_place(self.chain_image(), 0, hash@) is None,
            },
    {
        let covered: usize = self.chain.len() / 32;
        let mut i: usize = 0;
        while i < covered
            invariant
                i <= covered,
                covered == self.chain.len() / 32,
                self.wf(),
                chain_place(self.chain@, 0, hash@) == chain_place(self.chain@, i as int, hash@),
            decreases covered - i,
        {
            let found = self.hash_at(32 * i);
            assert(found@ == chain_hash(self.chain@, i as int));
            if found.same(&hash) {
                return Some(self.meta.start_height + i as u64);
            }
            i = i + 1;
        }
        None
    }

    /// The filter of a block, whether the block is covered or not.
    pub fn filter_by_hash(&self, hash: BlockHash) -> (filter: Result<
        Option<StoredFilter>,
        StoreError,
    >)
        requires
            self.wf(),
        ensures
            match filter {
                Ok(Some(stored)) => {
                    &&& stored.block_hash@ == hash@
                    &&& filter_at(self.filter_image(), self.index_image(), hash@) == Some(
                        (stored.bytes@, stored.digest@),
                    )
                },
                Ok(None) => !self.stored_hashes().contains(hash@),
                Err(error) => {
                    &&& error is ShortRead
                    &&& self.stored_hashes().contains(hash@)
                    &&& filter_at(self.filter_image(), self.index_image(), hash@) is None
                },
            },
    {
        let ghost count = self.index@.len() as int / 76;
        proof {
            assert(finds(self.by_hash.entries(), self.index@, count, hash@));
            lemma_last_record(self.index@, count, hash@);
        }
        let record: usize = match self.by_hash.get(hash.internal_bytes()) {
            Some(record) => *record as usize,
            None => {
                return Ok(None);
            },
        };
        assert(76 * record + 76 <= self.index.len());
        let index = self.index.as_slice();
        let offset: u64 = read_le(index, 76 * record + 32, 8);
        let length: u64 = read_le(index, 76 * record + 40, 4);
        let total: u64 = self.filters.len() as u64;
        if offset > total || length > total - offset {
            return Err(StoreError::ShortRead);
        }
        let from: usize = offset as usize;
        let to: usize = (offset + length) as usize;
        let bytes = copy_range(self.filters.as_slice(), from, to);
        let digest_bytes = copy_range(index, 76 * record + 44, 76 * record + 76);
        let digest = thirty_two(digest_bytes.as_slice());
        Ok(Some(StoredFilter { block_hash: hash, bytes, digest }))
    }

    /// Whether a digest is the one that a block's filter has already.
    pub open spec fn conflicts(&self, hash: Seq<u8>, digest: Seq<u8>) -> bool {
        match last_record(self.index_image(), self.records() as int, hash) {
            Some(n) => index_digest(self.index_image(), n) != digest,
            None => false,
        }
    }

    /// Appends a block's filter, whose digest is given, at the next height. A
    /// block that has a filter already keeps it; an error changes nothing.
    pub fn append(
        &mut self,
        height: u64,
        block_hash: BlockHash,
        filter: &[u8],
        digest: [u8; 32],
    ) -> (done: Result<(), StoreError>)
        requires
            old(self).wf(),
            old(self).next() < u64::MAX,
            filter@.len() <= u32::MAX,
        ensures
            final(self).wf(),
            final(self).pinned_profile() == old(self).pinned_profile(),
            final(self).pinned_genesis() == old(self).pinned_genesis(),
            final(self).first_height() == old(self).first_height(),
            old(self).tidy() ==> final(self).tidy(),
            match done {
                Ok(()) => {
                    &&& height == old(self).next()
                    &&& !old(self).conflicts(block_hash@, digest@)
                    &&& final(self).chain_image() == old(self).chain_image() + block_hash@
                    &&& if old(self).stored_hashes().contains(block_hash@) {
                        &&& final(self).filter_image() == old(self).filter_image()
                        &&& final(self).index_image() == old(self).index_image()
                    } else {
                        &&& final(self).filter_image() == old(self).filter_image() + filter@
                        &&& final(self).index_image() == old(self).index_image() + index_record(
                            block_hash@,
                            old(self).filter_image().len(),
                            filter@.len(),
                            digest@,
                        )
                    }
                },
                Err(error) => {
                    &&& final(self).chain_image() == old(self).chain_image()
                    &&& final(self).filter_image() == old(self).filter_image()
                    &&& final(self).index_image() == old(self).index_image()
                    &&& height != old(self).next() || old(self).conflicts(block_hash@, digest@)
                    &&& error is Invariant
                    &&& error->Invariant_0@ == (if height != old(self).next() {
                        "block at height "@ + decimal(height as nat)
                            + " does not follow coverage through "@ + (if old(self).covered()
                            == 0 {
                            "None"@
                        } else {
                            "Some("@ + decimal((old(self).next() - 1) as nat) + ")"@
                        })
                    } else {
                        "block "@ + display_hex(block_hash@)
                            + " already has a filter with a different digest"@
                    })
                },
            },
    {
        let ghost count = self.index@.len() as int / 76;
        proof {
            block_hash.lemma_len();
            assert(finds(self.by_hash.entries(), self.index@, count, block_hash@));
            lemma_last_record(self.index@, count, block_hash@);
            self.lemma_stored_hashes();
        }
        if height != self.next_height() {
            let mut detail = String::from_str("block at height ");
            push_decimal(&mut detail, height);
            detail.append(" does not follow coverage through ");
            match self.covered_through() {
                None => {
                    detail.append("None");
                },
                Some(through) => {
                    let mut some = String::from_str("Some(");
                    push_decimal(&mut some, through);
                    some.append(")");
                    detail.append(some.as_str());
                },
            }
            return Err(StoreError::Invariant(detail));
        }
        match self.by_hash.get(block_hash.internal_bytes()) {
            Some(record) => {
                let record: usize = *record as usize;
                assert(76 * record + 76 <= self.index.len());
                let kept = copy_range(self.index.as_slice(), 76 * record + 44, 76 * record + 76);
                if !same_bytes(kept.as_slice(), &digest) {
                    let mut detail = String::from_str("block ");
                    detail.append(block_hash.to_display_hex().as_str());
                    detail.append(" already has a filter with a different digest");
                    return Err(StoreError::Invariant(detail));
                }
            },
            None => {
                self.store_filter(&block_hash, filter, &digest);
                proof {
                    assert(old(self).filters.len() <= usize::MAX);
                    lemma_appended_record(
                        old(self).index@,
                        block_hash@,
                        old(self).filters@.len(),
                        filter@.len(),
                        digest@,
                    );
                    self.lemma_stored_hashes();
                    assert(self.stored_hashes() == old(self).stored_hashes().insert(block_hash@));
                    assert(self.index@.len() / 76 == old(self).index@.len() / 76 + 1);
                }
            },
        }
        push_bytes(&mut self.chain, block_hash.internal_bytes());
        proof {
            assert(self.chain@ =~= old(self).chain@ + block_hash@);
            assert(self.chain@.len() / 32 == old(self).chain@.len() / 32 + 1);
            self.lemma_stored_hashes();
        }
        Ok(())
    }

    fn store_filter(&mut self, block_hash: &BlockHash, filter: &[u8], digest: &[u8; 32])
        requires
            old(self).wf(),
            filter@.len() <= u32::MAX,
            !old(self).by_hash.entries().contains_key(block_hash@),
        ensures
            final(self).wf(),
            final(self).meta == old(self).meta,
            final(self).chain == old(self).chain,
            final(self).filters@ == old(self).filters@ + filter@,
            final(self).index@ == old(self).index@ + index_record(
                block_hash@,
                old(self).filters@.len(),
                filter@.len(),
                digest@,
            ),
            final(self).by_hash.entries().dom() == old(self).by_hash.entries().dom().insert(
                block_hash@,
            ),
    {
        let ghost index = self.index@;
        let ghost count = index.len() as int / 76;
        let number: u64 = self.index.len() as u64 / 76;
        let offset: u64 = self.filters.len() as u64;
        let length: u64 = filter.len() as u64;
        let mut record: Vec<u8> = Vec::new();
        push_bytes(&mut record, block_hash.internal_bytes());
        push_le(&mut record, offset, 8);
        push_le(&mut record, length, 4);
        push_bytes(&mut record, digest);
        let ghost entry = index_record(block_hash@, offset as nat, length as nat, digest@);
        proof {
            block_hash.lemma_len();
            assert(record@ =~= entry);
            lemma_appended_record(index, block_hash@, offset as nat, length as nat, digest@);
            self.by_hash.lemma_finite();
        }
        push_bytes(&mut self.filters, filter);
        push_bytes(&mut self.index, record.as_slice());
        let mut key: Vec<u8> = Vec::new();
        push_bytes(&mut key, block_hash.internal_bytes());
        assert(key@ =~= block_hash@);
        let ghost before = self.by_hash.entries();
        self.by_hash.insert(key, number);
        proof {
            let grown = self.index@;
            assert(grown.len() as int / 76 == count + 1);
            assert(grown.take(index.len() as int) =~= index);
            assert forall|hash: Seq<u8>| #[trigger]
                finds(self.by_hash.entries(), grown, count + 1, hash) by {
                assert(finds(before, index, count, hash));
                lemma_last_record_prefix(index, grown, count, hash);
            }
            assert(self.by_hash.entries().dom() =~= before.dom().insert(block_hash@));
        }
    }

    /// Places kept when coverage above a height, or all of it, is dropped.
    pub open spec fn kept(&self, height: Option<u64>) -> nat {
        match height {
            None => 0,
            Some(height) => if height < self.first_height() {
                0
            } else if height - self.first_height() + 1 < self.covered() {
                (height - self.first_height() + 1) as nat
            } else {
                self.covered()
            },
        }
    }

    /// Drops coverage above a height, or all of it. No filter goes. The result
    /// is the checkpoint to persist.
    pub fn rollback_to(&mut self, height: Option<u64>) -> (checkpoint: Vec<u8>)
        requires
            old(self).wf(),
        ensures
            final(self).wf(),
            final(self).pinned_profile() == old(self).pinned_profile(),
            final(self).pinned_genesis() == old(self).pinned_genesis(),
            final(self).first_height() == old(self).first_height(),
            final(self).filter_image() == old(self).filter_image(),
            final(self).index_image() == old(self).index_image(),
            final(self).chain_image() == old(self).chain_image().take(
                32 * old(self).kept(height) as int,
            ),
            final(self).covered() == old(self).kept(height),
            checkpoint@ == final(self).durable(),
    {
        let covered: u64 = self.chain.len() as u64 / 32;
        let keep: u64 = match height {
            None => 0,
            Some(height) => if height < self.meta.start_height {
                0
            } else if height - self.meta.start_height >= covered {
                covered
            } else {
                height - self.meta.start_height + 1
            },
        };
        assert(keep == self.kept(height));
        assert(32 * keep <= self.chain.len());
        self.chain.truncate(keep as usize * 32);
        assert(self.chain@.len() / 32 == keep);
        self.commit()
    }

    /// The checkpoint of what is there.
    pub open spec fn durable(&self) -> Seq<u8> {
        checkpoint_bytes(
            self.filter_image().len(),
            76 * self.stored_hashes().len(),
            32 * self.covered(),
        )
    }

    /// The checkpoint to persist, once the three files are.
    pub fn commit(&self) -> (checkpoint: Vec<u8>)
        requires
            self.wf(),
        ensures
            checkpoint@ == self.durable(),
    {
        proof {
            self.lemma_stored_hashes();
            assert(self.index.len() <= usize::MAX);
            assert(self.chain.len() <= usize::MAX);
        }
        let mut bytes: Vec<u8> = Vec::new();
        push_le(&mut bytes, self.filters.len() as u64, 8);
        push_le(&mut bytes, 76 * self.by_hash.len(), 8);
        push_le(&mut bytes, 32 * (self.chain.len() as u64 / 32), 8);
        assert(bytes@ =~= self.durable());
        bytes
    }
}

fn shorter_than_checkpoint(name: &str) -> (error: StoreError)
    ensures
        error is Invariant,
        error->Invariant_0@ == name@ + " is shorter than its checkpoint"@,
{
    let mut detail = String::from_str(name);
    detail.append(" is shorter than its checkpoint");
    StoreError::Invariant(detail)
}

fn index_by_hash(index: &Vec<u8>) -> (by_hash: ByteMap<u64>)
    requires
        index@.len() % 76 == 0,
    ensures
        by_hash.wf(),
        forall|hash: Seq<u8>| #[trigger]
            finds(by_hash.entries(), index@, index@.len() as int / 76, hash),
        by_hash.entries().dom().len() <= index@.len() / 76,
{
    let mut by_hash: ByteMap<u64> = ByteMap::new();
    let count: usize = index.len() / 76;
    let mut n: usize = 0;
    assert forall|hash: Seq<u8>| #[trigger] finds(by_hash.entries(), index@, 0, hash) by {}
    while n < count
        invariant
            n <= count,
            count == index.len() / 76,
            by_hash.wf(),
            forall|hash: Seq<u8>| #[trigger] finds(by_hash.entries(), index@, n as int, hash),
            by_hash.entries().dom().len() <= n,
        decreases count - n,
    {
        let ghost before = by_hash.entries();
        assert(76 * n + 76 <= index.len());
        let key = copy_range(index.as_slice(), 76 * n, 76 * n + 32);
        assert(key@ == index_hash(index@, n as int));
        proof {
            by_hash.lemma_finite();
        }
        by_hash.insert(key, n as u64);
        proof {
            assert forall|hash: Seq<u8>| #[trigger]
                finds(by_hash.entries(), index@, n + 1, hash) by {
                assert(finds(before, index@, n as int, hash));
            }
        }
        n = n + 1;
    }
    by_hash
}

/// A committed store is opened again as it was: for any files that start with
/// its images, whatever was written behind them, opening with its checkpoint
/// succeeds and gives its images.
pub proof fn law_reopening_restores(
    store: FilterStore,
    filters: Seq<u8>,
    index: Seq<u8>,
    chain: Seq<u8>,
)
    requires
        store.wf(),
        store.tidy(),
        store.filter_image().len() <= u64::MAX,
        store.index_image().len() <= u64::MAX,
        store.chain_image().len() <= u64::MAX,
        store.filter_image().len() <= filters.len(),
        store.index_image().len() <= index.len(),
        store.chain_image().len() <= chain.len(),
        filters.take(store.filter_image().len() as int) == store.filter_image(),
        index.take(store.index_image().len() as int) == store.index_image(),
        chain.take(store.chain_image().len() as int) == store.chain_image(),
    ensures
        files_issue(filters, index, chain, Some(store.durable())) is None,
        ({
            let lengths = checkpoint_lengths(Some(store.durable()));
            &&& filters.take(lengths.0 as int) == store.filter_image()
            &&& index.take(lengths.1 as int) == store.index_image()
            &&& chain.take(lengths.2 as int) == store.chain_image()
        }),
{
    store.lemma_wf();
    assert(store.index_image().len() == 76 * store.records());
    assert(store.chain_image().len() == 32 * store.covered());
    lemma_checkpoint(
        store.filter_image().len(),
        76 * store.stored_hashes().len(),
        32 * store.covered(),
    );
}

/// An appended block is the covered block at the next height, and every block
/// covered before is covered at its height still.
pub proof fn law_coverage_after_append(chain: Seq<u8>, hash: Seq<u8>, i: int)
    requires
        chain.len() % 32 == 0,
        hash.len() == 32,
        0 <= i < chain.len() / 32,
    ensures
        (chain + hash).len() / 32 == chain.len() / 32 + 1,
        chain_hash(chain + hash, (chain.len() / 32) as int) == hash,
        chain_hash(chain + hash, i) == chain_hash(chain, i),
{
    let n = (chain.len() / 32) as int;
    assert(chain.len() == 32 * n);
    assert(chain_hash(chain + hash, n) =~= hash);
    assert(chain_hash(chain + hash, i) =~= chain_hash(chain, i));
}

/// The record of a block is the last one of the index that begins with its hash.
pub proof fn law_the_last_record_of_a_block_counts(index: Seq<u8>, n: int, hash: Seq<u8>)
    requires
        0 <= n,
    ensures
        match last_record(index, n, hash) {
            Some(at) => {
                &&& 0 <= at < n
                &&& index.subrange(76 * at, 76 * at + 32) == hash
                &&& forall|i: int|
                    at < i < n ==> #[trigger] index.subrange(76 * i, 76 * i + 32) != hash
            },
            None => forall|i: int|
                0 <= i < n ==> #[trigger] index.subrange(76 * i, 76 * i + 32) != hash,
        },
    decreases n,
{
    if n > 0 && index_hash(index, n - 1) != hash {
        law_the_last_record_of_a_block_counts(index, n - 1, hash);
    }
}

/// A record of the index names the block, where its filter begins and how long it
/// is, and the filter's digest, in that order.
pub proof fn law_index_records_read_back(
    hash: Seq<u8>,
    offset: nat,
    length: nat,
    digest: Seq<u8>,
)
    requires
        hash.len() == 32,
        digest.len() == 32,
        offset <= u64::MAX,
        length <= u32::MAX,
    ensures
        ({
            let record = index_record(hash, offset, length, digest);
            &&& record.len() == 76
            &&& record.take(32) == hash
            &&& le_value(record.subrange(32, 40)) == offset
            &&& le_value(record.subrange(40, 44)) == length
            &&& record.skip(44) == digest
        }),
{
    lemma_le_bytes_len(offset, 8);
    lemma_le_bytes_len(length, 4);
    lemma_byte_spans();
    lemma_read_written_field(offset, 8);
    lemma_read_written_field(length, 4);
    let record = index_record(hash, offset, length, digest);
    assert(record.take(32) =~= hash);
    assert(record.subrange(32, 40) =~= le_bytes(offset, 8));
    assert(record.subrange(40, 44) =~= le_bytes(length, 4));
    assert(record.skip(44) =~= digest);
}

/// A filter is read where the block's record says: nothing where it has no record or
/// the filters end before.
pub proof fn law_filters_are_read_where_their_record_says(
    filters: Seq<u8>,
    index: Seq<u8>,
    hash: Seq<u8>,
    n: int,
)
    requires
        0 <= n < index.len() / 76,
        index.subrange(76 * n, 76 * n + 32) == hash,
        forall|i: int|
            n < i < index.len() / 76 ==> #[trigger] index.subrange(76 * i, 76 * i + 32) != hash,
    ensures
        ({
            let offset = le_value(index.subrange(76 * n + 32, 76 * n + 40)) as int;
            let length = le_value(index.subrange(76 * n + 40, 76 * n + 44)) as int;
            filter_at(filters, index, hash) == if offset + length <= filters.len() {
                Some(
                    (
                        filters.subrange(offset, offset + length),
                        index.subrange(76 * n + 44, 76 * n + 76),
                    ),
                )
            } else {
                None
            }
        }),
{
    let count = (index.len() / 76) as int;
    law_the_last_record_of_a_block_counts(index, count, hash);
    let at = last_record(index, count, hash);
    if at is None {
        assert(index.subrange(76 * n, 76 * n + 32) != hash);
    } else if at->0 < n {
        assert(index.subrange(76 * n, 76 * n + 32) != hash);
    }
}

/// A checkpoint gives back the three lengths that it was written with, and without
/// one nothing is kept.
pub proof fn law_checkpoints_read_back(filters: nat, index: nat, chain: nat)
    requires
        filters <= u64::MAX,
        index <= u64::MAX,
        chain <= u64::MAX,
    ensures
        checkpoint_bytes(filters, index, chain).len() == 24,
        checkpoint_lengths(Some(checkpoint_bytes(filters, index, chain))) == (filters, index, chain),
        checkpoint_lengths(None) == (0nat, 0nat, 0nat),
{
    lemma_le_bytes_len(filters, 8);
    lemma_le_bytes_len(index, 8);
    lemma_le_bytes_len(chain, 8);
    lemma_byte_spans();
    lemma_read_written_field(filters, 8);
    lemma_read_written_field(index, 8);
    lemma_read_written_field(chain, 8);
    let bytes = checkpoint_bytes(filters, index, chain);
    assert(bytes.subrange(0, 8) =~= le_bytes(filters, 8));
    assert(bytes.subrange(8, 16) =~= le_bytes(index, 8));
    assert(bytes.subrange(16, 24) =~= le_bytes(chain, 8));
}

/// Rolling back to a height keeps the covered blocks up to it and no other.
pub proof fn law_rollback_keeps_the_blocks_up_to_a_height(
    store: &FilterStore,
    height: Option<u64>,
    i: int,
)
    requires
        0 <= i < store.covered(),
    ensures
        store.kept(height) <= store.covered(),
        i < store.kept(height) <==> (height matches Some(height) && store.first_height() + i
            <= height),
{
}

/// Files are accepted exactly where their checkpoint, if there is one, has three
/// lengths that the files reach, of whole records.
pub proof fn law_files_are_accepted_when_they_reach_their_checkpoint(
    filters: Seq<u8>,
    index: Seq<u8>,
    chain: Seq<u8>,
    checkpoint: Option<Seq<u8>>,
)
    ensures
        checkpoint is None ==> files_issue(filters, index, chain, checkpoint) is None,
        checkpoint matches Some(bytes) ==> (files_issue(filters, index, chain, checkpoint) is None
            <==> {
            &&& bytes.len() == 24
            &&& le_value(bytes.subrange(0, 8)) <= filters.len()
            &&& le_value(bytes.subrange(8, 16)) <= index.len()
            &&& le_value(bytes.subrange(16, 24)) <= chain.len()
            &&& le_value(bytes.subrange(8, 16)) % 76 == 0
            &&& le_value(bytes.subrange(16, 24)) % 32 == 0
        }),
{
}

} // verus!
