//! What the filter service answers. A request names a range of the chain and
//! nothing else: there is no field in which a script, an address or a match
//! could be expressed.

use vstd::prelude::*;

use crate::digest::{hex_bytes, is_hex};
use crate::filter::store::{
    chain_hash, chain_place, filter_at, lemma_chain_place, FilterStore, StoreError,
};
use crate::filter::types::{display_hex, BlockHash};
use crate::text::{decimal, push_decimal};

verus! {

/// Most entries that one request for hashes may ask for.
pub const MAX_CHAIN_COUNT: u64 = 10_000;

/// Where ingestion has got to.
#[derive(Debug)]
pub enum Phase {
    Syncing { current_height: Option<u64>, target_height: u64 },
    Serving,
    Failed { reason: String },
}

impl Phase {
    pub fn name(&self) -> (name: &'static str)
        ensures
            name@ == (match self {
                Phase::Syncing { .. } => "syncing"@,
                Phase::Serving => "serving"@,
                Phase::Failed { .. } => "failed"@,
            }),
    {
        match self {
            Phase::Syncing { .. } => "syncing",
            Phase::Serving => "serving",
            Phase::Failed { .. } => "failed",
        }
    }

    /// What there is to say beyond the name.
    pub open spec fn details(&self) -> Option<Seq<char>> {
        match self {
            Phase::Failed { reason } => Some(reason@),
            Phase::Syncing { current_height, target_height } => Some(
                "at "@ + (match current_height {
                    Some(height) => decimal(*height as nat),
                    None => "nothing"@,
                }) + " of "@ + decimal(*target_height as nat),
            ),
            Phase::Serving => None,
        }
    }

    pub fn detail(&self) -> (detail: Option<String>)
        ensures
            match detail {
                Some(text) => self.details() == Some(text@),
                None => self.details() is None,
            },
    {
        match self {
            Phase::Failed { reason } => Some(reason.clone()),
            Phase::Syncing { current_height, target_height } => {
                let mut text = String::from_str("at ");
                match current_height {
                    Some(height) => {
                        push_decimal(&mut text, *height);
                    },
                    None => {
                        text.append("nothing");
                    },
                }
                text.append(" of ");
                push_decimal(&mut text, *target_height);
                Some(text)
            },
            Phase::Serving => None,
        }
    }
}

/// Store, phase and tip, as requests see them.
pub struct Inner {
    pub store: FilterStore,
    pub phase: Phase,
    pub tip_height: Option<u64>,
}

impl Inner {
    /// A service that has only just opened its store.
    pub fn new(store: FilterStore) -> (inner: Inner)
        ensures
            inner.store == store,
            inner.phase == (Phase::Syncing { current_height: None, target_height: 0 }),
            inner.tip_height is None,
    {
        Inner {
            store,
            phase: Phase::Syncing { current_height: None, target_height: 0 },
            tip_height: None,
        }
    }
}

/// What the filters' format fixes.
#[derive(Clone, Copy, Debug, PartialEq, Eq, Structural)]
pub struct FilterTerms {
    pub envelope_version: u64,
    pub max_records_per_batch: u64,
    pub max_filter_bytes: u64,
}

/// What the service says of itself.
#[derive(Debug)]
pub struct ServiceInfo {
    pub genesis_hash: String,
    pub network: String,
    pub profile: String,
    pub terms: FilterTerms,
    pub start_height: u64,
    pub covered_through: Option<u64>,
    /// Hash of the highest covered block, as people read it.
    pub covered_block_hash: Option<String>,
}

/// What the service says of itself and its coverage.
pub fn service_info(store: &FilterStore, terms: FilterTerms) -> (info: ServiceInfo)
    requires
        store.wf(),
    ensures
        info.genesis_hash@ == store.pinned_genesis(),
        info.network@ == "main"@,
        info.profile@ == store.pinned_profile(),
        info.terms == terms,
        info.start_height == store.first_height(),
        info.covered_through == (if store.covered() == 0 {
            None
        } else {
            Some((store.next() - 1) as u64)
        }),
        match info.covered_block_hash {
            Some(hash) => store.covered() > 0 && hash@ == display_hex(
                chain_hash(store.chain_image(), store.covered() - 1),
            ),
            None => store.covered() == 0,
        },
{
    proof {
        store.lemma_wf();
    }
    let covered_through = store.covered_through();
    let covered_block_hash = match covered_through {
        Some(height) => match store.block_hash_at(height) {
            Some(hash) => Some(hash.to_display_hex()),
            None => None,
        },
        None => None,
    };
    ServiceInfo {
        genesis_hash: String::from_str(store.genesis_hash()),
        network: String::from_str("main"),
        profile: String::from_str(store.profile()),
        terms,
        start_height: store.start_height(),
        covered_through,
        covered_block_hash,
    }
}

/// Whether the service can be sent requests. An old range is still a valid
/// one, so coverage counts, not having caught up with the tip.
#[derive(Debug)]
pub enum Readiness {
    Failed(String),
    NoCoverage,
    Ready(u64),
}

impl Readiness {
    /// The status code of the answer.
    pub fn status(&self) -> (status: u16)
        ensures
            status == (if self is Ready {
                200u16
            } else {
                503
            }),
    {
        match self {
            Readiness::Ready(_) => 200,
            _ => 503,
        }
    }
}

/// Whether the service can be sent requests.
pub fn readiness(phase: &Phase, store: &FilterStore) -> (ready: Readiness)
    requires
        store.wf(),
    ensures
        match ready {
            Readiness::Failed(text) => phase is Failed && phase->reason@ == text@,
            Readiness::NoCoverage => !(phase is Failed) && store.covered() == 0,
            Readiness::Ready(height) => !(phase is Failed) && store.covered() > 0 && height
                == store.next() - 1,
        },
{
    proof {
        store.lemma_wf();
    }
    match phase {
        Phase::Failed { reason } => Readiness::Failed(reason.clone()),
        _ => match store.covered_through() {
            None => Readiness::NoCoverage,
            Some(height) => Readiness::Ready(height),
        },
    }
}

/// Height and hash of a covered block.
#[derive(Debug)]
pub struct ChainEntry {
    pub height: u64,
    /// As people read it.
    pub block_hash: String,
}

/// Entries that a request for hashes gets: what is covered of the range,
/// from its start.
pub open spec fn entry_count(store: &FilterStore, start_height: u64, count: u64) -> int {
    if start_height < store.first_height() || start_height >= store.next() {
        0
    } else if count < store.next() - start_height {
        count as int
    } else {
        store.next() - start_height
    }
}

/// A request for hashes by height.
#[derive(Debug)]
pub struct ChainParams {
    pub start_height: u64,
    pub count: u64,
}

/// Hashes by height, as far as they are covered. The error is the message for
/// a request that asks for none or too many.
pub fn chain_entries(store: &FilterStore, params: &ChainParams) -> (entries: Result<
    Vec<ChainEntry>,
    String,
>)
    requires
        store.wf(),
    ensures
        match entries {
            Ok(entries) => {
                &&& 1 <= params.count <= MAX_CHAIN_COUNT
                &&& entries@.len() == entry_count(store, params.start_height, params.count)
                &&& entries@.len() <= params.count
                &&& entries@.len() < params.count ==> params.start_height < store.first_height()
                    || params.start_height + entries@.len() >= store.next()
                &&& entries@.len() > 0 ==> store.first_height() <= params.start_height
                    && params.start_height + entries@.len() <= store.next()
                &&& forall|i: int|
                    0 <= i < entries@.len() ==> (#[trigger] entries@[i]).height == params.start_height + i
                        && entries@[i].block_hash@ == display_hex(
                        chain_hash(store.chain_image(), params.start_height + i - store.first_height()),
                    )
            },
            Err(message) => {
                &&& params.count == 0 || params.count > MAX_CHAIN_COUNT
                &&& message@ == "count must be between 1 and 10000"@
            },
        },
{
    let start_height: u64 = params.start_height;
    let count: u64 = params.count;
    if count == 0 || count > MAX_CHAIN_COUNT {
        return Err(String::from_str("count must be between 1 and 10000"));
    }
    proof {
        store.lemma_wf();
    }
    let mut entries: Vec<ChainEntry> = Vec::new();
    let mut i: u64 = 0;
    while i < count
        invariant
            i <= count,
            start_height == params.start_height,
            count == params.count,
            1 <= count <= MAX_CHAIN_COUNT,
            store.wf(),
            store.next() <= u64::MAX,
            i <= entry_count(store, start_height, count),
            entries@.len() == i,
            forall|k: int|
                0 <= k < entries@.len() ==> (#[trigger] entries@[k]).height == start_height + k
                    && entries@[k].block_hash@ == display_hex(
                    chain_hash(store.chain_image(), start_height + k - store.first_height()),
                ),
        decreases count - i,
    {
        let height: u64 = match start_height.checked_add(i) {
            Some(height) => height,
            None => {
                return Ok(entries);
            },
        };
        match store.block_hash_at(height) {
            Some(hash) => {
                entries.push(ChainEntry { height, block_hash: hash.to_display_hex() });
            },
            None => {
                return Ok(entries);
            },
        }
        i = i + 1;
    }
    Ok(entries)
}

/// A filter in a batch.
#[derive(Debug)]
pub struct FilterRecord {
    pub height: u64,
    pub block_hash: BlockHash,
    pub filter: Vec<u8>,
}

/// One answer to a range request.
#[derive(Debug)]
pub struct FilterBatch {
    pub genesis: BlockHash,
    pub profile: String,
    pub start_height: u64,
    pub stop_block_hash: BlockHash,
    pub records: Vec<FilterRecord>,
}

/// Why a range request gets no filters.
#[derive(Debug)]
pub enum RangeError {
    /// The stop hash is not 64 hexadecimal digits.
    InvalidStopHash,
    /// The stop block is not covered.
    StopNotCovered,
    /// The range starts before the service does.
    BelowStart(u64),
    /// The range starts behind its stop block.
    AboveStop,
    /// A covered block has no filter.
    MissingFilter(u64),
    /// A filter could not be read.
    Store(StoreError),
    /// The chain identity is not 64 hexadecimal digits.
    InvalidGenesis,
}

impl RangeError {
    /// Whether the request is at fault, rather than the store.
    pub open spec fn is_request_fault(self) -> bool {
        self is InvalidStopHash || self is StopNotCovered || self is BelowStart || self is AboveStop
    }

    /// The status code of the answer.
    pub fn status(&self) -> (status: u16)
        ensures
            status == (if self.is_request_fault() {
                400u16
            } else {
                500
            }),
    {
        match self {
            RangeError::InvalidStopHash => 400,
            RangeError::StopNotCovered => 400,
            RangeError::BelowStart(_) => 400,
            RangeError::AboveStop => 400,
            _ => 500,
        }
    }

    pub fn message(&self) -> (text: String)
        ensures
            match self {
                RangeError::InvalidStopHash => text@ == "invalid block hash"@,
                RangeError::StopNotCovered => text@
                    == "stop_block_hash is not a covered block on the current branch"@,
                RangeError::BelowStart(start) => text@
                    == "start_height is below the service's start height "@ + decimal(
                    *start as nat,
                ),
                RangeError::AboveStop => text@ == "start_height is above the stop block's height"@,
                RangeError::MissingFilter(height) => text@ == "no stored filter at height "@
                    + decimal(*height as nat),
                RangeError::Store(StoreError::Invariant(detail)) => text@
                    == "store invariant violated: "@ + detail@,
                RangeError::Store(StoreError::ShortRead) => text@
                    == "I/O error: failed to fill whole buffer"@,
                RangeError::InvalidGenesis => text@ == "invalid block hash"@,
            },
    {
        match self {
            RangeError::InvalidStopHash => String::from_str("invalid block hash"),
            RangeError::StopNotCovered => String::from_str(
                "stop_block_hash is not a covered block on the current branch",
            ),
            RangeError::BelowStart(start) => {
                let mut text = String::from_str("start_height is below the service's start height ");
                push_decimal(&mut text, *start);
                text
            },
            RangeError::AboveStop => String::from_str(
                "start_height is above the stop block's height",
            ),
            RangeError::MissingFilter(height) => {
                let mut text = String::from_str("no stored filter at height ");
                push_decimal(&mut text, *height);
                text
            },
            RangeError::Store(error) => error.message(),
            RangeError::InvalidGenesis => String::from_str("invalid block hash"),
        }
    }
}

/// Whether a text is a hash as people read it.
pub open spec fn is_hash_text(text: Seq<char>) -> bool {
    is_hex(text) && text.len() == 64
}

/// Records in the answer to a range request.
pub open spec fn batch_size(stop_height: int, start_height: u64, limit: u64) -> int {
    let wanted = stop_height - start_height + 1;
    if wanted < limit {
        wanted
    } else {
        limit as int
    }
}

/// The filter of the covered block at a height, if it can be read.
pub open spec fn covered_filter(store: &FilterStore, height: int) -> Option<(Seq<u8>, Seq<u8>)> {
    filter_at(
        store.filter_image(),
        store.index_image(),
        chain_hash(store.chain_image(), height - store.first_height()),
    )
}

/// Whether this is the record of the covered block at a height.
pub open spec fn records_block(store: &FilterStore, record: FilterRecord, height: int) -> bool {
    &&& record.height == height
    &&& record.block_hash@ == chain_hash(store.chain_image(), height - store.first_height())
    &&& covered_filter(store, height) is Some
    &&& record.filter@ == (covered_filter(store, height)->0).0
}

/// A height of the stop block, where it is covered.
pub open spec fn stop_place(store: &FilterStore, stop: Seq<char>) -> Option<int> {
    match chain_place(store.chain_image(), 0, hex_bytes(stop).reverse()) {
        Some(place) => Some(place + store.first_height()),
        None => None,
    }
}

/// A request for the filters of a range.
#[derive(Debug)]
pub struct RangeParams {
    pub start_height: u64,
    /// As people read it.
    pub stop_block_hash: String,
}

/// An answer starts at the height asked for, has the heights after it in a row,
/// and ends at the stop block, unless the limit ends it before. So it is never
/// empty where the limit allows a record, and a client that asks again behind its
/// last record gets on.
pub proof fn law_a_batch_ends_at_the_stop_block_or_at_the_limit(
    store: &FilterStore,
    stop_text: Seq<char>,
    start_height: u64,
    limit: u64,
    records: Seq<FilterRecord>,
)
    requires
        store.wf(),
        stop_place(store, stop_text) is Some,
        store.first_height() <= start_height <= stop_place(store, stop_text)->0,
        limit > 0,
        records.len() == batch_size(stop_place(store, stop_text)->0, start_height, limit),
        forall|i: int|
            0 <= i < records.len() ==> records_block(
                store,
                #[trigger] records[i],
                start_height + i,
            ),
    ensures
        1 <= records.len() <= limit,
        records[0].height == start_height,
        forall|i: int|
            0 <= i < records.len() - 1 ==> records[i + 1].height == (#[trigger] records[i]).height
                + 1,
        records.len() < limit ==> records.last().block_hash@ == hex_bytes(stop_text).reverse(),
        records.len() == stop_place(store, stop_text)->0 - start_height + 1 ==> records.last().block_hash@
            == hex_bytes(stop_text).reverse(),
        records.len() == limit || records.len() == stop_place(store, stop_text)->0 - start_height
            + 1,
        records.last().height <= stop_place(store, stop_text)->0,
{
    let hash = hex_bytes(stop_text).reverse();
    lemma_chain_place(store.chain_image(), 0, hash);
    let last = records.len() - 1;
    assert(records_block(store, records[0], start_height + 0));
    assert(records_block(store, records[last], start_height + last));
    assert forall|i: int| 0 <= i < records.len() - 1 implies records[i + 1].height == (
    #[trigger] records[i]).height + 1 by {
        assert(records_block(store, records[i], start_height + i));
        assert(records_block(store, records[i + 1], start_height + i + 1));
    }
}

/// The filters of a range: from a height up to a block, at most `limit` of
/// them.
pub fn range(store: &FilterStore, params: &RangeParams, limit: u64) -> (batch:
    Result<FilterBatch, RangeError>)
    requires
        store.wf(),
    ensures
        ({
            let stop = stop_place(store, params.stop_block_hash@);
            let size = batch_size(stop->0, params.start_height, limit);
            let admitted = is_hash_text(params.stop_block_hash@) && stop is Some && store.first_height()
                <= params.start_height <= stop->0;
            match batch {
                Ok(batch) => {
                    &&& admitted
                    &&& is_hash_text(store.pinned_genesis())
                    &&& batch.genesis@ == hex_bytes(store.pinned_genesis()).reverse()
                    &&& batch.profile@ == store.pinned_profile()
                    &&& batch.start_height == params.start_height
                    &&& batch.stop_block_hash@ == hex_bytes(params.stop_block_hash@).reverse()
                    &&& batch.records@.len() == size
                    &&& batch.records@.len() <= limit
                    &&& batch.records@.len() <= stop->0 - params.start_height + 1
                    &&& limit > 0 ==> batch.records@.len() > 0
                    &&& batch.records@.len() == limit || batch.records@.len() == stop->0
                        - params.start_height + 1
                    &&& forall|i: int|
                        0 <= i < size ==> records_block(
                            store,
                            #[trigger] batch.records@[i],
                            params.start_height + i,
                        )
                },
                Err(RangeError::InvalidStopHash) => !is_hash_text(params.stop_block_hash@),
                Err(RangeError::StopNotCovered) => is_hash_text(params.stop_block_hash@) && stop is None,
                Err(RangeError::BelowStart(start)) => {
                    &&& is_hash_text(params.stop_block_hash@)
                    &&& stop is Some
                    &&& params.start_height < store.first_height()
                    &&& start == store.first_height()
                },
                Err(RangeError::AboveStop) => {
                    &&& is_hash_text(params.stop_block_hash@)
                    &&& stop is Some
                    &&& store.first_height() <= params.start_height
                    &&& params.start_height > stop->0
                },
                Err(RangeError::MissingFilter(height)) => {
                    &&& admitted
                    &&& params.start_height <= height < params.start_height + size
                    &&& !store.stored_hashes().contains(
                        chain_hash(store.chain_image(), height - store.first_height()),
                    )
                    &&& forall|h: int|
                        params.start_height <= h < height ==> (#[trigger] covered_filter(store, h)) is Some
                },
                Err(RangeError::Store(error)) => {
                    &&& admitted
                    &&& error is ShortRead
                    &&& exists|height: int|
                        params.start_height <= height < params.start_height + size && (#[trigger] covered_filter(
                            store,
                            height,
                        )) is None && store.stored_hashes().contains(
                            chain_hash(store.chain_image(), height - store.first_height()),
                        ) && forall|h: int|
                            params.start_height <= h < height ==> (#[trigger] covered_filter(store, h)) is Some
                },
                Err(RangeError::InvalidGenesis) => {
                    &&& admitted
                    &&& !is_hash_text(store.pinned_genesis())
                    &&& forall|h: int|
                        params.start_height <= h < params.start_height + size ==> (#[trigger] covered_filter(
                            store,
                            h,
                        )) is Some
                },
            }
        }),
{
    let start_height: u64 = params.start_height;
    let stop_block_hash: &str = params.stop_block_hash.as_str();
    let stop_hash = match BlockHash::from_display_hex(stop_block_hash) {
        Some(hash) => hash,
        None => {
            return Err(RangeError::InvalidStopHash);
        },
    };
    let stop_height: u64 = match store.height_of(stop_hash) {
        Some(height) => height,
        None => {
            return Err(RangeError::StopNotCovered);
        },
    };
    if start_height < store.start_height() {
        return Err(RangeError::BelowStart(store.start_height()));
    }
    if start_height > stop_height {
        return Err(RangeError::AboveStop);
    }
    proof {
        store.lemma_wf();
    }
    let span: u64 = stop_height - start_height;
    let count: u64 = if span >= limit {
        limit
    } else {
        span + 1
    };
    let ghost size = batch_size(stop_height as int, start_height, limit);
    assert(count == size);
    let mut records: Vec<FilterRecord> = Vec::new();
    let mut i: u64 = 0;
    while i < count
        invariant
            i <= count,
            start_height == params.start_height,
            stop_block_hash@ == params.stop_block_hash@,
            store.wf(),
            store.next() <= u64::MAX,
            store.first_height() <= start_height,
            start_height + count <= store.next(),
            records@.len() == i,
            forall|k: int|
                0 <= k < i ==> records_block(store, #[trigger] records@[k], start_height + k),
            stop_place(store, stop_block_hash@) == Some(stop_height as int),
            is_hash_text(stop_block_hash@),
            start_height <= stop_height,
            count == batch_size(stop_height as int, start_height, limit),
        decreases count - i,
    {
        let height: u64 = start_height + i;
        proof {
            assert forall|h: int| start_height <= h < height implies (#[trigger] covered_filter(
                store,
                h,
            )) is Some by {
                assert(records_block(store, records@[h - start_height], h));
            }
        }
        if let Some(hash) = store.block_hash_at(height) {
            match store.filter_by_hash(hash) {
                Ok(Some(stored)) => {
                    records.push(FilterRecord { height, block_hash: hash, filter: stored.bytes });
                },
                Ok(None) => {
                    return Err(RangeError::MissingFilter(height));
                },
                Err(error) => {
                    assert(covered_filter(store, height as int) is None);
                    return Err(RangeError::Store(error));
                },
            }
        }
        i = i + 1;
    }
    let genesis = match BlockHash::from_display_hex(store.genesis_hash()) {
        Some(hash) => hash,
        None => {
            proof {
                assert forall|h: int| start_height <= h < start_height + count implies (
                #[trigger] covered_filter(store, h)) is Some by {
                    assert(records_block(store, records@[h - start_height], h));
                }
            }
            return Err(RangeError::InvalidGenesis);
        },
    };
    Ok(
        FilterBatch {
            genesis,
            profile: String::from_str(store.profile()),
            start_height,
            stop_block_hash: stop_hash,
            records,
        },
    )
}

/// A request for hashes gets every height of its range that is covered, as long as
/// the range starts where something is covered.
pub proof fn law_every_covered_height_of_the_range_is_listed(
    store: &FilterStore,
    start_height: u64,
    count: u64,
    height: int,
)
    requires
        start_height <= height,
    ensures
        height < start_height + entry_count(store, start_height, count) <==> {
            &&& height < start_height + count
            &&& store.first_height() <= start_height
            &&& height < store.next()
        },
{
}

} // verus!
