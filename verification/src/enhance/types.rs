//! Tables of the enhancement service, their geometry, and what a published
//! generation says about them.

use vstd::prelude::*;

pub use crate::layout::DatabaseLayout;
pub use crate::tables::ShardDescriptor;
use crate::tables::{expanded_seed, setup_seed_bytes};
use crate::text::{debug_quoted, debug_text, same_text};

verus! {

/// Bytes in one enhancement record.
pub const RECORD_BYTES: usize = 725;

/// Enhancement records packed into one row.
pub const RECORDS_PER_ROW: usize = 9;

/// Rows in one shard.
pub const SHARD_ROWS: usize = 8_192;

/// Shards that one worker group of several owns.
pub const SHARDS_PER_GROUP: u64 = 6;

/// Wire schema of [`EnhanceGeneration`].
pub const SCHEMA_VERSION: u16 = 6;

/// Identity of one table.
#[derive(Clone, Copy, Debug, PartialEq, Eq, Hash, PartialOrd, Ord, Structural)]
pub enum DatabaseId {
    Enhance,
    TransparentSpendCold,
    TransparentSpendWarm,
}

/// Protocol numbers and names that server and clients agree on out of band.
#[derive(Clone, Debug)]
pub struct Protocol {
    /// Names the parameter derivation that every party pins.
    pub revision: String,
    pub network: String,
    pub pool: String,
    pub enhance_setup_seed: u64,
    pub cold_setup_seed: u64,
    pub warm_setup_seed: u64,
    /// Bytes of one spend-table row.
    pub spend_row_bytes: usize,
    /// Rows in one spend-table shard.
    pub spend_shard_rows: usize,
    /// Fixed number of shard ids each worker in a table's pool owns.
    pub shards_per_worker: u64,
    /// Confirmations a block needs before it is ingested.
    pub confirmations: u64,
    /// Height at which ingest starts.
    pub activation_height: u64,
}

impl Protocol {
    pub open spec fn spend_geometry(self) -> DatabaseLayout {
        DatabaseLayout {
            record_bytes: self.spend_row_bytes,
            records_per_row: 1,
            shard_rows: self.spend_shard_rows,
        }
    }

    pub open spec fn valid(self) -> bool {
        self.spend_geometry().valid()
    }
}

/// The enhancement table: one record per position, nine per row.
#[verifier::allow_in_spec]
pub fn enhance_layout() -> DatabaseLayout
    returns
        (DatabaseLayout {
            record_bytes: RECORD_BYTES,
            records_per_row: RECORDS_PER_ROW,
            shard_rows: SHARD_ROWS,
        }),
{
    DatabaseLayout {
        record_bytes: RECORD_BYTES,
        records_per_row: RECORDS_PER_ROW,
        shard_rows: SHARD_ROWS,
    }
}

impl DatabaseId {
    /// Every table, in wire order.
    pub const ALL: [DatabaseId; 3] = [
        DatabaseId::Enhance,
        DatabaseId::TransparentSpendCold,
        DatabaseId::TransparentSpendWarm,
    ];

    pub open spec fn wire_name(self) -> Seq<char> {
        match self {
            DatabaseId::Enhance => "enhance"@,
            DatabaseId::TransparentSpendCold => "transparent-spend-cold"@,
            DatabaseId::TransparentSpendWarm => "transparent-spend-warm"@,
        }
    }

    pub open spec fn geometry(self, protocol: Protocol) -> DatabaseLayout {
        match self {
            DatabaseId::Enhance => enhance_layout(),
            _ => protocol.spend_geometry(),
        }
    }

    pub open spec fn seed(self, protocol: Protocol) -> u64 {
        match self {
            DatabaseId::Enhance => protocol.enhance_setup_seed,
            DatabaseId::TransparentSpendCold => protocol.cold_setup_seed,
            DatabaseId::TransparentSpendWarm => protocol.warm_setup_seed,
        }
    }

    /// Place of the table in wire order.
    pub open spec fn rank(self) -> nat {
        match self {
            DatabaseId::Enhance => 0,
            DatabaseId::TransparentSpendCold => 1,
            DatabaseId::TransparentSpendWarm => 2,
        }
    }

    pub fn as_str(self) -> (name: &'static str)
        ensures
            name@ == self.wire_name(),
    {
        match self {
            DatabaseId::Enhance => "enhance",
            DatabaseId::TransparentSpendCold => "transparent-spend-cold",
            DatabaseId::TransparentSpendWarm => "transparent-spend-warm",
        }
    }

    pub fn layout(self, protocol: &Protocol) -> (layout: DatabaseLayout)
        ensures
            layout == self.geometry(*protocol),
    {
        match self {
            DatabaseId::Enhance => enhance_layout(),
            DatabaseId::TransparentSpendCold | DatabaseId::TransparentSpendWarm => DatabaseLayout {
                record_bytes: protocol.spend_row_bytes,
                records_per_row: 1,
                shard_rows: protocol.spend_shard_rows,
            },
        }
    }

    pub fn setup_seed(self, protocol: &Protocol) -> (seed: u64)
        ensures
            seed == self.seed(*protocol),
    {
        match self {
            DatabaseId::Enhance => protocol.enhance_setup_seed,
            DatabaseId::TransparentSpendCold => protocol.cold_setup_seed,
            DatabaseId::TransparentSpendWarm => protocol.warm_setup_seed,
        }
    }

    /// The seed as the 32 bytes the setup generator takes.
    pub fn setup_seed_bytes(self, protocol: &Protocol) -> (bytes: [u8; 32])
        ensures
            bytes@ == expanded_seed(self.seed(*protocol)),
    {
        setup_seed_bytes(self.setup_seed(protocol))
    }

    /// The table with this wire name.
    pub fn from_name(value: &str) -> (found: Result<DatabaseId, String>)
        ensures
            match found {
                Ok(id) => value@ == id.wire_name(),
                Err(message) => {
                    &&& forall|id: DatabaseId| value@ != #[trigger] id.wire_name()
                    &&& message@ == "unknown PIR database: "@ + debug_text(value@)
                },
            },
    {
        if same_text(value, "enhance") {
            Ok(DatabaseId::Enhance)
        } else if same_text(value, "transparent-spend-cold") {
            Ok(DatabaseId::TransparentSpendCold)
        } else if same_text(value, "transparent-spend-warm") {
            Ok(DatabaseId::TransparentSpendWarm)
        } else {
            let mut message = String::from_str("unknown PIR database: ");
            let quoted = debug_quoted(value);
            message.append(quoted.as_str());
            Err(message)
        }
    }
}

impl std::str::FromStr for DatabaseId {
    type Err = String;

    fn from_str(value: &str) -> (found: Result<Self, Self::Err>)
        ensures
            match found {
                Ok(id) => value@ == id.wire_name(),
                Err(message) => {
                    &&& forall|id: DatabaseId| value@ != #[trigger] id.wire_name()
                    &&& message@ == "unknown PIR database: "@ + debug_text(value@)
                },
            },
    {
        DatabaseId::from_name(value)
    }
}

/// No two tables share a wire name, so a name read back is the table that it
/// was written for.
pub proof fn law_wire_names_round_trip(a: DatabaseId, b: DatabaseId)
    ensures
        a.wire_name() == b.wire_name() ==> a == b,
{
    reveal_strlit("enhance");
    reveal_strlit("transparent-spend-cold");
    reveal_strlit("transparent-spend-warm");
    assert("enhance"@.len() == 7 && "transparent-spend-cold"@.len() == 22);
    assert("transparent-spend-warm"@.len() == 22);
    assert("transparent-spend-cold"@[18] == 'c' && "transparent-spend-warm"@[18] == 'w');
}

/// At most one value per table, walked in wire order.
pub struct PerTable<T> {
    pub enhance: Option<T>,
    pub cold: Option<T>,
    pub warm: Option<T>,
}

impl<T> PerTable<T> {
    /// What the table has, if anything.
    pub open spec fn at(self, table: DatabaseId) -> Option<T> {
        match table {
            DatabaseId::Enhance => self.enhance,
            DatabaseId::TransparentSpendCold => self.cold,
            DatabaseId::TransparentSpendWarm => self.warm,
        }
    }

    pub fn new() -> (out: PerTable<T>)
        ensures
            forall|table: DatabaseId| (#[trigger] out.at(table)) is None,
    {
        PerTable { enhance: None, cold: None, warm: None }
    }

    pub fn get(&self, table: DatabaseId) -> (found: Option<&T>)
        ensures
            match found {
                Some(value) => self.at(table) == Some(*value),
                None => self.at(table) is None,
            },
    {
        match table {
            DatabaseId::Enhance => self.enhance.as_ref(),
            DatabaseId::TransparentSpendCold => self.cold.as_ref(),
            DatabaseId::TransparentSpendWarm => self.warm.as_ref(),
        }
    }

    /// Sets the table's value; the others keep theirs.
    pub fn insert(&mut self, table: DatabaseId, value: T)
        ensures
            final(self).at(table) == Some(value),
            forall|other: DatabaseId|
                other != table ==> #[trigger] final(self).at(other) == old(self).at(other),
    {
        match table {
            DatabaseId::Enhance => {
                self.enhance = Some(value);
            },
            DatabaseId::TransparentSpendCold => {
                self.cold = Some(value);
            },
            DatabaseId::TransparentSpendWarm => {
                self.warm = Some(value);
            },
        }
    }
}

/// One table as published in a generation.
#[derive(Clone, Debug, PartialEq, Eq)]
pub struct TableManifest {
    pub record_bytes: u32,
    pub records_per_row: u32,
    pub row_bytes: u32,
    pub shard_rows: u32,
    pub positions: u64,
    pub used_rows: u64,
    pub logical_rows: u64,
    pub parameter_id: String,
    pub setup_seed: u64,
    pub public_params_epoch: String,
    pub public_params_sha256: String,
    pub shards: Vec<ShardDescriptor>,
}

/// Every table at one anchor, as the coordinator manages it.
pub struct GenerationManifest {
    pub anchor_height: u64,
    /// Hex, display byte order.
    pub anchor_block_hash: String,
    pub ironwood_tree_size: u64,
    pub generation: u64,
    pub tables: PerTable<TableManifest>,
}

/// What a client learns of the enhancement table in one generation.
#[derive(Clone, Debug, PartialEq, Eq)]
pub struct EnhanceGeneration {
    pub schema_version: u16,
    pub protocol_revision: String,
    pub network: String,
    pub pool: String,
    pub anchor_height: u64,
    pub anchor_block_hash: String,
    pub ironwood_tree_size: u64,
    pub generation: u64,
    pub record_bytes: u32,
    pub records_per_row: u32,
    pub row_bytes: u32,
    pub shard_rows: u32,
    pub used_rows: u64,
    pub logical_rows: u64,
    pub parameter_id: String,
    pub setup_seed: u64,
    pub public_params_epoch: String,
    pub public_params_sha256: String,
    pub shards: Vec<ShardDescriptor>,
}

/// A field-for-field copy of a shard descriptor.
pub fn copy_descriptor(shard: &ShardDescriptor) -> (copy: ShardDescriptor)
    ensures
        copy == *shard,
{
    ShardDescriptor {
        shard_id: shard.shard_id,
        global_row_start: shard.global_row_start,
        populated_positions: shard.populated_positions,
        rows_sha256: shard.rows_sha256.clone(),
        sealed: shard.sealed,
        worker: shard.worker.clone(),
    }
}

pub fn copy_descriptors(shards: &Vec<ShardDescriptor>) -> (copy: Vec<ShardDescriptor>)
    ensures
        copy@ == shards@,
{
    let mut copy: Vec<ShardDescriptor> = Vec::new();
    let mut i: usize = 0;
    while i < shards.len()
        invariant
            i <= shards.len(),
            copy@ == shards@.take(i as int),
        decreases shards.len() - i,
    {
        copy.push(copy_descriptor(&shards[i]));
        assert(shards@.take(i + 1) == shards@.take(i as int).push(shards@[i as int]));
        i = i + 1;
    }
    assert(shards@.take(i as int) == shards@);
    copy
}

impl EnhanceGeneration {
    /// Whether this is the client's view of `table` in `manifest`.
    pub open spec fn describes(
        self,
        manifest: GenerationManifest,
        table: TableManifest,
        protocol: Protocol,
    ) -> bool {
        &&& self.schema_version == SCHEMA_VERSION
        &&& self.protocol_revision == protocol.revision
        &&& self.network == protocol.network
        &&& self.pool == protocol.pool
        &&& self.anchor_height == manifest.anchor_height
        &&& self.anchor_block_hash == manifest.anchor_block_hash
        &&& self.ironwood_tree_size == manifest.ironwood_tree_size
        &&& self.generation == manifest.generation
        &&& self.record_bytes == table.record_bytes
        &&& self.records_per_row == table.records_per_row
        &&& self.row_bytes == table.row_bytes
        &&& self.shard_rows == table.shard_rows
        &&& self.used_rows == table.used_rows
        &&& self.logical_rows == table.logical_rows
        &&& self.parameter_id == table.parameter_id
        &&& self.setup_seed == table.setup_seed
        &&& self.public_params_epoch == table.public_params_epoch
        &&& self.public_params_sha256 == table.public_params_sha256
        &&& self.shards@ == table.shards@
    }
}

impl GenerationManifest {
    /// What clients are told: nothing where the enhancement table is absent.
    pub fn public(&self, protocol: &Protocol) -> (public: Option<EnhanceGeneration>)
        ensures
            match public {
                Some(public) => self.tables.at(DatabaseId::Enhance) matches Some(table)
                    && public.describes(*self, table, *protocol),
                None => self.tables.at(DatabaseId::Enhance) is None,
            },
    {
        match self.tables.get(DatabaseId::Enhance) {
            None => None,
            Some(table) => Some(
                EnhanceGeneration {
                    schema_version: SCHEMA_VERSION,
                    protocol_revision: protocol.revision.clone(),
                    network: protocol.network.clone(),
                    pool: protocol.pool.clone(),
                    anchor_height: self.anchor_height,
                    anchor_block_hash: self.anchor_block_hash.clone(),
                    ironwood_tree_size: self.ironwood_tree_size,
                    generation: self.generation,
                    record_bytes: table.record_bytes,
                    records_per_row: table.records_per_row,
                    row_bytes: table.row_bytes,
                    shard_rows: table.shard_rows,
                    used_rows: table.used_rows,
                    logical_rows: table.logical_rows,
                    parameter_id: table.parameter_id.clone(),
                    setup_seed: table.setup_seed,
                    public_params_epoch: table.public_params_epoch.clone(),
                    public_params_sha256: table.public_params_sha256.clone(),
                    shards: copy_descriptors(&table.shards),
                },
            ),
        }
    }
}

/// Which of `groups` worker groups owns a shard: a single group owns all, and
/// of several each owns `SHARDS_PER_GROUP` in turn, the rest being unowned.
pub open spec fn owner_of_shard(shard_id: nat, groups: nat) -> Option<nat> {
    if groups == 1 {
        Some(0)
    } else if shard_id / SHARDS_PER_GROUP as nat >= groups {
        None
    } else {
        Some(shard_id / SHARDS_PER_GROUP as nat)
    }
}

/// Which of `groups` worker groups owns a shard, if any does.
pub fn group_index_for_shard(shard_id: u64, groups: usize) -> (index: Option<usize>)
    ensures
        groups == 1 ==> index == Some(0usize),
        groups != 1 ==> forall|g: usize|
            index == Some(g) <==> g < groups && #[trigger] (g * SHARDS_PER_GROUP) <= shard_id < (g
                + 1) * SHARDS_PER_GROUP,
        match index {
            Some(index) => owner_of_shard(shard_id as nat, groups as nat) == Some(index as nat)
                && index < groups,
            None => owner_of_shard(shard_id as nat, groups as nat) is None,
        },
{
    if groups == 1 {
        return Some(0);
    }
    let index: u64 = shard_id / SHARDS_PER_GROUP;
    if index < groups as u64 {
        Some(index as usize)
    } else {
        None
    }
}

/// Once there are several groups, appending another moves no owned shard.
pub proof fn law_appending_a_group_moves_nothing(shard_id: nat, groups: nat)
    requires
        groups >= 2,
        owner_of_shard(shard_id, groups) is Some,
    ensures
        owner_of_shard(shard_id, groups + 1) == owner_of_shard(shard_id, groups),
{
}

/// Going from one group to two leaves every shard below the first group's
/// capacity where it was.
pub proof fn law_second_group_leaves_low_shards(shard_id: nat, groups: nat)
    requires
        groups >= 1,
        shard_id < SHARDS_PER_GROUP,
    ensures
        owner_of_shard(shard_id, groups) == Some(0nat),
{
}

/// With several groups, each owns the same number of shards in a row: group `g`
/// exactly those from `g * SHARDS_PER_GROUP` up to where the next group's begin.
pub proof fn law_groups_own_consecutive_shards(shard_id: nat, groups: nat, g: nat)
    requires
        groups >= 2,
        g < groups,
    ensures
        owner_of_shard(shard_id, groups) == Some(g) <==> g * SHARDS_PER_GROUP <= shard_id < (g + 1)
            * SHARDS_PER_GROUP,
        owner_of_shard(shard_id, groups) matches Some(owner) ==> owner < groups,
{
}

/// No shard has two owners, and a shard that has one keeps it whichever other
/// shards there are: shards of one group are less than `SHARDS_PER_GROUP` apart,
/// and of a later shard the group is not an earlier one.
pub proof fn law_ownership_follows_the_shards(a: nat, b: nat, groups: nat)
    requires
        groups >= 2,
        a <= b,
        owner_of_shard(a, groups) is Some,
        owner_of_shard(b, groups) is Some,
    ensures
        owner_of_shard(a, groups)->0 <= owner_of_shard(b, groups)->0,
        owner_of_shard(a, groups) == owner_of_shard(b, groups) ==> b - a < SHARDS_PER_GROUP,
        b - a >= SHARDS_PER_GROUP ==> owner_of_shard(a, groups)->0 < owner_of_shard(b, groups)->0,
{
}

/// With several groups, exactly the first `groups * SHARDS_PER_GROUP` shards
/// are owned.
pub proof fn law_owned_shards(shard_id: nat, groups: nat)
    requires
        groups >= 2,
    ensures
        owner_of_shard(shard_id, groups) is Some <==> shard_id < groups * SHARDS_PER_GROUP,
{
}

} // verus!
