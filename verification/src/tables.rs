//! Table identities, row layouts, and the generation manifest shared by the
//! coordinator, its workers, and wallet clients. Everything here is protocol:
//! a change to a layout, a seed, or a wire name concerns every party at once.

use vstd::prelude::*;
use vstd::utf8::encode_utf8;

use crate::codec::{le_bytes, le_value, push_le, read_le};
use crate::digest::{sha256, sha256_digest};
pub use crate::layout::DatabaseLayout;
use crate::text::{debug_quoted, debug_text, same_text};

verus! {

/// Wire schema of [`GenerationManifest`].
pub const MANIFEST_SCHEMA_VERSION: u16 = 4;

/// Identity of one table. The wire name appears in URLs, artifact paths, and
/// the generation manifest, so it is fixed forever.
#[derive(Clone, Copy, Debug, PartialEq, Eq, Hash, PartialOrd, Ord, Structural)]
pub enum DatabaseId {
    /// One action per record, eight per row, indexed by position.
    Action,
    /// Note commitments, 256 per row, indexed by sub-shard.
    Witness,
    /// Completed sub-shard roots, 256 per row, indexed by shard.
    WitnessRoots,
    /// Nullifier hash buckets up to the cold checkpoint.
    NfCold,
    /// Nullifier hash buckets since the cold checkpoint.
    NfWarm,
}

/// The ACTION table: one 824-byte action per record, eight per row.
#[verifier::allow_in_spec]
pub fn action_layout() -> DatabaseLayout
    returns
        (DatabaseLayout {record_bytes: 824, records_per_row: 8, shard_rows: 8_192,}),
{
    DatabaseLayout {
    record_bytes: 824,
    records_per_row: 8,
    shard_rows: 8_192,
}
}

/// The WITNESS tables: one note commitment per record, 256 leaves per row.
#[verifier::allow_in_spec]
pub fn witness_layout() -> DatabaseLayout
    returns
        (DatabaseLayout {record_bytes: 32, records_per_row: 256, shard_rows: 8_192,}),
{
    DatabaseLayout {
    record_bytes: 32,
    records_per_row: 256,
    shard_rows: 8_192,
}
}

/// The nullifier tables: one hash bucket per row, 112 entries of 41 bytes.
#[verifier::allow_in_spec]
pub fn nullifier_layout() -> DatabaseLayout
    returns
        (DatabaseLayout {record_bytes: 4_592, records_per_row: 1, shard_rows: 8_192,}),
{
    DatabaseLayout {
    record_bytes: 4_592,
    records_per_row: 1,
    shard_rows: 8_192,
}
}

/// First eight bytes, little-endian, of
/// `SHA-256("zcash/ironwood-memo-pir/setup-seed/v1")`: the ACTION setup seed.
pub const MEMO_SETUP_SEED: u64 = 0xaf1a_e284_ec07_131a;

impl DatabaseId {
    /// Every table, in wire order.
    pub const ALL: [DatabaseId; 5] = [
        DatabaseId::Action,
        DatabaseId::Witness,
        DatabaseId::WitnessRoots,
        DatabaseId::NfCold,
        DatabaseId::NfWarm,
    ];

    pub open spec fn wire_name(self) -> Seq<char> {
        match self {
            DatabaseId::Action => "action"@,
            DatabaseId::Witness => "witness"@,
            DatabaseId::WitnessRoots => "witness-roots"@,
            DatabaseId::NfCold => "nf-cold"@,
            DatabaseId::NfWarm => "nf-warm"@,
        }
    }

    pub open spec fn geometry(self) -> DatabaseLayout {
        match self {
            DatabaseId::Action => action_layout(),
            DatabaseId::Witness | DatabaseId::WitnessRoots => witness_layout(),
            DatabaseId::NfCold | DatabaseId::NfWarm => nullifier_layout(),
        }
    }

    /// The domain string whose digest seeds a table other than ACTION.
    pub open spec fn seed_domain(self) -> Seq<char> {
        "zcash/ironwood-pir/"@ + self.wire_name() + "/setup-seed/v1"@
    }

    pub open spec fn seed(self) -> u64 {
        match self {
            DatabaseId::Action => MEMO_SETUP_SEED,
            _ => domain_seed(self.seed_domain()),
        }
    }

    pub fn as_str(&self) -> (name: &'static str)
        ensures
            name@ == self.wire_name(),
    {
        match self {
            DatabaseId::Action => "action",
            DatabaseId::Witness => "witness",
            DatabaseId::WitnessRoots => "witness-roots",
            DatabaseId::NfCold => "nf-cold",
            DatabaseId::NfWarm => "nf-warm",
        }
    }

    /// Row geometry of the table.
    pub fn layout(&self) -> (layout: DatabaseLayout)
        ensures
            layout == self.geometry(),
    {
        match self {
            DatabaseId::Action => action_layout(),
            DatabaseId::Witness | DatabaseId::WitnessRoots => witness_layout(),
            DatabaseId::NfCold | DatabaseId::NfWarm => nullifier_layout(),
        }
    }

    /// Seed of the table's deterministic public query setup. ACTION keeps the
    /// original memo seed; every other table is separated by its wire name.
    pub fn setup_seed(&self) -> (seed: u64)
        ensures
            seed == self.seed(),
    {
        match self {
            DatabaseId::Action => MEMO_SETUP_SEED,
            other => {
                let mut domain = String::from_str("zcash/ironwood-pir/");
                domain.append(other.as_str());
                domain.append("/setup-seed/v1");
                seed_from_domain(domain.as_str())
            },
        }
    }

    /// The table with this wire name.
    pub fn from_name(name: &str) -> (found: Result<DatabaseId, String>)
        ensures
            match found {
                Ok(id) => name@ == id.wire_name(),
                Err(message) => {
                    &&& forall|id: DatabaseId| name@ != #[trigger] id.wire_name()
                    &&& message@ == "unknown PIR table: "@ + debug_text(name@)
                },
            },
    {
        if same_text(name, "action") {
            Ok(DatabaseId::Action)
        } else if same_text(name, "witness") {
            Ok(DatabaseId::Witness)
        } else if same_text(name, "witness-roots") {
            Ok(DatabaseId::WitnessRoots)
        } else if same_text(name, "nf-cold") {
            Ok(DatabaseId::NfCold)
        } else if same_text(name, "nf-warm") {
            Ok(DatabaseId::NfWarm)
        } else {
            let mut message = String::from_str("unknown PIR table: ");
            let quoted = debug_quoted(name);
            message.append(quoted.as_str());
            Err(message)
        }
    }
}

impl std::str::FromStr for DatabaseId {
    type Err = String;

    fn from_str(name: &str) -> (found: Result<Self, Self::Err>)
        ensures
            match found {
                Ok(id) => name@ == id.wire_name(),
                Err(message) => {
                    &&& forall|id: DatabaseId| name@ != #[trigger] id.wire_name()
                    &&& message@ == "unknown PIR table: "@ + debug_text(name@)
                },
            },
    {
        DatabaseId::from_name(name)
    }
}

/// No two tables share a wire name, so a name read back is the table that it
/// was written for.
pub proof fn law_wire_names_round_trip(a: DatabaseId, b: DatabaseId)
    ensures
        a.wire_name() == b.wire_name() ==> a == b,
{
    reveal_strlit("action");
    reveal_strlit("witness");
    reveal_strlit("witness-roots");
    reveal_strlit("nf-cold");
    reveal_strlit("nf-warm");
    assert("action"@.len() == 6 && "witness"@.len() == 7 && "witness-roots"@.len() == 13);
    assert("nf-cold"@.len() == 7 && "nf-warm"@.len() == 7);
    assert("witness"@[3] == 'n' && "nf-cold"@[3] == 'c' && "nf-warm"@[3] == 'w');
}

/// The seed that a domain string stands for: the first eight bytes of its
/// digest, read little-endian.
pub open spec fn domain_seed(domain: Seq<char>) -> u64 {
    le_value(sha256(encode_utf8(domain)).take(8)) as u64
}

/// No two tables seed their setup from the same digest: their domain strings
/// differ. So two of them share a seed only where two different byte strings have
/// digests that start with the same eight bytes, or where a digest starts with the
/// pinned seed of ACTION.
pub proof fn law_setup_seeds_are_separated(a: DatabaseId, b: DatabaseId)
    requires
        a != b,
    ensures
        encode_utf8(a.seed_domain()) != encode_utf8(b.seed_domain()),
        DatabaseId::Action.seed() == MEMO_SETUP_SEED,
        a.seed() == b.seed() ==> {
            ||| a is Action && domain_seed(b.seed_domain()) == MEMO_SETUP_SEED
            ||| b is Action && domain_seed(a.seed_domain()) == MEMO_SETUP_SEED
            ||| exists|x: Seq<u8>, y: Seq<u8>|
                x != y && le_value(#[trigger] sha256(x).take(8)) as u64 == le_value(
                    #[trigger] sha256(y).take(8),
                ) as u64
        },
{
    let (x, y) = (a.seed_domain(), b.seed_domain());
    law_wire_names_round_trip(a, b);
    let head = "zcash/ironwood-pir/"@;
    let tail = "/setup-seed/v1"@;
    if x == y {
        let (p, q) = (a.wire_name(), b.wire_name());
        assert(x.len() == head.len() + p.len() + tail.len());
        assert(y.len() == head.len() + q.len() + tail.len());
        assert(x.subrange(head.len() as int, (head.len() + p.len()) as int) =~= p);
        assert(y.subrange(head.len() as int, (head.len() + q.len()) as int) =~= q);
    }
    vstd::utf8::encode_utf8_decode_utf8(x);
    vstd::utf8::encode_utf8_decode_utf8(y);
    assert(encode_utf8(x) != encode_utf8(y));
    if a.seed() == b.seed() && !(a is Action) && !(b is Action) {
        let (p, q) = (sha256(encode_utf8(x)).take(8), sha256(encode_utf8(y)).take(8));
        assert(le_value(p) as u64 == le_value(q) as u64);
    }
}

/// First eight little-endian bytes of the SHA-256 of a domain string.
pub fn seed_from_domain(domain: &str) -> (seed: u64)
    ensures
        seed == domain_seed(domain@),
        seed as nat == le_value(sha256(encode_utf8(domain@)).take(8)),
{
    let digest = sha256_digest(domain.as_bytes());
    let seed: u64 = read_le(digest.as_slice(), 0, 8);
    assert(digest@.subrange(0, 8) == digest@.take(8));
    seed
}

/// The 32-byte expansion of a seed: the value in the low eight bytes, zero
/// elsewhere.
pub open spec fn expanded_seed(seed: u64) -> Seq<u8> {
    le_bytes(seed as nat, 8) + Seq::new(24, |i: int| 0u8)
}

/// Expands a seed into the 32 bytes the setup generator takes.
pub fn setup_seed_bytes(seed: u64) -> (bytes: [u8; 32])
    ensures
        bytes@ == expanded_seed(seed),
{
    let mut field: Vec<u8> = Vec::new();
    push_le(&mut field, seed, 8);
    proof {
        crate::codec::lemma_le_bytes_len(seed as nat, 8);
        assert(field@ == le_bytes(seed as nat, 8));
    }
    let mut bytes = [0u8;32];
    let mut i: usize = 0;
    while i < 8
        invariant
            i <= 8,
            field@.len() == 8,
            bytes@ == field@.take(i as int) + Seq::new((32 - i) as nat, |j: int| 0u8),
        decreases 8 - i,
    {
        let ghost before = bytes@;
        bytes[i] = field[i];
        assert(bytes@ == before.update(i as int, field@[i as int]));
        assert(bytes@ =~= field@.take(i + 1) + Seq::new((32 - (i + 1)) as nat, |j: int| 0u8));
        i = i + 1;
    }
    assert(field@.take(8) == field@);
    bytes
}

/// Different seeds expand to different setups.
pub proof fn law_expanded_seeds_differ(a: u64, b: u64)
    ensures
        expanded_seed(a) == expanded_seed(b) ==> a == b,
{
    if expanded_seed(a) == expanded_seed(b) {
        crate::codec::lemma_le_bytes_len(a as nat, 8);
        crate::codec::lemma_le_bytes_len(b as nat, 8);
        assert(le_bytes(a as nat, 8) == expanded_seed(a).take(8));
        assert(le_bytes(b as nat, 8) == expanded_seed(b).take(8));
        crate::codec::lemma_byte_spans();
        crate::codec::lemma_read_written_field(a as nat, 8);
        crate::codec::lemma_read_written_field(b as nat, 8);
    }
}

/// Fixed per-pass query budget every wallet issues, dummies included, so the
/// request count never depends on what a wallet found.
#[derive(Clone, Copy, Debug, PartialEq, Eq, Structural)]
pub struct Envelope {
    pub protocol_version: u16,
    /// Nullifier query pairs (one cold, one warm) per pass.
    pub k_nf: u16,
    /// ACTION row queries per pass.
    pub k_act: u16,
    /// Witness query pairs (one roots row, one leaves row) per pass.
    pub k_wit: u16,
}

impl Default for Envelope {
    /// The envelope this protocol version publishes.
    fn default() -> (envelope: Envelope)
        ensures
            envelope.protocol_version == 1,
            envelope.k_nf == 8,
            envelope.k_act == 4,
            envelope.k_wit == 4,
    {
        Envelope { protocol_version: 1, k_nf: 8, k_act: 4, k_wit: 4 }
    }
}

/// Blocks between cold nullifier checkpoints.
pub const COLD_CHECKPOINT_INTERVAL: u64 = 1_000;

/// One published shard of one table.
#[derive(Clone, Debug, PartialEq, Eq)]
pub struct ShardDescriptor {
    pub shard_id: u64,
    pub global_row_start: u64,
    pub populated_positions: u64,
    pub rows_sha256: String,
    pub sealed: bool,
    pub worker: String,
}

/// One table as published in a generation.
#[derive(Clone, Debug, PartialEq, Eq)]
pub struct TableManifest {
    pub record_bytes: u32,
    pub records_per_row: u32,
    pub row_bytes: u32,
    pub shard_rows: u32,
    /// Populated positions (records) in the table.
    pub positions: u64,
    pub used_rows: u64,
    pub logical_rows: u64,
    pub parameter_id: String,
    pub setup_seed: u64,
    pub public_params_epoch: String,
    pub public_params_sha256: String,
    pub shards: Vec<ShardDescriptor>,
}

/// Everything a client needs to know about one generation of every table.
#[derive(Clone, Debug, PartialEq, Eq)]
pub struct GenerationManifest {
    pub schema_version: u16,
    pub protocol_revision: String,
    pub network: String,
    pub pool: String,
    pub anchor_height: u64,
    /// Hex, display byte order.
    pub anchor_block_hash: String,
    pub ironwood_tree_size: u64,
    pub generation: u64,
    /// Depth-32 root of the commitment tree at the anchor, hex.
    pub anchor_tree_root: String,
    /// Height of the nullifier cold checkpoint of this generation.
    pub cold_checkpoint_height: u64,
    pub envelope: Envelope,
    /// Published tables, at most one entry per identity.
    pub tables: Vec<(DatabaseId, TableManifest)>,
}

} // verus!
