//! Types and chain constants shared by every service: networks, lifecycle
//! phases, and the epoch tag that binds a response to its public parameters.

use vstd::prelude::*;

use crate::codec::{le_bytes, push_le};
use crate::text::same_text;

verus! {

/// Blocks behind the tip at which a database state is anchored.
pub const CONFIRMATION_DEPTH: u64 = 10;

/// Mainnet activation height of NU6.3, the lowest block with Ironwood data.
pub const NU6_3_MAINNET_ACTIVATION: u64 = 3_428_143;

/// Testnet activation height of NU6.3.
pub const NU6_3_TESTNET_ACTIVATION: u64 = 4_134_000;

/// The shielded pool that the databases cover. Servers name it and clients
/// check it, so that no wallet takes answers about another pool.
pub const POOL: &'static str = "ironwood";

/// Public setup seed shared by clients and servers: the bytes of
/// `spendability-pir-ipir-setup-0000`.
pub const IPIR_SETUP_SEED: [u8; 32] = [
    0x73, 0x70, 0x65, 0x6e, 0x64, 0x61, 0x62, 0x69, 0x6c, 0x69, 0x74, 0x79,
    0x2d, 0x70, 0x69, 0x72, 0x2d, 0x69, 0x70, 0x69, 0x72, 0x2d, 0x73, 0x65,
    0x74, 0x75, 0x70, 0x2d, 0x30, 0x30, 0x30, 0x30,
];

/// The network a server is following.
#[derive(Debug, Clone, Copy, PartialEq, Eq, Structural)]
pub enum ZcashNetwork {
    Main,
    Test,
}

impl ZcashNetwork {
    pub open spec fn activation(self) -> u64 {
        match self {
            ZcashNetwork::Main => NU6_3_MAINNET_ACTIVATION,
            ZcashNetwork::Test => NU6_3_TESTNET_ACTIVATION,
        }
    }

    pub open spec fn lwd_name(self) -> Seq<char> {
        match self {
            ZcashNetwork::Main => "main"@,
            ZcashNetwork::Test => "test"@,
        }
    }

    /// The NU6.3 activation height of this network.
    pub fn activation_height(&self) -> (height: u64)
        ensures
            height == self.activation(),
    {
        match self {
            ZcashNetwork::Main => NU6_3_MAINNET_ACTIVATION,
            ZcashNetwork::Test => NU6_3_TESTNET_ACTIVATION,
        }
    }

    /// Parses the name lightwalletd reports for its network. Any other name,
    /// regtest included, has no fixed activation height and gives `None`.
    pub fn from_lwd_name(name: &str) -> (network: Option<ZcashNetwork>)
        ensures
            match network {
                Some(network) => name@ == network.lwd_name(),
                None => name@ != "main"@ && name@ != "test"@,
            },
    {
        if same_text(name, "main") {
            Some(ZcashNetwork::Main)
        } else if same_text(name, "test") {
            Some(ZcashNetwork::Test)
        } else {
            None
        }
    }

    /// The name lightwalletd uses for this network.
    pub fn as_lwd_name(&self) -> (name: &'static str)
        ensures
            name@ == self.lwd_name(),
    {
        match self {
            ZcashNetwork::Main => "main",
            ZcashNetwork::Test => "test",
        }
    }
}

/// The two network names differ, so a name is read back as the network that
/// it was written for.
pub proof fn law_network_names_round_trip(a: ZcashNetwork, b: ZcashNetwork)
    ensures
        a.lwd_name() == b.lwd_name() ==> a == b,
{
    reveal_strlit("main");
    reveal_strlit("test");
    assert("main"@[0] != "test"@[0]);
}

/// Lowest block height a server will sync: the network's activation height,
/// or height 1 where the tip has not reached it or the network is unknown.
pub fn min_sync_height(network: Option<ZcashNetwork>, tip_height: u64) -> (height: u64)
    ensures
        height == (match network {
            Some(network) if tip_height >= network.activation() => network.activation(),
            _ => 1,
        }),
{
    match network {
        Some(network) => {
            if tip_height >= network.activation_height() {
                network.activation_height()
            } else {
                1
            }
        },
        None => 1,
    }
}

/// Server lifecycle phase.
#[derive(Debug, Clone, Copy, PartialEq, Eq, Structural)]
pub enum ServerPhase {
    /// Catching up to the chain tip during initial sync.
    Syncing { current_height: u64, target_height: u64 },
    /// Fully synced and serving queries.
    Serving,
}

/// Database geometry of one retrieval scenario.
#[derive(Debug, Clone, Copy, PartialEq, Eq, Structural)]
pub struct YpirScenario {
    /// Number of rows in the database.
    pub num_items: u64,
    /// Size of each row in bits.
    pub item_size_bits: u64,
}

/// A retrieval engine: offline setup, then one answer per query.
pub trait PirEngine {
    type ServerState;

    type Error;

    /// Builds server state from raw database bytes and their geometry.
    fn setup(&self, db_bytes: &[u8], scenario: &YpirScenario) -> Result<
        Self::ServerState,
        Self::Error,
    >;

    /// Answers a single encrypted client query.
    fn answer_query(&self, state: &Self::ServerState, query_bytes: &[u8]) -> Result<
        Vec<u8>,
        Self::Error,
    >;

    /// Snapshot-constant public parameters a client needs before it can decode
    /// a response. Engines that inline them leave this empty.
    fn public_params(&self, _state: &Self::ServerState) -> (params: Vec<u8>)
        default_ensures
            params@.len() == 0,
    {
        Vec::new()
    }
}

/// Width of the epoch tag prefixed to every response.
pub const PIR_EPOCH_BYTES: usize = 8;

const OFFSET_BASIS: u64 = 0xcbf2_9ce4_8422_2325;

const PRIME: u64 = 0x100_0000_01b3;

/// One FNV-1a step: fold in the byte, then multiply modulo two to the 64.
pub open spec fn fnv_step(hash: u64, byte: u8) -> u64 {
    (((hash ^ (byte as u64)) * 0x100_0000_01b3) % 0x1_0000_0000_0000_0000) as u64
}

/// The 64-bit FNV-1a hash of a byte string.
pub open spec fn fnv1a(bytes: Seq<u8>) -> u64
    decreases bytes.len(),
{
    if bytes.len() == 0 {
        0xcbf2_9ce4_8422_2325
    } else {
        fnv_step(fnv1a(bytes.drop_last()), bytes.last())
    }
}

/// The tag that names a snapshot's public parameters.
pub open spec fn epoch_of(public_params: Seq<u8>) -> Seq<u8> {
    le_bytes(fnv1a(public_params) as nat, 8)
}

/// Copies the first `PIR_EPOCH_BYTES` bytes into an array.
pub fn leading_epoch(bytes: &[u8]) -> (epoch: [u8; 8])
    requires
        bytes.len() >= 8,
    ensures
        epoch@ == bytes@.take(8),
{
    let epoch = [
        bytes[0],
        bytes[1],
        bytes[2],
        bytes[3],
        bytes[4],
        bytes[5],
        bytes[6],
        bytes[7],
    ];
    assert(epoch@ == bytes@.take(8));
    epoch
}

/// Identifies a snapshot's public parameters, so that a client can tell when
/// its cached copy has gone stale.
pub fn public_params_epoch(public_params: &[u8]) -> (epoch: [u8; 8])
    ensures
        epoch@ == epoch_of(public_params@),
{
    let mut hash: u64 = OFFSET_BASIS;
    let mut i: usize = 0;
    while i < public_params.len()
        invariant
            i <= public_params.len(),
            hash == fnv1a(public_params@.take(i as int)),
        decreases public_params.len() - i,
    {
        let mixed: u64 = hash ^ (public_params[i] as u64);
        let ghost next = public_params@.take(i + 1);
        assert(next.drop_last() == public_params@.take(i as int));
        hash = mixed.wrapping_mul(PRIME);
        i = i + 1;
    }
    assert(public_params@.take(i as int) == public_params@);
    let mut field: Vec<u8> = Vec::new();
    push_le(&mut field, hash, 8);
    proof {
        crate::codec::lemma_le_bytes_len(hash as nat, 8);
        assert(field@ == le_bytes(hash as nat, 8));
        assert(field@.take(8) == field@);
    }
    leading_epoch(field.as_slice())
}

/// Splits a response into its epoch tag and body. A response too short to
/// carry a tag gives `None`.
pub fn split_epoch(response: &[u8]) -> (split: Option<([u8; 8], &[u8])>)
    ensures
        match split {
            None => response@.len() < PIR_EPOCH_BYTES,
            Some((tag, body)) => tag@ + body@ == response@,
        },
{
    if response.len() < PIR_EPOCH_BYTES {
        return None;
    }
    let (tag, body) = response.split_at(PIR_EPOCH_BYTES);
    let epoch = leading_epoch(tag);
    assert(epoch@ == tag@);
    assert(epoch@ + body@ == response@);
    Some((epoch, body))
}

proof fn lemma_fnv_step_injective(a: u64, b: u64, x: u8, y: u8)
    ensures
        fnv_step(a, x) == fnv_step(b, x) ==> a == b,
        fnv_step(a, x) == fnv_step(a, y) ==> x == y,
{
    lemma_fnv_multiply_injective(a ^ (x as u64), b ^ (x as u64));
    lemma_fnv_multiply_injective(a ^ (x as u64), a ^ (y as u64));
    assert(a ^ (x as u64) == b ^ (x as u64) ==> a == b) by (bit_vector);
    assert(a ^ (x as u64) == a ^ (y as u64) ==> x == y) by (bit_vector);
}

/// The multiplier is odd, hence invertible modulo two to the 64: multiplying
/// a product by the inverse recovers the factor.
proof fn lemma_fnv_multiply_invertible(a: int, p: int, inverse: int, m: int)
    requires
        m > 1,
        0 <= a < m,
        (p * inverse) % m == 1,
    ensures
        (((a * p) % m) * inverse) % m == a,
{
    vstd::arithmetic::div_mod::lemma_mul_mod_noop_left(a * p, inverse, m);
    assert((a * p) * inverse == a * (p * inverse)) by (nonlinear_arith);
    vstd::arithmetic::div_mod::lemma_mul_mod_noop_right(a, p * inverse, m);
    vstd::arithmetic::div_mod::lemma_small_mod(a as nat, m as nat);
    assert(a * 1 == a);
}

proof fn lemma_fnv_multiply_injective(a: u64, b: u64)
    ensures
        (a * 0x100_0000_01b3) % 0x1_0000_0000_0000_0000 == (b * 0x100_0000_01b3)
            % 0x1_0000_0000_0000_0000 ==> a == b,
{
    assert((0x100_0000_01b3int * 0xce96_5057_aff6_957bint) % 0x1_0000_0000_0000_0000int == 1);
    lemma_fnv_multiply_invertible(
        a as int,
        0x100_0000_01b3int,
        0xce96_5057_aff6_957bint,
        0x1_0000_0000_0000_0000int,
    );
    lemma_fnv_multiply_invertible(
        b as int,
        0x100_0000_01b3int,
        0xce96_5057_aff6_957bint,
        0x1_0000_0000_0000_0000int,
    );
}

proof fn lemma_fnv_common_suffix(a: Seq<u8>, b: Seq<u8>, suffix: Seq<u8>)
    requires
        fnv1a(a) != fnv1a(b),
    ensures
        fnv1a(a + suffix) != fnv1a(b + suffix),
    decreases suffix.len(),
{
    if suffix.len() == 0 {
        assert(a + suffix == a);
        assert(b + suffix == b);
    } else {
        let head = suffix.drop_last();
        lemma_fnv_common_suffix(a, b, head);
        assert((a + suffix).drop_last() == a + head);
        assert((b + suffix).drop_last() == b + head);
        lemma_fnv_step_injective(fnv1a(a + head), fnv1a(b + head), suffix.last(), suffix.last());
    }
}

/// Changing any single byte of the public parameters changes the epoch, so a
/// client holding the old copy always notices.
pub proof fn law_epoch_moves_with_any_byte(params: Seq<u8>, at: int, byte: u8)
    requires
        0 <= at < params.len(),
        byte != params[at],
    ensures
        epoch_of(params.update(at, byte)) != epoch_of(params),
{
    let changed = params.update(at, byte);
    let prefix = params.take(at);
    let suffix = params.skip(at + 1);
    let a = prefix.push(params[at]);
    let b = prefix.push(byte);
    assert(a.drop_last() == prefix);
    assert(b.drop_last() == prefix);
    lemma_fnv_step_injective(fnv1a(prefix), fnv1a(prefix), params[at], byte);
    lemma_fnv_common_suffix(a, b, suffix);
    assert(params == a + suffix);
    assert(changed == b + suffix);
    crate::codec::lemma_byte_spans();
    crate::codec::lemma_read_written_field(fnv1a(params) as nat, 8);
    crate::codec::lemma_read_written_field(fnv1a(changed) as nat, 8);
}

/// A tagged response splits back into the tag and body it was made of.
pub proof fn law_split_of_tagged_response(tag: Seq<u8>, body: Seq<u8>, t: Seq<u8>, b: Seq<u8>)
    requires
        tag.len() == PIR_EPOCH_BYTES,
        t.len() == PIR_EPOCH_BYTES,
        t + b == tag + body,
    ensures
        t == tag,
        b == body,
{
    assert(t == (t + b).take(8));
    assert(tag == (tag + body).take(8));
    assert(b == (t + b).skip(8));
    assert(body == (tag + body).skip(8));
}

} // verus!
