//! The retrieval engine: a table of small numbers, a product of the table with
//! an encrypted selector, and its packing into ring ciphertexts.

use inspiring::{
    InspiringError, PackingKeys, QueryPackPreprocessed, RlweCiphertext, TopKeyImages,
};
use ipir_sp::params::{ProductionSimplePirParams, SimplePirProfile};
use ipir_sp::server::{CrsBlock, YServer};
use ipir_sp::{ClientSeed, IPIRClient, IPIRSimpleQuery, PublicQuerySetup};
use vstd::arithmetic::power2::{lemma_pow2_unfold, pow2};
use vstd::prelude::*;

use crate::numbers::ceil_div;
use crate::text::decimal;

verus! {

/// Degree of the ring: coefficients of a polynomial, and rows and columns of
/// one block of a table.
pub const DEGREE: usize = 2_048;

/// Modulus of the ring.
pub const MODULUS: u64 = 72_057_594_037_641_217;

/// Bits of one number of a table.
pub const PLAINTEXT_BITS: usize = 14;

/// Bits of the modulus.
pub const MODULUS_BITS: usize = 56;

/// Bytes of a client's packing keys: two bodies of three polynomials, at the
/// 56 bits of the modulus.
pub const PACKING_KEYS_BYTES: usize = 86_016;

/// Rows of a table of so many items: whole blocks.
pub open spec fn padded_rows(num_items: u64) -> nat {
    ceil_div(num_items as nat, DEGREE as nat) * DEGREE as nat
}

/// Columns of a table of so wide items: whole blocks.
pub open spec fn padded_columns(item_size_bits: u64) -> nat {
    ceil_div(item_size_bits as nat, (DEGREE * PLAINTEXT_BITS) as nat) * DEGREE as nat
}

/// Whether the engine takes a table of a shape: at least one block, and no
/// more numbers than the machine can count.
pub open spec fn shape_accepted(num_items: u64, item_size_bits: u64) -> bool {
    &&& num_items >= DEGREE
    &&& item_size_bits >= DEGREE * PLAINTEXT_BITS
    &&& padded_rows(num_items) * padded_columns(item_size_bits) <= usize::MAX
}

/// Words in which a shape is refused.
pub open spec fn shape_fault(num_items: u64, item_size_bits: u64) -> Seq<char> {
    let rows = padded_rows(num_items);
    let columns = padded_columns(item_size_bits);
    "invalid parameter set: "@ + (if num_items < DEGREE || item_size_bits < DEGREE
        * PLAINTEXT_BITS {
        "SimplePIR requires at least one polynomial of rows and item bits"@
    } else if num_items + DEGREE - 1 > u64::MAX {
        "database row count overflows"@
    } else if rows > usize::MAX {
        "database rows exceed usize"@
    } else if rows > 0x8000_0000_0000_0000 {
        "database dimension overflows"@
    } else if columns / DEGREE as nat > usize::MAX {
        "instance count exceeds usize"@
    } else if columns > usize::MAX {
        "database column count overflows"@
    } else {
        "database element count overflows"@
    })
}

#[verifier::external_type_specification]
#[verifier::external_body]
pub struct ExInspiringError(InspiringError);

#[verifier::external_type_specification]
#[verifier::external_body]
pub struct ExProductionSimplePirParams(ProductionSimplePirParams);

#[verifier::external_type_specification]
#[verifier::external_body]
pub struct ExIPIRClient(IPIRClient);

#[verifier::external_type_specification]
#[verifier::external_body]
pub struct ExPublicQuerySetup(PublicQuerySetup);

#[verifier::external_type_specification]
#[verifier::external_body]
#[verifier::reject_recursive_types(T)]
pub struct ExYServer<T>(YServer<T>);

#[verifier::external_type_specification]
#[verifier::external_body]
pub struct ExQueryPackPreprocessed<'a>(QueryPackPreprocessed<'a>);

#[verifier::external_type_specification]
#[verifier::external_body]
pub struct ExTopKeyImages<'a>(TopKeyImages<'a>);

#[verifier::external_type_specification]
#[verifier::external_body]
pub struct ExPackingKeys<'a>(PackingKeys<'a>);

#[verifier::external_type_specification]
#[verifier::external_body]
pub struct ExRlweCiphertext<'a>(RlweCiphertext<'a>);

#[verifier::external_type_specification]
#[verifier::external_body]
pub struct ExClientSeed(ClientSeed);

#[verifier::external_type_specification]
#[verifier::external_body]
pub struct ExIPIRSimpleQuery(IPIRSimpleQuery);

/// Items and bits of an item that parameters were made for.
pub uninterp spec fn profile_shape(profile: ProductionSimplePirParams) -> (u64, u64);

/// The least width, from one on, whose power of two squared is at least the rows
/// times the square of 2^34; at most the width of the modulus.
pub open spec fn width_from(rows: nat, width: nat) -> nat
    decreases MODULUS_BITS - width,
{
    if width >= MODULUS_BITS || pow2(2 * width) >= pow2(68) * rows {
        width
    } else {
        width_from(rows, width + 1)
    }
}

/// Width at which the coefficients of a query to a table of so many items
/// travel: 34 bits and half the logarithm of the rows, rounded up.
pub open spec fn width_of(num_items: u64) -> nat {
    width_from(padded_rows(num_items), 1)
}

proof fn lemma_width_from(rows: nat, width: nat)
    requires
        width <= MODULUS_BITS,
    ensures
        width <= width_from(rows, width) <= MODULUS_BITS,
        rows <= NARROW_ROWS && width <= 54 ==> width_from(rows, width) <= 54,
    decreases MODULUS_BITS - width,
{
    if width < MODULUS_BITS && pow2(2 * width) < pow2(68) * rows {
        if rows <= NARROW_ROWS && width == 54 {
            vstd::arithmetic::power2::lemma_pow2_adds(68, 40);
            vstd::arithmetic::power2::lemma2_to64();
            vstd::arithmetic::power2::lemma2_to64_rest();
            assert(pow2(40) == NARROW_ROWS);
            assert(pow2(68) * rows <= pow2(68) * pow2(40)) by (nonlinear_arith)
                requires
                    rows <= pow2(40),
            ;
        }
        lemma_width_from(rows, width + 1);
    }
}

/// Coefficients travel at some width, and below that of the modulus where there
/// are not too many rows.
pub proof fn lemma_width_of(num_items: u64)
    ensures
        1 <= width_of(num_items) <= MODULUS_BITS,
        num_items <= NARROW_ROWS ==> width_of(num_items) < MODULUS_BITS,
{
    lemma_width_from(padded_rows(num_items), 1);
    assert(num_items <= NARROW_ROWS ==> padded_rows(num_items) <= NARROW_ROWS);
}

/// Width at which the coefficients of a query travel under parameters.
pub open spec fn profile_query_bits(profile: ProductionSimplePirParams) -> nat {
    width_of(profile_shape(profile).0)
}

/// Rows up to which a query's coefficients travel at less than the width of the
/// modulus.
pub const NARROW_ROWS: u64 = 0x100_0000_0000;

/// Calls `ipir_sp::params::ProductionSimplePirParams::new` with the profile of
/// 14-bit numbers. Claims that it refuses a shape below one block or with more
/// numbers than the machine can count, and no other, in which words it does so,
/// and that the parameters are those of the shape.
#[verifier::external_body]
pub(crate) fn profile_for(num_items: u64, item_size_bits: u64) -> (profile: Result<
    ProductionSimplePirParams,
    InspiringError,
>)
    ensures
        match profile {
            Ok(profile) => {
                &&& shape_accepted(num_items, item_size_bits)
                &&& profile_shape(profile) == (num_items, item_size_bits)
            },
            Err(error) => {
                &&& !shape_accepted(num_items, item_size_bits)
                &&& error_words(error) == shape_fault(num_items, item_size_bits)
            },
        },
{
    ProductionSimplePirParams::new(num_items, item_size_bits, SimplePirProfile::P14)
}

/// Reads `query_bits` of `ipir_sp::params::ProductionSimplePirParams::ypir`,
/// which is the logarithm of 2^34 times the root of the rows, rounded up. It is
/// computed in floating point, but where it is not a whole number it is farther
/// from one than the error can be.
#[verifier::external_body]
pub(crate) fn query_bits(profile: &ProductionSimplePirParams) -> (bits: usize)
    ensures
        bits == width_of(profile_shape(*profile).0),
{
    profile.ypir().query_bits
}

/// The words of an error.
pub uninterp spec fn error_words(error: InspiringError) -> Seq<char>;

/// Calls `to_string` of `inspiring::InspiringError`.
#[verifier::external_body]
pub(crate) fn error_text(error: &InspiringError) -> (text: String)
    ensures
        text@ == error_words(*error),
{
    error.to_string()
}

/// A bit of a byte string, low bit of a byte first; zero behind its end.
pub open spec fn bit_at(data: Seq<u8>, at: int) -> nat {
    if 0 <= at / 8 < data.len() {
        ((data[at / 8] as int / pow2((at % 8) as nat) as int) % 2) as nat
    } else {
        0
    }
}

/// The number whose bits stand from a place on, low bit first.
pub open spec fn bits_value(data: Seq<u8>, at: int, width: nat) -> nat
    decreases width,
{
    if width == 0 {
        0
    } else {
        bits_value(data, at, (width - 1) as nat) + bit_at(data, at + width - 1) * pow2(
            (width - 1) as nat,
        )
    }
}

/// Calls `ipir_sp::bits::read_bits`, which reads low bits first and takes
/// zeros for what is behind the end.
#[verifier::external_body]
pub(crate) fn read_bits(data: &[u8], at: usize, width: usize) -> (value: u64)
    requires
        1 <= width <= 64,
    ensures
        value == bits_value(data@, at as int, width as nat),
{
    ipir_sp::bits::read_bits(data, at, width)
}

/// A number of so many bits is below the power of two.
pub proof fn lemma_bits_value_bound(data: Seq<u8>, at: int, width: nat)
    ensures
        bits_value(data, at, width) < pow2(width),
    decreases width,
{
    vstd::arithmetic::power2::lemma2_to64();
    if width > 0 {
        lemma_bits_value_bound(data, at, (width - 1) as nat);
        lemma_pow2_unfold(width);
        let bit = bit_at(data, at + width - 1);
        assert(bit <= 1);
        assert(bit * pow2((width - 1) as nat) <= pow2((width - 1) as nat)) by (nonlinear_arith)
            requires
                bit <= 1,
        ;
    }
}

/// Rows of numbers as values.
pub open spec fn rows_seen(rows: Seq<Vec<u64>>) -> Seq<Seq<u64>> {
    rows.map_values(|row: Vec<u64>| row@)
}

/// Blocks of rows of numbers as values.
pub open spec fn blocks_seen(blocks: Seq<Vec<Vec<u64>>>) -> Seq<Seq<Seq<u64>>> {
    blocks.map_values(|block: Vec<Vec<u64>>| rows_seen(block@))
}

/// Whether these are polynomials of the ring.
pub open spec fn are_polynomials(polys: Seq<Seq<u64>>) -> bool {
    forall|i: int| 0 <= i < polys.len() ==> (#[trigger] polys[i]).len() == DEGREE
}

/// Whether these are blocks of the ring: as many polynomials as a polynomial
/// has coefficients.
pub open spec fn are_blocks(blocks: Seq<Seq<Seq<u64>>>) -> bool {
    forall|i: int|
        0 <= i < blocks.len() ==> (#[trigger] blocks[i]).len() == DEGREE && are_polynomials(
            blocks[i],
        )
}

/// Shape that a client was made for.
pub uninterp spec fn client_shape(client: IPIRClient) -> (u64, u64);

/// Calls `ipir_sp::IPIRClient::new`.
#[verifier::external_body]
pub(crate) fn client_for(profile: &ProductionSimplePirParams) -> (client: IPIRClient)
    ensures
        client_shape(client) == profile_shape(*profile),
{
    IPIRClient::new(profile)
}

/// Public polynomials of a setup.
pub uninterp spec fn setup_polys(setup: PublicQuerySetup) -> Seq<Seq<u64>>;

/// Public polynomials that a seed stands for, for so many rows.
pub uninterp spec fn seeded_polys(rows: nat, seed: Seq<u8>) -> Seq<Seq<u64>>;

/// Calls `ipir_sp::IPIRClient::generate_public_query_setup_simplepir_from_seed`.
/// Claims that the polynomials follow from the rows of the table and the seed,
/// and that there is one for each block of rows.
#[verifier::external_body]
pub(crate) fn setup_from_seed(client: &IPIRClient, seed: &[u8; 32]) -> (setup: PublicQuerySetup)
    ensures
        setup_polys(setup) == seeded_polys(padded_rows(client_shape(*client).0), seed@),
        setup_polys(setup).len() * DEGREE == padded_rows(client_shape(*client).0),
        are_polynomials(setup_polys(setup)),
{
    client.generate_public_query_setup_simplepir_from_seed(*seed)
}

/// Calls `ipir_sp::PublicQuerySetup::polys`.
#[verifier::external_body]
pub(crate) fn polys_of(setup: &PublicQuerySetup) -> (polys: Vec<Vec<u64>>)
    ensures
        rows_seen(polys@) == setup_polys(*setup),
{
    setup.polys().to_vec()
}

/// Why public polynomials are not told apart from the fixed masks of the packing
/// keys, in words; nothing where they are.
pub uninterp spec fn mask_fault(polys: Seq<Seq<u64>>) -> Option<Seq<char>>;

/// Whether public polynomials are told apart from the fixed masks of the
/// packing keys.
pub open spec fn masks_apart(polys: Seq<Seq<u64>>) -> bool {
    mask_fault(polys) is None
}

/// Calls `ipir_sp::server::verify_query_masks_distinct_from_key_masks`. Claims
/// that whether it refuses polynomials, and in which words, follows from them.
#[verifier::external_body]
pub(crate) fn check_masks(profile: &ProductionSimplePirParams, polys: &Vec<Vec<u64>>) -> (checked:
    Result<(), InspiringError>)
    ensures
        (match checked {
            Ok(()) => None,
            Err(error) => Some(error_words(error)),
        }) == mask_fault(rows_seen(polys@)),
{
    ipir_sp::server::verify_query_masks_distinct_from_key_masks(profile.rlwe(), polys)
}

/// Shape that a server was made for.
pub uninterp spec fn server_shape(server: YServer<u16>) -> (u64, u64);

/// Numbers of a server's table, row by row.
pub uninterp spec fn server_table(server: YServer<u16>) -> Seq<u16>;

/// Calls `ipir_sp::server::YServer::new_auto_kernel_from_profile` on numbers
/// that stand row by row.
#[verifier::external_body]
pub(crate) fn server_for(profile: &ProductionSimplePirParams, numbers: Vec<u16>) -> (server:
    YServer<u16>)
    requires
        numbers@.len() == padded_rows(profile_shape(*profile).0) * padded_columns(
            profile_shape(*profile).1,
        ),
    ensures
        server_shape(server) == profile_shape(*profile),
        server_table(server) == numbers@,
{
    YServer::new_auto_kernel_from_profile(profile, numbers.into_iter(), false, true)
}

/// What a column of a table gives with the first `n` coefficients of a query.
pub open spec fn column_sum(table: Seq<u16>, cols: nat, query: Seq<u64>, col: int, n: nat) -> int
    decreases n,
{
    if n == 0 {
        0
    } else {
        column_sum(table, cols, query, col, (n - 1) as nat) + query[n - 1] * table[(n - 1) * cols
            + col]
    }
}

/// The product of a query with a table.
pub open spec fn product(table: Seq<u16>, cols: nat, query: Seq<u64>) -> Seq<u64> {
    Seq::new(
        cols,
        |col: int| (column_sum(table, cols, query, col, query.len()) % MODULUS as int) as u64,
    )
}

/// Whether numbers are below the modulus.
pub open spec fn reduced(values: Seq<u64>) -> bool {
    forall|i: int| 0 <= i < values.len() ==> #[trigger] values[i] < MODULUS
}

/// Calls `ipir_sp::server::YServer::multiply_query`: the sum over the rows of
/// coefficient times number, modulo the modulus, for each column. Coefficients
/// need not be below the modulus: they are taken in halves of 32 bits, and as
/// many rows at a time as cannot overflow.
#[verifier::external_body]
pub(crate) fn multiply(
    server: &YServer<u16>,
    profile: &ProductionSimplePirParams,
    query: &[u64],
) -> (values: Vec<u64>)
    requires
        server_shape(*server) == profile_shape(*profile),
        query@.len() == padded_rows(server_shape(*server).0),
    ensures
        values@ == product(
            server_table(*server),
            padded_columns(server_shape(*server).1),
            query@,
        ),
{
    server.multiply_query(profile.rlwe(), query)
}

/// What coefficient `j` of a polynomial adds to coefficient `i` of its product
/// with the rows of a column from `base` on, in the ring where the power
/// `DEGREE` of the variable is minus one.
pub open spec fn ring_term(
    poly: Seq<u64>,
    table: Seq<u16>,
    cols: nat,
    base: int,
    col: int,
    i: int,
    j: int,
) -> int {
    if j <= i {
        poly[j] * table[(base + i - j) * cols + col]
    } else {
        -(poly[j] * table[(base + DEGREE + i - j) * cols + col])
    }
}

/// Coefficient `i` of that product, over the first `n` coefficients.
pub open spec fn ring_sum(
    poly: Seq<u64>,
    table: Seq<u16>,
    cols: nat,
    base: int,
    col: int,
    i: int,
    n: nat,
) -> int
    decreases n,
{
    if n == 0 {
        0
    } else {
        ring_sum(poly, table, cols, base, col, i, (n - 1) as nat) + ring_term(
            poly,
            table,
            cols,
            base,
            col,
            i,
            n - 1,
        )
    }
}

/// Coefficient `i` of the sum of the products of the first `n` blocks of a
/// column with their polynomials.
pub open spec fn hint_sum(
    polys: Seq<Seq<u64>>,
    table: Seq<u16>,
    cols: nat,
    col: int,
    i: int,
    n: nat,
) -> int
    decreases n,
{
    if n == 0 {
        0
    } else {
        hint_sum(polys, table, cols, col, i, (n - 1) as nat) + ring_sum(
            polys[n - 1],
            table,
            cols,
            (n - 1) * DEGREE,
            col,
            i,
            DEGREE as nat,
        )
    }
}

/// The hint of a table: for each column a polynomial, in blocks of columns.
pub open spec fn hint_blocks(polys: Seq<Seq<u64>>, table: Seq<u16>, cols: nat) -> Seq<
    Seq<Seq<u64>>,
> {
    Seq::new(
        cols / DEGREE as nat,
        |b: int|
            Seq::new(
                DEGREE as nat,
                |k: int|
                    Seq::new(
                        DEGREE as nat,
                        |i: int|
                            (hint_sum(polys, table, cols, b * DEGREE + k, i, polys.len())
                                % MODULUS as int) as u64,
                    ),
            ),
    )
}

/// Calls `ipir_sp::server::YServer::perform_offline_precomputation_simplepir`:
/// each column of the table, split into blocks of rows, times the polynomials
/// of the blocks, in the ring.
#[verifier::external_body]
pub(crate) fn hint_of(
    server: &YServer<u16>,
    profile: &ProductionSimplePirParams,
    polys: &Vec<Vec<u64>>,
) -> (blocks: Vec<Vec<Vec<u64>>>)
    requires
        server_shape(*server) == profile_shape(*profile),
        polys@.len() * DEGREE == padded_rows(server_shape(*server).0),
        are_polynomials(rows_seen(polys@)),
        masks_apart(rows_seen(polys@)),
    ensures
        blocks_seen(blocks@) == hint_blocks(
            rows_seen(polys@),
            server_table(*server),
            padded_columns(server_shape(*server).1),
        ),
{
    let offline = server.perform_offline_precomputation_simplepir(profile.rlwe(), polys);
    offline.crs_blocks.into_iter().map(|block| block.rows).collect()
}

/// Numbers of prepared blocks: of each, the polynomial that is published and the
/// digits that packing takes.
pub uninterp spec fn prepared_numbers(prepared: Seq<QueryPackPreprocessed<'_>>) -> Seq<
    (Seq<u64>, Seq<Seq<u64>>),
>;

/// Numbers that a hint is prepared to.
pub uninterp spec fn prepared_of(hint: Seq<Seq<Seq<u64>>>) -> Seq<(Seq<u64>, Seq<Seq<u64>>)>;

/// Calls `ipir_sp::server::build_pack_preprocessed_blocks`. Claims that blocks of
/// the right shape are always prepared, one for one, and that what they are
/// prepared to follows from them.
#[verifier::external_body]
pub(crate) fn prepare_blocks<'a>(
    profile: &'a ProductionSimplePirParams,
    blocks: &Vec<Vec<Vec<u64>>>,
) -> (prepared: Result<Vec<QueryPackPreprocessed<'a>>, InspiringError>)
    requires
        are_blocks(blocks_seen(blocks@)),
    ensures
        match prepared {
            Ok(prepared) => {
                &&& prepared_numbers(prepared@) == prepared_of(blocks_seen(blocks@))
                &&& prepared@.len() == blocks@.len()
            },
            Err(_) => false,
        },
{
    let crs: Vec<CrsBlock> = blocks.iter().map(|rows| CrsBlock { rows: rows.clone() }).collect();
    ipir_sp::server::build_pack_preprocessed_blocks(profile.rlwe(), &crs)
}

/// Whether these are the images that packing takes.
pub uninterp spec fn is_top_image(images: TopKeyImages<'_>) -> bool;

/// Calls `inspiring::TopKeyImages::build`.
#[verifier::external_body]
pub(crate) fn top_images<'a>(profile: &'a ProductionSimplePirParams) -> (images: TopKeyImages<'a>)
    ensures
        is_top_image(images),
{
    TopKeyImages::build(profile.rlwe())
}

/// Bytes that prepared blocks are published as.
pub uninterp spec fn published_bytes(prepared: Seq<(Seq<u64>, Seq<Seq<u64>>)>) -> Seq<u8>;

/// Public bytes of a hint.
pub open spec fn published_rows(hint: Seq<Seq<Seq<u64>>>) -> Seq<u8> {
    published_bytes(prepared_of(hint))
}

/// Bytes of one published row.
pub const PUBLISHED_ROW_BYTES: usize = 14_336;

/// Calls `ipir_sp::server::published_c1_rows`. Claims that the bytes follow
/// from the prepared numbers, and that each block has one row of 2048
/// coefficients at the 56 bits of the modulus.
#[verifier::external_body]
pub(crate) fn publish_rows(prepared: &Vec<QueryPackPreprocessed<'_>>) -> (bytes: Vec<u8>)
    ensures
        bytes@ == published_bytes(prepared_numbers(prepared@)),
        bytes@.len() == prepared@.len() * PUBLISHED_ROW_BYTES,
{
    ipir_sp::server::published_c1_rows(prepared, MODULUS)
}

/// Bytes behind packing keys.
pub uninterp spec fn key_bytes(keys: PackingKeys<'_>) -> Seq<u8>;

/// Whether packing keys are two bodies of three polynomials, all numbers below
/// the modulus.
pub uninterp spec fn keys_whole(keys: PackingKeys<'_>) -> bool;

/// Numbers in a client's packing keys.
pub const PACKING_KEYS_NUMBERS: usize = 12_288;

/// Whether bytes are packing keys: numbers at the bits of the modulus, all of
/// them below it.
pub open spec fn keys_admitted(bytes: Seq<u8>) -> bool {
    &&& bytes.len() == PACKING_KEYS_BYTES
    &&& forall|i: int|
        0 <= i < PACKING_KEYS_NUMBERS ==> #[trigger] bits_value(
            bytes,
            i * MODULUS_BITS,
            MODULUS_BITS as nat,
        ) < MODULUS
}

/// The first number of packing keys, from one on, that is not below the modulus.
pub open spec fn first_unreduced(bytes: Seq<u8>, from: nat) -> nat
    decreases PACKING_KEYS_NUMBERS - from,
{
    if from >= PACKING_KEYS_NUMBERS || bits_value(
        bytes,
        (from * MODULUS_BITS) as int,
        MODULUS_BITS as nat,
    ) >= MODULUS {
        from
    } else {
        first_unreduced(bytes, from + 1)
    }
}

/// Words in which packing keys are refused: their length, or their first number
/// that is not below the modulus and the half that it stands in.
pub open spec fn keys_fault(bytes: Seq<u8>) -> Seq<char> {
    "preprocessing/parameter mismatch: "@ + (if bytes.len() != PACKING_KEYS_BYTES {
        "serialized packing keys must be "@ + decimal(PACKING_KEYS_BYTES as nat) + " bytes, got "@
            + decimal(bytes.len())
    } else {
        let at = first_unreduced(bytes, 0);
        let half = if 2 * at < PACKING_KEYS_NUMBERS {
            "packing key K_g body"@
        } else {
            "packing key K_h body"@
        };
        half + " contains coefficient "@ + decimal(
            bits_value(bytes, (at * MODULUS_BITS) as int, MODULUS_BITS as nat),
        ) + " which is not reduced modulo q="@ + decimal(MODULUS as nat)
    })
}

/// Calls `ipir_sp::serialize::serialized_packing_keys_len`.
#[verifier::external_body]
pub(crate) fn keys_len(profile: &ProductionSimplePirParams) -> (len: usize)
    ensures
        len == PACKING_KEYS_BYTES,
{
    ipir_sp::serialize::serialized_packing_keys_len(profile.rlwe())
}

/// Calls `ipir_sp::serialize::deserialize_packing_keys`. Claims that it takes
/// exactly the bytes of the right length whose numbers are below the modulus,
/// in which words it refuses others, and that the keys it gives are whole.
#[verifier::external_body]
pub(crate) fn read_keys<'a>(profile: &'a ProductionSimplePirParams, bytes: &[u8]) -> (keys: Result<
    PackingKeys<'a>,
    InspiringError,
>)
    ensures
        match keys {
            Ok(keys) => {
                &&& keys_admitted(bytes@)
                &&& key_bytes(keys) == bytes@
                &&& keys_whole(keys)
            },
            Err(error) => {
                &&& !keys_admitted(bytes@)
                &&& error_words(error) == keys_fault(bytes@)
            },
        },
{
    ipir_sp::serialize::deserialize_packing_keys(profile.rlwe(), bytes)
}

/// A coefficient rounded to so many bits.
pub open spec fn rounded(coefficient: u64, bits: nat) -> int {
    if bits >= MODULUS_BITS {
        coefficient as int
    } else {
        ((coefficient * pow2(bits) + MODULUS / 2) / MODULUS as int) % pow2(bits) as int
    }
}

/// The coefficient that a rounded one stands for.
pub open spec fn lifted(rounded: int, bits: nat) -> int {
    if bits >= MODULUS_BITS {
        rounded
    } else {
        let nearest = (rounded * MODULUS + pow2((bits - 1) as nat)) / pow2(bits) as int;
        if nearest >= MODULUS {
            nearest - MODULUS
        } else {
            nearest
        }
    }
}

/// Coefficients that a query's bytes stand for: one for each row, so many bits
/// each.
pub open spec fn switched_query(bytes: Seq<u8>, rows: nat, bits: nat) -> Seq<u64> {
    Seq::new(rows, |i: int| lifted(bits_value(bytes, i * bits, bits) as int, bits) as u64)
}

/// What a rounded coefficient stands for is below the modulus.
pub proof fn lemma_lifted_is_reduced(rounded: int, bits: nat)
    requires
        1 <= bits < MODULUS_BITS,
        0 <= rounded < pow2(bits),
    ensures
        0 <= lifted(rounded, bits) < MODULUS,
{
    lemma_pow2_unfold(bits);
    let whole = pow2(bits) as int;
    let half = pow2((bits - 1) as nat) as int;
    vstd::arithmetic::power2::lemma_pow2_pos(bits);
    vstd::arithmetic::power2::lemma_pow2_pos((bits - 1) as nat);
    let scaled = rounded * MODULUS + half;
    assert(0 <= scaled < whole * (MODULUS + 1)) by (nonlinear_arith)
        requires
            0 <= rounded <= whole - 1,
            0 < half < whole,
            scaled == rounded * MODULUS + half,
            whole == 2 * half,
            MODULUS > 1,
    ;
    assert(0 <= scaled / whole < MODULUS + 1) by (nonlinear_arith)
        requires
            whole > 0,
            0 <= scaled < whole * (MODULUS + 1),
    ;
}

/// Coefficients that were rounded arrive below the modulus.
pub proof fn lemma_switched_query_is_reduced(bytes: Seq<u8>, rows: nat, bits: nat)
    requires
        1 <= bits < MODULUS_BITS,
    ensures
        reduced(switched_query(bytes, rows, bits)),
{
    let query = switched_query(bytes, rows, bits);
    assert forall|i: int| 0 <= i < query.len() implies #[trigger] query[i] < MODULUS by {
        lemma_bits_value_bound(bytes, i * bits, bits);
        lemma_lifted_is_reduced(bits_value(bytes, i * bits, bits) as int, bits);
    }
}

/// Bytes of a query.
pub open spec fn switched_len(rows: nat, bits: nat) -> nat {
    ceil_div(rows * bits, 8)
}

/// Words in which a query of the wrong length is refused.
pub open spec fn query_fault(rows: nat, bits: nat, len: nat) -> Seq<char> {
    "preprocessing/parameter mismatch: switched query must be "@ + decimal(
        switched_len(rows, bits),
    ) + " bytes for "@ + decimal(rows) + " coefficients at "@ + decimal(bits) + " bits, got "@
        + decimal(len)
}

/// Calls `ipir_sp::IPIRSimpleQuery::from_switched_bytes`. Claims that it takes
/// exactly the bytes of the right length, gives for each row what its bits
/// stand for, and in which words it refuses others.
#[verifier::external_body]
pub(crate) fn read_query(profile: &ProductionSimplePirParams, bytes: &[u8]) -> (query: Result<
    Vec<u64>,
    InspiringError,
>)
    ensures
        ({
            let rows = padded_rows(profile_shape(*profile).0);
            let bits = profile_query_bits(*profile);
            match query {
                Ok(query) => {
                    &&& bytes@.len() == switched_len(rows, bits)
                    &&& query@ == switched_query(bytes@, rows, bits)
                },
                Err(error) => {
                    &&& bytes@.len() != switched_len(rows, bits)
                    &&& error_words(error) == query_fault(rows, bits, bytes@.len())
                },
            }
        }),
{
    let ypir = profile.ypir();
    IPIRSimpleQuery::from_switched_bytes(bytes, ypir.db_rows, profile.rlwe().q, ypir.query_bits)
        .map(|query| query.into_first_dim())
}

/// Coefficients of the bodies of ciphertexts.
pub uninterp spec fn body_numbers(packed: Seq<RlweCiphertext<'_>>) -> Seq<Seq<u64>>;

/// Whether ciphertexts have a mask and a body.
pub uninterp spec fn is_packed(packed: Seq<RlweCiphertext<'_>>) -> bool;

/// Coefficients of the bodies that values are packed to, under keys and over
/// prepared blocks.
pub uninterp spec fn packed_bodies(
    prepared: Seq<(Seq<u64>, Seq<Seq<u64>>)>,
    keys: Seq<u8>,
    values: Seq<u64>,
) -> Seq<Seq<u64>>;

/// Whether values can be packed: there are as many as the hint has polynomials.
pub open spec fn packs(hint: Seq<Seq<Seq<u64>>>, values: Seq<u64>) -> bool {
    values.len() == hint.len() * DEGREE
}

/// Words in which values of the wrong number are refused.
pub open spec fn pack_fault(blocks: nat, values: nat) -> Seq<char> {
    if blocks == 0 {
        "preprocessing/parameter mismatch: non-empty intermediate with no preprocessing blocks"@
    } else {
        "LWE shape mismatch: expected "@ + decimal(blocks * DEGREE as nat)
            + " intermediate values for "@ + decimal(blocks) + " blocks of d="@ + decimal(
            DEGREE as nat,
        ) + ", got "@ + decimal(values)
    }
}

/// Calls `ipir_sp::server::pack_intermediate_blocks`. Claims that it refuses
/// values of the wrong number and no others, in which words, and that the bodies,
/// one for each block, follow from the prepared numbers, the keys and the values. Its
/// arithmetic wraps, so it is built without overflow checks.
#[verifier::external_body]
pub(crate) fn pack_values<'a>(
    values: &[u64],
    keys: &PackingKeys<'a>,
    images: &TopKeyImages<'a>,
    prepared: &'a Vec<QueryPackPreprocessed<'a>>,
) -> (packed: Result<Vec<RlweCiphertext<'a>>, InspiringError>)
    requires
        keys_whole(*keys),
        is_top_image(*images),
    ensures
        match packed {
            Ok(packed) => {
                &&& values@.len() == prepared@.len() * DEGREE
                &&& is_packed(packed@)
                &&& body_numbers(packed@) == packed_bodies(
                    prepared_numbers(prepared@),
                    key_bytes(*keys),
                    values@,
                )
                &&& body_numbers(packed@).len() == prepared@.len()
            },
            Err(error) => {
                &&& values@.len() != prepared@.len() * DEGREE
                &&& error_words(error) == pack_fault(prepared@.len(), values@.len())
            },
        },
{
    ipir_sp::server::pack_intermediate_blocks(values, keys, images, prepared)
}

/// Bytes that bodies are written as.
pub uninterp spec fn response_bytes(bodies: Seq<Seq<u64>>) -> Seq<u8>;

/// The bodies of a response, as bytes.
pub open spec fn response_bodies(
    hint: Seq<Seq<Seq<u64>>>,
    keys: Seq<u8>,
    values: Seq<u64>,
) -> Seq<u8> {
    response_bytes(packed_bodies(prepared_of(hint), keys, values))
}

/// Bytes of one body of a response: 2048 coefficients at 20 bits.
pub const RESPONSE_BODY_BYTES: usize = 5_120;

/// Calls `ipir_sp::modulus_switch::serialize_rlwe_response_bodies` with the
/// smaller modulus of the profile. Claims that the bytes follow from the
/// coefficients of the bodies, and that all bodies are of one length.
#[verifier::external_body]
pub(crate) fn write_bodies(packed: &Vec<RlweCiphertext<'_>>) -> (bytes: Vec<u8>)
    requires
        is_packed(packed@),
    ensures
        bytes@ == response_bytes(body_numbers(packed@)),
        bytes@.len() == body_numbers(packed@).len() * RESPONSE_BODY_BYTES,
{
    ipir_sp::modulus_switch::serialize_rlwe_response_bodies(packed, ipir_sp::params::Q_PRIME_1)
}

/// What a table gives with the query that bytes stand for.
pub open spec fn queried(
    table: Seq<u16>,
    shape: (u64, u64),
    bits: nat,
    query: Seq<u8>,
) -> Seq<u64> {
    product(
        table,
        padded_columns(shape.1),
        switched_query(query, padded_rows(shape.0), bits),
    )
}

/// The response to a query under keys and over so many prepared blocks, or the
/// words in which it is refused: the query has the wrong length, or its values
/// are of the wrong number.
pub open spec fn online_answer(
    table: Seq<u16>,
    shape: (u64, u64),
    bits: nat,
    prepared: Seq<(Seq<u64>, Seq<Seq<u64>>)>,
    blocks: nat,
    keys: Seq<u8>,
    query: Seq<u8>,
) -> Result<Seq<u8>, Seq<char>> {
    let rows = padded_rows(shape.0);
    let values = queried(table, shape, bits, query);
    if query.len() != switched_len(rows, bits) {
        Err(query_fault(rows, bits, query.len()))
    } else if values.len() != blocks * DEGREE {
        Err(pack_fault(blocks, values.len()))
    } else {
        Ok(response_bytes(packed_bodies(prepared, keys, values)))
    }
}

/// The response to a query under keys and over a hint.
pub open spec fn online_response(
    table: Seq<u16>,
    shape: (u64, u64),
    bits: nat,
    hint: Seq<Seq<Seq<u64>>>,
    keys: Seq<u8>,
    query: Seq<u8>,
) -> Result<Seq<u8>, Seq<char>> {
    online_answer(table, shape, bits, prepared_of(hint), hint.len(), keys, query)
}

/// Calls `ipir_sp::server::YServer::perform_full_online_computation_simplepir_measured`:
/// reads the query, multiplies, packs, and writes the bodies, and fails in the
/// words of the first step that does. What it measures on the way is dropped. Its
/// arithmetic wraps, so it is built without overflow checks.
#[verifier::external_body]
pub(crate) fn answer_online<'a>(
    server: &YServer<u16>,
    profile: &'a ProductionSimplePirParams,
    query: &[u8],
    keys: &PackingKeys<'a>,
    images: &TopKeyImages<'a>,
    prepared: &'a Vec<QueryPackPreprocessed<'a>>,
) -> (response: Result<Vec<u8>, InspiringError>)
    requires
        server_shape(*server) == profile_shape(*profile),
        keys_whole(*keys),
        is_top_image(*images),
    ensures
        response matches Ok(bytes) ==> bytes@.len() == prepared@.len() * RESPONSE_BODY_BYTES,
        (match response {
            Ok(bytes) => Ok(bytes@),
            Err(error) => Err(error_words(error)),
        }) == online_answer(
            server_table(*server),
            server_shape(*server),
            profile_query_bits(*profile),
            prepared_numbers(prepared@),
            prepared@.len(),
            key_bytes(*keys),
            query@,
        ),
{
    server.perform_full_online_computation_simplepir_measured(
        profile.rlwe(),
        query,
        keys,
        images,
        prepared,
    ).map(|(response, _timing)| response)
}

/// Bytes of a client's seed.
pub uninterp spec fn seed_bytes(seed: ClientSeed) -> Seq<u8>;

/// Coefficients of a query.
pub uninterp spec fn query_values(query: IPIRSimpleQuery) -> Seq<u64>;

/// Whether coefficients and keys are one of the ways to ask for a row, under a
/// seed and public polynomials.
pub uninterp spec fn asks_for(
    query: Seq<u64>,
    keys: Seq<u8>,
    seed: Seq<u8>,
    polys: Seq<Seq<u64>>,
    row: nat,
) -> bool;

/// Calls `ipir_sp::IPIRClient::generate_fresh_query_simplepir`, which draws a
/// seed from the operating system. Claims only that the outcome asks for the
/// row and has a reduced coefficient for each row, and that its keys are whole:
/// their bodies have the profile's shape, and the last step that makes them
/// reduces every number.
#[verifier::external_body]
pub(crate) fn fresh_query<'a>(client: &'a IPIRClient, setup: &PublicQuerySetup, row: usize) -> (
drawn: (IPIRSimpleQuery, PackingKeys<'a>, ClientSeed))
    requires
        row < padded_rows(client_shape(*client).0),
        setup_polys(*setup).len() * DEGREE == padded_rows(client_shape(*client).0),
    ensures
        asks_for(
            query_values(drawn.0),
            key_bytes(drawn.1),
            seed_bytes(drawn.2),
            setup_polys(*setup),
            row as nat,
        ),
        query_values(drawn.0).len() == padded_rows(client_shape(*client).0),
        reduced(query_values(drawn.0)),
        keys_whole(drawn.1),
{
    client.generate_fresh_query_simplepir(setup, row)
}

/// Calls `ipir_sp::serialize::serialize_packing_keys`. Claims that the bytes
/// are those that the keys are read back from, and that whole keys are written
/// and no others.
#[verifier::external_body]
pub(crate) fn write_keys(client: &IPIRClient, keys: &PackingKeys<'_>) -> (bytes: Result<
    Vec<u8>,
    InspiringError,
>)
    ensures
        match bytes {
            Ok(bytes) => {
                &&& keys_whole(*keys)
                &&& bytes@ == key_bytes(*keys)
                &&& keys_admitted(bytes@)
            },
            Err(_) => !keys_whole(*keys),
        },
{
    ipir_sp::serialize::serialize_packing_keys(client.rlwe_params(), keys)
}

/// Coefficients as they arrive.
pub open spec fn arriving(values: Seq<u64>, bits: nat) -> Seq<u64> {
    Seq::new(values.len(), |i: int| lifted(rounded(values[i], bits), bits) as u64)
}

/// Whether bytes are a query's coefficients, each rounded to so many bits: one
/// after the other, and zeros up to the end of the last byte.
pub open spec fn is_switched(bytes: Seq<u8>, values: Seq<u64>, bits: nat) -> bool {
    &&& bytes.len() == switched_len(values.len(), bits)
    &&& forall|i: int|
        0 <= i < values.len() ==> #[trigger] bits_value(bytes, i * bits, bits) == rounded(
            values[i],
            bits,
        )
    &&& bits_value(
        bytes,
        (values.len() * bits) as int,
        (8 * bytes.len() - values.len() * bits) as nat,
    ) == 0
}

/// A query's bytes are read back as what its rounded coefficients stand for.
pub proof fn law_queries_arrive_rounded(bytes: Seq<u8>, values: Seq<u64>, bits: nat)
    requires
        is_switched(bytes, values, bits),
    ensures
        switched_query(bytes, values.len(), bits) == arriving(values, bits),
{
    let read = switched_query(bytes, values.len(), bits);
    assert forall|i: int| 0 <= i < values.len() implies #[trigger] read[i] == arriving(
        values,
        bits,
    )[i] by {
        assert(bits_value(bytes, i * bits, bits) == rounded(values[i], bits));
    }
    assert(read =~= arriving(values, bits));
}

/// Calls `ipir_sp::IPIRSimpleQuery::to_switched_bytes` with the modulus. Claims
/// that the bytes hold the rounded coefficients and nothing else.
#[verifier::external_body]
pub(crate) fn query_bytes(query: &IPIRSimpleQuery, bits: usize) -> (bytes: Vec<u8>)
    requires
        1 <= bits <= MODULUS_BITS,
        reduced(query_values(*query)),
    ensures
        is_switched(bytes@, query_values(*query), bits as nat),
{
    query.to_switched_bytes(MODULUS, bits)
}

/// Coefficients of published rows, at the bits of the modulus.
pub open spec fn recovered_rows(bytes: Seq<u8>, blocks: nat) -> Seq<Seq<u64>> {
    Seq::new(
        blocks,
        |b: int|
            Seq::new(
                DEGREE as nat,
                |i: int|
                    bits_value(
                        bytes,
                        8 * PUBLISHED_ROW_BYTES * b + MODULUS_BITS * i,
                        MODULUS_BITS as nat,
                    ) as u64,
            ),
    )
}

/// Calls `ipir_sp::modulus_switch::recover_published_c1`, which reads low bits
/// first.
#[verifier::external_body]
pub(crate) fn recover_rows(bytes: &[u8], blocks: usize) -> (rows: Vec<Vec<u64>>)
    requires
        bytes@.len() == blocks * PUBLISHED_ROW_BYTES,
    ensures
        rows_seen(rows@) == recovered_rows(bytes@, blocks as nat),
{
    ipir_sp::modulus_switch::recover_published_c1(bytes, DEGREE, blocks, MODULUS)
}

/// The row that a response decodes to under a seed and published rows.
pub uninterp spec fn decoded_row(
    columns: nat,
    seed: Seq<u8>,
    published: Seq<Seq<u64>>,
    response: Seq<u8>,
) -> Seq<u8>;

/// Calls `ipir_sp::IPIRClient::decode_response_simplepir`: what comes out rests
/// on the shape, the seed, the published rows and the response alone. That it is
/// the row that was asked for is not said: it holds only where the noise that
/// the query was drawn with stays small, which is a matter of chance.
#[verifier::external_body]
pub(crate) fn decode_response(
    client: &IPIRClient,
    seed: &ClientSeed,
    published: &Vec<Vec<u64>>,
    response: &[u8],
) -> (row: Vec<u8>)
    requires
        published@.len() * DEGREE == padded_columns(client_shape(*client).1),
        are_polynomials(rows_seen(published@)),
        response@.len() == published@.len() * RESPONSE_BODY_BYTES,
    ensures
        row@ == decoded_row(
            padded_columns(client_shape(*client).1),
            seed_bytes(*seed),
            rows_seen(published@),
            response@,
        ),
{
    client.decode_response_simplepir(seed, published, response)
}

/// Sum of two lists of numbers, modulo the modulus.
pub open spec fn sum_mod(a: Seq<u64>, b: Seq<u64>) -> Seq<u64> {
    Seq::new(a.len(), |i: int| ((a[i] + b[i]) % MODULUS as int) as u64)
}

/// Adds numbers to a sum, modulo the modulus. Lists of different lengths are
/// refused.
pub fn add_assign_mod(sum: &mut Vec<u64>, part: &Vec<u64>) -> (done: Result<(), String>)
    ensures
        match done {
            Ok(()) => {
                &&& part@.len() == old(sum)@.len()
                &&& final(sum)@ == sum_mod(old(sum)@, part@)
            },
            Err(message) => {
                &&& part@.len() != old(sum)@.len()
                &&& final(sum)@ == old(sum)@
                &&& message@ == "partial results differ in length"@
            },
        },
{
    if part.len() != sum.len() {
        return Err(String::from_str("partial results differ in length"));
    }
    let ghost before = sum@;
    let mut i: usize = 0;
    while i < sum.len()
        invariant
            i <= sum.len(),
            sum@.len() == before.len(),
            part@.len() == before.len(),
            forall|k: int| 0 <= k < i ==> #[trigger] sum@[k] == sum_mod(before, part@)[k],
            forall|k: int| i <= k < before.len() ==> #[trigger] sum@[k] == before[k],
        decreases sum.len() - i,
    {
        let total: u128 = sum[i] as u128 + part[i] as u128;
        let value: u64 = (total % (MODULUS as u128)) as u64;
        assert(value == (before[i as int] + part@[i as int]) % MODULUS as int);
        sum.set(i, value);
        i = i + 1;
    }
    assert(sum@ =~= sum_mod(before, part@));
    Ok(())
}

/// Sum of two hints, number by number.
pub open spec fn hints_added(a: Seq<Seq<Seq<u64>>>, b: Seq<Seq<Seq<u64>>>) -> Seq<Seq<Seq<u64>>> {
    Seq::new(
        a.len(),
        |i: int| Seq::new(a[i].len(), |k: int| sum_mod(a[i][k], b[i][k])),
    )
}

/// Whether two hints have the same shape.
pub open spec fn same_shape(a: Seq<Seq<Seq<u64>>>, b: Seq<Seq<Seq<u64>>>) -> bool {
    &&& a.len() == b.len()
    &&& forall|i: int| 0 <= i < a.len() ==> rows_match(#[trigger] a[i], b[i])
}

/// Whether two blocks have the same shape.
pub open spec fn rows_match(a: Seq<Seq<u64>>, b: Seq<Seq<u64>>) -> bool {
    &&& a.len() == b.len()
    &&& forall|k: int| 0 <= k < a.len() ==> (#[trigger] a[k]).len() == b[k].len()
}

fn rows_fit(a: &Vec<Vec<u64>>, b: &Vec<Vec<u64>>) -> (fit: bool)
    ensures
        fit == rows_match(rows_seen(a@), rows_seen(b@)),
{
    if a.len() != b.len() {
        return false;
    }
    let mut k: usize = 0;
    while k < a.len()
        invariant
            k <= a.len(),
            a.len() == b.len(),
            forall|j: int| 0 <= j < k ==> (#[trigger] rows_seen(a@)[j]).len() == rows_seen(b@)[j].len(),
        decreases a.len() - k,
    {
        if a[k].len() != b[k].len() {
            assert(rows_seen(a@)[k as int].len() != rows_seen(b@)[k as int].len());
            return false;
        }
        k = k + 1;
    }
    true
}

fn hints_fit(a: &Vec<Vec<Vec<u64>>>, b: &Vec<Vec<Vec<u64>>>) -> (fit: bool)
    ensures
        fit == same_shape(blocks_seen(a@), blocks_seen(b@)),
{
    if a.len() != b.len() {
        return false;
    }
    let mut i: usize = 0;
    while i < a.len()
        invariant
            i <= a.len(),
            a.len() == b.len(),
            forall|j: int|
                0 <= j < i ==> rows_match(#[trigger] blocks_seen(a@)[j], blocks_seen(b@)[j]),
        decreases a.len() - i,
    {
        if !rows_fit(&a[i], &b[i]) {
            assert(!rows_match(blocks_seen(a@)[i as int], blocks_seen(b@)[i as int]));
            return false;
        }
        i = i + 1;
    }
    true
}

fn add_rows(a: &Vec<Vec<u64>>, b: &Vec<Vec<u64>>) -> (sum: Vec<Vec<u64>>)
    requires
        rows_match(rows_seen(a@), rows_seen(b@)),
    ensures
        rows_seen(sum@) == Seq::new(
            a@.len(),
            |k: int| sum_mod(rows_seen(a@)[k], rows_seen(b@)[k]),
        ),
{
    let ghost wanted = Seq::new(
        a@.len(),
        |k: int| sum_mod(rows_seen(a@)[k], rows_seen(b@)[k]),
    );
    let mut sum: Vec<Vec<u64>> = Vec::new();
    let mut k: usize = 0;
    while k < a.len()
        invariant
            k <= a.len(),
            wanted == Seq::new(
                a@.len(),
                |k: int| sum_mod(rows_seen(a@)[k], rows_seen(b@)[k]),
            ),
            rows_match(rows_seen(a@), rows_seen(b@)),
            rows_seen(sum@) == wanted.take(k as int),
        decreases a.len() - k,
    {
        assert(rows_seen(a@)[k as int].len() == rows_seen(b@)[k as int].len());
        let mut row: Vec<u64> = Vec::new();
        let mut i: usize = 0;
        while i < a[k].len()
            invariant
                k < a.len(),
                i <= a@[k as int]@.len(),
                row@ == a@[k as int]@.take(i as int),
            decreases a@[k as int]@.len() - i,
        {
            row.push(a[k][i]);
            assert(row@ =~= a@[k as int]@.take(i + 1));
            i = i + 1;
        }
        assert(row@ =~= a@[k as int]@);
        let done = add_assign_mod(&mut row, &b[k]);
        assert(done is Ok);
        let ghost before = rows_seen(sum@);
        let ghost added = row@;
        sum.push(row);
        assert(rows_seen(sum@) =~= before.push(added));
        assert(wanted.take(k + 1) =~= wanted.take(k as int).push(wanted[k as int]));
        k = k + 1;
    }
    assert(wanted.take(k as int) =~= wanted);
    sum
}

/// Adds a shard's hint to those of the shards before it. Hints of different
/// shapes are refused.
pub fn add_hint(sum: &Vec<Vec<Vec<u64>>>, part: &Vec<Vec<Vec<u64>>>) -> (added: Result<
    Vec<Vec<Vec<u64>>>,
    String,
>)
    ensures
        match added {
            Ok(added) => {
                &&& same_shape(blocks_seen(sum@), blocks_seen(part@))
                &&& blocks_seen(added@) == hints_added(blocks_seen(sum@), blocks_seen(part@))
            },
            Err(message) => {
                &&& !same_shape(blocks_seen(sum@), blocks_seen(part@))
                &&& message@ == "shard hints differ in shape"@
            },
        },
{
    if !hints_fit(sum, part) {
        return Err(String::from_str("shard hints differ in shape"));
    }
    let ghost wanted = hints_added(blocks_seen(sum@), blocks_seen(part@));
    let mut added: Vec<Vec<Vec<u64>>> = Vec::new();
    let mut i: usize = 0;
    while i < sum.len()
        invariant
            i <= sum.len(),
            wanted == hints_added(blocks_seen(sum@), blocks_seen(part@)),
            same_shape(blocks_seen(sum@), blocks_seen(part@)),
            blocks_seen(added@) == wanted.take(i as int),
        decreases sum.len() - i,
    {
        assert(rows_match(blocks_seen(sum@)[i as int], blocks_seen(part@)[i as int]));
        let rows = add_rows(&sum[i], &part[i]);
        let ghost before = blocks_seen(added@);
        let ghost block = rows_seen(rows@);
        assert(block =~= wanted[i as int]);
        added.push(rows);
        assert(blocks_seen(added@) =~= before.push(block));
        assert(wanted.take(i + 1) =~= wanted.take(i as int).push(wanted[i as int]));
        i = i + 1;
    }
    assert(wanted.take(i as int) =~= wanted);
    Ok(added)
}

proof fn lemma_place(row: int, rows: int, cols: nat, col: int)
    requires
        0 <= row,
        0 <= col < cols,
    ensures
        row < rows ==> 0 <= row * cols + col < rows * cols,
        row >= rows ==> row * cols + col == rows * cols + ((row - rows) * cols + col),
{
    if row < rows {
        assert(0 <= row * cols + col < rows * cols) by (nonlinear_arith)
            requires
                0 <= row < rows,
                0 <= col < cols,
        ;
    }
    assert(row * cols == rows * cols + (row - rows) * cols) by (nonlinear_arith);
}

proof fn lemma_column_sum_splits(
    t1: Seq<u16>,
    t2: Seq<u16>,
    cols: nat,
    q1: Seq<u64>,
    q2: Seq<u64>,
    col: int,
    n: nat,
)
    requires
        t1.len() == q1.len() * cols,
        t2.len() == q2.len() * cols,
        0 <= col < cols,
        n <= q1.len() + q2.len(),
    ensures
        column_sum(t1 + t2, cols, q1 + q2, col, n) == (if n <= q1.len() {
            column_sum(t1, cols, q1, col, n)
        } else {
            column_sum(t1, cols, q1, col, q1.len()) + column_sum(
                t2,
                cols,
                q2,
                col,
                (n - q1.len()) as nat,
            )
        }),
    decreases n,
{
    if n > 0 {
        lemma_column_sum_splits(t1, t2, cols, q1, q2, col, (n - 1) as nat);
        let row = n - 1;
        lemma_place(row, q1.len() as int, cols, col);
        if row < q1.len() {
            assert((t1 + t2)[row * cols + col] == t1[row * cols + col]);
            assert((q1 + q2)[row] == q1[row]);
        } else {
            let inner = row - q1.len();
            lemma_place(inner, q2.len() as int, cols, col);
            assert((t1 + t2)[row * cols + col] == t2[inner * cols + col]);
            assert((q1 + q2)[row] == q2[inner]);
            assert(column_sum(t2, cols, q2, col, (inner + 1) as nat) == column_sum(
                t2,
                cols,
                q2,
                col,
                inner as nat,
            ) + q2[inner] * t2[inner * cols + col]);
        }
    }
}

/// The product with a table is the sum of the products of its parts with their
/// parts of the query.
pub proof fn law_products_add(
    t1: Seq<u16>,
    t2: Seq<u16>,
    cols: nat,
    q1: Seq<u64>,
    q2: Seq<u64>,
)
    requires
        t1.len() == q1.len() * cols,
        t2.len() == q2.len() * cols,
    ensures
        product(t1 + t2, cols, q1 + q2) == sum_mod(product(t1, cols, q1), product(t2, cols, q2)),
{
    let whole = product(t1 + t2, cols, q1 + q2);
    let parts = sum_mod(product(t1, cols, q1), product(t2, cols, q2));
    assert forall|col: int| 0 <= col < cols implies whole[col] == parts[col] by {
        lemma_column_sum_splits(t1, t2, cols, q1, q2, col, (q1 + q2).len());
        let a = column_sum(t1, cols, q1, col, q1.len());
        let b = column_sum(t2, cols, q2, col, q2.len());
        assert(q2.len() == 0 ==> b == 0);
        assert(column_sum(t1 + t2, cols, q1 + q2, col, (q1 + q2).len()) == a + b);
        vstd::arithmetic::div_mod::lemma_add_mod_noop(a, b, MODULUS as int);
    }
    assert(whole =~= parts);
}

proof fn lemma_ring_sum_moves(
    poly: Seq<u64>,
    whole: Seq<u16>,
    part: Seq<u16>,
    cols: nat,
    base: int,
    shift: int,
    col: int,
    i: int,
    n: nat,
)
    requires
        0 <= base,
        0 <= shift,
        0 <= col < cols,
        0 <= i < DEGREE,
        n <= DEGREE,
        forall|row: int|
            base <= row < base + DEGREE ==> whole[#[trigger] ((row + shift) * cols) + col]
                == part[row * cols + col],
    ensures
        ring_sum(poly, whole, cols, base + shift, col, i, n) == ring_sum(
            poly,
            part,
            cols,
            base,
            col,
            i,
            n,
        ),
    decreases n,
{
    if n > 0 {
        lemma_ring_sum_moves(poly, whole, part, cols, base, shift, col, i, (n - 1) as nat);
        let j = n - 1;
        let row = if j <= i {
            base + i - j
        } else {
            base + DEGREE + i - j
        };
        assert(base <= row < base + DEGREE);
        assert(whole[((row + shift) * cols) + col] == part[row * cols + col]);
    }
}

proof fn lemma_hint_sum_splits(
    p1: Seq<Seq<u64>>,
    p2: Seq<Seq<u64>>,
    t1: Seq<u16>,
    t2: Seq<u16>,
    cols: nat,
    col: int,
    i: int,
    n: nat,
)
    requires
        t1.len() == p1.len() * DEGREE * cols,
        t2.len() == p2.len() * DEGREE * cols,
        0 <= col < cols,
        0 <= i < DEGREE,
        n <= p1.len() + p2.len(),
    ensures
        hint_sum(p1 + p2, t1 + t2, cols, col, i, n) == (if n <= p1.len() {
            hint_sum(p1, t1, cols, col, i, n)
        } else {
            hint_sum(p1, t1, cols, col, i, p1.len()) + hint_sum(
                p2,
                t2,
                cols,
                col,
                i,
                (n - p1.len()) as nat,
            )
        }),
    decreases n,
{
    if n > 0 {
        lemma_hint_sum_splits(p1, p2, t1, t2, cols, col, i, (n - 1) as nat);
        let whole = t1 + t2;
        let rows1 = p1.len() * DEGREE;
        let rows2 = p2.len() * DEGREE;
        let base = (n - 1) * DEGREE;
        if n <= p1.len() {
            assert forall|row: int| base <= row < base + DEGREE implies whole[#[trigger] ((row + 0)
                * cols) + col] == t1[row * cols + col] by {
                lemma_place(row, rows1, cols, col);
            }
            lemma_ring_sum_moves(p1[n - 1], whole, t1, cols, base, 0, col, i, DEGREE as nat);
            assert((p1 + p2)[n - 1] == p1[n - 1]);
        } else {
            let inner = (n - 1 - p1.len()) * DEGREE;
            assert forall|row: int| inner <= row < inner + DEGREE implies whole[#[trigger] ((row
                + rows1) * cols) + col] == t2[row * cols + col] by {
                lemma_place(row + rows1, rows1, cols, col);
                lemma_place(row, rows2, cols, col);
            }
            lemma_ring_sum_moves(
                p2[n - 1 - p1.len()],
                whole,
                t2,
                cols,
                inner,
                rows1,
                col,
                i,
                DEGREE as nat,
            );
            let last = n - 1 - p1.len();
            assert((p1 + p2)[n - 1] == p2[last]);
            assert(inner + rows1 == base);
            assert(hint_sum(p2, t2, cols, col, i, (last + 1) as nat) == hint_sum(
                p2,
                t2,
                cols,
                col,
                i,
                last as nat,
            ) + ring_sum(p2[last], t2, cols, last * DEGREE, col, i, DEGREE as nat));
        }
    }
}

/// The hint of a table is the sum of the hints of its parts with their parts
/// of the public polynomials.
pub proof fn law_hints_add(
    p1: Seq<Seq<u64>>,
    p2: Seq<Seq<u64>>,
    t1: Seq<u16>,
    t2: Seq<u16>,
    cols: nat,
)
    requires
        t1.len() == p1.len() * DEGREE * cols,
        t2.len() == p2.len() * DEGREE * cols,
    ensures
        hint_blocks(p1 + p2, t1 + t2, cols) == hints_added(
            hint_blocks(p1, t1, cols),
            hint_blocks(p2, t2, cols),
        ),
{
    let whole = hint_blocks(p1 + p2, t1 + t2, cols);
    let h1 = hint_blocks(p1, t1, cols);
    let h2 = hint_blocks(p2, t2, cols);
    let parts = hints_added(h1, h2);
    assert forall|b: int| 0 <= b < whole.len() implies whole[b] == parts[b] by {
        assert forall|k: int| 0 <= k < DEGREE implies whole[b][k] == parts[b][k] by {
            let col = b * DEGREE + k;
            assert(col < cols) by (nonlinear_arith)
                requires
                    0 <= b < cols / DEGREE as nat,
                    0 <= k < DEGREE,
                    col == b * DEGREE + k,
                    DEGREE == 2048,
            ;
            assert forall|i: int| 0 <= i < DEGREE implies whole[b][k][i] == parts[b][k][i] by {
                lemma_hint_sum_splits(p1, p2, t1, t2, cols, col, i, (p1 + p2).len());
                let x = hint_sum(p1, t1, cols, col, i, p1.len());
                let y = hint_sum(p2, t2, cols, col, i, p2.len());
                assert(p2.len() == 0 ==> y == 0);
                assert(hint_sum(p1 + p2, t1 + t2, cols, col, i, (p1 + p2).len()) == x + y);
                vstd::arithmetic::div_mod::lemma_add_mod_noop(x, y, MODULUS as int);
            }
            assert(whole[b][k] =~= parts[b][k]);
        }
        assert(whole[b] =~= parts[b]);
    }
    assert(whole =~= parts);
}

/// A query with a single value reads that row of the table, times the value.
pub proof fn law_a_single_value_reads_its_row(
    table: Seq<u16>,
    cols: nat,
    query: Seq<u64>,
    row: int,
    col: int,
)
    requires
        0 <= row < query.len(),
        0 <= col < cols,
        forall|i: int| 0 <= i < query.len() && i != row ==> #[trigger] query[i] == 0,
    ensures
        product(table, cols, query).len() == cols,
        product(table, cols, query)[col] == query[row] * table[row * cols + col]
            % 72_057_594_037_641_217,
        query[row] == 1 ==> product(table, cols, query)[col] == table[row * cols + col],
{
    lemma_single_value(table, cols, query, row, col, query.len());
    let value = query[row] as int;
    let entry = table[row * cols + col] as int;
    assert(value * entry >= 0) by (nonlinear_arith)
        requires
            value >= 0,
            entry >= 0,
    ;
    vstd::arithmetic::div_mod::lemma_mod_bound(value * entry, MODULUS as int);
    if value == 1 {
        assert(value * entry == entry) by (nonlinear_arith)
            requires
                value == 1,
        ;
        vstd::arithmetic::div_mod::lemma_small_mod(entry as nat, MODULUS as nat);
    }
}

proof fn lemma_single_value(
    table: Seq<u16>,
    cols: nat,
    query: Seq<u64>,
    row: int,
    col: int,
    n: nat,
)
    requires
        0 <= row < query.len(),
        n <= query.len(),
        forall|i: int| 0 <= i < query.len() && i != row ==> #[trigger] query[i] == 0,
    ensures
        column_sum(table, cols, query, col, n) == if row < n {
            query[row] * table[row * cols + col]
        } else {
            0
        },
    decreases n,
{
    if n > 0 {
        lemma_single_value(table, cols, query, row, col, (n - 1) as nat);
        if n - 1 != row {
            let entry = table[(n - 1) * cols + col] as int;
            assert(query[n - 1] == 0);
            assert(0 * entry == 0);
        }
    }
}

/// Rows and columns are padded to whole polynomials, and to no more of them than
/// it takes.
pub proof fn law_tables_are_padded_to_whole_polynomials(num_items: u64, item_size_bits: u64)
    ensures
        num_items <= padded_rows(num_items) < num_items + 2_048,
        padded_rows(num_items) % 2_048 == 0,
        item_size_bits <= 14 * padded_columns(item_size_bits) < item_size_bits + 14 * 2_048,
        padded_columns(item_size_bits) % 2_048 == 0,
{
    crate::numbers::law_ceilings_are_least(num_items as nat, 2_048);
    crate::numbers::law_ceilings_are_least(item_size_bits as nat, 28_672);
}

/// The number that a key's bits are first not reduced at is the least such number.
pub proof fn law_the_first_unreduced_coefficient_is_named(bytes: Seq<u8>, from: nat)
    requires
        from <= PACKING_KEYS_NUMBERS,
    ensures
        from <= first_unreduced(bytes, from) <= 12_288,
        first_unreduced(bytes, from) < 12_288 ==> bits_value(
            bytes,
            56 * first_unreduced(bytes, from) as int,
            56,
        ) >= 72_057_594_037_641_217,
        forall|i: int|
            from <= i < first_unreduced(bytes, from) ==> #[trigger] bits_value(
                bytes,
                i * MODULUS_BITS,
                MODULUS_BITS as nat,
            ) < 72_057_594_037_641_217,
    decreases PACKING_KEYS_NUMBERS - from,
{
    if from < PACKING_KEYS_NUMBERS && bits_value(
        bytes,
        (from * MODULUS_BITS) as int,
        MODULUS_BITS as nat,
    ) < MODULUS {
        law_the_first_unreduced_coefficient_is_named(bytes, from + 1);
    }
}

/// A number of several bits is made of the ones of its lower and of its higher bits.
pub proof fn law_bits_come_apart(data: Seq<u8>, at: int, low: nat, high: nat)
    ensures
        bits_value(data, at, low + high) == bits_value(data, at, low) + pow2(low) * bits_value(
            data,
            at + low,
            high,
        ),
    decreases high,
{
    if high > 0 {
        let h = (high - 1) as nat;
        law_bits_come_apart(data, at, low, h);
        vstd::arithmetic::power2::lemma_pow2_adds(low, h);
        let bit = bit_at(data, at + low + h) as int;
        let a = pow2(low) as int;
        let b = pow2(h) as int;
        let rest = bits_value(data, at + low, h) as int;
        assert(bit * (a * b) + a * rest == a * (rest + bit * b)) by (nonlinear_arith);
    } else {
        assert(pow2(low) * 0 == 0);
    }
}

/// Eight bits from the start of a byte are the byte.
pub proof fn law_eight_bits_are_a_byte(data: Seq<u8>, i: int)
    requires
        0 <= i < data.len(),
    ensures
        bits_value(data, 8 * i, 8) == data[i],
{
    lemma_low_bits(data, i, 8);
    vstd::arithmetic::power2::lemma2_to64();
}

proof fn lemma_low_bits(data: Seq<u8>, i: int, k: nat)
    requires
        0 <= i < data.len(),
        k <= 8,
    ensures
        bits_value(data, 8 * i, k) == data[i] as int % pow2(k) as int,
    decreases k,
{
    let byte = data[i] as int;
    if k > 0 {
        let low = (k - 1) as nat;
        lemma_low_bits(data, i, low);
        vstd::arithmetic::power2::lemma_pow2_pos(low);
        vstd::arithmetic::power2::lemma_pow2_unfold(k);
        vstd::arithmetic::div_mod::lemma_mod_breakdown(byte, pow2(low) as int, 2);
        assert((8 * i + low) / 8 == i && (8 * i + low) % 8 == low);
        let bit = bit_at(data, 8 * i + low) as int;
        let p = pow2(low) as int;
        assert(bit * p == p * bit) by (nonlinear_arith);
        assert(2 * p == p * 2);
    } else {
        vstd::arithmetic::power2::lemma2_to64();
    }
}

/// A coefficient is rounded to the nearest of the values that its bits can hold, the
/// one above all of them being the lowest again.
pub proof fn law_coefficients_are_rounded_to_the_nearest(coefficient: u64, bits: nat) -> (turns: int)
    requires
        coefficient < MODULUS,
        bits < 56,
    ensures
        0 <= rounded(coefficient, bits) < pow2(bits),
        0 <= turns,
        ({
            let off = coefficient * pow2(bits) - (rounded(coefficient, bits) + turns * pow2(bits))
                * 72_057_594_037_641_217;
            -72_057_594_037_641_217 <= 2 * off <= 72_057_594_037_641_217
        }),
{
    vstd::arithmetic::power2::lemma_pow2_pos(bits);
    let p = pow2(bits) as int;
    let q = MODULUS as int;
    let c = coefficient as int;
    assert(c * p >= 0) by (nonlinear_arith)
        requires
            c >= 0,
            p >= 0,
    ;
    let t = (c * p + q / 2) / q;
    vstd::arithmetic::div_mod::lemma_fundamental_div_mod(c * p + q / 2, q);
    vstd::arithmetic::div_mod::lemma_mod_bound(c * p + q / 2, q);
    vstd::arithmetic::div_mod::lemma_div_pos_is_pos(c * p + q / 2, q);
    let turns = t / p;
    vstd::arithmetic::div_mod::lemma_fundamental_div_mod(t, p);
    vstd::arithmetic::div_mod::lemma_mod_bound(t, p);
    vstd::arithmetic::div_mod::lemma_div_pos_is_pos(t, p);
    assert(p * turns == turns * p) by (nonlinear_arith);
    assert(rounded(coefficient, bits) + turns * p == t);
    turns
}

/// A rounded coefficient stands for the coefficient nearest to it.
pub proof fn law_rounded_coefficients_stand_for_the_nearest(value: int, bits: nat) -> (turns: int)
    requires
        1 <= bits < 56,
        0 <= value < pow2(bits),
    ensures
        turns == 0 || turns == 1,
        ({
            let off = value * 72_057_594_037_641_217 - (lifted(value, bits) + turns
                * 72_057_594_037_641_217) * pow2(bits);
            -(pow2(bits) as int) <= 2 * off <= pow2(bits)
        }),
{
    vstd::arithmetic::power2::lemma_pow2_pos(bits);
    vstd::arithmetic::power2::lemma_pow2_unfold(bits);
    let p = pow2(bits) as int;
    let half = pow2((bits - 1) as nat) as int;
    let q = MODULUS as int;
    let nearest = (value * q + half) / p;
    vstd::arithmetic::div_mod::lemma_fundamental_div_mod(value * q + half, p);
    vstd::arithmetic::div_mod::lemma_mod_bound(value * q + half, p);
    assert(p * nearest == nearest * p) by (nonlinear_arith);
    if nearest >= q {
        1
    } else {
        0
    }
}

/// Queries travel at the least width, from one on, whose power of two squared reaches
/// the padded rows times two to the sixty-eighth, or at that of the modulus.
pub proof fn law_queries_travel_at_the_least_width(rows: nat, width: nat, narrower: nat)
    requires
        width <= narrower < width_from(rows, width),
        width <= MODULUS_BITS,
    ensures
        pow2(2 * narrower) < pow2(68) * rows,
        width_from(rows, width) == 56 || pow2(2 * width_from(rows, width)) >= pow2(68) * rows,
    decreases MODULUS_BITS - width,
{
    if width < MODULUS_BITS && pow2(2 * width) < pow2(68) * rows {
        if narrower > width {
            law_queries_travel_at_the_least_width(rows, width + 1, narrower);
        } else {
            lemma_width_reaches(rows, width + 1);
        }
    }
}

proof fn lemma_width_reaches(rows: nat, width: nat)
    requires
        width <= MODULUS_BITS,
    ensures
        width_from(rows, width) == 56 || pow2(2 * width_from(rows, width)) >= pow2(68) * rows,
    decreases MODULUS_BITS - width,
{
    if width < MODULUS_BITS && pow2(2 * width) < pow2(68) * rows {
        lemma_width_reaches(rows, width + 1);
    }
}

/// A polynomial with a single coefficient turns the rows of a block by so many places,
/// times the coefficient; what passes the end comes back negated.
pub proof fn law_a_single_coefficient_turns_the_rows(
    poly: Seq<u64>,
    table: Seq<u16>,
    cols: nat,
    base: int,
    col: int,
    i: int,
    j: int,
)
    requires
        0 <= i < 2_048,
        0 <= j < 2_048,
        forall|k: int| 0 <= k < 2_048 && k != j ==> #[trigger] poly[k] == 0,
    ensures
        ring_sum(poly, table, cols, base, col, i, 2_048) == if i >= j {
            poly[j] * table[(base + i - j) * cols + col]
        } else {
            -(poly[j] * table[(base + 2_048 + i - j) * cols + col])
        },
{
    lemma_single_coefficient(poly, table, cols, base, col, i, j, 2_048);
}

proof fn lemma_single_coefficient(
    poly: Seq<u64>,
    table: Seq<u16>,
    cols: nat,
    base: int,
    col: int,
    i: int,
    j: int,
    n: nat,
)
    requires
        n <= 2_048,
        0 <= j < 2_048,
        forall|k: int| 0 <= k < 2_048 && k != j ==> #[trigger] poly[k] == 0,
    ensures
        ring_sum(poly, table, cols, base, col, i, n) == if j < n {
            ring_term(poly, table, cols, base, col, i, j)
        } else {
            0
        },
    decreases n,
{
    if n > 0 {
        lemma_single_coefficient(poly, table, cols, base, col, i, j, (n - 1) as nat);
        if n - 1 != j {
            assert(poly[n - 1] == 0);
            let a = table[(base + i - (n - 1)) * cols + col] as int;
            let b = table[(base + DEGREE + i - (n - 1)) * cols + col] as int;
            assert(0 * a == 0 && 0 * b == 0);
        }
    }
}

/// A query with several values is the sum of those with one each.
pub proof fn law_products_add_by_query(
    table: Seq<u16>,
    cols: nat,
    a: Seq<u64>,
    b: Seq<u64>,
    sum: Seq<u64>,
    col: int,
)
    requires
        0 <= col < cols,
        a.len() == b.len() == sum.len(),
        forall|i: int| 0 <= i < sum.len() ==> #[trigger] sum[i] == a[i] + b[i],
    ensures
        product(table, cols, sum)[col] == (product(table, cols, a)[col] + product(table, cols, b)[col])
            % 72_057_594_037_641_217,
{
    lemma_column_sums_add(table, cols, a, b, sum, col, sum.len());
    let x = column_sum(table, cols, a, col, a.len());
    let y = column_sum(table, cols, b, col, b.len());
    vstd::arithmetic::div_mod::lemma_add_mod_noop(x, y, MODULUS as int);
}

proof fn lemma_column_sums_add(
    table: Seq<u16>,
    cols: nat,
    a: Seq<u64>,
    b: Seq<u64>,
    sum: Seq<u64>,
    col: int,
    n: nat,
)
    requires
        a.len() == b.len() == sum.len(),
        n <= sum.len(),
        forall|i: int| 0 <= i < sum.len() ==> #[trigger] sum[i] == a[i] + b[i],
    ensures
        column_sum(table, cols, sum, col, n) == column_sum(table, cols, a, col, n) + column_sum(
            table,
            cols,
            b,
            col,
            n,
        ),
    decreases n,
{
    if n > 0 {
        lemma_column_sums_add(table, cols, a, b, sum, col, (n - 1) as nat);
        let entry = table[(n - 1) * cols + col] as int;
        let x = a[n - 1] as int;
        let y = b[n - 1] as int;
        assert(sum[n - 1] == x + y);
        assert((x + y) * entry == x * entry + y * entry) by (nonlinear_arith);
    }
}

} // verus!
