//! A server of one table: how it reads a database, what it publishes, and how
//! it answers a query.

use inspiring::{QueryPackPreprocessed, TopKeyImages};
use ipir_sp::params::ProductionSimplePirParams;
use ipir_sp::server::YServer;
use vstd::prelude::*;
use vstd::slice::slice_subrange;

use crate::codec::{copy_range, push_bytes};
use crate::engine::{
    answer_online, are_blocks, are_polynomials, bits_value, blocks_seen, check_masks, client_for,
    error_text, hint_blocks, hint_of, is_top_image, keys_admitted, keys_fault, keys_len,
    lemma_bits_value_bound, lemma_width_of, mask_fault, masks_apart, online_response,
    padded_columns, padded_rows, polys_of, prepare_blocks, prepared_numbers, prepared_of,
    profile_for, profile_query_bits, profile_shape, publish_rows, published_rows, read_bits,
    read_keys, rows_seen, seeded_polys, server_for, server_shape, server_table, setup_from_seed,
    shape_accepted, shape_fault, top_images, width_of, DEGREE, PACKING_KEYS_BYTES, PLAINTEXT_BITS,
    PUBLISHED_ROW_BYTES, RESPONSE_BODY_BYTES,
};
use crate::numbers::div_ceil;
use crate::pir_types::{
    epoch_of, public_params_epoch, PirEngine, YpirScenario, IPIR_SETUP_SEED, PIR_EPOCH_BYTES,
};
use crate::text::{decimal, push_decimal};

verus! {

/// Why the engine failed.
#[derive(Debug)]
pub enum IpirError {
    Setup(String),
    Query(String),
}

impl IpirError {
    /// The error in words.
    pub fn message(&self) -> (text: String)
        ensures
            text@ == (match self {
                IpirError::Setup(words) => "IPIR setup failed: "@ + words@,
                IpirError::Query(words) => "IPIR query failed: "@ + words@,
            }),
    {
        match self {
            IpirError::Setup(words) => {
                let mut text = String::from_str("IPIR setup failed: ");
                text.append(words.as_str());
                text
            },
            IpirError::Query(words) => {
                let mut text = String::from_str("IPIR query failed: ");
                text.append(words.as_str());
                text
            },
        }
    }

    /// The error for an engine that panicked, with its words where it had any.
    pub fn from_panic(words: Option<String>) -> (error: IpirError)
        ensures
            error is Query,
            error->Query_0@ == (match words {
                Some(words) => words@,
                None => "unknown panic"@,
            }),
    {
        match words {
            Some(words) => IpirError::Query(words),
            None => IpirError::Query(String::from_str("unknown panic")),
        }
    }
}

/// Parts a query into packing keys and the query itself.
pub fn split_query(query: &[u8], packing_keys_len: usize) -> (parts: Result<
    (&[u8], &[u8]),
    IpirError,
>)
    ensures
        match parts {
            Ok((keys, online)) => {
                &&& packing_keys_len <= query@.len()
                &&& keys@ == query@.take(packing_keys_len as int)
                &&& online@ == query@.skip(packing_keys_len as int)
            },
            Err(error) => {
                &&& query@.len() < packing_keys_len
                &&& error is Query
                &&& error->Query_0@ == "query must include "@ + decimal(packing_keys_len as nat)
                    + " bytes of packing keys, got "@ + decimal(query@.len())
            },
        },
{
    if query.len() < packing_keys_len {
        let mut text = String::from_str("query must include ");
        push_decimal(&mut text, packing_keys_len as u64);
        text.append(" bytes of packing keys, got ");
        push_decimal(&mut text, query.len() as u64);
        return Err(IpirError::Query(text));
    }
    let (keys, online) = query.split_at(packing_keys_len);
    Ok((keys, online))
}

/// What a client frames, a server takes apart again.
pub proof fn law_framed_queries_come_apart(keys: Seq<u8>, online: Seq<u8>)
    ensures
        (keys + online).take(keys.len() as int) == keys,
        (keys + online).skip(keys.len() as int) == online,
{
    assert((keys + online).take(keys.len() as int) =~= keys);
    assert((keys + online).skip(keys.len() as int) =~= online);
}

/// A response with the epoch of the snapshot that it decodes against.
pub fn tag_response(epoch: &[u8; 8], response: &[u8]) -> (tagged: Vec<u8>)
    ensures
        tagged@ == epoch@ + response@,
        tagged@.len() == PIR_EPOCH_BYTES + response@.len(),
{
    let mut tagged: Vec<u8> = Vec::new();
    push_bytes(&mut tagged, epoch.as_slice());
    push_bytes(&mut tagged, response);
    assert(tagged@ =~= epoch@ + response@);
    tagged
}

/// Where a coefficient is read: a row's bytes, and a bit in them from which on
/// the coefficient stands. Bits behind the bytes are zero.
#[derive(Clone, Copy, Debug, PartialEq, Eq, Structural)]
pub struct CoefficientPlace {
    /// First byte of the row, and the one behind it. Both are the same where
    /// the data ends before the row.
    pub start: usize,
    pub end: usize,
    pub bit: usize,
}

/// The order in which the engine reads a database: row by row, with zeros for
/// what a row lacks.
#[derive(Debug)]
pub struct RowPtIter {
    data_len: usize,
    row_bytes: usize,
    db_cols: usize,
    pt_bits: usize,
    pos: usize,
    total: usize,
}

impl RowPtIter {
    pub closed spec fn wf(&self) -> bool {
        &&& self.pos <= self.total
        &&& self.total > 0 ==> self.db_cols > 0
        &&& self.total > 0 ==> ((self.total - 1) / self.db_cols as int) * self.row_bytes
            <= usize::MAX
        &&& self.total > 0 ==> (self.db_cols - 1) * self.pt_bits <= usize::MAX
    }

    pub closed spec fn read(&self) -> nat {
        self.pos as nat
    }

    pub closed spec fn count(&self) -> nat {
        self.total as nat
    }

    /// Where the `n`th coefficient is read.
    pub closed spec fn place(&self, n: int) -> CoefficientPlace {
        let row_start = (n / self.db_cols as int) * self.row_bytes;
        let row_end = if row_start + self.row_bytes <= self.data_len {
            row_start + self.row_bytes
        } else {
            self.data_len as int
        };
        let bit = ((n % self.db_cols as int) * self.pt_bits) as usize;
        if row_start <= row_end {
            CoefficientPlace { start: row_start as usize, end: row_end as usize, bit }
        } else {
            CoefficientPlace { start: 0, end: 0, bit }
        }
    }

    /// Every coefficient of a database whose rows and columns fit the machine,
    /// row by row.
    pub fn new(
        data_len: usize,
        row_bytes: usize,
        db_rows: usize,
        db_cols: usize,
        pt_bits: usize,
    ) -> (rows: RowPtIter)
        requires
            db_rows * db_cols <= usize::MAX,
            db_rows * row_bytes <= usize::MAX,
            db_cols * pt_bits <= usize::MAX,
        ensures
            rows.wf(),
            rows.read() == 0,
            rows.count() == db_rows * db_cols,
            forall|n: int|
                0 <= n < db_rows * db_cols ==> #[trigger] rows.place(n) == coefficient_place(
                    data_len,
                    row_bytes,
                    db_cols,
                    pt_bits,
                    n,
                ),
    {
        let total: usize = db_rows * db_cols;
        let rows = RowPtIter { data_len, row_bytes, db_cols, pt_bits, pos: 0, total };
        proof {
            if total > 0 {
                lemma_last_row(db_rows as int, db_cols as int, row_bytes as int);
                assert((db_cols - 1) * pt_bits <= db_cols * pt_bits) by (nonlinear_arith)
                    requires
                        db_cols >= 0,
                        pt_bits >= 0,
                ;
            }
        }
        rows
    }

    /// Where the next coefficient is read; nothing once all have been.
    pub fn next(&mut self) -> (place: Option<CoefficientPlace>)
        requires
            old(self).wf(),
        ensures
            final(self).wf(),
            final(self).count() == old(self).count(),
            forall|n: int| #[trigger] final(self).place(n) == old(self).place(n),
            old(self).read() < old(self).count() ==> {
                &&& place == Some(old(self).place(old(self).read() as int))
                &&& final(self).read() == old(self).read() + 1
            },
            old(self).read() >= old(self).count() ==> {
                &&& place is None
                &&& final(self).read() == old(self).read()
            },
    {
        if self.pos >= self.total {
            return None;
        }
        let row: usize = self.pos / self.db_cols;
        let col: usize = self.pos % self.db_cols;
        proof {
            lemma_row_before(
                self.pos as int,
                self.total as int,
                self.db_cols as int,
                self.row_bytes as int,
            );
            assert(col * self.pt_bits <= (self.db_cols - 1) * self.pt_bits) by (nonlinear_arith)
                requires
                    col <= self.db_cols - 1,
                    self.pt_bits >= 0,
            ;
        }
        self.pos = self.pos + 1;
        let row_start: usize = row * self.row_bytes;
        let row_end: usize = match row_start.checked_add(self.row_bytes) {
            Some(end) => if end <= self.data_len {
                end
            } else {
                self.data_len
            },
            None => self.data_len,
        };
        let bit: usize = col * self.pt_bits;
        if row_start <= row_end {
            Some(CoefficientPlace { start: row_start, end: row_end, bit })
        } else {
            Some(CoefficientPlace { start: 0, end: 0, bit })
        }
    }
}

/// Where a coefficient stands: in the row that its number names, as far as the
/// data has that row, at the bit that its column names.
pub open spec fn coefficient_place(
    data_len: usize,
    row_bytes: usize,
    db_cols: usize,
    pt_bits: usize,
    n: int,
) -> CoefficientPlace {
    let row_start = (n / db_cols as int) * row_bytes;
    let row_end = if row_start + row_bytes <= data_len {
        row_start + row_bytes
    } else {
        data_len as int
    };
    let bit = ((n % db_cols as int) * pt_bits) as usize;
    if row_start <= row_end {
        CoefficientPlace { start: row_start as usize, end: row_end as usize, bit }
    } else {
        CoefficientPlace { start: 0, end: 0, bit }
    }
}

proof fn lemma_last_row(db_rows: int, db_cols: int, row_bytes: int)
    requires
        db_rows >= 0,
        db_cols >= 0,
        db_rows * db_cols > 0,
        row_bytes >= 0,
    ensures
        db_cols > 0,
        ((db_rows * db_cols - 1) / db_cols) * row_bytes <= db_rows * row_bytes,
{
    assert(db_cols > 0 && db_rows > 0) by (nonlinear_arith)
        requires
            db_rows >= 0,
            db_cols >= 0,
            db_rows * db_cols > 0,
    ;
    let last = (db_rows * db_cols - 1) / db_cols;
    assert(last < db_rows) by (nonlinear_arith)
        requires
            last == (db_rows * db_cols - 1) / db_cols,
            db_cols > 0,
            db_rows > 0,
    ;
    assert(last * row_bytes <= db_rows * row_bytes) by (nonlinear_arith)
        requires
            last < db_rows,
            row_bytes >= 0,
    ;
}

proof fn lemma_row_before(pos: int, total: int, db_cols: int, row_bytes: int)
    requires
        0 <= pos < total,
        db_cols > 0,
        row_bytes >= 0,
    ensures
        0 <= (pos / db_cols) * row_bytes <= ((total - 1) / db_cols) * row_bytes,
{
    vstd::arithmetic::div_mod::lemma_div_is_ordered(pos, total - 1, db_cols);
    let row = pos / db_cols;
    let last = (total - 1) / db_cols;
    assert(0 <= row * row_bytes <= last * row_bytes) by (nonlinear_arith)
        requires
            0 <= row <= last,
            row_bytes >= 0,
    ;
}

/// The number that a database holds at a place of the table.
pub open spec fn number_at(data: Seq<u8>, row_bytes: usize, db_cols: usize, n: int) -> nat {
    let place = coefficient_place(data.len() as usize, row_bytes, db_cols, PLAINTEXT_BITS, n);
    bits_value(
        data.subrange(place.start as int, place.end as int),
        place.bit as int,
        PLAINTEXT_BITS as nat,
    )
}

/// The numbers of a table, row by row.
pub open spec fn table_of(data: Seq<u8>, row_bytes: usize, db_rows: usize, db_cols: usize) -> Seq<
    u16,
> {
    Seq::new(
        (db_rows * db_cols) as nat,
        |n: int| number_at(data, row_bytes, db_cols, n) as u16,
    )
}

proof fn lemma_place_in_data(len: nat, row_bytes: usize, db_rows: usize, db_cols: usize, n: int)
    requires
        len <= usize::MAX,
        0 <= n < db_rows * db_cols,
    ensures
        ({
            let place = coefficient_place(len as usize, row_bytes, db_cols, PLAINTEXT_BITS, n);
            place.start <= place.end <= len
        }),
{
    assert(db_cols > 0) by (nonlinear_arith)
        requires
            0 < db_rows * db_cols,
    ;
    let row = n / db_cols as int;
    assert(row >= 0) by (nonlinear_arith)
        requires
            row == n / db_cols as int,
            n >= 0,
            db_cols > 0,
    ;
    assert(row * row_bytes >= 0) by (nonlinear_arith)
        requires
            row >= 0,
    ;
}

/// Reads the numbers of a table from the bytes of its rows.
pub fn table_numbers(data: &[u8], row_bytes: usize, db_rows: usize, db_cols: usize) -> (numbers:
    Vec<u16>)
    requires
        db_rows * db_cols <= usize::MAX,
        db_rows * row_bytes <= usize::MAX,
        db_cols * PLAINTEXT_BITS <= usize::MAX,
    ensures
        numbers@ == table_of(data@, row_bytes, db_rows, db_cols),
{
    let data_len: usize = data.len();
    let mut rows = RowPtIter::new(data_len, row_bytes, db_rows, db_cols, PLAINTEXT_BITS);
    let ghost table = table_of(data@, row_bytes, db_rows, db_cols);
    let total: usize = db_rows * db_cols;
    let mut numbers: Vec<u16> = Vec::new();
    while numbers.len() < total
        invariant
            rows.wf(),
            data_len == data@.len(),
            rows.count() == total,
            rows.read() == numbers@.len(),
            numbers@.len() <= total,
            total == db_rows * db_cols,
            table == table_of(data@, row_bytes, db_rows, db_cols),
            numbers@ == table.take(numbers@.len() as int),
            forall|n: int|
                0 <= n < total ==> #[trigger] rows.place(n) == coefficient_place(
                    data@.len() as usize,
                    row_bytes,
                    db_cols,
                    PLAINTEXT_BITS,
                    n,
                ),
        decreases total - numbers@.len(),
    {
        let ghost n = numbers@.len() as int;
        assert(rows.place(n) == coefficient_place(
            data@.len() as usize,
            row_bytes,
            db_cols,
            PLAINTEXT_BITS,
            n,
        ));
        let place = match rows.next() {
            Some(place) => place,
            None => {
                assert(false);
                return numbers;
            },
        };
        proof {
            lemma_place_in_data(data@.len(), row_bytes, db_rows, db_cols, n);
        }
        let row = slice_subrange(data, place.start, place.end);
        let value: u64 = read_bits(row, place.bit, PLAINTEXT_BITS);
        proof {
            lemma_bits_value_bound(row@, place.bit as int, PLAINTEXT_BITS as nat);
            vstd::arithmetic::power2::lemma2_to64();
        }
        let number: u16 = value as u16;
        assert(number == table[n]);
        numbers.push(number);
        assert(table.take(n + 1) =~= table.take(n).push(table[n]));
    }
    assert(table.take(total as int) =~= table);
    numbers
}

/// The engine for tables of one shape.
pub struct IpirPirEngine {
    scenario: YpirScenario,
    profile: ProductionSimplePirParams,
    offline_query_polys: Vec<Vec<u64>>,
}

/// One table, ready to answer.
pub struct IpirServerState<'a> {
    engine: &'a IpirPirEngine,
    server: YServer<u16>,
    prepared: Vec<QueryPackPreprocessed<'a>>,
    top_key_images: TopKeyImages<'a>,
    /// What every client of this table needs to decode a response. It stands
    /// beside the table that it belongs to, so that it cannot name another.
    published_c1: Vec<u8>,
    /// Epoch of the published bytes, stamped on every response.
    epoch: [u8; 8],
    /// The hint that the blocks were prepared from.
    hint: Ghost<Seq<Seq<Seq<u64>>>>,
}

impl<'a> IpirServerState<'a> {
    pub closed spec fn shape(&self) -> (u64, u64) {
        server_shape(self.server)
    }

    pub closed spec fn table(&self) -> Seq<u16> {
        server_table(self.server)
    }

    pub closed spec fn hint(&self) -> Seq<Seq<Seq<u64>>> {
        self.hint@
    }

    pub closed spec fn published(&self) -> Seq<u8> {
        self.published_c1@
    }

    pub closed spec fn stamp(&self) -> Seq<u8> {
        self.epoch@
    }

    /// What is published belongs to the table, and the stamp to what is
    /// published.
    #[verifier::type_invariant]
    pub closed spec fn wf(&self) -> bool {
        &&& self.engine.wf()
        &&& server_shape(self.server) == self.engine.shape()
        &&& is_top_image(self.top_key_images)
        &&& prepared_numbers(self.prepared@) == prepared_of(self.hint@)
        &&& self.hint@.len() == self.prepared@.len()
        &&& self.published_c1@.len() == self.prepared@.len() * PUBLISHED_ROW_BYTES
        &&& self.published_c1@ == published_rows(self.hint@)
        &&& self.epoch@ == epoch_of(self.published_c1@)
    }

    /// A state publishes its own hint and stamps its own epoch.
    pub proof fn law_epoch_names_what_is_published(&self)
        requires
            self.wf(),
        ensures
            self.published() == published_rows(self.hint()),
            self.stamp() == epoch_of(self.published()),
            self.published().len() == self.hint().len() * PUBLISHED_ROW_BYTES,
    {
    }
}

/// What a query comes to over a table and its hint: the bodies of the response,
/// or the words in which it is refused.
pub open spec fn answer_to(
    table: Seq<u16>,
    shape: (u64, u64),
    bits: nat,
    hint: Seq<Seq<Seq<u64>>>,
    query: Seq<u8>,
) -> Result<Seq<u8>, Seq<char>> {
    let keys = query.take(PACKING_KEYS_BYTES as int);
    if query.len() < PACKING_KEYS_BYTES {
        Err(
            "query must include "@ + decimal(PACKING_KEYS_BYTES as nat)
                + " bytes of packing keys, got "@ + decimal(query.len()),
        )
    } else if !keys_admitted(keys) {
        Err(keys_fault(keys))
    } else {
        online_response(table, shape, bits, hint, keys, query.skip(PACKING_KEYS_BYTES as int))
    }
}

/// Whether this is what preparing a table from the bytes of its rows comes to.
pub open spec fn prepares(
    shape: (u64, u64),
    polys: Seq<Seq<u64>>,
    bytes: Seq<u8>,
    row_bytes: usize,
    state: Result<IpirServerState<'_>, IpirError>,
) -> bool {
    let rows = padded_rows(shape.0) as usize;
    let columns = padded_columns(shape.1) as usize;
    let table = table_of(bytes, row_bytes, rows, columns);
    match state {
        Ok(state) => {
            &&& masks_apart(polys)
            &&& state.wf()
            &&& state.shape() == shape
            &&& state.table() == table
            &&& state.hint() == hint_blocks(polys, table, columns as nat)
        },
        Err(error) => error is Setup && mask_fault(polys) == Some(error->Setup_0@),
    }
}

/// Whether this is what a query over a table comes to: the response, stamped with
/// the epoch of what the table publishes, or the words in which it is refused.
pub open spec fn answers(
    state: IpirServerState<'_>,
    query: Seq<u8>,
    response: Result<Vec<u8>, IpirError>,
) -> bool {
    let answer = answer_to(
        state.table(),
        state.shape(),
        width_of(state.shape().0),
        state.hint(),
        query,
    );
    match response {
        Ok(response) => {
            &&& answer is Ok
            &&& response@ == state.stamp() + answer->Ok_0
            &&& response@.len() == PIR_EPOCH_BYTES + state.hint().len() * RESPONSE_BODY_BYTES
        },
        Err(error) => {
            &&& error is Query
            &&& answer == Err::<Seq<u8>, Seq<char>>(error->Query_0@)
        },
    }
}

impl IpirPirEngine {
    pub closed spec fn shape(&self) -> (u64, u64) {
        (self.scenario.num_items, self.scenario.item_size_bits)
    }

    pub closed spec fn query_width(&self) -> nat {
        profile_query_bits(self.profile)
    }

    pub closed spec fn polynomials(&self) -> Seq<Seq<u64>> {
        rows_seen(self.offline_query_polys@)
    }

    #[verifier::type_invariant]
    pub closed spec fn wf(&self) -> bool {
        &&& profile_shape(self.profile) == self.shape()
        &&& shape_accepted(self.scenario.num_items, self.scenario.item_size_bits)
        &&& self.offline_query_polys@.len() * DEGREE == padded_rows(self.scenario.num_items)
        &&& are_polynomials(self.polynomials())
    }

    /// An engine for tables of a shape, with the public setup that clients and
    /// servers share.
    pub fn new(scenario: YpirScenario) -> (engine: Result<IpirPirEngine, IpirError>)
        ensures
            match engine {
                Ok(engine) => {
                    &&& engine.wf()
                    &&& shape_accepted(scenario.num_items, scenario.item_size_bits)
                    &&& engine.shape() == (scenario.num_items, scenario.item_size_bits)
                    &&& engine.query_width() == width_of(scenario.num_items)
                    &&& engine.polynomials() == seeded_polys(
                        padded_rows(scenario.num_items),
                        IPIR_SETUP_SEED@,
                    )
                },
                Err(error) => {
                    &&& !shape_accepted(scenario.num_items, scenario.item_size_bits)
                    &&& error is Setup
                    &&& error->Setup_0@ == shape_fault(scenario.num_items, scenario.item_size_bits)
                },
            },
    {
        let profile = match profile_for(scenario.num_items, scenario.item_size_bits) {
            Ok(profile) => profile,
            Err(error) => {
                return Err(IpirError::Setup(error_text(&error)));
            },
        };
        proof {
            lemma_width_of(scenario.num_items);
        }
        let client = client_for(&profile);
        let setup = setup_from_seed(&client, &IPIR_SETUP_SEED);
        let offline_query_polys = polys_of(&setup);
        assert(rows_seen(offline_query_polys@).len() == offline_query_polys@.len());
        Ok(IpirPirEngine { scenario, profile, offline_query_polys })
    }

    /// The public polynomials.
    pub fn offline_query_polys(&self) -> (polys: &Vec<Vec<u64>>)
        ensures
            rows_seen(polys@) == self.polynomials(),
    {
        &self.offline_query_polys
    }

    fn rows(&self) -> (rows: usize)
        requires
            self.wf(),
        ensures
            rows == padded_rows(self.shape().0),
            rows * padded_columns(self.shape().1) <= usize::MAX,
            padded_columns(self.shape().1) >= DEGREE,
    {
        let blocks: u64 = div_ceil(self.scenario.num_items, DEGREE as u64);
        proof {
            lemma_padding(self.scenario.num_items, self.scenario.item_size_bits);
        }
        (blocks * DEGREE as u64) as usize
    }

    fn columns(&self) -> (columns: usize)
        requires
            self.wf(),
        ensures
            columns == padded_columns(self.shape().1),
    {
        let blocks: u64 = div_ceil(
            self.scenario.item_size_bits,
            (DEGREE * PLAINTEXT_BITS) as u64,
        );
        proof {
            lemma_padding(self.scenario.num_items, self.scenario.item_size_bits);
        }
        (blocks * DEGREE as u64) as usize
    }

    /// Prepares a table from the bytes of its rows. The machine can count the
    /// bytes of all rows and the bits of one.
    pub fn setup<'a>(&'a self, db_bytes: &[u8], row_bytes: usize) -> (state: Result<
        IpirServerState<'a>,
        IpirError,
    >)
        requires
            padded_rows(self.shape().0) * row_bytes <= usize::MAX,
            padded_columns(self.shape().1) * PLAINTEXT_BITS <= usize::MAX,
        ensures
            prepares(self.shape(), self.polynomials(), db_bytes@, row_bytes, state),
    {
        proof {
            use_type_invariant(self);
        }
        let rows: usize = self.rows();
        let columns: usize = self.columns();
        let numbers = table_numbers(db_bytes, row_bytes, rows, columns);
        let server = server_for(&self.profile, numbers);
        match check_masks(&self.profile, &self.offline_query_polys) {
            Ok(()) => {},
            Err(error) => {
                return Err(IpirError::Setup(error_text(&error)));
            },
        }
        let blocks = hint_of(&server, &self.profile, &self.offline_query_polys);
        assert(are_blocks(blocks_seen(blocks@)));
        let prepared = match prepare_blocks(&self.profile, &blocks) {
            Ok(prepared) => prepared,
            Err(error) => {
                return Err(IpirError::Setup(error_text(&error)));
            },
        };
        let top_key_images = top_images(&self.profile);
        let published_c1 = publish_rows(&prepared);
        let epoch = public_params_epoch(published_c1.as_slice());
        Ok(
            IpirServerState {
                engine: self,
                server,
                prepared,
                top_key_images,
                published_c1,
                epoch,
                hint: Ghost(blocks_seen(blocks@)),
            },
        )
    }

    /// Answers a query: packing keys, then the query itself. The response is
    /// stamped with the epoch of the published bytes that it decodes with.
    pub fn answer_query<'a>(&self, state: &'a IpirServerState<'a>, query_bytes: &[u8]) -> (
    response: Result<Vec<u8>, IpirError>)
        ensures
            answers(*state, query_bytes@, response),
    {
        proof {
            use_type_invariant(state);
        }
        let (key_part, online_query) = match split_query(query_bytes, keys_len(&state.engine.profile)) {
            Ok(parts) => parts,
            Err(error) => {
                return Err(error);
            },
        };
        let keys = match read_keys(&state.engine.profile, key_part) {
            Ok(keys) => keys,
            Err(error) => {
                return Err(IpirError::Query(error_text(&error)));
            },
        };
        match answer_online(
            &state.server,
            &state.engine.profile,
            online_query,
            &keys,
            &state.top_key_images,
            &state.prepared,
        ) {
            Ok(body) => Ok(tag_response(&state.epoch, body.as_slice())),
            Err(error) => Err(IpirError::Query(error_text(&error))),
        }
    }

    /// What every client of a table needs to decode a response.
    pub fn public_params(&self, state: &IpirServerState<'_>) -> (params: Vec<u8>)
        ensures
            params@ == state.published(),
    {
        let all = state.published_c1.as_slice();
        let params = copy_range(all, 0, all.len());
        assert(params@ =~= state.published_c1@);
        params
    }
}

/// An engine, and the bytes of one row of the snapshots that its tables are read
/// from.
pub struct IpirTables<'a> {
    engine: &'a IpirPirEngine,
    row_bytes: usize,
}

impl<'a> IpirTables<'a> {
    pub closed spec fn shape(&self) -> (u64, u64) {
        self.engine.shape()
    }

    pub closed spec fn polynomials(&self) -> Seq<Seq<u64>> {
        self.engine.polynomials()
    }

    pub closed spec fn width(&self) -> usize {
        self.row_bytes
    }

    #[verifier::type_invariant]
    pub closed spec fn wf(&self) -> bool {
        &&& self.engine.wf()
        &&& padded_rows(self.engine.shape().0) * self.row_bytes <= usize::MAX
        &&& padded_columns(self.engine.shape().1) * PLAINTEXT_BITS <= usize::MAX
    }

    /// Tables of an engine whose snapshots have rows of so many bytes. Nothing
    /// where the machine cannot count the bytes of all rows, or the bits of one.
    pub fn new(engine: &'a IpirPirEngine, row_bytes: usize) -> (tables: Option<IpirTables<'a>>)
        ensures
            ({
                let countable = padded_rows(engine.shape().0) * row_bytes <= usize::MAX
                    && padded_columns(engine.shape().1) * PLAINTEXT_BITS <= usize::MAX;
                match tables {
                    Some(tables) => {
                        &&& countable
                        &&& tables.wf()
                        &&& tables.shape() == engine.shape()
                        &&& tables.polynomials() == engine.polynomials()
                        &&& tables.width() == row_bytes
                    },
                    None => !countable,
                }
            }),
    {
        proof {
            use_type_invariant(engine);
        }
        let rows: usize = engine.rows();
        let columns: usize = engine.columns();
        if rows.checked_mul(row_bytes).is_none() || columns.checked_mul(PLAINTEXT_BITS).is_none() {
            return None;
        }
        Some(IpirTables { engine, row_bytes })
    }
}

impl<'a> PirEngine for IpirTables<'a> {
    type ServerState = IpirServerState<'a>;

    type Error = IpirError;

    /// Prepares a table from the bytes of its rows.
    fn setup(&self, db_bytes: &[u8], _scenario: &YpirScenario) -> (state: Result<
        IpirServerState<'a>,
        IpirError,
    >)
        ensures
            prepares(
                self.shape(),
                self.polynomials(),
                db_bytes@,
                self.width(),
                state,
            ),
    {
        proof {
            use_type_invariant(self);
        }
        self.engine.setup(db_bytes, self.row_bytes)
    }

    /// Answers a query over a table.
    fn answer_query(&self, state: &IpirServerState<'a>, query_bytes: &[u8]) -> (response: Result<
        Vec<u8>,
        IpirError,
    >)
        ensures
            answers(*state, query_bytes@, response),
    {
        self.engine.answer_query(state, query_bytes)
    }

    /// What every client of a table needs to decode a response.
    fn public_params(&self, state: &IpirServerState<'a>) -> (params: Vec<u8>)
        ensures
            params@ == state.published(),
    {
        self.engine.public_params(state)
    }
}

pub proof fn lemma_padding(num_items: u64, item_size_bits: u64)
    requires
        shape_accepted(num_items, item_size_bits),
    ensures
        padded_rows(num_items) <= usize::MAX,
        padded_rows(num_items) <= u64::MAX,
        padded_columns(item_size_bits) <= usize::MAX,
        padded_columns(item_size_bits) <= u64::MAX,
        padded_columns(item_size_bits) >= DEGREE,
        padded_rows(num_items) >= DEGREE,
{
    let rows = padded_rows(num_items);
    let columns = padded_columns(item_size_bits);
    assert(rows >= DEGREE);
    assert((DEGREE * PLAINTEXT_BITS) as nat == 28_672);
    assert(crate::numbers::ceil_div(item_size_bits as nat, 28_672) >= 1);
    assert(columns >= DEGREE);
    assert(rows <= rows * columns) by (nonlinear_arith)
        requires
            columns >= 1,
    ;
    assert(columns <= rows * columns) by (nonlinear_arith)
        requires
            rows >= 1,
    ;
}

/// A table's numbers are fourteen bits each, a row of them in every row of bytes.
pub proof fn law_numbers_are_fourteen_bits_of_their_row(
    data: Seq<u8>,
    row_bytes: usize,
    db_cols: usize,
    row: int,
    col: int,
)
    requires
        0 <= col < db_cols,
        0 <= row,
        (row + 1) * row_bytes <= data.len() <= usize::MAX,
        14 * col + 14 <= 8 * row_bytes,
        14 * col <= usize::MAX,
    ensures
        number_at(data, row_bytes, db_cols, row * db_cols + col) == bits_value(
            data.subrange(row * row_bytes, (row + 1) * row_bytes),
            14 * col,
            14,
        ),
{
    let n = row * db_cols + col;
    vstd::arithmetic::div_mod::lemma_fundamental_div_mod_converse(n, db_cols as int, row, col);
    assert((row + 1) * row_bytes == row * row_bytes + row_bytes) by (nonlinear_arith);
    assert(0 <= row * row_bytes) by (nonlinear_arith)
        requires
            row >= 0,
            row_bytes >= 0,
    ;
}

} // verus!
