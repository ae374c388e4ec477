//! A client of a witness server: which replies it accepts, what it asks for
//! next, and what it says when it stops.

use ipir_sp::{ClientSeed, IPIRClient, PublicQuerySetup};
use vstd::prelude::*;

use crate::codec::push_bytes;
use crate::digest::{hex_encode, hex_text};
use crate::engine::{
    arriving, asks_for, client_for, client_shape, decode_response, decoded_row, error_text,
    fresh_query, hint_blocks, is_switched, keys_admitted, law_queries_arrive_rounded,
    lemma_width_of, online_response, padded_columns, padded_rows, profile_for, query_bits,
    query_bytes, recover_rows, recovered_rows, rows_seen, seed_bytes, seeded_polys, setup_from_seed,
    setup_polys, shape_accepted, shape_fault, switched_len, switched_query, width_of, write_keys,
    DEGREE, MODULUS_BITS, PACKING_KEYS_BYTES, PUBLISHED_ROW_BYTES, RESPONSE_BODY_BYTES,
};
use crate::pir_types::{YpirScenario, IPIR_SETUP_SEED, POOL};
use crate::text::{decimal, push_decimal, same_text, trim_end_of, trimmed_end};

verus! {

/// Why the client stopped.
#[derive(Debug)]
pub enum WitnessClientError {
    /// A request failed, in the words of the transport.
    Http(String),
    ServerUnavailable,
    InvalidParams(String),
    QueryFailed(String),
    /// The position, and the first shard of the window and the one behind it.
    PositionOutsideWindow(u64, u32, u32),
    VerificationFailed(u64),
    PoolMismatch { expected: &'static str, actual: String },
}

impl WitnessClientError {
    pub open spec fn words(&self) -> Seq<char> {
        match self {
            WitnessClientError::Http(text) => "HTTP error: "@ + text@,
            WitnessClientError::ServerUnavailable => "server unavailable (503)"@,
            WitnessClientError::InvalidParams(text) => "invalid params from server: "@ + text@,
            WitnessClientError::QueryFailed(text) => "query failed: "@ + text@,
            WitnessClientError::PositionOutsideWindow(position, start, end) => "position "@
                + decimal(*position as nat) + " is outside the server's PIR window (shards "@
                + decimal(*start as nat) + ".."@ + decimal(*end as nat) + ")"@,
            WitnessClientError::VerificationFailed(position) =>
                "witness verification failed for position "@ + decimal(*position as nat)
                + ": computed root does not match anchor"@,
            WitnessClientError::PoolMismatch { expected, actual } => "server serves the "@ + actual@
                + " pool, but this client requires "@ + expected@
                + "; point it at an Ironwood witness-server"@,
        }
    }

    /// The error in words.
    pub fn message(&self) -> (text: String)
        ensures
            text@ == self.words(),
    {
        match self {
            WitnessClientError::Http(words) => {
                let mut text = String::from_str("HTTP error: ");
                text.append(words.as_str());
                text
            },
            WitnessClientError::ServerUnavailable => String::from_str("server unavailable (503)"),
            WitnessClientError::InvalidParams(words) => {
                let mut text = String::from_str("invalid params from server: ");
                text.append(words.as_str());
                text
            },
            WitnessClientError::QueryFailed(words) => {
                let mut text = String::from_str("query failed: ");
                text.append(words.as_str());
                text
            },
            WitnessClientError::PositionOutsideWindow(position, start, end) => {
                let mut text = String::from_str("position ");
                push_decimal(&mut text, *position);
                text.append(" is outside the server's PIR window (shards ");
                push_decimal(&mut text, *start as u64);
                text.append("..");
                push_decimal(&mut text, *end as u64);
                text.append(")");
                text
            },
            WitnessClientError::VerificationFailed(position) => {
                let mut text = String::from_str("witness verification failed for position ");
                push_decimal(&mut text, *position);
                text.append(": computed root does not match anchor");
                text
            },
            WitnessClientError::PoolMismatch { expected, actual } => {
                let mut text = String::from_str("server serves the ");
                text.append(actual.as_str());
                text.append(" pool, but this client requires ");
                text.append(expected);
                text.append("; point it at an Ironwood witness-server");
                text
            },
        }
    }
}

/// What the client asks a server for.
#[derive(Clone, Copy, Debug, PartialEq, Eq, Structural)]
pub enum Route {
    Params,
    Metadata,
    Broadcast,
    Query,
}

impl Route {
    pub open spec fn path_text(self) -> Seq<char> {
        match self {
            Route::Params => "/params"@,
            Route::Metadata => "/metadata"@,
            Route::Broadcast => "/broadcast"@,
            Route::Query => "/query"@,
        }
    }

    /// Address of the route under a server's address.
    pub fn url(&self, base_url: &str) -> (url: String)
        ensures
            url@ == base_url@ + self.path_text(),
    {
        let mut url = String::from_str(base_url);
        url.append(
            match self {
                Route::Params => "/params",
                Route::Metadata => "/metadata",
                Route::Broadcast => "/broadcast",
                Route::Query => "/query",
            },
        );
        url
    }
}

/// What came of a request.
#[derive(Debug)]
pub enum Reply<T> {
    /// There was no answer.
    Lost(String),
    /// An answer: its status, the transport's words for it where it is an
    /// error, and what the body holds, or why it could not be read.
    Arrived { status: u16, status_words: String, body: Result<T, String> },
}

/// The status of a server that is still starting.
pub const STATUS_UNAVAILABLE: u16 = 503;

/// Whether a status says that the request failed.
pub open spec fn is_error_status(status: u16) -> bool {
    400 <= status < 600
}

/// Whether this is what a client makes of a reply. Only the parameters are
/// asked for without regard to a server that is still starting, and only a
/// query has an error of its own.
pub open spec fn judged<T>(
    reply: Reply<T>,
    route: Route,
    outcome: Result<T, WitnessClientError>,
) -> bool {
    match reply {
        Reply::Lost(words) => outcome == Err::<T, WitnessClientError>(
            WitnessClientError::Http(words),
        ),
        Reply::Arrived { status, status_words, body } => if status == STATUS_UNAVAILABLE && route
            != Route::Params {
            outcome == Err::<T, WitnessClientError>(WitnessClientError::ServerUnavailable)
        } else if is_error_status(status) {
            outcome == Err::<T, WitnessClientError>(
                if route == Route::Query {
                    WitnessClientError::QueryFailed(status_words)
                } else {
                    WitnessClientError::Http(status_words)
                },
            )
        } else {
            match body {
                Ok(value) => outcome == Ok::<T, WitnessClientError>(value),
                Err(words) => outcome == Err::<T, WitnessClientError>(
                    WitnessClientError::Http(words),
                ),
            }
        },
    }
}

/// What a client makes of a reply.
pub fn accept_reply<T>(reply: Reply<T>, route: Route) -> (outcome: Result<T, WitnessClientError>)
    ensures
        judged(reply, route, outcome),
{
    match reply {
        Reply::Lost(words) => Err(WitnessClientError::Http(words)),
        Reply::Arrived { status, status_words, body } => {
            if status == STATUS_UNAVAILABLE && route != Route::Params {
                Err(WitnessClientError::ServerUnavailable)
            } else if 400 <= status && status < 600 {
                if route == Route::Query {
                    Err(WitnessClientError::QueryFailed(status_words))
                } else {
                    Err(WitnessClientError::Http(status_words))
                }
            } else {
                match body {
                    Ok(value) => Ok(value),
                    Err(words) => Err(WitnessClientError::Http(words)),
                }
            }
        },
    }
}

/// A server that is still starting is told apart from one that fails, whatever
/// its answer holds, on every route but that of the parameters.
pub proof fn law_a_starting_server_is_told_apart<T>(
    reply: Reply<T>,
    route: Route,
    outcome: Result<T, WitnessClientError>,
)
    requires
        judged(reply, route, outcome),
        route != Route::Params,
    ensures
        outcome == Err::<T, WitnessClientError>(WitnessClientError::ServerUnavailable) <==> (
        reply is Arrived && reply->status == STATUS_UNAVAILABLE),
{
}

/// What a server publishes about its tree, as far as the client decides by it.
#[derive(Clone, Copy, Debug, PartialEq, Eq, Structural)]
pub struct BroadcastData {
    pub anchor_height: u64,
    pub window_start_shard: u32,
    pub window_shard_count: u32,
}

impl BroadcastData {
    /// The shard behind the window.
    pub open spec fn window_end(&self) -> int {
        self.window_start_shard + self.window_shard_count
    }
}

/// The pool of a server that does not name one.
pub const LEGACY_POOL: &'static str = "orchard";

/// The pool that a server serves.
pub open spec fn served_pool(named: Option<String>) -> Seq<char> {
    match named {
        Some(name) => name@,
        None => LEGACY_POOL@,
    }
}

/// Takes no server of another pool: its paths belong to a different tree.
pub fn check_pool(named: Option<String>) -> (checked: Result<(), WitnessClientError>)
    ensures
        match checked {
            Ok(()) => served_pool(named) == POOL@,
            Err(WitnessClientError::PoolMismatch { expected, actual }) => {
                &&& served_pool(named) != POOL@
                &&& expected@ == POOL@
                &&& actual@ == served_pool(named)
            },
            Err(_) => false,
        },
{
    let pool = match named {
        Some(name) => name,
        None => String::from_str(LEGACY_POOL),
    };
    if same_text(pool.as_str(), POOL) {
        Ok(())
    } else {
        Err(WitnessClientError::PoolMismatch { expected: POOL, actual: pool })
    }
}

/// A connection whose parameters are still to come.
#[derive(Debug)]
pub struct AwaitingParams {
    pub base_url: String,
}

/// A connection whose server has still to name its pool.
#[derive(Debug)]
pub struct AwaitingMetadata {
    pub base_url: String,
    pub scenario: YpirScenario,
}

/// A connection whose tree is still to come.
#[derive(Debug)]
pub struct AwaitingBroadcast {
    pub base_url: String,
    pub scenario: YpirScenario,
}

/// A connection whose engine is still to be set up.
#[derive(Debug)]
pub struct AwaitingEngine {
    pub base_url: String,
    pub scenario: YpirScenario,
    pub broadcast: BroadcastData,
}

/// Begins a connection: the parameters are asked for first.
pub fn begin_connect(url: &str) -> (state: AwaitingParams)
    ensures
        state.base_url@ == trimmed_end(url@, '/'),
{
    AwaitingParams { base_url: trim_end_of(url, '/') }
}

impl AwaitingParams {
    /// Goes on to the metadata.
    pub fn resume(self, reply: Reply<YpirScenario>) -> (next: Result<
        AwaitingMetadata,
        WitnessClientError,
    >)
        ensures
            match next {
                Ok(state) => {
                    &&& judged(reply, Route::Params, Ok(state.scenario))
                    &&& state.base_url == self.base_url
                },
                Err(error) => judged(reply, Route::Params, Err(error)),
            },
    {
        match accept_reply(reply, Route::Params) {
            Ok(scenario) => Ok(AwaitingMetadata { base_url: self.base_url, scenario }),
            Err(error) => Err(error),
        }
    }
}

impl AwaitingMetadata {
    /// Goes on to the tree, where the server serves the pool. What arrives
    /// is the pool that the server names.
    pub fn resume(self, reply: Reply<Option<String>>) -> (next: Result<
        AwaitingBroadcast,
        WitnessClientError,
    >)
        ensures
            match next {
                Ok(state) => {
                    &&& exists|named: Option<String>|
                        #[trigger] judged(reply, Route::Metadata, Ok(named)) && served_pool(named)
                            == POOL@
                    &&& state.base_url == self.base_url
                    &&& state.scenario == self.scenario
                },
                Err(error) => {
                    ||| judged(reply, Route::Metadata, Err(error))
                    ||| exists|named: Option<String>| #[trigger]
                        judged(reply, Route::Metadata, Ok(named)) && served_pool(named) != POOL@
                            && error is PoolMismatch && error->expected@ == POOL@ && error->actual@
                            == served_pool(named)
                },
            },
    {
        let named = match accept_reply(reply, Route::Metadata) {
            Ok(named) => named,
            Err(error) => {
                return Err(error);
            },
        };
        let ghost name = named;
        assert(judged(reply, Route::Metadata, Ok(name)));
        match check_pool(named) {
            Ok(()) => Ok(AwaitingBroadcast { base_url: self.base_url, scenario: self.scenario }),
            Err(error) => Err(error),
        }
    }
}

impl AwaitingBroadcast {
    /// Goes on to the engine.
    pub fn resume(self, reply: Reply<BroadcastData>) -> (next: Result<
        AwaitingEngine,
        WitnessClientError,
    >)
        ensures
            match next {
                Ok(state) => {
                    &&& judged(reply, Route::Broadcast, Ok(state.broadcast))
                    &&& state.base_url == self.base_url
                    &&& state.scenario == self.scenario
                },
                Err(error) => judged(reply, Route::Broadcast, Err(error)),
            },
    {
        match accept_reply(reply, Route::Broadcast) {
            Ok(broadcast) => Ok(
                AwaitingEngine { base_url: self.base_url, scenario: self.scenario, broadcast },
            ),
            Err(error) => Err(error),
        }
    }
}

impl AwaitingEngine {
    /// Ends the connection with an engine for the server's parameters, where
    /// there is one.
    pub fn resume(self) -> (client: Result<WitnessClient, WitnessClientError>)
        ensures
            match client {
                Ok(client) => {
                    &&& shape_accepted(self.scenario.num_items, self.scenario.item_size_bits)
                    &&& client.base_url == self.base_url
                    &&& client.broadcast == self.broadcast
                    &&& client.engine.wf()
                    &&& client.engine.shape() == (
                        self.scenario.num_items,
                        self.scenario.item_size_bits,
                    )
                },
                Err(error) => {
                    &&& error is InvalidParams
                    &&& !shape_accepted(self.scenario.num_items, self.scenario.item_size_bits)
                },
            },
    {
        match IpirClientState::new(&self.scenario) {
            Ok(engine) => Ok(
                WitnessClient { base_url: self.base_url, engine, broadcast: self.broadcast },
            ),
            Err(error) => Err(error),
        }
    }
}

/// Whether a body asks for a row under a seed: packing keys, then a coefficient
/// for each row, rounded to so many bits. A server that reads it has what the
/// rounded coefficients stand for.
pub open spec fn body_asks_for(
    body: Seq<u8>,
    seed: Seq<u8>,
    polys: Seq<Seq<u64>>,
    rows: nat,
    bits: nat,
    row: nat,
) -> bool {
    exists|values: Seq<u64>, keys: Seq<u8>|
        {
            &&& #[trigger] asks_for(values, keys, seed, polys, row)
            &&& keys_admitted(keys)
            &&& values.len() == rows
            &&& body.len() == PACKING_KEYS_BYTES + switched_len(rows, bits)
            &&& body.take(PACKING_KEYS_BYTES as int) == keys
            &&& is_switched(body.skip(PACKING_KEYS_BYTES as int), values, bits)
            &&& switched_query(body.skip(PACKING_KEYS_BYTES as int), rows, bits) == arriving(
                values,
                bits,
            )
        }
}

/// A server of a table answers every query that a client draws for a row of it:
/// the body holds packing keys that are admitted and a query of the table's
/// length, and what the table gives with it can be packed.
pub proof fn law_drawn_queries_are_answered(
    body: Seq<u8>,
    seed: Seq<u8>,
    polys: Seq<Seq<u64>>,
    shape: (u64, u64),
    row: nat,
    table: Seq<u16>,
)
    requires
        body_asks_for(body, seed, polys, padded_rows(shape.0), width_of(shape.0), row),
    ensures
        body.len() >= PACKING_KEYS_BYTES,
        keys_admitted(body.take(PACKING_KEYS_BYTES as int)),
        online_response(
            table,
            shape,
            width_of(shape.0),
            hint_blocks(polys, table, padded_columns(shape.1)),
            body.take(PACKING_KEYS_BYTES as int),
            body.skip(PACKING_KEYS_BYTES as int),
        ) is Ok,
{
    let columns = padded_columns(shape.1);
    let blocks = crate::numbers::ceil_div(
        shape.1 as nat,
        (DEGREE * crate::engine::PLAINTEXT_BITS) as nat,
    );
    assert(columns == blocks * DEGREE);
    assert(columns / DEGREE as nat == blocks);
}

/// The client's side of the retrieval engine.
pub struct IpirClientState {
    num_items: u64,
    item_size_bits: u64,
    query_bits: usize,
    client: IPIRClient,
    setup: PublicQuerySetup,
}

impl IpirClientState {
    pub closed spec fn shape(&self) -> (u64, u64) {
        (self.num_items, self.item_size_bits)
    }

    /// Bits at which a query's coefficients travel.
    pub closed spec fn query_width(&self) -> nat {
        self.query_bits as nat
    }

    pub closed spec fn polynomials(&self) -> Seq<Seq<u64>> {
        setup_polys(self.setup)
    }

    pub closed spec fn wf(&self) -> bool {
        &&& client_shape(self.client) == self.shape()
        &&& 1 <= self.query_bits <= MODULUS_BITS
        &&& setup_polys(self.setup).len() * DEGREE == padded_rows(self.num_items)
    }

    /// A client for tables of a shape, with the public setup that clients and
    /// servers share.
    pub fn new(scenario: &YpirScenario) -> (state: Result<IpirClientState, WitnessClientError>)
        ensures
            match state {
                Ok(state) => {
                    &&& state.wf()
                    &&& shape_accepted(scenario.num_items, scenario.item_size_bits)
                    &&& state.shape() == (scenario.num_items, scenario.item_size_bits)
                    &&& state.query_width() == width_of(scenario.num_items)
                    &&& state.polynomials() == seeded_polys(
                        padded_rows(scenario.num_items),
                        IPIR_SETUP_SEED@,
                    )
                },
                Err(error) => {
                    &&& !shape_accepted(scenario.num_items, scenario.item_size_bits)
                    &&& error is InvalidParams
                    &&& error->InvalidParams_0@ == shape_fault(
                        scenario.num_items,
                        scenario.item_size_bits,
                    )
                },
            },
    {
        let profile = match profile_for(scenario.num_items, scenario.item_size_bits) {
            Ok(profile) => profile,
            Err(error) => {
                return Err(WitnessClientError::InvalidParams(error_text(&error)));
            },
        };
        proof {
            lemma_width_of(scenario.num_items);
        }
        let query_bits: usize = query_bits(&profile);
        let client = client_for(&profile);
        let setup = setup_from_seed(&client, &IPIR_SETUP_SEED);
        Ok(
            IpirClientState {
                num_items: scenario.num_items,
                item_size_bits: scenario.item_size_bits,
                query_bits,
                client,
                setup,
            },
        )
    }

    /// Asks for a row: the body of the query, and the seed that its response
    /// is decoded with. A query is drawn anew each time.
    pub fn generate_ipir_query(&self, row: usize) -> (drawn: Result<
        (Vec<u8>, ClientSeed),
        WitnessClientError,
    >)
        requires
            self.wf(),
            row < padded_rows(self.shape().0),
        ensures
            match drawn {
                Ok((body, seed)) => body_asks_for(
                    body@,
                    seed_bytes(seed),
                    self.polynomials(),
                    padded_rows(self.shape().0),
                    self.query_width(),
                    row as nat,
                ),
                Err(_) => false,
            },
    {
        let (query, packing_keys, seed) = fresh_query(&self.client, &self.setup, row);
        let keys = match write_keys(&self.client, &packing_keys) {
            Ok(keys) => keys,
            Err(error) => {
                return Err(WitnessClientError::QueryFailed(error_text(&error)));
            },
        };
        let online = query_bytes(&query, self.query_bits);
        let body = frame_query(keys.as_slice(), online.as_slice());
        proof {
            let values = crate::engine::query_values(query);
            assert(asks_for(values, keys@, seed_bytes(seed), self.polynomials(), row as nat));
            assert(body@.take(PACKING_KEYS_BYTES as int) =~= keys@);
            assert(body@.skip(PACKING_KEYS_BYTES as int) =~= online@);
            law_queries_arrive_rounded(online@, values, self.query_width());
            assert(body_asks_for(
                body@,
                seed_bytes(seed),
                self.polynomials(),
                padded_rows(self.shape().0),
                self.query_width(),
                row as nat,
            ));
        }
        Ok((body, seed))
    }

    /// The row that a response holds, under the seed of its query and what the
    /// server published. Both have the lengths of the table's shape.
    pub fn decode_ipir_response(&self, seed: &ClientSeed, published: &[u8], response: &[u8]) -> (
    row: Vec<u8>)
        requires
            self.wf(),
            published@.len() * DEGREE == padded_columns(self.shape().1) * PUBLISHED_ROW_BYTES,
            response@.len() * DEGREE == padded_columns(self.shape().1) * RESPONSE_BODY_BYTES,
        ensures
            row@ == decoded_row(
                padded_columns(self.shape().1),
                seed_bytes(*seed),
                recovered_rows(published@, padded_columns(self.shape().1) / DEGREE as nat),
                response@,
            ),
    {
        let blocks: usize = published.len() / PUBLISHED_ROW_BYTES;
        proof {
            let count = crate::numbers::ceil_div(
                self.item_size_bits as nat,
                (DEGREE * crate::engine::PLAINTEXT_BITS) as nat,
            );
            assert(padded_columns(self.shape().1) == count * DEGREE);
            assert(published@.len() == count * PUBLISHED_ROW_BYTES);
            assert(blocks == count);
        }
        let rows = recover_rows(published, blocks);
        assert(rows_seen(rows@).len() == rows@.len());
        decode_response(&self.client, seed, &rows, response)
    }
}

/// A connected client.
pub struct WitnessClient {
    pub base_url: String,
    pub engine: IpirClientState,
    pub broadcast: BroadcastData,
}

impl WitnessClient {
    /// Whether the server's window holds the shard of a position. The window
    /// ends within the numbers of shards.
    pub fn locate(&self, position: u64, shard: u32) -> (located: Result<(), WitnessClientError>)
        requires
            self.broadcast.window_end() <= u32::MAX,
        ensures
            located == (if self.broadcast.window_start_shard <= shard
                < self.broadcast.window_end() {
                Ok::<(), WitnessClientError>(())
            } else {
                Err(
                    WitnessClientError::PositionOutsideWindow(
                        position,
                        self.broadcast.window_start_shard,
                        self.broadcast.window_end() as u32,
                    ),
                )
            }),
    {
        let start: u32 = self.broadcast.window_start_shard;
        let end: u32 = start + self.broadcast.window_shard_count;
        if shard < start || shard >= end {
            Err(WitnessClientError::PositionOutsideWindow(position, start, end))
        } else {
            Ok(())
        }
    }

    /// Asks for the row with a position's leaf, where the server's window
    /// holds its shard.
    pub fn witness_query(&self, position: u64, shard: u32, row: usize) -> (drawn: Result<
        (Vec<u8>, ClientSeed),
        WitnessClientError,
    >)
        requires
            self.engine.wf(),
            self.broadcast.window_end() <= u32::MAX,
            row < padded_rows(self.engine.shape().0),
        ensures
            ({
                let inside = self.broadcast.window_start_shard <= shard
                    < self.broadcast.window_end();
                match drawn {
                    Ok((body, seed)) => {
                        &&& inside
                        &&& body_asks_for(
                            body@,
                            seed_bytes(seed),
                            self.engine.polynomials(),
                            padded_rows(self.engine.shape().0),
                            self.engine.query_width(),
                            row as nat,
                        )
                    },
                    Err(error) => {
                        &&& !inside
                        &&& error == WitnessClientError::PositionOutsideWindow(
                            position,
                            self.broadcast.window_start_shard,
                            self.broadcast.window_end() as u32,
                        )
                    },
                }
            }),
    {
        match self.locate(position, shard) {
            Ok(()) => self.engine.generate_ipir_query(row),
            Err(error) => Err(error),
        }
    }

    /// Takes a new tree from the server; keeps the old one where none came.
    pub fn refresh_broadcast(&mut self, reply: Reply<BroadcastData>) -> (done: Result<
        (),
        WitnessClientError,
    >)
        ensures
            final(self).base_url == old(self).base_url,
            final(self).engine == old(self).engine,
            match done {
                Ok(()) => judged(reply, Route::Broadcast, Ok(final(self).broadcast)),
                Err(error) => {
                    &&& judged(reply, Route::Broadcast, Err(error))
                    &&& final(self).broadcast == old(self).broadcast
                },
            },
    {
        match accept_reply(reply, Route::Broadcast) {
            Ok(broadcast) => {
                self.broadcast = broadcast;
                Ok(())
            },
            Err(error) => Err(error),
        }
    }

    pub fn anchor_height(&self) -> (height: u64)
        ensures
            height == self.broadcast.anchor_height,
    {
        self.broadcast.anchor_height
    }

    pub fn broadcast(&self) -> (broadcast: &BroadcastData)
        ensures
            *broadcast == self.broadcast,
    {
        &self.broadcast
    }
}

/// The body of a query: the packing keys, then the query itself.
pub fn frame_query(packing_keys: &[u8], query: &[u8]) -> (body: Vec<u8>)
    ensures
        body@ == packing_keys@ + query@,
{
    let mut body: Vec<u8> = Vec::new();
    push_bytes(&mut body, packing_keys);
    push_bytes(&mut body, query);
    assert(body@ =~= packing_keys@ + query@);
    body
}

/// Witnesses that are fetched one after the other.
#[derive(Debug)]
pub struct WitnessBatch<T> {
    pub positions: Vec<u64>,
    pub results: Vec<T>,
}

impl<T> WitnessBatch<T> {
    pub open spec fn wf(&self) -> bool {
        self.results@.len() <= self.positions@.len()
    }

    pub fn new(positions: Vec<u64>) -> (batch: WitnessBatch<T>)
        ensures
            batch.wf(),
            batch.positions == positions,
            batch.results@ == Seq::<T>::empty(),
    {
        WitnessBatch { positions, results: Vec::new() }
    }

    /// The position whose witness is next; nothing once all have come.
    pub fn next(&self) -> (position: Option<u64>)
        requires
            self.wf(),
        ensures
            position == (if self.results@.len() < self.positions@.len() {
                Some(self.positions@[self.results@.len() as int])
            } else {
                None
            }),
    {
        if self.results.len() < self.positions.len() {
            Some(self.positions[self.results.len()])
        } else {
            None
        }
    }

    /// Takes the witness of the next position, and says how many of how many
    /// have come.
    pub fn store(&mut self, witness: T) -> (progress: (usize, usize))
        requires
            old(self).wf(),
            old(self).results@.len() < old(self).positions@.len(),
        ensures
            final(self).wf(),
            final(self).positions == old(self).positions,
            final(self).results@ == old(self).results@.push(witness),
            progress == (
                final(self).results@.len() as usize,
                final(self).positions@.len() as usize,
            ),
    {
        self.results.push(witness);
        (self.results.len(), self.positions.len())
    }
}

/// The position to ask for: the last one of the tree where none is given.
pub fn chosen_position(position: Option<u64>, tree_size: u64) -> (chosen: u64)
    ensures
        chosen == (match position {
            Some(position) => position,
            None => if tree_size == 0 {
                0
            } else {
                (tree_size - 1) as u64
            },
        }),
{
    match position {
        Some(position) => position,
        None => if tree_size == 0 {
            0
        } else {
            tree_size - 1
        },
    }
}

/// What a server says of itself. The phase is shown as it came.
#[derive(Debug)]
pub struct ServerSummary {
    pub phase: String,
    pub anchor_height: u64,
    pub tree_size: u64,
    pub window_start_shard: u32,
    pub window_shard_count: u32,
    pub populated_shards: u32,
}

impl ServerSummary {
    pub open spec fn window_ends(&self) -> bool {
        self.window_start_shard + self.window_shard_count <= u32::MAX
    }

    /// The window: its first shard and the one behind it.
    pub open spec fn window(&self) -> Seq<char> {
        decimal(self.window_start_shard as nat) + ".."@ + decimal(
            (self.window_start_shard + self.window_shard_count) as nat,
        )
    }

    fn window_text(&self) -> (text: String)
        requires
            self.window_ends(),
        ensures
            text@ == self.window(),
    {
        let mut text = String::from_str("");
        push_decimal(&mut text, self.window_start_shard as u64);
        proof {
            reveal_strlit("");
            assert(text@ =~= decimal(self.window_start_shard as nat));
        }
        text.append("..");
        push_decimal(&mut text, (self.window_start_shard + self.window_shard_count) as u64);
        text
    }

    /// What is printed of the server.
    pub open spec fn report(&self) -> Seq<char> {
        "phase: "@ + self.phase@ + "\nanchor_height: "@ + decimal(self.anchor_height as nat)
            + "\ntree_size: "@ + decimal(self.tree_size as nat) + "\nwindow_shards: "@
            + self.window() + "\npopulated_shards: "@ + decimal(self.populated_shards as nat)
    }

    /// What is printed of the server, one line each.
    pub fn report_text(&self) -> (text: String)
        requires
            self.window_ends(),
        ensures
            text@ == self.report(),
    {
        let mut text = String::from_str("phase: ");
        text.append(self.phase.as_str());
        text.append("\nanchor_height: ");
        push_decimal(&mut text, self.anchor_height);
        text.append("\ntree_size: ");
        push_decimal(&mut text, self.tree_size);
        text.append("\nwindow_shards: ");
        text.append(self.window_text().as_str());
        text.append("\npopulated_shards: ");
        push_decimal(&mut text, self.populated_shards as u64);
        text
    }
}

/// A verified witness, as far as it is printed.
#[derive(Debug)]
pub struct WitnessSummary {
    pub position: u64,
    pub shard: u32,
    pub subshard: u32,
    pub leaf: u32,
    pub anchor_height: u64,
    pub anchor_root: Vec<u8>,
    pub siblings: u64,
}

/// What is printed of a witness.
pub open spec fn witness_report(witness: WitnessSummary, server: ServerSummary) -> Seq<char> {
    "witness verified\nposition: "@ + decimal(witness.position as nat) + "\nshard: "@ + decimal(
        witness.shard as nat,
    ) + "\nsubshard: "@ + decimal(witness.subshard as nat) + "\nleaf: "@ + decimal(
        witness.leaf as nat,
    ) + "\nanchor_height: "@ + decimal(witness.anchor_height as nat) + "\nanchor_root: "@
        + hex_text(witness.anchor_root@) + "\nsiblings: "@ + decimal(witness.siblings as nat)
        + "\nserver_window_shards: "@ + server.window()
}

/// What is printed of a witness, one line each.
pub fn witness_report_text(witness: &WitnessSummary, server: &ServerSummary) -> (text: String)
    requires
        server.window_ends(),
    ensures
        text@ == witness_report(*witness, *server),
{
    let mut text = String::from_str("witness verified\nposition: ");
    push_decimal(&mut text, witness.position);
    text.append("\nshard: ");
    push_decimal(&mut text, witness.shard as u64);
    text.append("\nsubshard: ");
    push_decimal(&mut text, witness.subshard as u64);
    text.append("\nleaf: ");
    push_decimal(&mut text, witness.leaf as u64);
    text.append("\nanchor_height: ");
    push_decimal(&mut text, witness.anchor_height);
    text.append("\nanchor_root: ");
    text.append(hex_encode(witness.anchor_root.as_slice()).as_str());
    text.append("\nsiblings: ");
    push_decimal(&mut text, witness.siblings);
    text.append("\nserver_window_shards: ");
    text.append(server.window_text().as_str());
    text
}

/// A value is taken from a reply exactly where it arrived without an error status and
/// with a body that could be read.
pub proof fn law_only_good_replies_are_taken<T>(
    reply: Reply<T>,
    route: Route,
    outcome: Result<T, WitnessClientError>,
)
    requires
        judged(reply, route, outcome),
    ensures
        outcome is Ok <==> {
            &&& reply is Arrived
            &&& reply->status < 400 || reply->status >= 600
            &&& reply->body is Ok
        },
        outcome is Ok ==> reply->body->Ok_0 == outcome->Ok_0,
        route == Route::Query && reply is Arrived && 400 <= reply->status < 600 && reply->status
            != 503 ==> outcome == Err::<T, WitnessClientError>(
            WitnessClientError::QueryFailed(reply->status_words),
        ),
{
}

} // verus!
