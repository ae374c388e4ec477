//! The arithmetic of a sharded table: what a worker holds of its shards, what
//! a coordinator publishes of them, and how it puts an answer together.

use inspiring::{PackingKeys, QueryPackPreprocessed, TopKeyImages};
use ipir_sp::params::ProductionSimplePirParams;
use ipir_sp::server::YServer;
use vstd::prelude::*;
use vstd::slice::slice_subrange;

use std::sync::Arc;

use crate::codec::{copy_range, le_value};
use crate::engine::{
    add_assign_mod, add_hint, are_blocks, are_polynomials, blocks_seen, check_masks, client_for,
    error_text, hint_blocks, hint_of, hints_added, is_top_image, key_bytes, keys_admitted,
    keys_fault, keys_len, keys_whole, law_hints_add, law_products_add,
    lemma_switched_query_is_reduced, lemma_width_of, mask_fault, masks_apart, multiply,
    online_response, pack_fault, pack_values, packs, padded_columns, padded_rows, polys_of,
    prepare_blocks, prepared_numbers, prepared_of, product, profile_for, profile_query_bits,
    profile_shape, publish_rows, published_rows, query_bits, query_fault, read_keys, read_query,
    reduced, response_bodies, rows_match, rows_seen, same_shape, seeded_polys, server_for,
    server_shape, server_table, setup_from_seed, shape_accepted, shape_fault, sum_mod, switched_len,
    switched_query, top_images, width_of, write_bodies, DEGREE, MODULUS, MODULUS_BITS, NARROW_ROWS,
    PACKING_KEYS_BYTES, PLAINTEXT_BITS, PUBLISHED_ROW_BYTES, RESPONSE_BODY_BYTES,
};
use crate::enhance::activate::{TableShape, TableSnapshot};
use crate::enhance::coordinator::{same_tables, CoordinatorState, GenerationSnapshot};
use crate::enhance::query::{
    admitted, all_asked, all_available, all_owed, covers_all, frame_response, group_shares,
    law_every_published_shard_is_asked_once, lemma_found_generation, ready_names, response_frame,
    shares, slice_query, AdmittedQuery, GroupQuery,
};
use crate::enhance::types::{DatabaseId, DatabaseLayout, TableManifest};
use crate::numbers::div_ceil;
use crate::witness::server::{table_numbers, table_of};

verus! {

/// Parameters for tables or shards of one shape.
pub struct TableEngine {
    rows: u64,
    row_bits: u64,
    profile: ProductionSimplePirParams,
}

impl TableEngine {
    /// Rows, and bits of a row.
    pub closed spec fn shape(&self) -> (u64, u64) {
        (self.rows, self.row_bits)
    }

    /// Bits at which a query's coefficients travel.
    pub closed spec fn query_width(&self) -> nat {
        profile_query_bits(self.profile)
    }

    pub closed spec fn wf(&self) -> bool {
        &&& profile_shape(self.profile) == self.shape()
        &&& shape_accepted(self.rows, self.row_bits)
        &&& 1 <= self.query_width() <= MODULUS_BITS
    }

    /// Parameters for so many rows of a layout.
    pub fn new(rows: u64, layout: &DatabaseLayout) -> (engine: Result<TableEngine, String>)
        requires
            8 * layout.row_size() <= usize::MAX,
        ensures
            match engine {
                Ok(engine) => {
                    &&& engine.wf()
                    &&& engine.shape() == (rows, (8 * layout.row_size()) as u64)
                    &&& engine.query_width() == width_of(rows)
                    &&& rows <= NARROW_ROWS ==> engine.query_width() < MODULUS_BITS
                    &&& shape_accepted(rows, (8 * layout.row_size()) as u64)
                },
                Err(message) => {
                    &&& !shape_accepted(rows, (8 * layout.row_size()) as u64)
                    &&& message@ == shape_fault(rows, (8 * layout.row_size()) as u64)
                },
            },
    {
        let row_bits: u64 = layout.item_size_bits();
        proof {
            lemma_width_of(rows);
        }
        match profile_for(rows, row_bits) {
            Ok(profile) => Ok(TableEngine { rows, row_bits, profile }),
            Err(error) => Err(error_text(&error)),
        }
    }

    fn padded(&self) -> (shape: (usize, usize))
        requires
            self.wf(),
        ensures
            shape.0 == padded_rows(self.shape().0),
            shape.1 == padded_columns(self.shape().1),
            shape.0 * shape.1 <= usize::MAX,
    {
        proof {
            crate::witness::server::lemma_padding(self.rows, self.row_bits);
        }
        let row_blocks: u64 = div_ceil(self.rows, DEGREE as u64);
        let column_blocks: u64 = div_ceil(self.row_bits, (DEGREE * PLAINTEXT_BITS) as u64);
        ((row_blocks * DEGREE as u64) as usize, (column_blocks * DEGREE as u64) as usize)
    }

    /// What a client needs to know of the parameters.
    pub fn table_shape(&self) -> (shape: TableShape)
        requires
            self.wf(),
        ensures
            shape.degree == DEGREE,
            shape.plaintext_modulus == 16_384,
            shape.db_rows == padded_rows(self.shape().0),
            shape.db_cols == padded_columns(self.shape().1),
            shape.query_bits == self.query_width(),
    {
        let (rows, columns) = self.padded();
        TableShape {
            degree: DEGREE as u64,
            plaintext_modulus: 16_384,
            db_rows: rows as u64,
            db_cols: columns as u64,
            query_bits: query_bits(&self.profile) as u64,
        }
    }

    /// The machine can count a table's rows and columns.
    pub proof fn lemma_shape_fits(&self)
        requires
            self.wf(),
        ensures
            padded_rows(self.shape().0) <= usize::MAX,
            padded_columns(self.shape().1) <= usize::MAX,
    {
        crate::witness::server::lemma_padding(self.rows, self.row_bits);
    }

    /// Bytes of packing keys.
    pub fn packing_len(&self) -> (len: usize)
        ensures
            len == PACKING_KEYS_BYTES,
    {
        keys_len(&self.profile)
    }

    /// The public polynomials that a seed stands for, one for each block of
    /// rows.
    pub fn public_setup(&self, seed: &[u8; 32]) -> (polys: Vec<Vec<u64>>)
        requires
            self.wf(),
        ensures
            rows_seen(polys@) == seeded_polys(padded_rows(self.shape().0), seed@),
            polys@.len() * DEGREE == padded_rows(self.shape().0),
            are_polynomials(rows_seen(polys@)),
    {
        let client = client_for(&self.profile);
        let setup = setup_from_seed(&client, seed);
        let polys = polys_of(&setup);
        assert(rows_seen(polys@).len() == polys@.len());
        polys
    }
}

/// One shard, ready to be evaluated.
pub struct ShardRuntime {
    server: YServer<u16>,
    hint: Vec<Vec<Vec<u64>>>,
}

impl ShardRuntime {
    pub closed spec fn shape(&self) -> (u64, u64) {
        server_shape(self.server)
    }

    /// Its numbers, row by row.
    pub closed spec fn table(&self) -> Seq<u16> {
        server_table(self.server)
    }

    /// Its part of the table's hint.
    pub closed spec fn hint_part(&self) -> Seq<Seq<Seq<u64>>> {
        blocks_seen(self.hint@)
    }

    /// Builds a shard from the bytes of its rows and its part of the public
    /// polynomials: one for each of its blocks of rows.
    pub fn build(engine: &TableEngine, row_bytes: usize, rows: &[u8], polys: &Vec<Vec<u64>>) -> (
    runtime: Result<ShardRuntime, String>)
        requires
            engine.wf(),
            padded_rows(engine.shape().0) * row_bytes <= usize::MAX,
            padded_columns(engine.shape().1) * PLAINTEXT_BITS <= usize::MAX,
            polys@.len() * DEGREE == padded_rows(engine.shape().0),
            are_polynomials(rows_seen(polys@)),
        ensures
            ({
                let table = table_of(
                    rows@,
                    row_bytes,
                    padded_rows(engine.shape().0) as usize,
                    padded_columns(engine.shape().1) as usize,
                );
                match runtime {
                    Ok(runtime) => {
                        &&& masks_apart(rows_seen(polys@))
                        &&& runtime.shape() == engine.shape()
                        &&& runtime.table() == table
                        &&& runtime.hint_part() == hint_blocks(
                            rows_seen(polys@),
                            table,
                            padded_columns(engine.shape().1),
                        )
                        &&& are_blocks(runtime.hint_part())
                    },
                    Err(message) => mask_fault(rows_seen(polys@)) == Some(message@),
                }
            }),
    {
        let (row_count, columns) = engine.padded();
        let numbers = table_numbers(rows, row_bytes, row_count, columns);
        let server = server_for(&engine.profile, numbers);
        match check_masks(&engine.profile, polys) {
            Ok(()) => {},
            Err(error) => {
                return Err(error_text(&error));
            },
        }
        let hint = hint_of(&server, &engine.profile, polys);
        assert(are_blocks(blocks_seen(hint@)));
        Ok(ShardRuntime { server, hint })
    }

    /// Its part of the table's hint.
    pub fn hint(&self) -> (hint: &Vec<Vec<Vec<u64>>>)
        ensures
            blocks_seen(hint@) == self.hint_part(),
    {
        &self.hint
    }

    /// The product with its part of a query. A part of another length is
    /// refused.
    pub fn evaluate(&self, engine: &TableEngine, query: &[u64]) -> (values: Result<
        Vec<u64>,
        String,
    >)
        requires
            engine.wf(),
            self.shape() == engine.shape(),
        ensures
            match values {
                Ok(values) => {
                    &&& query@.len() == padded_rows(self.shape().0)
                    &&& values@ == product(self.table(), padded_columns(self.shape().1), query@)
                },
                Err(message) => {
                    &&& query@.len() != padded_rows(self.shape().0)
                    &&& message@ == "shard query has the wrong length"@
                },
            },
    {
        let (rows, _columns) = engine.padded();
        if query.len() != rows {
            return Err(String::from_str("shard query has the wrong length"));
        }
        Ok(multiply(&self.server, &engine.profile, query))
    }
}

/// A list of zeros.
pub open spec fn no_values(columns: nat) -> Seq<u64> {
    Seq::new(columns, |i: int| 0u64)
}

/// Values of the partial results, added up.
pub open spec fn total(columns: nat, partials: Seq<Seq<u64>>) -> Seq<u64> {
    partials.fold_left(
        no_values(columns),
        |sum: Seq<u64>, part: Seq<u64>| sum_mod(sum, part),
    )
}

/// Whether all partial results have a value for each column.
pub open spec fn all_cover(columns: nat, partials: Seq<Seq<u64>>) -> bool {
    forall|i: int| 0 <= i < partials.len() ==> (#[trigger] partials[i]).len() == columns
}

fn zeros(columns: usize) -> (values: Vec<u64>)
    ensures
        values@ == no_values(columns as nat),
{
    let mut values: Vec<u64> = Vec::new();
    while values.len() < columns
        invariant
            values@.len() <= columns,
            forall|k: int| 0 <= k < values@.len() ==> #[trigger] values@[k] == 0,
        decreases columns - values.len(),
    {
        values.push(0);
    }
    assert(values@ =~= no_values(columns as nat));
    values
}

/// Adds up partial results. None at all, or one of another length, is refused.
pub fn combine(columns: usize, partials: &Vec<Vec<u64>>) -> (sum: Result<Vec<u64>, String>)
    ensures
        match sum {
            Ok(sum) => {
                &&& partials@.len() > 0
                &&& all_cover(columns as nat, rows_seen(partials@))
                &&& sum@ == total(columns as nat, rows_seen(partials@))
            },
            Err(message) => if partials@.len() == 0 {
                message@ == "no worker evaluated the query"@
            } else {
                &&& !all_cover(columns as nat, rows_seen(partials@))
                &&& message@ == "partial results differ in length"@
            },
        },
{
    if partials.len() == 0 {
        return Err(String::from_str("no worker evaluated the query"));
    }
    let ghost parts = rows_seen(partials@);
    let mut sum = zeros(columns);
    let mut i: usize = 0;
    assert(parts.take(0) =~= Seq::empty());
    while i < partials.len()
        invariant
            i <= partials.len(),
            parts == rows_seen(partials@),
            sum@.len() == columns,
            all_cover(columns as nat, parts.take(i as int)),
            sum@ == total(columns as nat, parts.take(i as int)),
        decreases partials.len() - i,
    {
        assert(parts.take(i + 1).drop_last() =~= parts.take(i as int));
        assert(parts[i as int] == partials@[i as int]@);
        match add_assign_mod(&mut sum, &partials[i]) {
            Ok(()) => {},
            Err(message) => {
                assert(parts[i as int].len() != columns);
                return Err(message);
            },
        }
        assert forall|k: int| 0 <= k < i + 1 implies (#[trigger] parts.take(i + 1)[k]).len()
            == columns by {
            if k < i {
                assert(parts.take(i as int)[k].len() == columns);
            }
        }
        i = i + 1;
    }
    assert(parts.take(i as int) =~= parts);
    Ok(sum)
}

proof fn lemma_sum_mod_commutes(sum: Seq<u64>, a: Seq<u64>, b: Seq<u64>)
    ensures
        sum_mod(sum_mod(sum, a), b) == sum_mod(sum_mod(sum, b), a),
{
    let left = sum_mod(sum_mod(sum, a), b);
    let right = sum_mod(sum_mod(sum, b), a);
    assert forall|i: int| 0 <= i < sum.len() implies left[i] == right[i] by {
        let q = MODULUS as int;
        vstd::arithmetic::div_mod::lemma_add_mod_noop((sum[i] + a[i]) as int, b[i] as int, q);
        vstd::arithmetic::div_mod::lemma_add_mod_noop((sum[i] + b[i]) as int, a[i] as int, q);
        vstd::arithmetic::div_mod::lemma_mod_twice((sum[i] + a[i]) as int, q);
        vstd::arithmetic::div_mod::lemma_mod_twice((sum[i] + b[i]) as int, q);
        vstd::arithmetic::div_mod::lemma_add_mod_noop((sum[i] + a[i]) % q, b[i] as int, q);
        vstd::arithmetic::div_mod::lemma_add_mod_noop((sum[i] + b[i]) % q, a[i] as int, q);
    }
    assert(left =~= right);
}

/// The order in which partial results arrive does not matter.
pub proof fn law_arrival_order_does_not_matter(
    columns: nat,
    a: Seq<Seq<u64>>,
    b: Seq<Seq<u64>>,
)
    requires
        a.to_multiset() == b.to_multiset(),
    ensures
        total(columns, a) == total(columns, b),
{
    let f = |sum: Seq<u64>, part: Seq<u64>| sum_mod(sum, part);
    assert forall|x: Seq<u64>, y: Seq<u64>, v: Seq<u64>| #[trigger] f(f(v, x), y) == f(
        f(v, y),
        x,
    ) by {
        lemma_sum_mod_commutes(v, x, y);
    }
    vstd::seq_lib::lemma_fold_left_permutation(a, b, f, no_values(columns));
}

/// Products of shards with their parts of a query.
pub open spec fn shard_products(
    tables: Seq<Seq<u16>>,
    queries: Seq<Seq<u64>>,
    columns: nat,
) -> Seq<Seq<u64>> {
    Seq::new(tables.len(), |i: int| product(tables[i], columns, queries[i]))
}

/// Lists, one behind the other.
pub open spec fn chained<T>(parts: Seq<Seq<T>>) -> Seq<T>
    decreases parts.len(),
{
    if parts.len() == 0 {
        Seq::empty()
    } else {
        chained(parts.drop_last()) + parts.last()
    }
}

proof fn lemma_chained_lengths(tables: Seq<Seq<u16>>, queries: Seq<Seq<u64>>, columns: nat)
    requires
        tables.len() == queries.len(),
        forall|i: int|
            0 <= i < tables.len() ==> (#[trigger] tables[i]).len() == queries[i].len() * columns,
    ensures
        chained(tables).len() == chained(queries).len() * columns,
    decreases tables.len(),
{
    if tables.len() > 0 {
        lemma_chained_lengths(tables.drop_last(), queries.drop_last(), columns);
        let a = chained(queries.drop_last()).len();
        let b = queries.last().len();
        assert(tables.last().len() == b * columns);
        assert((a + b) * columns == a * columns + b * columns) by (nonlinear_arith);
    }
}

/// What shards give with their parts of a query adds up to what one table with
/// all their rows gives with the whole query.
pub proof fn law_shards_add_up_to_the_table(
    tables: Seq<Seq<u16>>,
    queries: Seq<Seq<u64>>,
    columns: nat,
)
    requires
        tables.len() == queries.len(),
        forall|i: int|
            0 <= i < tables.len() ==> (#[trigger] tables[i]).len() == queries[i].len() * columns,
    ensures
        total(columns, shard_products(tables, queries, columns)) == product(
            chained(tables),
            columns,
            chained(queries),
        ),
    decreases tables.len(),
{
    let products = shard_products(tables, queries, columns);
    if tables.len() == 0 {
        assert(products =~= Seq::empty());
        assert(product(chained(tables), columns, chained(queries)) =~= no_values(columns));
    } else {
        let head_tables = tables.drop_last();
        let head_queries = queries.drop_last();
        assert forall|i: int| 0 <= i < head_tables.len() implies (#[trigger] head_tables[i]).len()
            == head_queries[i].len() * columns by {
            assert(tables[i].len() == queries[i].len() * columns);
        }
        law_shards_add_up_to_the_table(head_tables, head_queries, columns);
        lemma_chained_lengths(head_tables, head_queries, columns);
        assert(products.drop_last() =~= shard_products(head_tables, head_queries, columns));
        assert(tables.last().len() == queries.last().len() * columns);
        law_products_add(
            chained(head_tables),
            tables.last(),
            columns,
            chained(head_queries),
            queries.last(),
        );
        assert(total(columns, products) == sum_mod(
            total(columns, products.drop_last()),
            products.last(),
        ));
    }
}

/// Whether these are shards of one shape.
pub open spec fn shards_of_shape(runtimes: Seq<Arc<ShardRuntime>>, shape: (u64, u64)) -> bool {
    forall|i: int| 0 <= i < runtimes.len() ==> (#[trigger] runtimes[i]).shape() == shape
}

/// Whether each part of a query can be multiplied with a shard of so many
/// rows.
pub open spec fn parts_fit(queries: Seq<Seq<u64>>, rows: nat) -> bool {
    forall|i: int|
        0 <= i < queries.len() ==> (#[trigger] queries[i]).len() == rows
}

/// Numbers of shards.
pub open spec fn tables_of(runtimes: Seq<Arc<ShardRuntime>>) -> Seq<Seq<u16>> {
    Seq::new(runtimes.len(), |i: int| runtimes[i].table())
}

/// What a worker answers: the sum of its shards' products with their parts of
/// the query. A part that does not fit its shard is refused.
pub fn evaluate_shards(
    engine: &TableEngine,
    runtimes: &Vec<Arc<ShardRuntime>>,
    queries: &Vec<Vec<u64>>,
) -> (sum: Result<Vec<u64>, String>)
    requires
        engine.wf(),
        shards_of_shape(runtimes@, engine.shape()),
        runtimes@.len() == queries@.len(),
    ensures
        match sum {
            Ok(sum) => {
                &&& parts_fit(rows_seen(queries@), padded_rows(engine.shape().0))
                &&& sum@ == total(
                    padded_columns(engine.shape().1),
                    shard_products(
                        tables_of(runtimes@),
                        rows_seen(queries@),
                        padded_columns(engine.shape().1),
                    ),
                )
            },
            Err(message) => {
                &&& !parts_fit(rows_seen(queries@), padded_rows(engine.shape().0))
                &&& message@ == "shard query has the wrong length"@
            },
        },
{
    let (_rows, columns) = engine.padded();
    let ghost products = shard_products(
        tables_of(runtimes@),
        rows_seen(queries@),
        columns as nat,
    );
    let mut sum = zeros(columns);
    let mut i: usize = 0;
    assert(products.take(0) =~= Seq::empty());
    while i < runtimes.len()
        invariant
            i <= runtimes.len(),
            runtimes@.len() == queries@.len(),
            engine.wf(),
            shards_of_shape(runtimes@, engine.shape()),
            columns == padded_columns(engine.shape().1),
            products == shard_products(tables_of(runtimes@), rows_seen(queries@), columns as nat),
            sum@.len() == columns,
            parts_fit(rows_seen(queries@).take(i as int), padded_rows(engine.shape().0)),
            sum@ == total(columns as nat, products.take(i as int)),
        decreases runtimes.len() - i,
    {
        let ghost parts = rows_seen(queries@);
        assert(parts[i as int] == queries@[i as int]@);
        assert(runtimes@[i as int].shape() == engine.shape());
        let product = match runtimes[i].evaluate(engine, queries[i].as_slice()) {
            Ok(product) => product,
            Err(message) => {
                assert(parts[i as int].len() != padded_rows(engine.shape().0));
                return Err(message);
            },
        };
        assert(product@ =~= products[i as int]);
        assert(products.take(i + 1).drop_last() =~= products.take(i as int));
        match add_assign_mod(&mut sum, &product) {
            Ok(()) => {},
            Err(message) => {
                assert(false);
                return Err(message);
            },
        }
        assert forall|k: int| 0 <= k < i + 1 implies (#[trigger] parts.take(i + 1)[k]).len()
            == padded_rows(engine.shape().0) by {
            if k < i {
                assert(parts.take(i as int)[k] == parts[k]);
            }
        }
        i = i + 1;
    }
    assert(products.take(i as int) =~= products);
    assert(rows_seen(queries@).take(i as int) =~= rows_seen(queries@));
    Ok(sum)
}

/// Hints of shards, added up.
pub open spec fn hint_total(hints: Seq<Seq<Seq<Seq<u64>>>>) -> Seq<Seq<Seq<u64>>>
    decreases hints.len(),
{
    if hints.len() <= 1 {
        hints[0]
    } else {
        hints_added(hint_total(hints.drop_last()), hints.last())
    }
}

/// The hints behind a list of them.
pub open spec fn hints_seen(hints: Seq<Vec<Vec<Vec<u64>>>>) -> Seq<Seq<Seq<Seq<u64>>>> {
    Seq::new(hints.len(), |i: int| blocks_seen(hints[i]@))
}

/// Whether all hints have the shape of the first.
pub open spec fn all_alike(hints: Seq<Seq<Seq<Seq<u64>>>>) -> bool {
    forall|i: int| 0 <= i < hints.len() ==> same_shape(hints[0], #[trigger] hints[i])
}

/// Adds up the hints of a table's shards. None at all, or one of another
/// shape, is refused.
pub fn combine_hints(hints: &Vec<Vec<Vec<Vec<u64>>>>) -> (sum: Result<Vec<Vec<Vec<u64>>>, String>)
    ensures
        match sum {
            Ok(sum) => {
                &&& hints@.len() > 0
                &&& all_alike(hints_seen(hints@))
                &&& blocks_seen(sum@) == hint_total(hints_seen(hints@))
                &&& same_shape(blocks_seen(hints@[0]@), blocks_seen(sum@))
            },
            Err(message) => if hints@.len() == 0 {
                message@ == "no CRS contributions"@
            } else {
                &&& !all_alike(hints_seen(hints@))
                &&& message@ == "shard hints differ in shape"@
            },
        },
{
    if hints.len() == 0 {
        return Err(String::from_str("no CRS contributions"));
    }
    let ghost all = hints_seen(hints@);
    let mut sum = copy_hint(&hints[0]);
    let mut i: usize = 1;
    assert(all.take(1)[0] == blocks_seen(hints@[0]@));
    while i < hints.len()
        invariant
            1 <= i <= hints.len(),
            all == hints_seen(hints@),
            all_alike(all.take(i as int)),
            blocks_seen(sum@) == hint_total(all.take(i as int)),
            same_shape(all[0], blocks_seen(sum@)),
        decreases hints.len() - i,
    {
        assert(all[i as int] == blocks_seen(hints@[i as int]@));
        proof {
            lemma_alike(all[0], blocks_seen(sum@), all[i as int]);
            lemma_sum_keeps_shape(blocks_seen(sum@), all[i as int]);
        }
        let ghost before = blocks_seen(sum@);
        sum = match add_hint(&sum, &hints[i]) {
            Ok(added) => added,
            Err(message) => {
                assert(!same_shape(all[0], all[i as int]));
                return Err(message);
            },
        };
        proof {
            assert(all.take(i + 1).drop_last() =~= all.take(i as int));
            lemma_alike(all[0], before, blocks_seen(sum@));
            assert forall|k: int| 0 <= k < i + 1 implies same_shape(
                all.take(i + 1)[0],
                #[trigger] all.take(i + 1)[k],
            ) by {
                if k < i {
                    assert(all.take(i as int)[k] == all[k]);
                }
            }
        }
        i = i + 1;
    }
    assert(all.take(i as int) =~= all);
    Ok(sum)
}

fn copy_rows(rows: &Vec<Vec<u64>>) -> (copy: Vec<Vec<u64>>)
    ensures
        rows_seen(copy@) == rows_seen(rows@),
{
    let mut copy: Vec<Vec<u64>> = Vec::new();
    let mut i: usize = 0;
    while i < rows.len()
        invariant
            i <= rows.len(),
            copy@.len() == i,
            forall|k: int| 0 <= k < i ==> (#[trigger] copy@[k])@ == rows@[k]@,
        decreases rows.len() - i,
    {
        let mut row: Vec<u64> = Vec::new();
        let mut j: usize = 0;
        while j < rows[i].len()
            invariant
                i < rows.len(),
                j <= rows@[i as int].len(),
                row@ == rows@[i as int]@.take(j as int),
            decreases rows[i as int].len() - j,
        {
            row.push(rows[i][j]);
            j = j + 1;
            assert(row@ =~= rows@[i as int]@.take(j as int));
        }
        assert(row@ =~= rows@[i as int]@);
        copy.push(row);
        i = i + 1;
    }
    assert(rows_seen(copy@) =~= rows_seen(rows@));
    copy
}

fn copy_hint(hint: &Vec<Vec<Vec<u64>>>) -> (copy: Vec<Vec<Vec<u64>>>)
    ensures
        blocks_seen(copy@) == blocks_seen(hint@),
        same_shape(blocks_seen(hint@), blocks_seen(copy@)),
{
    let mut copy: Vec<Vec<Vec<u64>>> = Vec::new();
    let mut i: usize = 0;
    while i < hint.len()
        invariant
            i <= hint.len(),
            copy@.len() == i,
            forall|k: int| 0 <= k < i ==> rows_seen((#[trigger] copy@[k])@) == rows_seen(hint@[k]@),
        decreases hint.len() - i,
    {
        copy.push(copy_rows(&hint[i]));
        i = i + 1;
    }
    assert(blocks_seen(copy@) =~= blocks_seen(hint@));
    copy
}

proof fn lemma_alike(a: Seq<Seq<Seq<u64>>>, b: Seq<Seq<Seq<u64>>>, c: Seq<Seq<Seq<u64>>>)
    requires
        same_shape(a, b),
    ensures
        same_shape(a, c) == same_shape(b, c),
{
    if same_shape(a, c) {
        assert forall|i: int| 0 <= i < b.len() implies rows_match(#[trigger] b[i], c[i]) by {
            assert(rows_match(a[i], b[i]));
            assert(rows_match(a[i], c[i]));
            assert forall|k: int| 0 <= k < b[i].len() implies (#[trigger] b[i][k]).len()
                == c[i][k].len() by {
                assert(a[i][k].len() == b[i][k].len());
                assert(a[i][k].len() == c[i][k].len());
            }
        }
    }
    if same_shape(b, c) {
        assert forall|i: int| 0 <= i < a.len() implies rows_match(#[trigger] a[i], c[i]) by {
            assert(rows_match(a[i], b[i]));
            assert(rows_match(b[i], c[i]));
            assert forall|k: int| 0 <= k < a[i].len() implies (#[trigger] a[i][k]).len()
                == c[i][k].len() by {
                assert(a[i][k].len() == b[i][k].len());
                assert(b[i][k].len() == c[i][k].len());
            }
        }
    }
}

proof fn lemma_sum_keeps_shape(a: Seq<Seq<Seq<u64>>>, b: Seq<Seq<Seq<u64>>>)
    ensures
        same_shape(a, hints_added(a, b)),
{
    let sum = hints_added(a, b);
    assert forall|i: int| 0 <= i < a.len() implies rows_match(#[trigger] a[i], sum[i]) by {
        assert forall|k: int| 0 <= k < a[i].len() implies (#[trigger] a[i][k]).len()
            == sum[i][k].len() by {}
    }
}

/// Hints of shards, each made from the shard's part of the public polynomials,
/// add up to the hint of one table with all their rows and polynomials.
pub proof fn law_shard_hints_add_up_to_the_table(
    polys: Seq<Seq<Seq<u64>>>,
    tables: Seq<Seq<u16>>,
    columns: nat,
)
    requires
        0 < polys.len() == tables.len(),
        forall|i: int|
            0 <= i < tables.len() ==> (#[trigger] tables[i]).len() == polys[i].len() * DEGREE
                * columns,
    ensures
        hint_total(shard_hints(polys, tables, columns)) == hint_blocks(
            chained(polys),
            chained(tables),
            columns,
        ),
        chained(tables).len() == chained(polys).len() * DEGREE * columns,
    decreases tables.len(),
{
    let hints = shard_hints(polys, tables, columns);
    let last = tables.len() - 1;
    assert(tables[last].len() == polys[last].len() * DEGREE * columns);
    if tables.len() == 1 {
        reveal_with_fuel(chained, 2);
        assert(chained(polys) =~= polys[0]);
        assert(chained(tables) =~= tables[0]);
    } else {
        let head_polys = polys.drop_last();
        let head_tables = tables.drop_last();
        assert forall|i: int| 0 <= i < head_tables.len() implies (#[trigger] head_tables[i]).len()
            == head_polys[i].len() * DEGREE * columns by {
            assert(tables[i].len() == polys[i].len() * DEGREE * columns);
        }
        law_shard_hints_add_up_to_the_table(head_polys, head_tables, columns);
        assert(hints.drop_last() =~= shard_hints(head_polys, head_tables, columns));
        law_hints_add(
            chained(head_polys),
            polys.last(),
            chained(head_tables),
            tables.last(),
            columns,
        );
        let a = chained(head_polys).len();
        let b = polys.last().len();
        assert((a + b) * DEGREE * columns == a * DEGREE * columns + b * DEGREE * columns)
            by (nonlinear_arith);
    }
}

/// Hints of shards, from their parts of the public polynomials.
pub open spec fn shard_hints(
    polys: Seq<Seq<Seq<u64>>>,
    tables: Seq<Seq<u16>>,
    columns: nat,
) -> Seq<Seq<Seq<Seq<u64>>>> {
    Seq::new(tables.len(), |i: int| hint_blocks(polys[i], tables[i], columns))
}

/// A hint as one list: block by block, polynomial by polynomial.
pub open spec fn flat(hint: Seq<Seq<Seq<u64>>>) -> Seq<u64> {
    chained(Seq::new(hint.len(), |b: int| chained(hint[b])))
}

proof fn lemma_chained_pieces(parts: Seq<Seq<u64>>, size: nat, n: int)
    requires
        forall|i: int| 0 <= i < parts.len() ==> (#[trigger] parts[i]).len() == size,
        0 <= n <= parts.len(),
    ensures
        chained(parts.take(n)).len() == n * size,
        forall|i: int|
            0 <= i < n ==> #[trigger] chained(parts.take(n)).subrange(i * size, i * size + size)
                == parts[i],
    decreases n,
{
    if n == 0 {
        assert(parts.take(0).len() == 0);
        assert(0 * size == 0) by (nonlinear_arith);
    } else {
        lemma_chained_pieces(parts, size, n - 1);
        let head = chained(parts.take(n - 1));
        let whole = chained(parts.take(n));
        assert(parts.take(n).drop_last() =~= parts.take(n - 1));
        assert(whole == head + parts[n - 1]);
        assert(n * size == (n - 1) * size + size) by (nonlinear_arith);
        assert forall|i: int| 0 <= i < n implies #[trigger] whole.subrange(
            i * size,
            i * size + size,
        ) == parts[i] by {
            assert(0 <= i * size) by (nonlinear_arith)
                requires
                    0 <= i,
                    0 <= size,
            ;
            if i < n - 1 {
                assert(i * size + size <= (n - 1) * size) by (nonlinear_arith)
                    requires
                        i <= n - 2,
                        0 <= size,
                ;
                assert(whole.subrange(i * size, i * size + size) =~= head.subrange(
                    i * size,
                    i * size + size,
                ));
            } else {
                assert(whole.subrange(i * size, i * size + size) =~= parts[i]);
            }
        }
    }
}

/// Where a polynomial of a hint stands in the list.
pub open spec fn polynomial_in(list: Seq<u64>, block: int, row: int) -> Seq<u64> {
    list.subrange(
        (block * DEGREE + row) * DEGREE,
        (block * DEGREE + row) * DEGREE + DEGREE,
    )
}

/// A hint is determined by its list: each of its polynomials stands in it.
pub proof fn law_flat_hints_keep_their_polynomials(
    hint: Seq<Seq<Seq<u64>>>,
    block: int,
    row: int,
)
    requires
        are_blocks(hint),
        0 <= block < hint.len(),
        0 <= row < DEGREE,
    ensures
        flat(hint).len() == hint.len() * DEGREE * DEGREE,
        polynomial_in(flat(hint), block, row) == hint[block][row],
{
    let size = (DEGREE * DEGREE) as nat;
    let parts = Seq::new(hint.len(), |b: int| chained(hint[b]));
    assert forall|b: int| 0 <= b < parts.len() implies (#[trigger] parts[b]).len() == size by {
        assert(are_polynomials(hint[b]));
        lemma_chained_pieces(hint[b], DEGREE as nat, DEGREE as int);
        assert(hint[b].take(DEGREE as int) =~= hint[b]);
    }
    lemma_chained_pieces(parts, size, parts.len() as int);
    assert(parts.take(parts.len() as int) =~= parts);
    assert(hint.len() * DEGREE * DEGREE == hint.len() * size) by (nonlinear_arith)
        requires
            size == DEGREE * DEGREE,
    ;
    let whole = flat(hint);
    let of_block = chained(hint[block]);
    assert(whole.subrange(block * size, block * size + size) == of_block);
    assert(are_polynomials(hint[block]));
    lemma_chained_pieces(hint[block], DEGREE as nat, DEGREE as int);
    assert(hint[block].take(DEGREE as int) =~= hint[block]);
    assert(of_block.subrange(row * DEGREE, row * DEGREE + DEGREE) == hint[block][row]);
    assert((block * DEGREE + row) * DEGREE == block * size + row * DEGREE) by (nonlinear_arith)
        requires
            size == DEGREE * DEGREE,
    ;
    assert(block * size + size <= hint.len() * size && 0 <= block * size) by (nonlinear_arith)
        requires
            0 <= block < hint.len(),
    ;
    assert(polynomial_in(whole, block, row) =~= of_block.subrange(
        row * DEGREE,
        row * DEGREE + DEGREE,
    ));
}

/// The list of a hint.
pub fn flat_hint(hint: &Vec<Vec<Vec<u64>>>) -> (list: Vec<u64>)
    ensures
        list@ == flat(blocks_seen(hint@)),
{
    let ghost blocks = blocks_seen(hint@);
    let ghost parts = Seq::new(blocks.len(), |b: int| chained(blocks[b]));
    let mut list: Vec<u64> = Vec::new();
    let mut b: usize = 0;
    assert(parts.take(0).len() == 0);
    while b < hint.len()
        invariant
            b <= hint.len(),
            blocks == blocks_seen(hint@),
            parts == Seq::new(blocks.len(), |b: int| chained(blocks[b])),
            list@ == chained(parts.take(b as int)),
        decreases hint.len() - b,
    {
        let ghost before = list@;
        let ghost rows = rows_seen(hint@[b as int]@);
        let mut k: usize = 0;
        assert(rows.take(0).len() == 0);
        assert(list@ =~= before + chained(rows.take(0)));
        while k < hint[b].len()
            invariant
                b < hint.len(),
                k <= hint@[b as int].len(),
                rows == rows_seen(hint@[b as int]@),
                list@ == before + chained(rows.take(k as int)),
            decreases hint[b as int].len() - k,
        {
            push_all(&mut list, &hint[b][k]);
            assert(rows.take(k + 1).drop_last() =~= rows.take(k as int));
            assert(rows[k as int] == hint@[b as int]@[k as int]@);
            k = k + 1;
            assert(list@ =~= before + chained(rows.take(k as int)));
        }
        assert(rows.take(k as int) =~= rows);
        assert(blocks[b as int] == rows);
        assert(parts.take(b + 1).drop_last() =~= parts.take(b as int));
        b = b + 1;
    }
    assert(parts.take(b as int) =~= parts);
    list
}

fn push_all(list: &mut Vec<u64>, more: &Vec<u64>)
    ensures
        final(list)@ == old(list)@ + more@,
{
    let ghost before = list@;
    let mut i: usize = 0;
    while i < more.len()
        invariant
            i <= more.len(),
            list@ == before + more@.take(i as int),
        decreases more.len() - i,
    {
        list.push(more[i]);
        i = i + 1;
        assert(list@ =~= before + more@.take(i as int));
    }
    assert(more@.take(i as int) =~= more@);
}

/// The hint of so many blocks that a list holds. A list of another length is
/// refused.
pub fn shaped_hint(list: &Vec<u64>, blocks: usize) -> (hint: Option<Vec<Vec<Vec<u64>>>>)
    requires
        blocks * DEGREE * DEGREE <= usize::MAX,
    ensures
        match hint {
            Some(hint) => {
                &&& list@.len() == blocks * DEGREE * DEGREE
                &&& hint@.len() == blocks
                &&& are_blocks(blocks_seen(hint@))
                &&& forall|b: int, k: int|
                    0 <= b < blocks && 0 <= k < DEGREE ==> #[trigger] blocks_seen(hint@)[b][k]
                        == polynomial_in(list@, b, k)
            },
            None => list@.len() != blocks * DEGREE * DEGREE,
        },
{
    assert(blocks * DEGREE * DEGREE == blocks * 4_194_304) by (nonlinear_arith)
        requires
            DEGREE == 2_048,
    ;
    let list_len: usize = list.len();
    if list_len != blocks * 4_194_304 {
        return None;
    }
    let mut hint: Vec<Vec<Vec<u64>>> = Vec::new();
    let mut b: usize = 0;
    while b < blocks
        invariant
            b <= blocks,
            list@.len() == list_len == blocks * 4_194_304,
            hint@.len() == b,
            forall|i: int|
                0 <= i < b ==> (#[trigger] hint@[i]).len() == DEGREE && are_polynomials(
                    rows_seen(hint@[i]@),
                ),
            forall|i: int, k: int|
                0 <= i < b && 0 <= k < DEGREE ==> (#[trigger] hint@[i]@[k])@ == polynomial_in(
                    list@,
                    i,
                    k,
                ),
        decreases blocks - b,
    {
        let mut rows: Vec<Vec<u64>> = Vec::new();
        let mut k: usize = 0;
        while k < DEGREE
            invariant
                b < blocks,
                k <= DEGREE,
                list@.len() == list_len == blocks * 4_194_304,
                rows@.len() == k,
                forall|j: int|
                    0 <= j < k ==> (#[trigger] rows@[j])@ == polynomial_in(list@, b as int, j)
                        && rows@[j].len() == DEGREE,
            decreases DEGREE - k,
        {
            assert((b * DEGREE + k) * DEGREE + DEGREE <= blocks * 4_194_304) by (nonlinear_arith)
                requires
                    b < blocks,
                    k < DEGREE,
                    DEGREE == 2_048,
            ;
            assert(b * DEGREE + k <= (b * DEGREE + k) * DEGREE) by (nonlinear_arith)
                requires
                    DEGREE == 2_048,
                    0 <= b,
                    0 <= k,
            ;
            let start: usize = (b * DEGREE + k) * DEGREE;
            let mut row: Vec<u64> = Vec::new();
            while row.len() < DEGREE
                invariant
                    row.len() <= DEGREE,
                    start + DEGREE <= list@.len() == list_len,
                    row@ == list@.subrange(start as int, start + row.len()),
                decreases DEGREE - row.len(),
            {
                row.push(list[start + row.len()]);
                assert(row@ =~= list@.subrange(start as int, start + row.len()));
            }
            rows.push(row);
            k = k + 1;
        }
        hint.push(rows);
        b = b + 1;
    }
    assert(blocks_seen(hint@).len() == blocks);
    assert forall|i: int| 0 <= i < blocks implies (#[trigger] blocks_seen(hint@)[i]).len()
        == DEGREE && are_polynomials(blocks_seen(hint@)[i]) by {
        assert(blocks_seen(hint@)[i] == rows_seen(hint@[i]@));
    }
    assert forall|i: int, k: int| 0 <= i < blocks && 0 <= k < DEGREE implies #[trigger] blocks_seen(
        hint@,
    )[i][k] == polynomial_in(list@, i, k) by {
        assert(hint@[i]@[k]@ == polynomial_in(list@, i, k));
    }
    Some(hint)
}

/// The list of a hint is read back as the hint.
pub proof fn law_flat_hints_round_trip(hint: Seq<Seq<Seq<u64>>>, read: Seq<Seq<Seq<u64>>>)
    requires
        are_blocks(hint),
        are_blocks(read),
        read.len() == hint.len(),
        forall|b: int, k: int|
            0 <= b < read.len() && 0 <= k < DEGREE ==> #[trigger] read[b][k] == polynomial_in(
                flat(hint),
                b,
                k,
            ),
    ensures
        read == hint,
{
    assert forall|b: int| 0 <= b < read.len() implies read[b] == hint[b] by {
        assert(read[b].len() == DEGREE && hint[b].len() == DEGREE);
        assert forall|k: int| 0 <= k < DEGREE implies read[b][k] == hint[b][k] by {
            law_flat_hints_keep_their_polynomials(hint, b, k);
        }
        assert(read[b] =~= hint[b]);
    }
    assert(read =~= hint);
}

proof fn lemma_total_is_reduced(columns: nat, partials: Seq<Seq<u64>>)
    ensures
        total(columns, partials).len() == columns,
        forall|i: int| 0 <= i < columns ==> #[trigger] total(columns, partials)[i] < MODULUS,
    decreases partials.len(),
{
    if partials.len() > 0 {
        lemma_total_is_reduced(columns, partials.drop_last());
    }
}

proof fn lemma_totals_join(columns: nat, a: Seq<Seq<u64>>, b: Seq<Seq<u64>>)
    ensures
        total(columns, a + b) == sum_mod(total(columns, a), total(columns, b)),
    decreases b.len(),
{
    lemma_total_is_reduced(columns, a);
    lemma_total_is_reduced(columns, b);
    let left = total(columns, a + b);
    let right = sum_mod(total(columns, a), total(columns, b));
    if b.len() == 0 {
        assert(a + b =~= a);
        assert(left =~= right);
    } else {
        let head = b.drop_last();
        lemma_totals_join(columns, a, head);
        lemma_total_is_reduced(columns, head);
        assert((a + b).drop_last() =~= a + head);
        assert forall|i: int| 0 <= i < columns implies left[i] == right[i] by {
            let q = MODULUS as int;
            let x = total(columns, a)[i] as int;
            let y = total(columns, head)[i] as int;
            let z = b.last()[i] as int;
            assert(left[i] == ((x + y) % q + z) % q);
            assert(right[i] == (x + (y + z) % q) % q);
            vstd::arithmetic::div_mod::lemma_add_mod_noop_right(z, x + y, q);
            vstd::arithmetic::div_mod::lemma_add_mod_noop_right(x, y + z, q);
        }
        assert(left =~= right);
    }
}

/// Partial results, added up group by group.
pub open spec fn group_totals(columns: nat, groups: Seq<Seq<Seq<u64>>>) -> Seq<Seq<u64>> {
    Seq::new(groups.len(), |g: int| total(columns, groups[g]))
}

/// It does not matter how shards are spread over groups of workers: the sums
/// of the groups add up to the sum over all shards.
pub proof fn law_groups_add_up(columns: nat, groups: Seq<Seq<Seq<u64>>>)
    ensures
        total(columns, group_totals(columns, groups)) == total(columns, chained(groups)),
    decreases groups.len(),
{
    let totals = group_totals(columns, groups);
    if groups.len() == 0 {
        assert(totals =~= chained(groups));
    } else {
        law_groups_add_up(columns, groups.drop_last());
        assert(totals.drop_last() =~= group_totals(columns, groups.drop_last()));
        lemma_totals_join(columns, chained(groups.drop_last()), groups.last());
    }
}

/// A table in shards answers like one server with all its rows: the hint that
/// is published is the same, and so is the response to every query, whichever
/// keys it came with.
pub proof fn law_shards_answer_like_the_whole(
    polys: Seq<Seq<Seq<u64>>>,
    tables: Seq<Seq<u16>>,
    queries: Seq<Seq<u64>>,
    shape: (u64, u64),
    bits: nat,
    keys: Seq<u8>,
    query: Seq<u8>,
)
    requires
        0 < polys.len() == tables.len() == queries.len(),
        forall|i: int|
            0 <= i < tables.len() ==> {
                &&& (#[trigger] tables[i]).len() == polys[i].len() * DEGREE * padded_columns(shape.1)
                &&& queries[i].len() == polys[i].len() * DEGREE
            },
        chained(queries) == switched_query(query, padded_rows(shape.0), bits),
    ensures
        ({
            let columns = padded_columns(shape.1);
            let hint = hint_total(shard_hints(polys, tables, columns));
            let values = total(columns, shard_products(tables, queries, columns));
            let whole = hint_blocks(chained(polys), chained(tables), columns);
            &&& published_rows(hint) == published_rows(whole)
            &&& online_response(chained(tables), shape, bits, whole, keys, query) == (
            if query.len() != switched_len(padded_rows(shape.0), bits) {
                Err(query_fault(padded_rows(shape.0), bits, query.len()))
            } else if !packs(hint, values) {
                Err(pack_fault(hint.len(), values.len()))
            } else {
                Ok(response_bodies(hint, keys, values))
            })
        }),
{
    let columns = padded_columns(shape.1);
    assert forall|i: int| 0 <= i < tables.len() implies (#[trigger] tables[i]).len()
        == queries[i].len() * columns by {}
    law_shard_hints_add_up_to_the_table(polys, tables, columns);
    law_shards_add_up_to_the_table(tables, queries, columns);
}

/// One table of a generation, ready to answer.
pub struct PreparedTable<'a> {
    prepared: Vec<QueryPackPreprocessed<'a>>,
    images: TopKeyImages<'a>,
    public_params: Vec<u8>,
    /// The hint that the table was prepared from.
    hint: Ghost<Seq<Seq<Seq<u64>>>>,
}

impl<'a> PreparedTable<'a> {
    pub closed spec fn hint(&self) -> Seq<Seq<Seq<u64>>> {
        self.hint@
    }

    pub closed spec fn published(&self) -> Seq<u8> {
        self.public_params@
    }

    pub closed spec fn wf(&self) -> bool {
        &&& is_top_image(self.images)
        &&& prepared_numbers(self.prepared@) == prepared_of(self.hint@)
        &&& self.hint@.len() == self.prepared@.len()
        &&& self.public_params@.len() == self.prepared@.len() * PUBLISHED_ROW_BYTES
        &&& self.public_params@ == published_rows(self.hint@)
    }

    /// Prepares a table from the sum of its shards' hints.
    pub fn prepare(engine: &'a TableEngine, hint: &Vec<Vec<Vec<u64>>>) -> (table: Result<
        PreparedTable<'a>,
        String,
    >)
        requires
            are_blocks(blocks_seen(hint@)),
        ensures
            match table {
                Ok(table) => {
                    &&& table.wf()
                    &&& table.hint() == blocks_seen(hint@)
                    &&& table.published() == published_rows(blocks_seen(hint@))
                    &&& table.published().len() == hint@.len() * PUBLISHED_ROW_BYTES
                },
                Err(_) => false,
            },
    {
        let prepared = match prepare_blocks(&engine.profile, hint) {
            Ok(prepared) => prepared,
            Err(error) => {
                return Err(error_text(&error));
            },
        };
        let images = top_images(&engine.profile);
        let public_params = publish_rows(&prepared);
        Ok(PreparedTable { prepared, images, public_params, hint: Ghost(blocks_seen(hint@)) })
    }

    /// What every client of the table needs to decode a response.
    pub fn public_params(&self) -> (bytes: Vec<u8>)
        ensures
            bytes@ == self.published(),
    {
        let all = self.public_params.as_slice();
        let bytes = copy_range(all, 0, all.len());
        assert(bytes@ =~= self.public_params@);
        bytes
    }
}

/// A query, read: its keys, and a coefficient for each row of the table.
pub struct OpenedQuery<'a> {
    pub keys: PackingKeys<'a>,
    pub coefficients: Vec<u64>,
}

/// Reads a query that was admitted: behind the generation its packing keys,
/// then its coefficients.
pub fn open_query<'a>(engine: &'a TableEngine, body: &[u8]) -> (opened: Result<
    OpenedQuery<'a>,
    String,
>)
    requires
        engine.wf(),
        body@.len() >= 8 + PACKING_KEYS_BYTES,
    ensures
        ({
            let keys = body@.subrange(8, 8 + PACKING_KEYS_BYTES);
            let online = body@.skip(8 + PACKING_KEYS_BYTES);
            let rows = padded_rows(engine.shape().0);
            match opened {
                Ok(opened) => {
                    &&& keys_admitted(keys)
                    &&& key_bytes(opened.keys) == keys
                    &&& keys_whole(opened.keys)
                    &&& online.len() == switched_len(rows, engine.query_width())
                    &&& opened.coefficients@ == switched_query(online, rows, engine.query_width())
                    &&& engine.query_width() < MODULUS_BITS ==> reduced(opened.coefficients@)
                },
                Err(message) => if !keys_admitted(keys) {
                    message@ == keys_fault(keys)
                } else {
                    &&& online.len() != switched_len(rows, engine.query_width())
                    &&& message@ == query_fault(rows, engine.query_width(), online.len())
                },
            }
        }),
{
    let start: usize = 8 + PACKING_KEYS_BYTES;
    let key_part = slice_subrange(body, 8, start);
    let online = slice_subrange(body, start, body.len());
    assert(online@ =~= body@.skip(8 + PACKING_KEYS_BYTES));
    let keys = match read_keys(&engine.profile, key_part) {
        Ok(keys) => keys,
        Err(error) => {
            return Err(error_text(&error));
        },
    };
    match read_query(&engine.profile, online) {
        Ok(coefficients) => {
            proof {
                let bits = engine.query_width();
                if 1 <= bits < MODULUS_BITS {
                    lemma_switched_query_is_reduced(online@, padded_rows(engine.shape().0), bits);
                }
            }
            Ok(OpenedQuery { keys, coefficients })
        },
        Err(error) => Err(error_text(&error)),
    }
}

/// What the parts of a query's answer come to, over a hint and under keys: the
/// framed response, or the words in which it is refused.
pub open spec fn outcome(
    hint: Seq<Seq<Seq<u64>>>,
    keys: Seq<u8>,
    columns: nat,
    parts: Seq<Seq<u64>>,
    generation: u64,
    epoch: Seq<u8>,
) -> Result<Seq<u8>, Seq<char>> {
    let values = total(columns, parts);
    if parts.len() == 0 {
        Err("no worker evaluated the query"@)
    } else if !all_cover(columns, parts) {
        Err("partial results differ in length"@)
    } else if !packs(hint, values) {
        Err(pack_fault(hint.len(), values.len()))
    } else {
        Ok(response_frame(generation, epoch, response_bodies(hint, keys, values)))
    }
}

/// A query that is under way: what its generation is answered with, the keys that
/// came with it, and what to ask of the workers.
pub struct PendingAnswer<'a> {
    generation: u64,
    columns: usize,
    epoch: [u8; 8],
    keys: PackingKeys<'a>,
    /// What the generation publishes of the table.
    published: Ghost<Seq<u8>>,
    shares: Vec<GroupQuery>,
}

/// What a query's body asks of the workers of a published table, or the words in
/// which it is refused. The body has the table's fixed length.
pub open spec fn opening(
    live: TableSnapshot,
    manifest: TableManifest,
    body: Seq<u8>,
    shard_rows: nat,
) -> Result<Seq<(int, Seq<(u64, Seq<u64>)>)>, Seq<char>> {
    let keys = body.subrange(8, 8 + PACKING_KEYS_BYTES);
    let query = switched_query(
        body.skip(8 + PACKING_KEYS_BYTES),
        live.shape.db_rows as nat,
        live.shape.query_bits as nat,
    );
    let shards = manifest.shards@;
    let groups = live.ready_groups@;
    if !keys_admitted(keys) {
        Err(keys_fault(keys))
    } else if !covers_all(query, shards, shard_rows) {
        Err("query does not cover a published shard"@)
    } else if !all_available(shards, groups) {
        Err("snapshot references an unavailable worker group"@)
    } else if shards.len() == 0 {
        Err("no worker evaluated the query"@)
    } else {
        Ok(shares(shards, query, shard_rows, groups, groups.len() as int))
    }
}

impl<'a> PendingAnswer<'a> {
    pub closed spec fn named(&self) -> u64 {
        self.generation
    }

    pub closed spec fn width(&self) -> nat {
        self.columns as nat
    }

    pub closed spec fn stamp(&self) -> Seq<u8> {
        self.epoch@
    }

    pub closed spec fn key_part(&self) -> Seq<u8> {
        key_bytes(self.keys)
    }

    pub closed spec fn published(&self) -> Seq<u8> {
        self.published@
    }

    pub closed spec fn asked(&self) -> Seq<(int, Seq<(u64, Seq<u64>)>)> {
        group_shares(self.shares@)
    }

    pub closed spec fn wf(&self) -> bool {
        keys_whole(self.keys)
    }

    /// Whether this is what a query's body comes to at a generation.
    pub open spec fn is_of(
        &self,
        snapshot: GenerationSnapshot,
        table: DatabaseId,
        body: Seq<u8>,
        shard_rows: nat,
    ) -> bool {
        &&& self.wf()
        &&& snapshot.tables.at(table) matches Some(live)
        &&& snapshot.manifest.tables.at(table) matches Some(manifest)
        &&& opening(live, manifest, body, shard_rows) == Ok::<_, Seq<char>>(
            self.asked(),
        )
        &&& self.named() == snapshot.manifest.generation
        &&& self.width() == live.shape.db_cols
        &&& self.stamp() == live.public_params_epoch@
        &&& self.key_part() == body.subrange(8, 8 + PACKING_KEYS_BYTES)
        &&& self.published() == live.public_params@
    }

    /// Opens a query that was admitted at a generation, with the parameters of the
    /// generation's table.
    pub fn open(
        state: &CoordinatorState,
        table: DatabaseId,
        body: &[u8],
        query: &AdmittedQuery,
        engine: &'a TableEngine,
        shard_rows: usize,
    ) -> (pending: Result<PendingAnswer<'a>, String>)
        requires
            state.wf(),
            engine.wf(),
            admitted(state, table, body@, PACKING_KEYS_BYTES as nat, *query),
            state.retained()[query.index as int].tables.at(table) matches Some(live)
                && live.shape.db_rows == padded_rows(engine.shape().0) && live.shape.db_cols
                == padded_columns(engine.shape().1) && live.shape.query_bits
                == engine.query_width(),
        ensures
            ({
                let snapshot = state.retained()[query.index as int];
                let live = snapshot.tables.at(table)->0;
                let manifest = snapshot.manifest.tables.at(table)->0;
                match pending {
                    Ok(pending) => {
                        &&& pending.is_of(snapshot, table, body@, shard_rows as nat)
                        &&& pending.named() == le_value(body@.take(8))
                    },
                    Err(message) => opening(live, manifest, body@, shard_rows as nat) == Err::<
                        Seq<(int, Seq<(u64, Seq<u64>)>)>,
                        Seq<char>,
                    >(message@),
                }
            }),
    {
        let snapshot = state.snapshot_at(query.index);
        proof {
            engine.lemma_shape_fits();
            assert(same_tables(state.retained()[query.index as int]));
            lemma_found_generation(state, query.generation as nat, 0);
        }
        let live = match snapshot.tables.get(table) {
            Some(live) => live,
            None => vstd::pervasive::unreached(),
        };
        let manifest = match snapshot.manifest.tables.get(table) {
            Some(manifest) => manifest,
            None => vstd::pervasive::unreached(),
        };
        let opened = match open_query(engine, body) {
            Ok(opened) => opened,
            Err(message) => {
                return Err(message);
            },
        };
        let shares = match slice_query(
            &manifest.shards,
            &live.ready_groups,
            opened.coefficients.as_slice(),
            shard_rows,
        ) {
            Ok(shares) => shares,
            Err(message) => {
                return Err(message);
            },
        };
        Ok(
            PendingAnswer {
                generation: query.generation,
                columns: live.shape.db_cols as usize,
                epoch: live.public_params_epoch,
                keys: opened.keys,
                published: Ghost(live.public_params@),
                shares,
            },
        )
    }

    /// What to ask of the ready groups.
    pub fn shares(&self) -> (shares: &Vec<GroupQuery>)
        ensures
            group_shares(shares@) == self.asked(),
    {
        &self.shares
    }

    /// Generation that the workers are asked at.
    pub fn generation(&self) -> (generation: u64)
        ensures
            generation == self.named(),
    {
        self.generation
    }
}

/// Puts the answer to a query together from what the workers gave, over the
/// prepared table whose rows its generation publishes.
pub fn answer_query<'a>(
    pending: &PendingAnswer<'a>,
    table: &'a PreparedTable<'a>,
    partials: &Vec<Vec<u64>>,
) -> (response: Result<Vec<u8>, String>)
    requires
        pending.wf(),
        table.wf(),
        table.published() == pending.published(),
    ensures
        (match response {
            Ok(response) => Ok(response@),
            Err(message) => Err(message@),
        }) == outcome(
            table.hint(),
            pending.key_part(),
            pending.width(),
            rows_seen(partials@),
            pending.named(),
            pending.stamp(),
        ),
        response matches Ok(response) ==> response@.len() == 16 + table.hint().len()
            * RESPONSE_BODY_BYTES,
{
    let values = match combine(pending.columns, partials) {
        Ok(values) => values,
        Err(message) => {
            return Err(message);
        },
    };
    match pack_values(values.as_slice(), &pending.keys, &table.images, &table.prepared) {
        Ok(packed) => {
            let bodies = write_bodies(&packed);
            proof {
                crate::codec::lemma_le_bytes_len(pending.generation as nat, 8);
            }
            Ok(frame_response(pending.generation, &pending.epoch, bodies.as_slice()))
        },
        Err(error) => Err(error_text(&error)),
    }
}

/// A response belongs to the generation that its query names: it is stamped with
/// that generation and the epoch of what it publishes, and comes from the keys
/// that the query brought, at the generation's width.
pub proof fn law_responses_belong_to_the_named_generation(
    pending: PendingAnswer<'_>,
    snapshot: GenerationSnapshot,
    table: DatabaseId,
    body: Seq<u8>,
    shard_rows: nat,
    hint: Seq<Seq<Seq<u64>>>,
    parts: Seq<Seq<u64>>,
)
    requires
        pending.is_of(snapshot, table, body, shard_rows),
    ensures
        snapshot.tables.at(table) matches Some(live) && outcome(
            hint,
            pending.key_part(),
            pending.width(),
            parts,
            pending.named(),
            pending.stamp(),
        ) == outcome(
            hint,
            body.subrange(8, 8 + PACKING_KEYS_BYTES),
            live.shape.db_cols as nat,
            parts,
            snapshot.manifest.generation,
            live.public_params_epoch@,
        ),
{
}

/// Every column of the total is the sum of the parts' values for it, modulo the
/// ciphertext modulus.
pub proof fn law_parts_add_up_by_column(columns: nat, partials: Seq<Seq<u64>>, c: int)
    requires
        all_cover(columns, partials),
        0 <= c < columns,
    ensures
        total(columns, partials).len() == columns,
        total(columns, partials)[c] == partials.map_values(
            |part: Seq<u64>| part[c] as int,
        ).fold_left(0int, |sum: int, value: int| sum + value) % 72_057_594_037_641_217,
    decreases partials.len(),
{
    let values = partials.map_values(|part: Seq<u64>| part[c] as int);
    let plus = |sum: int, value: int| sum + value;
    let f = |sum: Seq<u64>, part: Seq<u64>| sum_mod(sum, part);
    if partials.len() > 0 {
        let head = partials.drop_last();
        assert forall|i: int| 0 <= i < head.len() implies (#[trigger] head[i]).len() == columns by {
            assert(head[i] == partials[i]);
        }
        law_parts_add_up_by_column(columns, head, c);
        let before = values.drop_last();
        assert(before =~= head.map_values(|part: Seq<u64>| part[c] as int));
        let sum = before.fold_left(0int, plus);
        assert(values.fold_left(0int, plus) == plus(sum, values.last()));
        assert(total(columns, partials) == f(
            head.fold_left(no_values(columns), f),
            partials.last(),
        ));
        let modulus = MODULUS as int;
        vstd::arithmetic::div_mod::lemma_add_mod_noop(sum, values.last(), modulus);
        vstd::arithmetic::div_mod::lemma_add_mod_noop(sum % modulus, values.last(), modulus);
        vstd::arithmetic::div_mod::lemma_mod_twice(sum, modulus);
    } else {
        assert(values =~= Seq::empty());
        assert(values.fold_left(0int, plus) == 0);
    }
}

/// A query asks for every published shard of its table exactly once, each from the
/// group that the shard is with and with the query's coefficients for its rows.
pub proof fn law_a_query_asks_for_every_published_shard_once(
    pending: &PendingAnswer,
    snapshot: GenerationSnapshot,
    table: DatabaseId,
    body: Seq<u8>,
    shard_rows: nat,
)
    requires
        pending.is_of(snapshot, table, body, shard_rows),
        ready_names(snapshot.tables.at(table)->0.ready_groups@).no_duplicates(),
    ensures
        ({
            let live = snapshot.tables.at(table)->0;
            let shards = snapshot.manifest.tables.at(table)->0.shards@;
            let query = switched_query(
                body.skip(86_024),
                live.shape.db_rows as nat,
                live.shape.query_bits as nat,
            );
            &&& all_asked(pending.asked()).to_multiset() == all_owed(
                shards,
                query,
                shard_rows,
                ready_names(live.ready_groups@),
            ).to_multiset()
            &&& all_asked(pending.asked()).len() == shards.len()
            &&& shards.len() > 0
        }),
{
    let live = snapshot.tables.at(table)->0;
    let shards = snapshot.manifest.tables.at(table)->0.shards@;
    let query = switched_query(
        body.skip(8 + PACKING_KEYS_BYTES),
        live.shape.db_rows as nat,
        live.shape.query_bits as nat,
    );
    law_every_published_shard_is_asked_once(
        shards,
        query,
        shard_rows,
        live.ready_groups@,
        pending.asked(),
    );
}

/// A query is opened exactly where its packing keys are whole, it covers every
/// published shard, every shard's group is ready, and there is a shard.
pub proof fn law_queries_are_opened_when_every_shard_can_be_asked(
    live: TableSnapshot,
    manifest: TableManifest,
    body: Seq<u8>,
    shard_rows: nat,
)
    ensures
        opening(live, manifest, body, shard_rows) is Ok <==> {
            &&& keys_admitted(body.subrange(8, 86_024))
            &&& forall|i: int|
                0 <= i < manifest.shards@.len() ==> (#[trigger] manifest.shards@[i]).global_row_start
                    + shard_rows <= live.shape.db_rows
            &&& forall|i: int|
                0 <= i < manifest.shards@.len() ==> exists|g: int|
                    0 <= g < live.ready_groups@.len() && (
                    #[trigger] live.ready_groups@[g]).name@ == (
                    #[trigger] manifest.shards@[i]).worker@
            &&& manifest.shards@.len() > 0
        },
{
    let query = switched_query(
        body.skip(8 + PACKING_KEYS_BYTES),
        live.shape.db_rows as nat,
        live.shape.query_bits as nat,
    );
    let shards = manifest.shards@;
    let groups = live.ready_groups@;
    let names = ready_names(groups);
    if covers_all(query, shards, shard_rows) {
        assert forall|i: int| 0 <= i < shards.len() implies (#[trigger] shards[i]).global_row_start
            + shard_rows <= live.shape.db_rows by {
            assert(crate::enhance::query::covers(query, shards[i], shard_rows));
        }
    }
    assert forall|i: int| 0 <= i < shards.len() implies (names.contains(
        (#[trigger] shards[i]).worker@,
    ) <==> exists|g: int|
        0 <= g < groups.len() && (#[trigger] groups[g]).name@ == shards[i].worker@) by {
        if names.contains(shards[i].worker@) {
            let g = names.index_of(shards[i].worker@);
            assert(groups[g].name@ == shards[i].worker@);
        }
        if exists|g: int|
            0 <= g < groups.len() && (#[trigger] groups[g]).name@ == shards[i].worker@ {
            let g = choose|g: int|
                0 <= g < groups.len() && (#[trigger] groups[g]).name@ == shards[i].worker@;
            assert(names[g] == shards[i].worker@);
        }
    }
}

/// A response is made exactly where a worker evaluated the query, every part covers all
/// columns, and the columns are as many as are packed.
pub proof fn law_responses_are_made_when_the_parts_fit(
    hint: Seq<Seq<Seq<u64>>>,
    keys: Seq<u8>,
    columns: nat,
    parts: Seq<Seq<u64>>,
    generation: u64,
    epoch: Seq<u8>,
)
    ensures
        outcome(hint, keys, columns, parts, generation, epoch) is Ok <==> {
            &&& parts.len() > 0
            &&& forall|i: int| 0 <= i < parts.len() ==> (#[trigger] parts[i]).len() == columns
            &&& columns == 2_048 * hint.len()
        },
{
    if all_cover(columns, parts) {
        lemma_total_width(columns, parts);
    }
}

proof fn lemma_total_width(columns: nat, partials: Seq<Seq<u64>>)
    ensures
        total(columns, partials).len() == columns,
    decreases partials.len(),
{
    let f = |sum: Seq<u64>, part: Seq<u64>| sum_mod(sum, part);
    if partials.len() > 0 {
        lemma_total_width(columns, partials.drop_last());
        assert(total(columns, partials) == f(
            partials.drop_last().fold_left(no_values(columns), f),
            partials.last(),
        ));
    }
}

} // verus!
