//! Answering one opaque query: admitting it, slicing it per worker group,
//! deciding which replica to ask next, and framing the response.

use vstd::prelude::*;

use crate::codec::{le_bytes, le_value, push_bytes, push_le, read_le};
use crate::enhance::activate::{ReadyWorkerGroup, TableShape};
use crate::enhance::coordinator::CoordinatorState;
use crate::enhance::types::{DatabaseId, ShardDescriptor};
use crate::numbers::ceil_div;
use crate::text::{contains_text, occurs_in, same_text};

verus! {

/// A query that names a retained generation and has the right length: its
/// packing keys and its switched first-dimension query lie behind the
/// generation, in that order.
#[derive(Clone, Copy, Debug, PartialEq, Eq, Structural)]
pub struct AdmittedQuery {
    pub generation: u64,
    /// Place of the generation among the retained ones.
    pub index: usize,
    /// Where the switched query starts in the body.
    pub switched_start: usize,
}

/// Bytes of a query body: the generation, the packing keys, and one query
/// element of `query_bits` bits per row.
pub open spec fn query_len(packing_len: nat, shape: TableShape) -> nat {
    8 + packing_len + ceil_div((shape.db_rows * shape.query_bits) as nat, 8)
}

/// Why a query is refused, if it is.
pub open spec fn refusal(
    state: &CoordinatorState,
    table: DatabaseId,
    body: Seq<u8>,
    packing_len: nat,
) -> Option<Seq<char>> {
    if state.served(table) is None {
        Some("table "@ + table.wire_name() + " is not served"@)
    } else if body.len() < 8 {
        Some("query is truncated"@)
    } else {
        match find_generation(state, le_value(body.take(8))) {
            None => Some("query generation is not retained"@),
            Some(i) => match state.retained()[i].tables.at(table) {
                None => Some("generation has no "@ + table.wire_name() + " table"@),
                Some(live) => if body.len() != query_len(packing_len, live.shape) {
                    Some("query has the wrong fixed length"@)
                } else {
                    None
                },
            },
        }
    }
}

/// The first retained generation with this id.
pub open spec fn find_generation(state: &CoordinatorState, generation: nat) -> Option<int> {
    first_generation(state, generation, 0)
}

pub open spec fn first_generation(state: &CoordinatorState, generation: nat, from: int) -> Option<
    int,
>
    decreases state.retained().len() - from,
{
    if from >= state.retained().len() {
        None
    } else if state.retained()[from].manifest.generation == generation {
        Some(from)
    } else {
        first_generation(state, generation, from + 1)
    }
}

proof fn lemma_first_generation(state: &CoordinatorState, generation: u64, from: int, at: int)
    requires
        0 <= from <= at <= state.retained().len(),
        forall|i: int|
            from <= i < at ==> (#[trigger] state.retained()[i]).manifest.generation != generation,
        at < state.retained().len() ==> state.retained()[at].manifest.generation == generation,
    ensures
        first_generation(state, generation as nat, from) == (if at < state.retained().len() {
            Some(at)
        } else {
            None
        }),
    decreases at - from,
{
    if from < at {
        lemma_first_generation(state, generation, from + 1, at);
    }
}

/// A generation that is found has the id that was looked for.
pub proof fn lemma_found_generation(state: &CoordinatorState, generation: nat, from: int)
    requires
        0 <= from,
    ensures
        first_generation(state, generation, from) matches Some(at) ==> from <= at
            < state.retained().len() && state.retained()[at].manifest.generation == generation,
    decreases state.retained().len() - from,
{
    if from < state.retained().len() && state.retained()[from].manifest.generation != generation {
        lemma_found_generation(state, generation, from + 1);
    }
}

/// Whether a query body is admitted so: at the generation that it names.
pub open spec fn admitted(
    state: &CoordinatorState,
    table: DatabaseId,
    body: Seq<u8>,
    packing_len: nat,
    query: AdmittedQuery,
) -> bool {
    &&& refusal(state, table, body, packing_len) is None
    &&& query.generation == le_value(body.take(8))
    &&& find_generation(state, query.generation as nat) == Some(query.index as int)
    &&& query.index < state.retained().len()
    &&& query.switched_start == 8 + packing_len
    &&& query.switched_start <= body.len()
}

/// Admits a query body against whichever retained generation it names.
pub fn admit_query(
    state: &CoordinatorState,
    table: DatabaseId,
    body: &[u8],
    packing_len: usize,
) -> (query: Result<AdmittedQuery, String>)
    ensures
        match query {
            Ok(query) => admitted(state, table, body@, packing_len as nat, query),
            Err(message) => refusal(state, table, body@, packing_len as nat) == Some(message@),
        },
{
    match state.table(table) {
        Ok(_) => {},
        Err(message) => {
            return Err(message);
        },
    }
    if body.len() < 8 {
        return Err(String::from_str("query is truncated"));
    }
    let generation: u64 = read_le(body, 0, 8);
    assert(body@.subrange(0, 8) =~= body@.take(8));
    let index: usize = match state.generation_index(generation) {
        Some(index) => {
            proof {
                lemma_first_generation(state, generation, 0, index as int);
            }
            index
        },
        None => {
            proof {
                lemma_first_generation(state, generation, 0, state.retained().len() as int);
            }
            return Err(String::from_str("query generation is not retained"));
        },
    };
    let snapshot = state.snapshot_at(index);
    let shape: TableShape = match snapshot.tables.get(table) {
        Some(live) => live.shape,
        None => {
            let mut message = String::from_str("generation has no ");
            message.append(table.as_str());
            message.append(" table");
            return Err(message);
        },
    };
    proof {
        assert(shape.db_rows * shape.query_bits <= 0xffff_ffff_ffff_ffff * 0xffff_ffff_ffff_ffff)
            by (nonlinear_arith)
            requires
                shape.db_rows <= 0xffff_ffff_ffff_ffff,
                shape.query_bits <= 0xffff_ffff_ffff_ffff,
        ;
        assert(0 <= shape.db_rows * shape.query_bits) by (nonlinear_arith)
            requires
                shape.db_rows >= 0,
                shape.query_bits >= 0,
        ;
    }
    let switched_bits: u128 = shape.db_rows as u128 * shape.query_bits as u128;
    let switched: u128 = (switched_bits + 7) / 8;
    let expected: u128 = 8 + packing_len as u128 + switched;
    if body.len() as u128 != expected {
        return Err(String::from_str("query has the wrong fixed length"));
    }
    Ok(AdmittedQuery { generation, index, switched_start: 8 + packing_len })
}

/// One shard's slice of a query.
#[derive(Debug)]
pub struct ShardQuery {
    pub shard_id: u64,
    pub coefficients: Vec<u64>,
}

/// The share of one ready group.
#[derive(Debug)]
pub struct GroupQuery {
    /// Place of the group among the ready ones.
    pub group: usize,
    pub shards: Vec<ShardQuery>,
}

/// Slices as values.
pub open spec fn slices(shards: Seq<ShardQuery>) -> Seq<(u64, Seq<u64>)> {
    shards.map_values(|shard: ShardQuery| (shard.shard_id, shard.coefficients@))
}

/// A group's share of a query: for each of its shards, in order, the query's
/// coefficients for the shard's rows.
pub open spec fn share(
    shards: Seq<ShardDescriptor>,
    query: Seq<u64>,
    shard_rows: nat,
    group: Seq<char>,
) -> Seq<(u64, Seq<u64>)>
    decreases shards.len(),
{
    if shards.len() == 0 {
        Seq::empty()
    } else {
        let rest = share(shards.drop_last(), query, shard_rows, group);
        let last = shards.last();
        if last.worker@ == group {
            rest.push(
                (
                    last.shard_id,
                    query.subrange(
                        last.global_row_start as int,
                        last.global_row_start + shard_rows,
                    ),
                ),
            )
        } else {
            rest
        }
    }
}

/// Whether the query reaches over a shard's rows.
pub open spec fn covers(query: Seq<u64>, shard: ShardDescriptor, shard_rows: nat) -> bool {
    shard.global_row_start + shard_rows <= query.len()
}

pub open spec fn covers_all(
    query: Seq<u64>,
    shards: Seq<ShardDescriptor>,
    shard_rows: nat,
) -> bool {
    forall|i: int| 0 <= i < shards.len() ==> covers(query, #[trigger] shards[i], shard_rows)
}

pub open spec fn ready_names(groups: Seq<ReadyWorkerGroup>) -> Seq<Seq<char>> {
    groups.map_values(|group: ReadyWorkerGroup| group.name@)
}

/// Whether every shard's group is ready.
pub open spec fn all_available(
    shards: Seq<ShardDescriptor>,
    groups: Seq<ReadyWorkerGroup>,
) -> bool {
    forall|i: int|
        0 <= i < shards.len() ==> ready_names(groups).contains((#[trigger] shards[i]).worker@)
}

/// Shares of the first `n` ready groups, those without one left out.
pub open spec fn shares(
    shards: Seq<ShardDescriptor>,
    query: Seq<u64>,
    shard_rows: nat,
    groups: Seq<ReadyWorkerGroup>,
    n: int,
) -> Seq<(int, Seq<(u64, Seq<u64>)>)>
    decreases n,
{
    if n <= 0 {
        Seq::empty()
    } else {
        let rest = shares(shards, query, shard_rows, groups, n - 1);
        let own = share(shards, query, shard_rows, groups[n - 1].name@);
        if own.len() > 0 {
            rest.push((n - 1, own))
        } else {
            rest
        }
    }
}

/// Group queries as values.
pub open spec fn group_shares(queries: Seq<GroupQuery>) -> Seq<(int, Seq<(u64, Seq<u64>)>)> {
    queries.map_values(|query: GroupQuery| (query.group as int, slices(query.shards@)))
}

fn group_share(
    shards: &Vec<ShardDescriptor>,
    query: &[u64],
    shard_rows: usize,
    group: &str,
) -> (own: Vec<ShardQuery>)
    requires
        covers_all(query@, shards@, shard_rows as nat),
    ensures
        slices(own@) == share(shards@, query@, shard_rows as nat, group@),
{
    let mut own: Vec<ShardQuery> = Vec::new();
    let mut i: usize = 0;
    assert(slices(own@) =~= share(shards@.take(0), query@, shard_rows as nat, group@));
    while i < shards.len()
        invariant
            i <= shards.len(),
            covers_all(query@, shards@, shard_rows as nat),
            slices(own@) == share(shards@.take(i as int), query@, shard_rows as nat, group@),
        decreases shards.len() - i,
    {
        let shard = &shards[i];
        proof {
            assert(shards@.take(i + 1).drop_last() =~= shards@.take(i as int));
            assert(covers(query@, shards@[i as int], shard_rows as nat));
            assert(query.len() <= usize::MAX);
        }
        let ghost before = own@;
        if same_text(shard.worker.as_str(), group) {
            let start: usize = shard.global_row_start as usize;
            let coefficients = vstd::slice::slice_to_vec(
                vstd::slice::slice_subrange(query, start, start + shard_rows),
            );
            own.push(ShardQuery { shard_id: shard.shard_id, coefficients });
            assert(slices(own@) =~= slices(before).push((shard.shard_id, coefficients@)));
        }
        i = i + 1;
    }
    assert(shards@.take(i as int) =~= shards@);
    own
}

/// Slices a global query into the shares of the ready groups. Fails where the
/// query stops short of a shard, where a shard's group is not ready, or where
/// there is nothing to ask.
pub fn slice_query(
    shards: &Vec<ShardDescriptor>,
    groups: &Vec<ReadyWorkerGroup>,
    query: &[u64],
    shard_rows: usize,
) -> (sliced: Result<Vec<GroupQuery>, String>)
    ensures
        match sliced {
            Ok(queries) => {
                &&& covers_all(query@, shards@, shard_rows as nat)
                &&& all_available(shards@, groups@)
                &&& shards@.len() > 0
                &&& group_shares(queries@) == shares(
                    shards@,
                    query@,
                    shard_rows as nat,
                    groups@,
                    groups@.len() as int,
                )
                &&& ready_names(groups@).no_duplicates() ==> all_asked(
                    group_shares(queries@),
                ).to_multiset() == shards@.map_values(
                    |shard: ShardDescriptor|
                        (
                            ready_names(groups@).index_of(shard.worker@),
                            shard.shard_id,
                            query@.subrange(
                                shard.global_row_start as int,
                                shard.global_row_start + shard_rows,
                            ),
                        ),
                ).to_multiset()
            },
            Err(message) => if !covers_all(query@, shards@, shard_rows as nat) {
                message@ == "query does not cover a published shard"@
            } else if !all_available(shards@, groups@) {
                message@ == "snapshot references an unavailable worker group"@
            } else {
                shards@.len() == 0 && message@ == "no worker evaluated the query"@
            },
        },
{
    let mut i: usize = 0;
    while i < shards.len()
        invariant
            i <= shards.len(),
            forall|j: int|
                0 <= j < i ==> covers(query@, #[trigger] shards@[j], shard_rows as nat),
        decreases shards.len() - i,
    {
        let rows: u64 = shard_rows as u64;
        let len: u64 = query.len() as u64;
        if rows > len || shards[i].global_row_start > len - rows {
            assert(!covers(query@, shards@[i as int], shard_rows as nat));
            return Err(String::from_str("query does not cover a published shard"));
        }
        i = i + 1;
    }
    let mut k: usize = 0;
    while k < shards.len()
        invariant
            k <= shards.len(),
            covers_all(query@, shards@, shard_rows as nat),
            forall|j: int|
                0 <= j < k ==> ready_names(groups@).contains((#[trigger] shards@[j]).worker@),
        decreases shards.len() - k,
    {
        if !holds_group(groups, shards[k].worker.as_str()) {
            assert(!ready_names(groups@).contains(shards@[k as int].worker@));
            return Err(String::from_str("snapshot references an unavailable worker group"));
        }
        k = k + 1;
    }
    if shards.len() == 0 {
        return Err(String::from_str("no worker evaluated the query"));
    }
    let mut queries: Vec<GroupQuery> = Vec::new();
    let mut g: usize = 0;
    assert(group_shares(queries@) =~= shares(shards@, query@, shard_rows as nat, groups@, 0));
    while g < groups.len()
        invariant
            g <= groups.len(),
            covers_all(query@, shards@, shard_rows as nat),
            all_available(shards@, groups@),
            group_shares(queries@) == shares(
                shards@,
                query@,
                shard_rows as nat,
                groups@,
                g as int,
            ),
        decreases groups.len() - g,
    {
        let own = group_share(shards, query, shard_rows, groups[g].name.as_str());
        let ghost before = queries@;
        assert(slices(own@).len() == own@.len());
        if own.len() > 0 {
            queries.push(GroupQuery { group: g, shards: own });
            assert(group_shares(queries@) =~= group_shares(before).push((g as int, slices(own@))));
        }
        g = g + 1;
    }
    proof {
        let names = ready_names(groups@);
        if names.no_duplicates() {
            law_every_published_shard_is_asked_once(
                shards@,
                query@,
                shard_rows as nat,
                groups@,
                group_shares(queries@),
            );
            assert(all_owed(shards@, query@, shard_rows as nat, names) =~= shards@.map_values(
                |shard: ShardDescriptor|
                    (
                        names.index_of(shard.worker@),
                        shard.shard_id,
                        query@.subrange(
                            shard.global_row_start as int,
                            shard.global_row_start + shard_rows,
                        ),
                    ),
            ));
        }
    }
    Ok(queries)
}

fn holds_group(groups: &Vec<ReadyWorkerGroup>, name: &str) -> (held: bool)
    ensures
        held == ready_names(groups@).contains(name@),
{
    let mut i: usize = 0;
    while i < groups.len()
        invariant
            i <= groups.len(),
            forall|j: int| 0 <= j < i ==> (#[trigger] groups@[j]).name@ != name@,
        decreases groups.len() - i,
    {
        if same_text(groups[i].name.as_str(), name) {
            assert(ready_names(groups@)[i as int] == name@);
            return true;
        }
        i = i + 1;
    }
    assert forall|j: int| 0 <= j < ready_names(groups@).len() implies ready_names(groups@)[j]
        != name@ by {
        assert(groups@[j].name@ != name@);
    }
    false
}

/// Every shard whose group is ready is in that group's share, once: nothing of
/// the query is dropped.
pub proof fn law_shares_cover_every_shard(
    shards: Seq<ShardDescriptor>,
    query: Seq<u64>,
    shard_rows: nat,
    i: int,
)
    requires
        0 <= i < shards.len(),
    ensures
        share(shards, query, shard_rows, shards[i].worker@).contains(
            (
                shards[i].shard_id,
                query.subrange(
                    shards[i].global_row_start as int,
                    shards[i].global_row_start + shard_rows,
                ),
            ),
        ),
    decreases shards.len(),
{
    let head = shards.drop_last();
    let group = shards[i].worker@;
    let own = share(shards, query, shard_rows, group);
    let piece = (
        shards[i].shard_id,
        query.subrange(
            shards[i].global_row_start as int,
            shards[i].global_row_start + shard_rows,
        ),
    );
    if i < head.len() {
        law_shares_cover_every_shard(head, query, shard_rows, i);
        let rest = share(head, query, shard_rows, group);
        assert(head[i] == shards[i]);
        let k = choose|k: int| 0 <= k < rest.len() && rest[k] == piece;
        assert(own[k] == piece);
    } else {
        assert(own[own.len() - 1] == piece);
    }
}

/// A group's share is its published shards, in the manifest's order, each with the
/// query's coefficients for its rows.
pub proof fn law_shares_keep_the_order(
    shards: Seq<ShardDescriptor>,
    query: Seq<u64>,
    shard_rows: nat,
    group: Seq<char>,
)
    ensures
        share(shards, query, shard_rows, group) == shards.filter(
            |shard: ShardDescriptor| shard.worker@ == group,
        ).map_values(
            |shard: ShardDescriptor|
                (
                    shard.shard_id,
                    query.subrange(
                        shard.global_row_start as int,
                        shard.global_row_start + shard_rows,
                    ),
                ),
        ),
    decreases shards.len(),
{
    reveal(Seq::filter);
    let own = |shard: ShardDescriptor| shard.worker@ == group;
    let slice = |shard: ShardDescriptor|
        (
            shard.shard_id,
            query.subrange(shard.global_row_start as int, shard.global_row_start + shard_rows),
        );
    if shards.len() > 0 {
        law_shares_keep_the_order(shards.drop_last(), query, shard_rows, group);
    }
    assert(share(shards, query, shard_rows, group) =~= shards.filter(own).map_values(slice));
}

/// Everything that is asked, one shard at a time: the group, the shard and the
/// coefficients.
pub open spec fn all_asked(asked: Seq<(int, Seq<(u64, Seq<u64>)>)>) -> Seq<(int, u64, Seq<u64>)>
    decreases asked.len(),
{
    if asked.len() == 0 {
        Seq::empty()
    } else {
        all_asked(asked.drop_last()) + asked.last().1.map_values(
            |slice: (u64, Seq<u64>)| (asked.last().0, slice.0, slice.1),
        )
    }
}

/// Everything that has to be asked: of each published shard, the group that it is
/// with, the shard, and the query's coefficients for its rows.
pub open spec fn all_owed(
    shards: Seq<ShardDescriptor>,
    query: Seq<u64>,
    shard_rows: nat,
    groups: Seq<Seq<char>>,
) -> Seq<(int, u64, Seq<u64>)> {
    shards.map_values(
        |shard: ShardDescriptor|
            (
                groups.index_of(shard.worker@),
                shard.shard_id,
                query.subrange(
                    shard.global_row_start as int,
                    shard.global_row_start + shard_rows,
                ),
            ),
    )
}

proof fn lemma_tagged_count(own: Seq<(u64, Seq<u64>)>, group: int, x: (int, u64, Seq<u64>))
    ensures
        own.map_values(|slice: (u64, Seq<u64>)| (group, slice.0, slice.1)).to_multiset().count(x)
            == (if x.0 == group {
            own.to_multiset().count((x.1, x.2))
        } else {
            0
        }),
    decreases own.len(),
{
    broadcast use vstd::seq_lib::group_to_multiset_ensures;

    let tag = |slice: (u64, Seq<u64>)| (group, slice.0, slice.1);
    if own.len() > 0 {
        let head = own.drop_last();
        lemma_tagged_count(head, group, x);
        assert(own =~= head.push(own.last()));
        assert(own.map_values(tag) =~= head.map_values(tag).push(tag(own.last())));
    } else {
        assert(own.map_values(tag) =~= Seq::empty());
    }
}

proof fn lemma_asked_count(
    shards: Seq<ShardDescriptor>,
    query: Seq<u64>,
    shard_rows: nat,
    groups: Seq<ReadyWorkerGroup>,
    n: int,
    x: (int, u64, Seq<u64>),
)
    requires
        0 <= n <= groups.len(),
    ensures
        all_asked(shares(shards, query, shard_rows, groups, n)).to_multiset().count(x) == (if 0
            <= x.0 < n {
            share(shards, query, shard_rows, groups[x.0].name@).to_multiset().count((x.1, x.2))
        } else {
            0
        }),
    decreases n,
{
    broadcast use vstd::seq_lib::group_to_multiset_ensures;

    if n > 0 {
        lemma_asked_count(shards, query, shard_rows, groups, n - 1, x);
        let rest = shares(shards, query, shard_rows, groups, n - 1);
        let own = share(shards, query, shard_rows, groups[n - 1].name@);
        let group = n - 1;
        lemma_tagged_count(own, group, x);
        if own.len() > 0 {
            let all = shares(shards, query, shard_rows, groups, n);
            assert(all.drop_last() =~= rest);
            let tagged = own.map_values(|slice: (u64, Seq<u64>)| (group, slice.0, slice.1));
            assert(all.last().1.map_values(
                |slice: (u64, Seq<u64>)| (all.last().0, slice.0, slice.1),
            ) =~= tagged);
            vstd::seq_lib::lemma_multiset_commutative(all_asked(rest), tagged);
        } else {
            assert(own =~= Seq::empty());
        }
    }
}

proof fn lemma_owed_count(
    shards: Seq<ShardDescriptor>,
    query: Seq<u64>,
    shard_rows: nat,
    groups: Seq<Seq<char>>,
    x: (int, u64, Seq<u64>),
)
    requires
        groups.no_duplicates(),
        forall|i: int| 0 <= i < shards.len() ==> groups.contains((#[trigger] shards[i]).worker@),
    ensures
        all_owed(shards, query, shard_rows, groups).to_multiset().count(x) == (if 0 <= x.0
            < groups.len() {
            share(shards, query, shard_rows, groups[x.0]).to_multiset().count((x.1, x.2))
        } else {
            0
        }),
    decreases shards.len(),
{
    broadcast use vstd::seq_lib::group_to_multiset_ensures;

    let owed = all_owed(shards, query, shard_rows, groups);
    if shards.len() > 0 {
        let head = shards.drop_last();
        assert forall|i: int| 0 <= i < head.len() implies groups.contains(
            (#[trigger] head[i]).worker@,
        ) by {
            assert(head[i] == shards[i]);
        }
        lemma_owed_count(head, query, shard_rows, groups, x);
        let last = shards.last();
        assert(groups.contains(shards[shards.len() - 1].worker@));
        let place = groups.index_of(last.worker@);
        assert(0 <= place < groups.len() && groups[place] == last.worker@);
        let slice = query.subrange(
            last.global_row_start as int,
            last.global_row_start + shard_rows,
        );
        assert(owed =~= all_owed(head, query, shard_rows, groups).push(
            (place, last.shard_id, slice),
        ));
        if 0 <= x.0 < groups.len() && groups[x.0] == last.worker@ {
            assert(x.0 == place);
        }
    } else {
        assert(owed =~= Seq::empty());
    }
}

/// Slicing loses nothing and adds nothing: what the ready groups are asked, taken
/// together, is every published shard exactly once, each asked of the group that
/// it is with, and with the query's coefficients for its own rows.
pub proof fn law_every_published_shard_is_asked_once(
    shards: Seq<ShardDescriptor>,
    query: Seq<u64>,
    shard_rows: nat,
    groups: Seq<ReadyWorkerGroup>,
    asked: Seq<(int, Seq<(u64, Seq<u64>)>)>,
)
    requires
        ready_names(groups).no_duplicates(),
        all_available(shards, groups),
        asked == shares(shards, query, shard_rows, groups, groups.len() as int),
    ensures
        all_asked(asked).to_multiset() == all_owed(
            shards,
            query,
            shard_rows,
            ready_names(groups),
        ).to_multiset(),
        all_asked(asked).len() == shards.len(),
{
    let names = ready_names(groups);
    let asks = all_asked(asked).to_multiset();
    let owes = all_owed(shards, query, shard_rows, names).to_multiset();
    assert forall|x: (int, u64, Seq<u64>)| #[trigger] asks.count(x) == owes.count(x) by {
        lemma_asked_count(shards, query, shard_rows, groups, groups.len() as int, x);
        lemma_owed_count(shards, query, shard_rows, names, x);
        if 0 <= x.0 < groups.len() {
            assert(names[x.0] == groups[x.0].name@);
        }
    }
    assert(asks =~= owes);
    all_asked(asked).to_multiset_ensures();
    all_owed(shards, query, shard_rows, names).to_multiset_ensures();
}

/// Of every published shard there is a group query that asks it of its own group.
pub proof fn law_every_shard_has_a_group_query(
    shards: Seq<ShardDescriptor>,
    query: Seq<u64>,
    shard_rows: nat,
    groups: Seq<ReadyWorkerGroup>,
    asked: Seq<(int, Seq<(u64, Seq<u64>)>)>,
    i: int,
)
    requires
        all_available(shards, groups),
        asked == shares(shards, query, shard_rows, groups, groups.len() as int),
        0 <= i < shards.len(),
    ensures
        exists|q: int|
            {
                &&& 0 <= q < asked.len()
                &&& 0 <= (#[trigger] asked[q]).0 < groups.len()
                &&& groups[asked[q].0].name@ == shards[i].worker@
                &&& asked[q].1.contains(
                    (
                        shards[i].shard_id,
                        query.subrange(
                            shards[i].global_row_start as int,
                            shards[i].global_row_start + shard_rows,
                        ),
                    ),
                )
            },
{
    lemma_shares_list(shards, query, shard_rows, groups, groups.len() as int);
    law_shares_cover_every_shard(shards, query, shard_rows, i);
    let names = ready_names(groups);
    assert(names.contains(shards[i].worker@));
    let g = names.index_of(shards[i].worker@);
    assert(names[g] == groups[g].name@);
    assert(share(shards, query, shard_rows, groups[g].name@).len() > 0);
    let q = choose|q: int| 0 <= q < asked.len() && (#[trigger] asked[q]).0 == g;
    assert(asked[q].0 == g);
}

/// Every slice of a group query is one of that group's published shards, and no
/// group is asked twice.
pub proof fn law_group_queries_hold_their_own_shards(
    shards: Seq<ShardDescriptor>,
    query: Seq<u64>,
    shard_rows: nat,
    groups: Seq<ReadyWorkerGroup>,
    asked: Seq<(int, Seq<(u64, Seq<u64>)>)>,
    q: int,
    k: int,
)
    requires
        asked == shares(shards, query, shard_rows, groups, groups.len() as int),
        0 <= q < asked.len(),
        0 <= k < asked[q].1.len(),
    ensures
        0 <= asked[q].0 < groups.len(),
        exists|i: int|
            {
                &&& 0 <= i < shards.len()
                &&& (#[trigger] shards[i]).worker@ == groups[asked[q].0].name@
                &&& asked[q].1[k] == (
                    shards[i].shard_id,
                    query.subrange(
                        shards[i].global_row_start as int,
                        shards[i].global_row_start + shard_rows,
                    ),
                )
            },
        forall|p: int| 0 <= p < q ==> (#[trigger] asked[p]).0 < asked[q].0,
{
    lemma_shares_list(shards, query, shard_rows, groups, groups.len() as int);
    lemma_share_entry(shards, query, shard_rows, groups[asked[q].0].name@, k);
}

proof fn lemma_share_entry(
    shards: Seq<ShardDescriptor>,
    query: Seq<u64>,
    shard_rows: nat,
    group: Seq<char>,
    k: int,
)
    requires
        0 <= k < share(shards, query, shard_rows, group).len(),
    ensures
        exists|i: int|
            {
                &&& 0 <= i < shards.len()
                &&& (#[trigger] shards[i]).worker@ == group
                &&& share(shards, query, shard_rows, group)[k] == (
                    shards[i].shard_id,
                    query.subrange(
                        shards[i].global_row_start as int,
                        shards[i].global_row_start + shard_rows,
                    ),
                )
            },
    decreases shards.len(),
{
    let head = shards.drop_last();
    let rest = share(head, query, shard_rows, group);
    if k < rest.len() {
        lemma_share_entry(head, query, shard_rows, group, k);
        let i = choose|i: int|
            {
                &&& 0 <= i < head.len()
                &&& (#[trigger] head[i]).worker@ == group
                &&& rest[k] == (
                    head[i].shard_id,
                    query.subrange(
                        head[i].global_row_start as int,
                        head[i].global_row_start + shard_rows,
                    ),
                )
            };
        assert(shards[i] == head[i]);
    } else {
        assert(shards[shards.len() - 1] == shards.last());
    }
}

proof fn lemma_shares_list(
    shards: Seq<ShardDescriptor>,
    query: Seq<u64>,
    shard_rows: nat,
    groups: Seq<ReadyWorkerGroup>,
    n: int,
)
    requires
        0 <= n <= groups.len(),
    ensures
        ({
            let asked = shares(shards, query, shard_rows, groups, n);
            &&& forall|q: int|
                0 <= q < asked.len() ==> 0 <= (#[trigger] asked[q]).0 < n && asked[q].1 == share(
                    shards,
                    query,
                    shard_rows,
                    groups[asked[q].0].name@,
                )
            &&& forall|p: int, q: int|
                0 <= p < q < asked.len() ==> (#[trigger] asked[p]).0 < (#[trigger] asked[q]).0
            &&& forall|g: int|
                0 <= g < n && share(
                    shards,
                    query,
                    shard_rows,
                    (#[trigger] groups[g]).name@,
                ).len() > 0 ==> exists|q: int| 0 <= q < asked.len() && (#[trigger] asked[q]).0 == g
        }),
    decreases n,
{
    if n > 0 {
        lemma_shares_list(shards, query, shard_rows, groups, n - 1);
        let rest = shares(shards, query, shard_rows, groups, n - 1);
        let asked = shares(shards, query, shard_rows, groups, n);
        assert forall|g: int|
            0 <= g < n && share(
                shards,
                query,
                shard_rows,
                (#[trigger] groups[g]).name@,
            ).len() > 0 implies exists|q: int|
            0 <= q < asked.len() && (#[trigger] asked[q]).0 == g by {
            if g < n - 1 {
                let q = choose|q: int| 0 <= q < rest.len() && (#[trigger] rest[q]).0 == g;
                assert(asked[q] == rest[q]);
            } else {
                assert(asked[asked.len() - 1].0 == g);
            }
        }
    }
}

/// Why a replica could not answer, and whether its peer may be asked.
#[derive(Debug)]
pub struct WorkerEvaluationError {
    pub message: String,
    pub retryable: bool,
}

/// Whether the message of an in-process worker leaves room for a retry.
pub open spec fn retryable_message(message: Seq<char>) -> bool {
    occurs_in("evaluation limit"@, message) || occurs_in("generation mismatch"@, message)
        || occurs_in("active shard disappeared"@, message)
}

/// An in-process worker's failure, classified.
pub fn local_failure(message: String) -> (error: WorkerEvaluationError)
    ensures
        error.message == message,
        error.retryable == retryable_message(message@),
{
    let retryable: bool = contains_text(message.as_str(), "evaluation limit") || contains_text(
        message.as_str(),
        "generation mismatch",
    ) || contains_text(message.as_str(), "active shard disappeared");
    WorkerEvaluationError { message, retryable }
}

/// Whether a remote worker's status leaves room for a retry: too many requests,
/// or a server error.
pub fn status_retryable(status: u16) -> (retryable: bool)
    ensures
        retryable == (status == 429 || 500 <= status < 600),
{
    status == 429 || (500 <= status && status < 600)
}

/// What a remote worker's decoded answer is worth: it has to be of the
/// generation that was asked for.
pub fn remote_answer(asked: u64, answered: u64, coefficients: Vec<u64>) -> (outcome: Result<
    Vec<u64>,
    WorkerEvaluationError,
>)
    ensures
        match outcome {
            Ok(values) => asked == answered && values == coefficients,
            Err(error) => {
                &&& asked != answered
                &&& error.retryable
                &&& error.message@ == "worker response generation mismatch"@
            },
        },
{
    if answered != asked {
        return Err(
            WorkerEvaluationError {
                message: String::from_str("worker response generation mismatch"),
                retryable: true,
            },
        );
    }
    Ok(coefficients)
}

/// What to do next for one group's share.
#[derive(Debug)]
pub enum AttemptStep {
    /// Ask the replica at this place of the order.
    Try(usize),
    /// The share was evaluated.
    Answer(Vec<u64>),
    /// The share cannot be evaluated.
    Fail(String),
}

/// The first step for a group with `replicas` replicas in order.
pub fn first_attempt(replicas: usize) -> (step: AttemptStep)
    ensures
        match step {
            AttemptStep::Try(at) => replicas > 0 && at == 0,
            AttemptStep::Answer(_) => false,
            AttemptStep::Fail(message) => replicas == 0 && message@
                == "worker group has no ready replica"@,
        },
{
    if replicas == 0 {
        AttemptStep::Fail(String::from_str("worker group has no ready replica"))
    } else {
        AttemptStep::Try(0)
    }
}

/// The step after the replica at place `at` answered: its peer is asked only
/// after a failure that leaves room for a retry, and the last such failure is
/// what the query fails with.
pub fn next_attempt(
    replicas: usize,
    at: usize,
    outcome: Result<Vec<u64>, WorkerEvaluationError>,
) -> (step: AttemptStep)
    requires
        at < replicas,
    ensures
        match outcome {
            Ok(values) => step == AttemptStep::Answer(values),
            Err(error) => if error.retryable && at + 1 < replicas {
                step == AttemptStep::Try((at + 1) as usize)
            } else {
                step == AttemptStep::Fail(error.message)
            },
        },
{
    match outcome {
        Ok(values) => AttemptStep::Answer(values),
        Err(error) => if error.retryable && at + 1 < replicas {
            AttemptStep::Try(at + 1)
        } else {
            AttemptStep::Fail(error.message)
        },
    }
}

/// A response: the generation, the epoch of its public parameters, the body.
pub open spec fn response_frame(generation: u64, epoch: Seq<u8>, body: Seq<u8>) -> Seq<u8> {
    le_bytes(generation as nat, 8) + epoch + body
}

/// Frames the response bodies of a query.
pub fn frame_response(generation: u64, epoch: &[u8; 8], body: &[u8]) -> (response: Vec<u8>)
    ensures
        response@ == response_frame(generation, epoch@, body@),
{
    let mut response: Vec<u8> = Vec::new();
    push_le(&mut response, generation, 8);
    push_bytes(&mut response, epoch.as_slice());
    push_bytes(&mut response, body);
    assert(response@ =~= response_frame(generation, epoch@, body@));
    response
}

/// A client reads back the generation and epoch that a response was framed
/// with, and then its body.
pub proof fn law_response_names_its_generation(generation: u64, epoch: Seq<u8>, body: Seq<u8>)
    requires
        epoch.len() == 8,
    ensures
        le_value(response_frame(generation, epoch, body).take(8)) == generation,
        response_frame(generation, epoch, body).subrange(8, 16) == epoch,
        response_frame(generation, epoch, body).skip(16) == body,
{
    crate::codec::lemma_le_bytes_len(generation as nat, 8);
    crate::codec::lemma_byte_spans();
    crate::codec::lemma_read_written_field(generation as nat, 8);
    let frame = response_frame(generation, epoch, body);
    assert(frame.take(8) =~= le_bytes(generation as nat, 8));
    assert(frame.subrange(8, 16) =~= epoch);
    assert(frame.skip(16) =~= body);
}

/// The generation that a query is answered from is the first retained one with the
/// id that it names.
pub proof fn law_queries_are_answered_from_the_generation_they_name(
    state: &CoordinatorState,
    generation: nat,
    from: int,
)
    requires
        0 <= from,
    ensures
        match first_generation(state, generation, from) {
            Some(i) => {
                &&& from <= i < state.retained().len()
                &&& state.retained()[i].manifest.generation == generation
                &&& forall|j: int|
                    from <= j < i ==> (#[trigger] state.retained()[j]).manifest.generation
                        != generation
            },
            None => forall|j: int|
                from <= j < state.retained().len() ==> (
                #[trigger] state.retained()[j]).manifest.generation != generation,
        },
    decreases state.retained().len() - from,
{
    if from < state.retained().len() && state.retained()[from].manifest.generation != generation {
        law_queries_are_answered_from_the_generation_they_name(state, generation, from + 1);
    }
}

/// A query is admitted exactly where its table is served, the generation in its first
/// eight bytes is retained and has the table, and the packing keys and the query
/// elements, to whole bytes, take up the rest of it.
pub proof fn law_a_query_is_admitted_when_it_fits(
    state: &CoordinatorState,
    table: DatabaseId,
    body: Seq<u8>,
    packing_len: nat,
    i: int,
)
    requires
        body.len() >= 8,
        0 <= i < state.retained().len(),
        state.retained()[i].manifest.generation == le_value(body.take(8)),
        forall|j: int|
            0 <= j < i ==> (#[trigger] state.retained()[j]).manifest.generation != le_value(
                body.take(8),
            ),
    ensures
        refusal(state, table, body, packing_len) is None <==> {
            &&& state.served(table) is Some
            &&& state.retained()[i].tables.at(table) matches Some(live)
            &&& ({
                let bits = live.shape.db_rows * live.shape.query_bits;
                let room = 8 * (body.len() - 8 - packing_len);
                bits <= room < bits + 8
            })
        },
{
    let generation = le_value(body.take(8));
    law_queries_are_answered_from_the_generation_they_name(state, generation, 0);
    let at = find_generation(state, generation);
    if at is None {
        assert(state.retained()[i].manifest.generation != generation);
    } else if at->0 > i {
        assert(state.retained()[i].manifest.generation != generation);
    } else if at->0 < i {
        assert(state.retained()[at->0].manifest.generation != generation);
    }
    if let Some(live) = state.retained()[i].tables.at(table) {
        let bits = (live.shape.db_rows * live.shape.query_bits) as nat;
        assert(live.shape.db_rows * live.shape.query_bits >= 0) by (nonlinear_arith)
            requires
                live.shape.db_rows >= 0,
                live.shape.query_bits >= 0,
        ;
        crate::numbers::law_ceilings_are_least(bits, 8);
    }
}

/// What a refused query is told: the first of these that holds of it.
pub proof fn law_refusals_name_their_reason(
    state: &CoordinatorState,
    table: DatabaseId,
    body: Seq<u8>,
    packing_len: nat,
)
    ensures
        ({
            let told = refusal(state, table, body, packing_len);
            let named = |i: int|
                0 <= i < state.retained().len() && state.retained()[i].manifest.generation
                    == le_value(body.take(8));
            &&& state.served(table) is None ==> told == Some(
                "table "@ + table.wire_name() + " is not served"@,
            )
            &&& state.served(table) is Some && body.len() < 8 ==> told == Some(
                "query is truncated"@,
            )
            &&& state.served(table) is Some && body.len() >= 8 && (forall|i: int|
                !(#[trigger] named(i))) ==> told == Some("query generation is not retained"@)
        }),
{
    let named = |i: int|
        0 <= i < state.retained().len() && state.retained()[i].manifest.generation == le_value(
            body.take(8),
        );
    law_queries_are_answered_from_the_generation_they_name(state, le_value(body.take(8)), 0);
    if let Some(i) = find_generation(state, le_value(body.take(8))) {
        assert(named(i));
    }
}

} // verus!
