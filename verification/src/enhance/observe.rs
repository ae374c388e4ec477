//! Point-in-time view of the coordinator, for its metrics. Reads only
//! aggregate state.

use vstd::prelude::*;

use crate::enhance::coordinator::CoordinatorState;
use crate::enhance::setup::{labels, WorkerGroup};
use crate::enhance::status::CoordinatorPhase;
use crate::enhance::types::{DatabaseId, ShardDescriptor, TableManifest};
use crate::text::same_text;

verus! {

/// One table as the coordinator sees it. All counts are zero for a table that
/// is not registered or not yet published.
#[derive(Clone, Copy, Debug, PartialEq, Eq, Structural)]
pub struct TableObservation {
    pub table: DatabaseId,
    pub registered: bool,
    /// Worker groups, so that capacity is not doubled by replicas.
    pub pool_workers: u64,
    pub query_slots_available: u64,
    pub positions: u64,
    pub used_rows: u64,
    pub logical_rows: u64,
    pub shards: u64,
    pub sealed_shards: u64,
}

/// One worker's share of one table.
#[derive(Clone, Copy, Debug, PartialEq, Eq, Structural)]
pub struct WorkerTableObservation {
    pub table: DatabaseId,
    /// Position in this table's pool; the shard ids it owns derive from it.
    pub index: u64,
    pub assigned_shards: u64,
    pub populated_positions: u64,
    pub active_shards: u64,
}

/// What the coordinator knows about one worker.
#[derive(Debug)]
pub struct WorkerObservation {
    pub name: String,
    /// Zero-based position across all pools, first seen first.
    pub index: u64,
    /// `false` when the probe failed or timed out.
    pub up: bool,
    pub generation: u64,
    pub total_memory_bytes: u64,
    pub available_memory_bytes: u64,
    pub process_rss_bytes: u64,
    pub tables: Vec<WorkerTableObservation>,
}

/// One worker group of one table.
#[derive(Debug)]
pub struct WorkerGroupObservation {
    pub table: DatabaseId,
    pub name: String,
    pub configured_replicas: u64,
    pub ready_replicas: u64,
}

/// Everything the metrics show.
#[derive(Debug)]
pub struct Observation {
    pub phase: Option<CoordinatorPhase>,
    pub anchor_height: u64,
    pub generation: u64,
    pub ironwood_tree_size: u64,
    pub retained_generations: u64,
    pub tables: Vec<TableObservation>,
    pub worker_details: Vec<WorkerObservation>,
    pub worker_groups: Vec<WorkerGroupObservation>,
}

/// What one health probe yielded. All zeros when the worker is down.
#[derive(Debug)]
pub struct WorkerProbe {
    pub up: bool,
    pub generation: u64,
    /// Active shard count per table, from the worker's newest generation.
    pub active_shards: PerTableCount,
    pub total_memory_bytes: u64,
    pub available_memory_bytes: u64,
    pub process_rss_bytes: u64,
}

/// A count per table.
#[derive(Clone, Copy, Debug, PartialEq, Eq, Structural)]
pub struct PerTableCount {
    pub enhance: u64,
    pub cold: u64,
    pub warm: u64,
}

impl PerTableCount {
    pub open spec fn of(self, table: DatabaseId) -> u64 {
        match table {
            DatabaseId::Enhance => self.enhance,
            DatabaseId::TransparentSpendCold => self.cold,
            DatabaseId::TransparentSpendWarm => self.warm,
        }
    }

    pub fn get(&self, table: DatabaseId) -> (count: u64)
        ensures
            count == self.of(table),
    {
        match table {
            DatabaseId::Enhance => self.enhance,
            DatabaseId::TransparentSpendCold => self.cold,
            DatabaseId::TransparentSpendWarm => self.warm,
        }
    }
}

/// The `active_shards` field of a health answer.
#[derive(Debug)]
pub enum ActiveShardsField {
    /// Counts by wire name; entries that are no counts are left out.
    PerTable(Vec<(String, u64)>),
    /// A bare count, as workers of one table alone report it.
    Bare(u64),
    /// Absent, or neither of these.
    Missing,
}

/// The count that the last entry of a name gives, if any.
pub open spec fn named_count(entries: Seq<(String, u64)>, name: Seq<char>) -> u64
    decreases entries.len(),
{
    if entries.len() == 0 {
        0
    } else if entries.last().0@ == name {
        entries.last().1
    } else {
        named_count(entries.drop_last(), name)
    }
}

impl WorkerProbe {
    /// A worker that could not be asked.
    pub fn down() -> (probe: WorkerProbe)
        ensures
            !probe.up,
            probe.generation == 0,
            forall|table: DatabaseId| #[trigger] probe.active_shards.of(table) == 0,
            probe.total_memory_bytes == 0,
            probe.available_memory_bytes == 0,
            probe.process_rss_bytes == 0,
    {
        WorkerProbe {
            up: false,
            generation: 0,
            active_shards: PerTableCount { enhance: 0, cold: 0, warm: 0 },
            total_memory_bytes: 0,
            available_memory_bytes: 0,
            process_rss_bytes: 0,
        }
    }

    /// Reads a health answer. Numbers that are missing count as zero; a bare
    /// shard count belongs to the enhancement table.
    pub fn from_health(
        status: Option<&str>,
        generation: Option<u64>,
        active_shards: &ActiveShardsField,
        total_memory_bytes: Option<u64>,
        available_memory_bytes: Option<u64>,
        process_rss_bytes: Option<u64>,
    ) -> (probe: WorkerProbe)
        ensures
            probe.up == (status is Some && status->0@ == "ok"@),
            probe.generation == (match generation {
                Some(n) => n,
                None => 0,
            }),
            forall|table: DatabaseId|
                #[trigger] probe.active_shards.of(table) == (match active_shards {
                    ActiveShardsField::PerTable(entries) => named_count(
                        entries@,
                        table.wire_name(),
                    ),
                    ActiveShardsField::Bare(count) => if table == DatabaseId::Enhance {
                        *count
                    } else {
                        0
                    },
                    ActiveShardsField::Missing => 0,
                }),
            probe.total_memory_bytes == (match total_memory_bytes {
                Some(n) => n,
                None => 0,
            }),
            probe.available_memory_bytes == (match available_memory_bytes {
                Some(n) => n,
                None => 0,
            }),
            probe.process_rss_bytes == (match process_rss_bytes {
                Some(n) => n,
                None => 0,
            }),
    {
        let up: bool = match status {
            Some(status) => same_text(status, "ok"),
            None => false,
        };
        let active_shards = match active_shards {
            ActiveShardsField::PerTable(entries) => PerTableCount {
                enhance: count_named(entries, "enhance"),
                cold: count_named(entries, "transparent-spend-cold"),
                warm: count_named(entries, "transparent-spend-warm"),
            },
            ActiveShardsField::Bare(count) => PerTableCount { enhance: *count, cold: 0, warm: 0 },
            ActiveShardsField::Missing => PerTableCount { enhance: 0, cold: 0, warm: 0 },
        };
        WorkerProbe {
            up,
            generation: generation.unwrap_or(0),
            active_shards,
            total_memory_bytes: total_memory_bytes.unwrap_or(0),
            available_memory_bytes: available_memory_bytes.unwrap_or(0),
            process_rss_bytes: process_rss_bytes.unwrap_or(0),
        }
    }
}

fn count_named(entries: &Vec<(String, u64)>, name: &str) -> (count: u64)
    ensures
        count == named_count(entries@, name@),
{
    let mut n: usize = entries.len();
    assert(entries@.take(n as int) =~= entries@);
    while n > 0
        invariant
            n <= entries.len(),
            named_count(entries@, name@) == named_count(entries@.take(n as int), name@),
        decreases n,
    {
        assert(entries@.take(n as int).drop_last() =~= entries@.take(n - 1));
        if same_text(entries[n - 1].0.as_str(), name) {
            return entries[n - 1].1;
        }
        n = n - 1;
    }
    0
}

/// Sealed shards, counted.
pub open spec fn sealed_count(shards: Seq<ShardDescriptor>) -> nat
    decreases shards.len(),
{
    if shards.len() == 0 {
        0
    } else {
        sealed_count(shards.drop_last()) + if shards.last().sealed {
            1nat
        } else {
            0
        }
    }
}

/// Shards of a group, counted.
pub open spec fn assigned_count(shards: Seq<ShardDescriptor>, group: Seq<char>) -> nat
    decreases shards.len(),
{
    if shards.len() == 0 {
        0
    } else {
        assigned_count(shards.drop_last(), group) + if shards.last().worker@ == group {
            1nat
        } else {
            0
        }
    }
}

/// Populated positions of a group's shards, added up.
pub open spec fn assigned_positions(shards: Seq<ShardDescriptor>, group: Seq<char>) -> nat
    decreases shards.len(),
{
    if shards.len() == 0 {
        0
    } else {
        assigned_positions(shards.drop_last(), group) + if shards.last().worker@ == group {
            shards.last().populated_positions as nat
        } else {
            0
        }
    }
}

/// Populated positions of all shards, added up.
pub open spec fn total_positions(shards: Seq<ShardDescriptor>) -> nat
    decreases shards.len(),
{
    if shards.len() == 0 {
        0
    } else {
        total_positions(shards.drop_last()) + shards.last().populated_positions as nat
    }
}

proof fn lemma_assigned_at_most_total(shards: Seq<ShardDescriptor>, group: Seq<char>, n: int)
    requires
        0 <= n <= shards.len(),
    ensures
        assigned_positions(shards.take(n), group) <= total_positions(shards),
        assigned_count(shards.take(n), group) <= n,
    decreases shards.len(),
{
    if n < shards.len() {
        lemma_assigned_at_most_total(shards.drop_last(), group, n);
        assert(shards.drop_last().take(n) =~= shards.take(n));
    } else {
        assert(shards.take(n) =~= shards);
        if shards.len() > 0 {
            lemma_assigned_at_most_total(shards.drop_last(), group, n - 1);
            assert(shards.drop_last().take(n - 1) =~= shards.drop_last());
        }
    }
}

/// The published table, in the newest generation.
pub open spec fn published(state: &CoordinatorState, table: DatabaseId) -> Option<TableManifest> {
    if state.retained().len() == 0 {
        None
    } else {
        state.retained()[0].manifest.tables.at(table)
    }
}

/// What is to be observed of a table.
pub open spec fn observes_table(
    state: &CoordinatorState,
    seen: TableObservation,
    table: DatabaseId,
    slots: PerTableCount,
) -> bool {
    &&& seen.table == table
    &&& seen.registered == (state.served(table) is Some)
    &&& match state.served(table) {
        Some(setup) => seen.pool_workers == setup.groups@.len() && seen.query_slots_available
            == slots.of(table),
        None => seen.pool_workers == 0 && seen.query_slots_available == 0,
    }
    &&& match published(state, table) {
        Some(manifest) => {
            &&& seen.positions == manifest.positions
            &&& seen.used_rows == manifest.used_rows
            &&& seen.logical_rows == manifest.logical_rows
            &&& seen.shards == manifest.shards@.len()
            &&& seen.sealed_shards == sealed_count(manifest.shards@)
        },
        None => {
            &&& seen.positions == 0
            &&& seen.used_rows == 0
            &&& seen.logical_rows == 0
            &&& seen.shards == 0
            &&& seen.sealed_shards == 0
        },
    }
}

/// The first group, from `from` on, with a replica of this name.
pub open spec fn group_with_replica(groups: Seq<WorkerGroup>, name: Seq<char>, from: int) -> Option<
    int,
>
    decreases groups.len() - from,
{
    if from >= groups.len() {
        None
    } else if labels(groups[from].replicas@).contains(name) {
        Some(from)
    } else {
        group_with_replica(groups, name, from + 1)
    }
}

/// What is to be observed of a worker's share of a table; nothing where no
/// group of the table has the worker.
pub open spec fn share_of(
    state: &CoordinatorState,
    table: DatabaseId,
    name: Seq<char>,
    active: u64,
) -> Option<WorkerTableObservation> {
    match state.served(table) {
        None => None,
        Some(setup) => match group_with_replica(setup.groups@, name, 0) {
            None => None,
            Some(g) => {
                let group = setup.groups@[g].name@;
                let shards = match published(state, table) {
                    Some(manifest) => manifest.shards@,
                    None => Seq::empty(),
                };
                Some(
                    WorkerTableObservation {
                        table,
                        index: g as u64,
                        assigned_shards: assigned_count(shards, group) as u64,
                        populated_positions: assigned_positions(shards, group) as u64,
                        active_shards: active,
                    },
                )
            },
        },
    }
}

/// One share as a list.
pub open spec fn as_list(share: Option<WorkerTableObservation>) -> Seq<WorkerTableObservation> {
    match share {
        Some(share) => seq![share],
        None => Seq::empty(),
    }
}

/// A worker's shares of all tables, in wire order.
pub open spec fn shares_of(state: &CoordinatorState, name: Seq<char>, active: PerTableCount) -> Seq<
    WorkerTableObservation,
> {
    as_list(share_of(state, DatabaseId::Enhance, name, active.enhance)) + as_list(
        share_of(state, DatabaseId::TransparentSpendCold, name, active.cold),
    ) + as_list(share_of(state, DatabaseId::TransparentSpendWarm, name, active.warm))
}

/// What is to be observed of the worker at `index`, given its probe.
pub open spec fn observes_worker(
    state: &CoordinatorState,
    seen: WorkerObservation,
    index: int,
    name: Seq<char>,
    probe: WorkerProbe,
) -> bool {
    &&& seen.name@ == name
    &&& seen.index == index
    &&& seen.up == probe.up
    &&& seen.generation == probe.generation
    &&& seen.total_memory_bytes == probe.total_memory_bytes
    &&& seen.available_memory_bytes == probe.available_memory_bytes
    &&& seen.process_rss_bytes == probe.process_rss_bytes
    &&& seen.tables@ == shares_of(state, name, probe.active_shards)
}

/// Indices of the first `n` probes that came back.
pub open spec fn probed(probes: Seq<Option<WorkerProbe>>, n: int) -> Seq<int>
    decreases n,
{
    if n <= 0 {
        Seq::empty()
    } else if probes[n - 1] is Some {
        probed(probes, n - 1).push(n - 1)
    } else {
        probed(probes, n - 1)
    }
}

/// Ready replicas of a group in the newest generation.
pub open spec fn ready_count(state: &CoordinatorState, table: DatabaseId, group: Seq<char>) -> nat {
    if state.retained().len() == 0 {
        0
    } else {
        match state.retained()[0].tables.at(table) {
            None => 0,
            Some(snapshot) => ready_in(snapshot.ready_groups@, group),
        }
    }
}

/// Replicas of the first ready group with this name.
pub open spec fn ready_in(
    groups: Seq<crate::enhance::activate::ReadyWorkerGroup>,
    name: Seq<char>,
) -> nat {
    ready_from(groups, name, 0)
}

pub open spec fn ready_from(
    groups: Seq<crate::enhance::activate::ReadyWorkerGroup>,
    name: Seq<char>,
    from: int,
) -> nat
    decreases groups.len() - from,
{
    if from >= groups.len() {
        0
    } else if groups[from].name@ == name {
        groups[from].replicas@.len()
    } else {
        ready_from(groups, name, from + 1)
    }
}

/// A group observation as a value.
pub open spec fn group_view(seen: WorkerGroupObservation) -> (DatabaseId, Seq<char>, u64, u64) {
    (seen.table, seen.name@, seen.configured_replicas, seen.ready_replicas)
}

pub open spec fn group_views(seen: Seq<WorkerGroupObservation>) -> Seq<
    (DatabaseId, Seq<char>, u64, u64),
> {
    seen.map_values(|group: WorkerGroupObservation| group_view(group))
}

/// What is to be observed of the first `n` groups of a table.
pub open spec fn table_groups(state: &CoordinatorState, table: DatabaseId, n: int) -> Seq<
    (DatabaseId, Seq<char>, u64, u64),
>
    decreases n,
{
    if n <= 0 || state.served(table) is None {
        Seq::empty()
    } else {
        let group = state.served(table)->0.groups@[n - 1];
        table_groups(state, table, n - 1).push(
            (
                table,
                group.name@,
                group.replicas@.len() as u64,
                ready_count(state, table, group.name@) as u64,
            ),
        )
    }
}

/// What is to be observed of a table's groups.
pub open spec fn all_table_groups(state: &CoordinatorState, table: DatabaseId) -> Seq<
    (DatabaseId, Seq<char>, u64, u64),
> {
    match state.served(table) {
        Some(setup) => table_groups(state, table, setup.groups@.len() as int),
        None => Seq::empty(),
    }
}

fn count_sealed(shards: &Vec<ShardDescriptor>) -> (count: u64)
    ensures
        count == sealed_count(shards@),
{
    let mut count: u64 = 0;
    let mut i: usize = 0;
    while i < shards.len()
        invariant
            i <= shards.len(),
            count == sealed_count(shards@.take(i as int)),
            count <= i,
        decreases shards.len() - i,
    {
        assert(shards@.take(i + 1).drop_last() =~= shards@.take(i as int));
        if shards[i].sealed {
            count = count + 1;
        }
        i = i + 1;
    }
    assert(shards@.take(i as int) =~= shards@);
    count
}

fn assigned_share(shards: &Vec<ShardDescriptor>, group: &str) -> (share: (u64, u64))
    requires
        total_positions(shards@) <= u64::MAX,
    ensures
        share.0 == assigned_count(shards@, group@),
        share.1 == assigned_positions(shards@, group@),
{
    let mut count: u64 = 0;
    let mut positions: u64 = 0;
    let mut i: usize = 0;
    while i < shards.len()
        invariant
            i <= shards.len(),
            total_positions(shards@) <= u64::MAX,
            count == assigned_count(shards@.take(i as int), group@),
            positions == assigned_positions(shards@.take(i as int), group@),
            count <= i,
        decreases shards.len() - i,
    {
        proof {
            assert(shards@.take(i + 1).drop_last() =~= shards@.take(i as int));
            lemma_assigned_at_most_total(shards@, group@, i + 1);
        }
        if same_text(shards[i].worker.as_str(), group) {
            count = count + 1;
            positions = positions + shards[i].populated_positions;
        }
        i = i + 1;
    }
    assert(shards@.take(i as int) =~= shards@);
    (count, positions)
}

fn find_group(groups: &Vec<WorkerGroup>, name: &str) -> (found: Option<usize>)
    ensures
        match found {
            Some(g) => group_with_replica(groups@, name@, 0) == Some(g as int) && g
                < groups@.len(),
            None => group_with_replica(groups@, name@, 0) is None,
        },
{
    let mut g: usize = 0;
    while g < groups.len()
        invariant
            g <= groups.len(),
            group_with_replica(groups@, name@, 0) == group_with_replica(groups@, name@, g as int),
        decreases groups.len() - g,
    {
        let replicas = &groups[g].replicas;
        let mut r: usize = 0;
        while r < replicas.len()
            invariant
                r <= replicas.len(),
                g < groups.len(),
                *replicas == groups@[g as int].replicas,
                group_with_replica(groups@, name@, 0) == group_with_replica(
                    groups@,
                    name@,
                    g as int,
                ),
                forall|k: int| 0 <= k < r ==> (#[trigger] replicas@[k]).label() != name@,
            decreases replicas.len() - r,
        {
            if same_text(replicas[r].name(), name) {
                assert(labels(replicas@)[r as int] == name@);
                return Some(g);
            }
            r = r + 1;
        }
        proof {
            assert forall|k: int| 0 <= k < labels(replicas@).len() implies labels(replicas@)[k]
                != name@ by {
                assert(replicas@[k].label() != name@);
            }
        }
        g = g + 1;
    }
    None
}

/// Adding up the populated positions of the newest generation stays within a
/// machine word, for every table.
pub open spec fn positions_fit(state: &CoordinatorState) -> bool {
    forall|table: DatabaseId|
        (#[trigger] published(state, table)) matches Some(manifest) ==> total_positions(
            manifest.shards@,
        ) <= u64::MAX
}

fn observe_table(state: &CoordinatorState, table: DatabaseId, slots: &PerTableCount) -> (seen:
    TableObservation)
    ensures
        observes_table(state, seen, table, *slots),
{
    let mut seen = TableObservation {
        table,
        registered: false,
        pool_workers: 0,
        query_slots_available: 0,
        positions: 0,
        used_rows: 0,
        logical_rows: 0,
        shards: 0,
        sealed_shards: 0,
    };
    match state.table(table) {
        Ok(served) => {
            seen.registered = true;
            seen.pool_workers = served.setup.groups.len() as u64;
            seen.query_slots_available = slots.get(table);
        },
        Err(_) => {},
    }
    if let Some(manifest) = state.manifest() {
        if let Some(published) = manifest.tables.get(table) {
            seen.positions = published.positions;
            seen.used_rows = published.used_rows;
            seen.logical_rows = published.logical_rows;
            seen.shards = published.shards.len() as u64;
            seen.sealed_shards = count_sealed(&published.shards);
        }
    }
    seen
}

fn observe_share(
    state: &CoordinatorState,
    table: DatabaseId,
    name: &str,
    active: u64,
    shares: &mut Vec<WorkerTableObservation>,
)
    requires
        positions_fit(state),
    ensures
        final(shares)@ == old(shares)@ + as_list(share_of(state, table, name@, active)),
{
    proof {
        assert(old(shares)@ + Seq::<WorkerTableObservation>::empty() =~= old(shares)@);
    }
    let served = match state.table(table) {
        Ok(served) => served,
        Err(_) => {
            return ;
        },
    };
    let g: usize = match find_group(&served.setup.groups, name) {
        Some(g) => g,
        None => {
            return ;
        },
    };
    let group = served.setup.groups[g].name.as_str();
    let mut share: (u64, u64) = (0, 0);
    if let Some(manifest) = state.manifest() {
        if let Some(published_table) = manifest.tables.get(table) {
            assert(published(state, table) is Some);
            share = assigned_share(&published_table.shards, group);
        }
    }
    let seen = WorkerTableObservation {
        table,
        index: g as u64,
        assigned_shards: share.0,
        populated_positions: share.1,
        active_shards: active,
    };
    shares.push(seen);
    assert(shares@ =~= old(shares)@ + seq![seen]);
    assert(share_of(state, table, name@, active) == Some(seen));
}

fn observe_groups(
    state: &CoordinatorState,
    table: DatabaseId,
    groups: &mut Vec<WorkerGroupObservation>,
)
    ensures
        group_views(final(groups)@) == group_views(old(groups)@) + all_table_groups(state, table),
{
    let served = match state.table(table) {
        Ok(served) => served,
        Err(_) => {
            assert(group_views(groups@) + Seq::<(DatabaseId, Seq<char>, u64, u64)>::empty()
                =~= group_views(groups@));
            return ;
        },
    };
    let list = &served.setup.groups;
    let mut g: usize = 0;
    assert(group_views(groups@) =~= group_views(old(groups)@) + table_groups(state, table, 0));
    while g < list.len()
        invariant
            g <= list.len(),
            state.served(table) == Some(served.setup),
            *list == served.setup.groups,
            group_views(groups@) == group_views(old(groups)@) + table_groups(
                state,
                table,
                g as int,
            ),
        decreases list.len() - g,
    {
        let mut ready: usize = 0;
        if let Some(snapshot) = state.newest() {
            if let Some(live) = snapshot.tables.get(table) {
                ready = count_ready(&live.ready_groups, list[g].name.as_str());
            }
        }
        let ghost before = groups@;
        let seen = WorkerGroupObservation {
            table,
            name: list[g].name.clone(),
            configured_replicas: list[g].replicas.len() as u64,
            ready_replicas: ready as u64,
        };
        groups.push(seen);
        proof {
            assert(group_views(groups@) =~= group_views(before).push(group_view(seen)));
            assert(group_views(old(groups)@) + table_groups(state, table, g + 1) =~= (group_views(
                old(groups)@,
            ) + table_groups(state, table, g as int)).push(group_view(seen)));
        }
        g = g + 1;
    }
}

fn count_ready(
    groups: &Vec<crate::enhance::activate::ReadyWorkerGroup>,
    name: &str,
) -> (count: usize)
    ensures
        count == ready_in(groups@, name@),
{
    let mut i: usize = 0;
    while i < groups.len()
        invariant
            i <= groups.len(),
            ready_in(groups@, name@) == ready_from(groups@, name@, i as int),
        decreases groups.len() - i,
    {
        if same_text(groups[i].name.as_str(), name) {
            return groups[i].replicas.len();
        }
        i = i + 1;
    }
    0
}

impl CoordinatorState {
    /// Point-in-time view for the metrics. `slots` are the free query slots of
    /// each table; `probes` has one entry per worker, in the order of
    /// [`CoordinatorState::workers`], absent where the probe itself failed.
    pub fn observe(
        &self,
        phase: CoordinatorPhase,
        slots: &PerTableCount,
        probes: &Vec<Option<WorkerProbe>>,
    ) -> (seen: Observation)
        requires
            positions_fit(self),
            probes@.len() == crate::enhance::coordinator::distinct_workers(
                self.pool_replicas(),
            ).len(),
        ensures
            seen.phase == Some(phase),
            seen.retained_generations == self.retained().len(),
            self.retained().len() == 0 ==> seen.anchor_height == 0 && seen.generation == 0
                && seen.ironwood_tree_size == 0,
            self.retained().len() > 0 ==> {
                let newest = self.retained()[0].manifest;
                &&& seen.anchor_height == newest.anchor_height
                &&& seen.generation == newest.generation
                &&& seen.ironwood_tree_size == newest.ironwood_tree_size
            },
            seen.tables@.len() == 3,
            observes_table(self, seen.tables@[0], DatabaseId::Enhance, *slots),
            observes_table(self, seen.tables@[1], DatabaseId::TransparentSpendCold, *slots),
            observes_table(self, seen.tables@[2], DatabaseId::TransparentSpendWarm, *slots),
            ({
                let workers = crate::enhance::coordinator::distinct_workers(self.pool_replicas());
                let order = probed(probes@, probes@.len() as int);
                &&& seen.worker_details@.len() == order.len()
                &&& forall|i: int|
                    0 <= i < order.len() ==> observes_worker(
                        self,
                        #[trigger] seen.worker_details@[i],
                        order[i],
                        workers[order[i]].label(),
                        probes@[order[i]]->0,
                    )
            }),
            group_views(seen.worker_groups@) == all_table_groups(self, DatabaseId::Enhance)
                + all_table_groups(self, DatabaseId::TransparentSpendCold) + all_table_groups(
                self,
                DatabaseId::TransparentSpendWarm,
            ),
    {
        let mut tables: Vec<TableObservation> = Vec::new();
        tables.push(observe_table(self, DatabaseId::Enhance, slots));
        tables.push(observe_table(self, DatabaseId::TransparentSpendCold, slots));
        tables.push(observe_table(self, DatabaseId::TransparentSpendWarm, slots));
        let workers = self.workers();
        let mut worker_details: Vec<WorkerObservation> = Vec::new();
        let mut i: usize = 0;
        while i < probes.len()
            invariant
                i <= probes.len(),
                positions_fit(self),
                workers@ == crate::enhance::coordinator::distinct_workers(self.pool_replicas()),
                probes@.len() == workers@.len(),
                worker_details@.len() == probed(probes@, i as int).len(),
                forall|k: int|
                    0 <= k < worker_details@.len() ==> {
                        let at = probed(probes@, i as int)[k];
                        observes_worker(
                            self,
                            #[trigger] worker_details@[k],
                            at,
                            workers@[at].label(),
                            probes@[at]->0,
                        )
                    },
            decreases probes.len() - i,
        {
            if let Some(probe) = &probes[i] {
                let name = workers[i].name();
                let mut shares: Vec<WorkerTableObservation> = Vec::new();
                observe_share(
                    self,
                    DatabaseId::Enhance,
                    name,
                    probe.active_shards.enhance,
                    &mut shares,
                );
                observe_share(
                    self,
                    DatabaseId::TransparentSpendCold,
                    name,
                    probe.active_shards.cold,
                    &mut shares,
                );
                observe_share(
                    self,
                    DatabaseId::TransparentSpendWarm,
                    name,
                    probe.active_shards.warm,
                    &mut shares,
                );
                assert(shares@ =~= shares_of(self, name@, probe.active_shards));
                let seen = WorkerObservation {
                    name: String::from_str(name),
                    index: i as u64,
                    up: probe.up,
                    generation: probe.generation,
                    total_memory_bytes: probe.total_memory_bytes,
                    available_memory_bytes: probe.available_memory_bytes,
                    process_rss_bytes: probe.process_rss_bytes,
                    tables: shares,
                };
                let ghost before = worker_details@;
                worker_details.push(seen);
                proof {
                    let order = probed(probes@, i + 1);
                    assert(order == probed(probes@, i as int).push(i as int));
                    assert forall|k: int| 0 <= k < worker_details@.len() implies ({
                        let at = order[k];
                        observes_worker(
                            self,
                            #[trigger] worker_details@[k],
                            at,
                            workers@[at].label(),
                            probes@[at]->0,
                        )
                    }) by {
                        if k < before.len() {
                            assert(worker_details@[k] == before[k]);
                            assert(order[k] == probed(probes@, i as int)[k]);
                        }
                    }
                }
            }
            i = i + 1;
        }
        let mut worker_groups: Vec<WorkerGroupObservation> = Vec::new();
        assert(group_views(worker_groups@) =~= Seq::empty());
        observe_groups(self, DatabaseId::Enhance, &mut worker_groups);
        observe_groups(self, DatabaseId::TransparentSpendCold, &mut worker_groups);
        observe_groups(self, DatabaseId::TransparentSpendWarm, &mut worker_groups);
        proof {
            assert(Seq::<(DatabaseId, Seq<char>, u64, u64)>::empty() + all_table_groups(
                self,
                DatabaseId::Enhance,
            ) =~= all_table_groups(self, DatabaseId::Enhance));
        }
        let mut seen = Observation {
            phase: Some(phase),
            anchor_height: 0,
            generation: 0,
            ironwood_tree_size: 0,
            retained_generations: self.retained_count() as u64,
            tables,
            worker_details,
            worker_groups,
        };
        if let Some(manifest) = self.manifest() {
            seen.anchor_height = manifest.anchor_height;
            seen.generation = manifest.generation;
            seen.ironwood_tree_size = manifest.ironwood_tree_size;
        }
        seen
    }
}

/// A count by name is the one that was listed last under the name.
pub proof fn law_the_last_count_under_a_name_counts(entries: Seq<(String, u64)>, name: Seq<char>)
    ensures
        (forall|i: int| 0 <= i < entries.len() ==> (#[trigger] entries[i]).0@ != name)
            ==> named_count(entries, name) == 0,
        forall|i: int|
            0 <= i < entries.len() && (#[trigger] entries[i]).0@ == name && (forall|j: int|
                i < j < entries.len() ==> (#[trigger] entries[j]).0@ != name) ==> named_count(
                entries,
                name,
            ) == entries[i].1,
    decreases entries.len(),
{
    if entries.len() > 0 {
        let head = entries.drop_last();
        let last = entries.len() - 1;
        law_the_last_count_under_a_name_counts(head, name);
        if entries[last].0@ != name {
            if forall|i: int| 0 <= i < entries.len() ==> (#[trigger] entries[i]).0@ != name {
                assert forall|i: int| 0 <= i < head.len() implies (#[trigger] head[i]).0@
                    != name by {
                    assert(head[i] == entries[i]);
                }
            }
            assert forall|i: int|
                0 <= i < entries.len() && (#[trigger] entries[i]).0@ == name && (forall|j: int|
                    i < j < entries.len() ==> (#[trigger] entries[j]).0@ != name) implies named_count(
                entries,
                name,
            ) == entries[i].1 by {
                assert(head[i] == entries[i]);
                assert forall|j: int| i < j < head.len() implies (#[trigger] head[j]).0@
                    != name by {
                    assert(head[j] == entries[j]);
                }
            }
        } else {
            assert forall|i: int|
                0 <= i < entries.len() && (#[trigger] entries[i]).0@ == name && (forall|j: int|
                    i < j < entries.len() ==> (#[trigger] entries[j]).0@ != name) implies named_count(
                entries,
                name,
            ) == entries[i].1 by {
                assert(entries[last].0@ == name);
            }
        }
    }
}

/// The figures of a table's shards: how many are sealed, how many are with a group,
/// how many positions those hold, and how many all hold.
pub proof fn law_figures_count_the_shards(shards: Seq<ShardDescriptor>, group: Seq<char>)
    ensures
        sealed_count(shards) == shards.filter(|shard: ShardDescriptor| shard.sealed).len(),
        assigned_count(shards, group) == shards.filter(
            |shard: ShardDescriptor| shard.worker@ == group,
        ).len(),
        assigned_positions(shards, group) == shards.filter(
            |shard: ShardDescriptor| shard.worker@ == group,
        ).map_values(|shard: ShardDescriptor| shard.populated_positions as nat).fold_left(
            0nat,
            |sum: nat, count: nat| sum + count,
        ),
        total_positions(shards) == shards.map_values(
            |shard: ShardDescriptor| shard.populated_positions as nat,
        ).fold_left(0nat, |sum: nat, count: nat| sum + count),
    decreases shards.len(),
{
    reveal(Seq::filter);
    let sealed = |shard: ShardDescriptor| shard.sealed;
    let own = |shard: ShardDescriptor| shard.worker@ == group;
    let held = |shard: ShardDescriptor| shard.populated_positions as nat;
    let plus = |sum: nat, count: nat| sum + count;
    if shards.len() > 0 {
        let head = shards.drop_last();
        law_figures_count_the_shards(head, group);
        let before = head.filter(own).map_values(held);
        if own(shards.last()) {
            let all = shards.filter(own).map_values(held);
            assert(all.drop_last() =~= before);
            assert(all.last() == held(shards.last()));
            assert(all.fold_left(0nat, plus) == plus(before.fold_left(0nat, plus), all.last()));
        }
        let every = shards.map_values(held);
        assert(every.drop_last() =~= head.map_values(held));
        assert(every.fold_left(0nat, plus) == plus(
            head.map_values(held).fold_left(0nat, plus),
            every.last(),
        ));
    } else {
        assert(shards.filter(own).map_values(held) =~= Seq::empty());
        assert(shards.map_values(held) =~= Seq::empty());
        assert(Seq::<nat>::empty().fold_left(0nat, plus) == 0);
    }
}

/// A replica belongs to the first group that lists it.
pub proof fn law_replicas_belong_to_the_first_group_that_lists_them(
    groups: Seq<WorkerGroup>,
    name: Seq<char>,
    from: int,
)
    requires
        0 <= from,
    ensures
        match group_with_replica(groups, name, from) {
            Some(g) => {
                &&& from <= g < groups.len()
                &&& labels(groups[g].replicas@).contains(name)
                &&& forall|h: int|
                    from <= h < g ==> !labels((#[trigger] groups[h]).replicas@).contains(name)
            },
            None => forall|h: int|
                from <= h < groups.len() ==> !labels((#[trigger] groups[h]).replicas@).contains(
                    name,
                ),
        },
    decreases groups.len() - from,
{
    if from < groups.len() && !labels(groups[from].replicas@).contains(name) {
        law_replicas_belong_to_the_first_group_that_lists_them(groups, name, from + 1);
    }
}

/// A worker's share of a table is that of the group that lists it: the published
/// shards that name the group, and the positions that they hold.
pub proof fn law_shares_are_those_of_the_workers_group(
    state: &CoordinatorState,
    table: DatabaseId,
    name: Seq<char>,
    active: u64,
    g: int,
)
    requires
        state.served(table) is Some,
        state.retained().len() > 0,
        state.retained()[0].manifest.tables.at(table) is Some,
        0 <= g < state.served(table)->0.groups@.len(),
        labels(state.served(table)->0.groups@[g].replicas@).contains(name),
        forall|h: int|
            0 <= h < g ==> !labels((#[trigger] state.served(table)->0.groups@[h]).replicas@).contains(
                name,
            ),
        total_positions(state.retained()[0].manifest.tables.at(table)->0.shards@) <= u64::MAX,
        state.retained()[0].manifest.tables.at(table)->0.shards@.len() <= u64::MAX,
        g <= u64::MAX,
    ensures
        ({
            let group = state.served(table)->0.groups@[g].name@;
            let own = state.retained()[0].manifest.tables.at(table)->0.shards@.filter(
                |shard: ShardDescriptor| shard.worker@ == group,
            );
            share_of(state, table, name, active) matches Some(share) && {
                &&& share.table == table
                &&& share.index == g
                &&& share.assigned_shards == own.len()
                &&& share.populated_positions == own.map_values(
                    |shard: ShardDescriptor| shard.populated_positions as nat,
                ).fold_left(0nat, |sum: nat, count: nat| sum + count)
                &&& share.active_shards == active
            }
        }),
{
    let groups = state.served(table)->0.groups@;
    let shards = state.retained()[0].manifest.tables.at(table)->0.shards@;
    law_replicas_belong_to_the_first_group_that_lists_them(groups, name, 0);
    let at = group_with_replica(groups, name, 0);
    if at is None {
        assert(!labels(groups[g].replicas@).contains(name));
    } else if at->0 > g {
        assert(!labels(groups[g].replicas@).contains(name));
    } else if at->0 < g {
        assert(!labels(groups[at->0].replicas@).contains(name));
    }
    law_figures_count_the_shards(shards, groups[g].name@);
    lemma_share_within_total(shards, groups[g].name@);
}

proof fn lemma_share_within_total(shards: Seq<ShardDescriptor>, group: Seq<char>)
    ensures
        assigned_positions(shards, group) <= total_positions(shards),
        assigned_count(shards, group) <= shards.len(),
    decreases shards.len(),
{
    if shards.len() > 0 {
        lemma_share_within_total(shards.drop_last(), group);
    }
}

/// The workers that are reported are those that were probed, in their order.
pub proof fn law_probed_workers_are_reported(probes: Seq<Option<WorkerProbe>>, n: int)
    requires
        0 <= n <= probes.len(),
    ensures
        probed(probes, n) == Seq::new(n as nat, |i: int| i).filter(|i: int| probes[i] is Some),
    decreases n,
{
    reveal(Seq::filter);
    let some = |i: int| probes[i] is Some;
    let all = Seq::new(n as nat, |i: int| i);
    if n > 0 {
        law_probed_workers_are_reported(probes, n - 1);
        assert(all.drop_last() =~= Seq::new((n - 1) as nat, |i: int| i));
    }
    assert(probed(probes, n) =~= all.filter(some));
}

/// The ready replicas of a group are those of the first ready group of its name.
pub proof fn law_ready_replicas_are_those_of_the_group(
    groups: Seq<crate::enhance::activate::ReadyWorkerGroup>,
    name: Seq<char>,
    from: int,
)
    requires
        0 <= from,
    ensures
        (forall|i: int| from <= i < groups.len() ==> (#[trigger] groups[i]).name@ != name)
            ==> ready_from(groups, name, from) == 0,
        forall|i: int|
            from <= i < groups.len() && (#[trigger] groups[i]).name@ == name && (forall|j: int|
                from <= j < i ==> (#[trigger] groups[j]).name@ != name) ==> ready_from(
                groups,
                name,
                from,
            ) == groups[i].replicas@.len(),
    decreases groups.len() - from,
{
    if from < groups.len() {
        if groups[from].name@ != name {
            law_ready_replicas_are_those_of_the_group(groups, name, from + 1);
        } else {
            assert forall|i: int|
                from <= i < groups.len() && (#[trigger] groups[i]).name@ == name && (forall|j: int|
                    from <= j < i ==> (#[trigger] groups[j]).name@ != name) implies ready_from(
                groups,
                name,
                from,
            ) == groups[i].replicas@.len() by {
                if i > from {
                    assert(groups[from].name@ != name);
                }
            }
        }
    }
}

/// Every group of a served table is reported, with its replicas and how many are
/// ready.
pub proof fn law_every_group_is_reported(state: &CoordinatorState, table: DatabaseId, i: int)
    requires
        state.served(table) is Some,
        0 <= i < state.served(table)->0.groups@.len(),
    ensures
        all_table_groups(state, table).len() == state.served(table)->0.groups@.len(),
        all_table_groups(state, table)[i] == (
            table,
            state.served(table)->0.groups@[i].name@,
            state.served(table)->0.groups@[i].replicas@.len() as u64,
            ready_count(state, table, state.served(table)->0.groups@[i].name@) as u64,
        ),
{
    lemma_table_groups(state, table, state.served(table)->0.groups@.len() as int, i);
}

proof fn lemma_table_groups(state: &CoordinatorState, table: DatabaseId, n: int, i: int)
    requires
        state.served(table) is Some,
        0 <= n <= state.served(table)->0.groups@.len(),
    ensures
        table_groups(state, table, n).len() == n,
        0 <= i < n ==> table_groups(state, table, n)[i] == (
            table,
            state.served(table)->0.groups@[i].name@,
            state.served(table)->0.groups@[i].replicas@.len() as u64,
            ready_count(state, table, state.served(table)->0.groups@[i].name@) as u64,
        ),
    decreases n,
{
    if n > 0 {
        lemma_table_groups(state, table, n - 1, i);
    }
}

} // verus!
