//! The coordinator's state: the tables it serves, the generations it can still
//! answer, and its lifecycle phase.

use vstd::prelude::*;

use crate::digest::{base64_encode, base64_text};
use crate::enhance::activate::{BuiltTable, TableShape, TableSnapshot};
use crate::enhance::setup::{
    check_setups, lemma_valid_setups, setup_valid, setups_issue, setups_valid, TableSetup,
    WorkerTarget,
};
use crate::enhance::status::{health_status, healthy, CoordinatorPhase, HTTP_OK, HTTP_UNAVAILABLE};
use crate::enhance::types::{
    DatabaseId, EnhanceGeneration, GenerationManifest, PerTable, Protocol, TableManifest,
};
use crate::tables::{expanded_seed, setup_seed_bytes};
use crate::text::{list_holds, texts};

verus! {

/// Generations kept answerable, so that a session built against a recent
/// snapshot survives publishes.
pub const RETAINED_GENERATIONS: usize = 8;

/// Default concurrent queries admitted per table pool.
pub const DEFAULT_QUERY_SLOTS: usize = 2;

/// The enhancement table's expanded setup seed.
pub fn enhance_setup_seed_bytes(protocol: &Protocol) -> (bytes: [u8; 32])
    ensures
        bytes@ == expanded_seed(protocol.enhance_setup_seed),
{
    setup_seed_bytes(protocol.enhance_setup_seed)
}

/// The chain state one generation is anchored to.
#[derive(Debug)]
pub struct Anchor {
    pub height: u64,
    /// Hex, display byte order.
    pub hash: String,
}

/// A served table: its placement and how many queries it admits at once.
pub struct TableState {
    pub setup: TableSetup,
    pub query_slots: usize,
}

/// Every table at one anchor. Immutable once published.
pub struct GenerationSnapshot {
    pub manifest: GenerationManifest,
    pub tables: PerTable<TableSnapshot>,
}

/// Whether a generation is answered with the tables that it publishes.
pub open spec fn same_tables(snapshot: GenerationSnapshot) -> bool {
    forall|table: DatabaseId|
        (#[trigger] snapshot.tables.at(table)) is Some <==> snapshot.manifest.tables.at(
            table,
        ) is Some
}

/// All public material of the newest generation.
pub struct EnhanceSession {
    pub generation: EnhanceGeneration,
    pub params: TableShape,
    pub public_params_base64: String,
}

pub struct CoordinatorState {
    protocol: Protocol,
    tables: PerTable<TableState>,
    live: Vec<GenerationSnapshot>,
    phase: CoordinatorPhase,
    non_serving_since: Option<u64>,
}

/// Snapshots of other generations, in order.
pub open spec fn others(snapshots: Seq<GenerationSnapshot>, generation: u64) -> Seq<
    GenerationSnapshot,
>
    decreases snapshots.len(),
{
    if snapshots.len() == 0 {
        Seq::empty()
    } else {
        let rest = others(snapshots.drop_last(), generation);
        if snapshots.last().manifest.generation != generation {
            rest.push(snapshots.last())
        } else {
            rest
        }
    }
}

/// What is retained after a publish: the new generation first, then the
/// previous ones, newest first, as many as are kept.
pub open spec fn retained_after(
    snapshots: Seq<GenerationSnapshot>,
    published: GenerationSnapshot,
) -> Seq<GenerationSnapshot> {
    let all = seq![published] + others(snapshots, published.manifest.generation);
    if all.len() > RETAINED_GENERATIONS {
        all.take(RETAINED_GENERATIONS as int)
    } else {
        all
    }
}

pub open spec fn generations_distinct(snapshots: Seq<GenerationSnapshot>) -> bool {
    forall|i: int, j: int|
        0 <= i < j < snapshots.len() ==> (#[trigger] snapshots[i]).manifest.generation != (
        #[trigger] snapshots[j]).manifest.generation
}

proof fn lemma_others(snapshots: Seq<GenerationSnapshot>, generation: u64)
    ensures
        others(snapshots, generation).len() <= snapshots.len(),
        forall|i: int|
            0 <= i < others(snapshots, generation).len() ==> {
                &&& (#[trigger] others(snapshots, generation)[i]).manifest.generation != generation
                &&& snapshots.contains(others(snapshots, generation)[i])
            },
        generations_distinct(snapshots) ==> generations_distinct(others(snapshots, generation)),
        forall|j: int|
            0 <= j < snapshots.len() && (#[trigger] snapshots[j]).manifest.generation != generation
                ==> others(snapshots, generation).contains(snapshots[j]),
    decreases snapshots.len(),
{
    if snapshots.len() > 0 {
        let head = snapshots.drop_last();
        let rest = others(head, generation);
        let all = others(snapshots, generation);
        lemma_others(head, generation);
        assert forall|i: int| 0 <= i < all.len() implies {
            &&& (#[trigger] all[i]).manifest.generation != generation
            &&& snapshots.contains(all[i])
        } by {
            if i < rest.len() {
                assert(all[i] == rest[i]);
                let j = choose|j: int| 0 <= j < head.len() && head[j] == rest[i];
                assert(snapshots[j] == all[i]);
            } else {
                assert(snapshots[snapshots.len() - 1] == all[i]);
            }
        }
        if generations_distinct(snapshots) {
            assert forall|i: int, j: int| 0 <= i < j < head.len() implies (
            #[trigger] head[i]).manifest.generation != (#[trigger] head[j]).manifest.generation by {
                assert(head[i] == snapshots[i] && head[j] == snapshots[j]);
            }
            assert forall|i: int, j: int| 0 <= i < j < all.len() implies (
            #[trigger] all[i]).manifest.generation != (#[trigger] all[j]).manifest.generation by {
                assert(all[i] == rest[i]);
                if j < rest.len() {
                    assert(all[j] == rest[j]);
                } else {
                    let k = choose|k: int| 0 <= k < head.len() && head[k] == rest[i];
                    assert(snapshots[k] == rest[i]);
                    assert(snapshots[snapshots.len() - 1] == all[j]);
                }
            }
        }
        assert forall|j: int|
            0 <= j < snapshots.len() && (#[trigger] snapshots[j]).manifest.generation
                != generation implies all.contains(snapshots[j]) by {
            if j < head.len() {
                assert(head[j] == snapshots[j]);
                assert(rest.contains(snapshots[j]));
                let k = choose|k: int| 0 <= k < rest.len() && rest[k] == snapshots[j];
                assert(all[k] == snapshots[j]);
            } else {
                assert(all[all.len() - 1] == snapshots[j]);
            }
        }
    }
}

/// Publishing never retains more than the limit, never retains a generation
/// twice, and the published one is first.
pub proof fn law_retention(snapshots: Seq<GenerationSnapshot>, published: GenerationSnapshot)
    requires
        generations_distinct(snapshots),
    ensures
        retained_after(snapshots, published).len() <= RETAINED_GENERATIONS,
        retained_after(snapshots, published).len() > 0,
        retained_after(snapshots, published)[0] == published,
        generations_distinct(retained_after(snapshots, published)),
{
    let generation = published.manifest.generation;
    lemma_others(snapshots, generation);
    let rest = others(snapshots, generation);
    let all = seq![published] + rest;
    let kept = retained_after(snapshots, published);
    assert forall|i: int, j: int| 0 <= i < j < kept.len() implies (
    #[trigger] kept[i]).manifest.generation != (#[trigger] kept[j]).manifest.generation by {
        assert(kept[j] == rest[j - 1]);
        if i > 0 {
            assert(kept[i] == rest[i - 1]);
        }
    }
}

/// Ids of generations.
pub open spec fn ids_of_generations(snapshots: Seq<GenerationSnapshot>) -> Seq<u64> {
    snapshots.map_values(|snapshot: GenerationSnapshot| snapshot.manifest.generation)
}

/// Ids without those that are equal to one.
pub open spec fn ids_without(ids: Seq<u64>, id: u64) -> Seq<u64>
    decreases ids.len(),
{
    if ids.len() == 0 {
        Seq::empty()
    } else if ids.last() == id {
        ids_without(ids.drop_last(), id)
    } else {
        ids_without(ids.drop_last(), id).push(ids.last())
    }
}

proof fn lemma_ids_of_others(snapshots: Seq<GenerationSnapshot>, id: u64)
    ensures
        ids_of_generations(others(snapshots, id)) == ids_without(ids_of_generations(snapshots), id),
    decreases snapshots.len(),
{
    if snapshots.len() == 0 {
        assert(ids_of_generations(others(snapshots, id)) =~= Seq::<u64>::empty());
    } else {
        let head = snapshots.drop_last();
        lemma_ids_of_others(head, id);
        assert(ids_of_generations(snapshots).drop_last() =~= ids_of_generations(head));
        assert(ids_of_generations(others(snapshots, id)) =~= ids_without(
            ids_of_generations(snapshots),
            id,
        ));
    }
}

/// What is retained after a publish: the published generation, then the ones
/// before it in their order and without another of its id, as many as the limit
/// leaves room for.
pub proof fn law_publish_puts_the_newest_first(
    snapshots: Seq<GenerationSnapshot>,
    published: GenerationSnapshot,
)
    ensures
        ({
            let id = published.manifest.generation;
            let all = seq![id] + ids_without(ids_of_generations(snapshots), id);
            ids_of_generations(retained_after(snapshots, published)) == (if all.len()
                <= RETAINED_GENERATIONS {
                all
            } else {
                all.take(RETAINED_GENERATIONS as int)
            })
        }),
{
    let id = published.manifest.generation;
    lemma_ids_of_others(snapshots, id);
    let all = seq![id] + ids_without(ids_of_generations(snapshots), id);
    let kept = ids_of_generations(retained_after(snapshots, published));
    if all.len() <= RETAINED_GENERATIONS {
        assert(kept =~= all);
    } else {
        assert(kept =~= all.take(RETAINED_GENERATIONS as int));
    }
}

/// A generation stays answerable across a publish as long as fewer than the
/// limit are newer than it: the oldest of a full set is the one that goes.
pub proof fn law_previous_generations_survive(
    snapshots: Seq<GenerationSnapshot>,
    published: GenerationSnapshot,
    i: int,
)
    requires
        0 <= i < snapshots.len(),
        i + 1 < RETAINED_GENERATIONS,
        snapshots[i].manifest.generation != published.manifest.generation,
    ensures
        retained_after(snapshots, published).contains(snapshots[i]),
{
    let generation = published.manifest.generation;
    lemma_others_prefix(snapshots, generation, i);
    let rest = others(snapshots, generation);
    let k = choose|k: int| 0 <= k <= i && k < rest.len() && rest[k] == snapshots[i];
    assert(retained_after(snapshots, published)[k + 1] == snapshots[i]);
}

proof fn lemma_others_prefix(snapshots: Seq<GenerationSnapshot>, generation: u64, i: int)
    requires
        0 <= i < snapshots.len(),
        snapshots[i].manifest.generation != generation,
    ensures
        exists|k: int|
            0 <= k <= i && k < others(snapshots, generation).len() && others(
                snapshots,
                generation,
            )[k] == snapshots[i],
    decreases snapshots.len(),
{
    let head = snapshots.drop_last();
    let rest = others(head, generation);
    let all = others(snapshots, generation);
    lemma_others(head, generation);
    if i < head.len() {
        lemma_others_prefix(head, generation, i);
        let k = choose|k: int| 0 <= k <= i && k < rest.len() && rest[k] == head[i];
        assert(all[k] == snapshots[i]);
    } else {
        assert(all[rest.len() as int] == snapshots[i]);
    }
}

/// Once the limit of newer generations has been published, a generation is no
/// longer answerable.
pub proof fn law_eighth_publish_evicts(
    snapshots: Seq<GenerationSnapshot>,
    published: GenerationSnapshot,
)
    requires
        generations_distinct(snapshots),
        snapshots.len() == RETAINED_GENERATIONS,
        forall|i: int|
            0 <= i < snapshots.len() ==> (#[trigger] snapshots[i]).manifest.generation
                != published.manifest.generation,
    ensures
        retained_after(snapshots, published) == seq![published] + snapshots.drop_last(),
{
    lemma_others_all(snapshots, published.manifest.generation);
    assert((seq![published] + snapshots).take(8) =~= seq![published] + snapshots.drop_last());
}

proof fn lemma_others_all(snapshots: Seq<GenerationSnapshot>, generation: u64)
    requires
        forall|i: int|
            0 <= i < snapshots.len() ==> (#[trigger] snapshots[i]).manifest.generation
                != generation,
    ensures
        others(snapshots, generation) == snapshots,
    decreases snapshots.len(),
{
    if snapshots.len() > 0 {
        let head = snapshots.drop_last();
        assert forall|i: int| 0 <= i < head.len() implies (#[trigger] head[i]).manifest.generation
            != generation by {
            assert(head[i] == snapshots[i]);
        }
        lemma_others_all(head, generation);
        assert(snapshots[snapshots.len() - 1].manifest.generation != generation);
        assert(snapshots =~= head.push(snapshots.last()));
    } else {
        assert(others(snapshots, generation) =~= snapshots);
    }
}

/// The setup of a table among those from `from` on.
pub open spec fn placement(setups: Seq<TableSetup>, from: int, table: DatabaseId) -> Option<
    TableSetup,
>
    decreases setups.len() - from,
{
    if from >= setups.len() {
        None
    } else if setups[from].table == table {
        Some(setups[from])
    } else {
        placement(setups, from + 1, table)
    }
}

/// Whether a table's state is the given placement with the given slots.
pub open spec fn placed_as(
    state: Option<TableState>,
    setup: Option<TableSetup>,
    slots: usize,
) -> bool {
    match state {
        Some(state) => setup == Some(state.setup) && state.query_slots == slots,
        None => setup is None,
    }
}

proof fn lemma_placement(setups: Seq<TableSetup>, from: int, table: DatabaseId)
    requires
        setups_valid(setups),
        0 <= from,
    ensures
        placement(setups, from, table) is Some ==> setup_valid(
            placement(setups, from, table)->0,
        ) && placement(setups, from, table)->0.table == table,
    decreases setups.len() - from,
{
    if from < setups.len() {
        if setups[from].table == table {
            lemma_valid_setups(setups, 0, from);
        } else {
            lemma_placement(setups, from + 1, table);
        }
    }
}

/// Health of one served table.
#[derive(Clone, Copy, Debug, PartialEq, Eq, Structural)]
pub struct TableHealth {
    pub shards: usize,
    pub workers: usize,
}

/// What the health route answers.
pub struct HealthReport {
    pub status: u16,
    pub generation: Option<u64>,
    pub retained_generations: usize,
    pub anchor_height: Option<u64>,
    pub ironwood_tree_size: Option<u64>,
    pub tables: PerTable<TableHealth>,
}

/// Replicas of groups, counted.
pub open spec fn replica_count(groups: Seq<crate::enhance::setup::WorkerGroup>) -> nat
    decreases groups.len(),
{
    if groups.len() == 0 {
        0
    } else {
        replica_count(groups.drop_last()) + groups.last().replicas@.len()
    }
}

impl CoordinatorState {
    /// Placement of a served table.
    pub closed spec fn served(&self, table: DatabaseId) -> Option<TableSetup> {
        match self.tables.at(table) {
            Some(state) => Some(state.setup),
            None => None,
        }
    }

    /// Queries a served table admits at once.
    pub closed spec fn slots(&self, table: DatabaseId) -> Option<usize> {
        match self.tables.at(table) {
            Some(state) => Some(state.query_slots),
            None => None,
        }
    }

    /// Retained generations, newest first.
    pub closed spec fn retained(&self) -> Seq<GenerationSnapshot> {
        self.live@
    }

    pub closed spec fn current_phase(&self) -> CoordinatorPhase {
        self.phase
    }

    /// When the coordinator stopped serving, if it has.
    pub closed spec fn idle_since(&self) -> Option<u64> {
        self.non_serving_since
    }

    pub closed spec fn rules(&self) -> Protocol {
        self.protocol
    }

    /// Served tables are placed soundly, retained generations are few and
    /// distinct, and only a serving coordinator is not idle.
    pub open spec fn wf(&self) -> bool {
        &&& forall|table: DatabaseId|
            (#[trigger] self.served(table)) matches Some(setup) ==> setup_valid(setup)
                && setup.table == table
        &&& forall|table: DatabaseId|
            (#[trigger] self.slots(table)) matches Some(slots) ==> slots >= 1
        &&& self.retained().len() <= RETAINED_GENERATIONS
        &&& generations_distinct(self.retained())
        &&& forall|i: int|
            0 <= i < self.retained().len() ==> same_tables(#[trigger] self.retained()[i])
        &&& self.idle_since() is None <==> self.current_phase() is Serving
    }

    /// Tables, retained generations and rules are those of `before`.
    pub open spec fn same_data(&self, before: &CoordinatorState) -> bool {
        &&& forall|table: DatabaseId| #[trigger] self.served(table) == before.served(table)
        &&& forall|table: DatabaseId| #[trigger] self.slots(table) == before.slots(table)
        &&& self.retained() == before.retained()
        &&& self.rules() == before.rules()
    }

    pub fn new(setups: Vec<TableSetup>, protocol: Protocol, now: u64) -> (state: Result<
        CoordinatorState,
        String,
    >)
        ensures
            Self::created(state, setups@, DEFAULT_QUERY_SLOTS, protocol, now),
    {
        Self::with_query_slots(setups, DEFAULT_QUERY_SLOTS, protocol, now)
    }

    /// What creating a coordinator gives: every table of a valid list of
    /// setups is served, nothing is retained, and it counts as syncing.
    pub open spec fn created(
        state: Result<CoordinatorState, String>,
        setups: Seq<TableSetup>,
        query_slots: usize,
        protocol: Protocol,
        now: u64,
    ) -> bool {
        match state {
            Ok(state) => {
                &&& setups_valid(setups)
                &&& state.wf()
                &&& forall|table: DatabaseId|
                    #[trigger] state.served(table) == placement(setups, 0, table)
                &&& forall|table: DatabaseId|
                    (#[trigger] state.served(table)) is Some ==> state.slots(table) == Some(
                        if query_slots == 0 {
                            1usize
                        } else {
                            query_slots
                        },
                    )
                &&& state.retained().len() == 0
                &&& state.current_phase() == (CoordinatorPhase::Syncing {
                    current_height: 0,
                    target_height: 0,
                })
                &&& state.idle_since() == Some(now)
                &&& state.rules() == protocol
            },
            Err(message) => setups_issue(setups) == Some(message@),
        }
    }

    pub fn with_query_slots(
        setups: Vec<TableSetup>,
        query_slots: usize,
        protocol: Protocol,
        now: u64,
    ) -> (state: Result<CoordinatorState, String>)
        ensures
            Self::created(state, setups@, query_slots, protocol, now),
    {
        match check_setups(&setups) {
            Ok(()) => {},
            Err(message) => {
                return Err(message);
            },
        }
        let slots: usize = if query_slots == 0 {
            1
        } else {
            query_slots
        };
        let mut tables: PerTable<TableState> = PerTable::new();
        let mut rest = setups;
        let ghost all = setups@;
        while rest.len() > 0
            invariant
                setups_valid(all),
                rest@ == all.take(rest@.len() as int),
                rest@.len() <= all.len(),
                forall|table: DatabaseId|
                    placed_as(
                        #[trigger] tables.at(table),
                        placement(all, rest@.len() as int, table),
                        slots,
                    ),
            decreases rest.len(),
        {
            let ghost n = rest@.len() - 1;
            let ghost before = tables;
            match rest.pop() {
                Some(setup) => {
                    let table = setup.table;
                    proof {
                        assert(setup == all[n]);
                        lemma_valid_setups(all, 0, n);
                    }
                    tables.insert(table, TableState { setup, query_slots: slots });
                    proof {
                        assert forall|t: DatabaseId| placed_as(
                            #[trigger] tables.at(t),
                            placement(all, n, t),
                            slots,
                        ) by {
                            assert(placed_as(before.at(t), placement(all, n + 1, t), slots));
                        }
                    }
                },
                None => {},
            }
        }
        let state = CoordinatorState {
            protocol,
            tables,
            live: Vec::new(),
            phase: CoordinatorPhase::Syncing { current_height: 0, target_height: 0 },
            non_serving_since: Some(now),
        };
        proof {
            assert forall|table: DatabaseId| #[trigger] state.served(table) == placement(
                all,
                0,
                table,
            ) by {
                assert(placed_as(tables.at(table), placement(all, 0, table), slots));
            }
            assert forall|table: DatabaseId| (#[trigger] state.served(
                table,
            )) is Some implies setup_valid(state.served(table)->0) && state.served(table)->0.table
                == table by {
                lemma_placement(all, 0, table);
            }
            assert forall|table: DatabaseId| (#[trigger] state.slots(table)) is Some implies state.slots(
                table,
            )->0 >= 1 by {
                assert(placed_as(tables.at(table), placement(all, 0, table), slots));
            }
            assert forall|table: DatabaseId| (#[trigger] state.served(
                table,
            )) is Some implies state.slots(table) == Some(
                if query_slots == 0 {
                    1usize
                } else {
                    query_slots
                },
            ) by {
                assert(placed_as(tables.at(table), placement(all, 0, table), slots));
            }
        }
        Ok(state)
    }

    /// Enters a phase at a time. The idle clock starts when serving stops, and
    /// runs through the phases that follow.
    pub fn set_phase(&mut self, phase: CoordinatorPhase, now: u64)
        requires
            old(self).wf(),
        ensures
            final(self).wf(),
            final(self).same_data(old(self)),
            final(self).current_phase() == phase,
            final(self).idle_since() == (if phase is Serving {
                None
            } else if old(self).idle_since() is None {
                Some(now)
            } else {
                old(self).idle_since()
            }),
    {
        let serving: bool = match &phase {
            CoordinatorPhase::Serving => true,
            CoordinatorPhase::Syncing { .. } => false,
            CoordinatorPhase::Building { .. } => false,
            CoordinatorPhase::Failed { .. } => false,
        };
        if serving {
            self.non_serving_since = None;
        } else if self.non_serving_since.is_none() {
            self.non_serving_since = Some(now);
        }
        self.phase = phase;
        proof {
            assert forall|table: DatabaseId| #[trigger] self.served(table) == old(self).served(
                table,
            ) by {}
            assert forall|table: DatabaseId| #[trigger] self.slots(table) == old(self).slots(
                table,
            ) by {}
            assert forall|table: DatabaseId|
                (#[trigger] self.served(table)) is Some implies setup_valid(
                self.served(table)->0,
            ) && self.served(table)->0.table == table by {
                assert(old(self).served(table) == self.served(table));
            }
            assert forall|table: DatabaseId| (#[trigger] self.slots(
                table,
            )) is Some implies self.slots(table)->0 >= 1 by {
                assert(old(self).slots(table) == self.slots(table));
            }
        }
    }

    pub fn phase(&self) -> (phase: &CoordinatorPhase)
        ensures
            *phase == self.current_phase(),
    {
        &self.phase
    }

    /// The served tables, in wire order.
    pub fn tables(&self) -> (tables: Vec<DatabaseId>)
        ensures
            forall|table: DatabaseId|
                tables@.contains(table) <==> (#[trigger] self.served(table)) is Some,
            forall|i: int, j: int|
                0 <= i < j < tables@.len() ==> (#[trigger] tables@[i]).rank() < (
                #[trigger] tables@[j]).rank(),
    {
        let mut tables: Vec<DatabaseId> = Vec::new();
        if self.tables.get(DatabaseId::Enhance).is_some() {
            tables.push(DatabaseId::Enhance);
        }
        let ghost first = tables@;
        if self.tables.get(DatabaseId::TransparentSpendCold).is_some() {
            tables.push(DatabaseId::TransparentSpendCold);
        }
        let ghost second = tables@;
        if self.tables.get(DatabaseId::TransparentSpendWarm).is_some() {
            tables.push(DatabaseId::TransparentSpendWarm);
        }
        proof {
            assert forall|table: DatabaseId| tables@.contains(table) <==> (#[trigger] self.served(
                table,
            )) is Some by {
                if self.served(table) is Some {
                    match table {
                        DatabaseId::Enhance => {
                            assert(tables@[0] == table);
                        },
                        DatabaseId::TransparentSpendCold => {
                            assert(tables@[first.len() as int] == table);
                        },
                        DatabaseId::TransparentSpendWarm => {
                            assert(tables@[second.len() as int] == table);
                        },
                    }
                }
            }
        }
        tables
    }

    /// Placement of a table, or why it cannot be asked.
    pub fn table(&self, table: DatabaseId) -> (state: Result<&TableState, String>)
        ensures
            match state {
                Ok(state) => self.served(table) == Some(state.setup) && self.slots(table) == Some(
                    state.query_slots,
                ),
                Err(message) => {
                    &&& self.served(table) is None
                    &&& message@ == "table "@ + table.wire_name() + " is not served"@
                },
            },
    {
        match self.tables.get(table) {
            Some(state) => Ok(state),
            None => {
                let mut message = String::from_str("table ");
                message.append(table.as_str());
                message.append(" is not served");
                Err(message)
            },
        }
    }

    /// The newest retained generation.
    pub fn newest(&self) -> (snapshot: Option<&GenerationSnapshot>)
        ensures
            match snapshot {
                Some(snapshot) => self.retained().len() > 0 && *snapshot == self.retained()[0],
                None => self.retained().len() == 0,
            },
    {
        if self.live.len() == 0 {
            None
        } else {
            Some(&self.live[0])
        }
    }

    /// Place of a generation among the retained ones, if still answerable.
    pub fn generation_index(&self, generation: u64) -> (index: Option<usize>)
        ensures
            match index {
                Some(index) => {
                    &&& index < self.retained().len()
                    &&& self.retained()[index as int].manifest.generation == generation
                    &&& forall|i: int|
                        0 <= i < index ==> (#[trigger] self.retained()[i]).manifest.generation
                            != generation
                },
                None => forall|i: int|
                    0 <= i < self.retained().len() ==> (
                    #[trigger] self.retained()[i]).manifest.generation != generation,
            },
    {
        let mut i: usize = 0;
        while i < self.live.len()
            invariant
                i <= self.live.len(),
                forall|j: int|
                    0 <= j < i ==> (#[trigger] self.live@[j]).manifest.generation != generation,
            decreases self.live.len() - i,
        {
            if self.live[i].manifest.generation == generation {
                return Some(i);
            }
            i = i + 1;
        }
        None
    }

    /// How many generations are retained.
    pub fn retained_count(&self) -> (count: usize)
        ensures
            count == self.retained().len(),
    {
        self.live.len()
    }

    /// The retained generation at a place.
    pub fn snapshot_at(&self, index: usize) -> (snapshot: &GenerationSnapshot)
        requires
            index < self.retained().len(),
        ensures
            *snapshot == self.retained()[index as int],
    {
        &self.live[index]
    }

    /// The retained generation with this id, if still answerable.
    pub fn generation(&self, generation: u64) -> (snapshot: Option<&GenerationSnapshot>)
        ensures
            match snapshot {
                Some(snapshot) => self.retained().contains(*snapshot)
                    && snapshot.manifest.generation == generation,
                None => forall|i: int|
                    0 <= i < self.retained().len() ==> (
                    #[trigger] self.retained()[i]).manifest.generation != generation,
            },
    {
        match self.generation_index(generation) {
            Some(index) => {
                assert(self.retained()[index as int] == self.live@[index as int]);
                Some(&self.live[index])
            },
            None => None,
        }
    }

    pub fn manifest(&self) -> (manifest: Option<&GenerationManifest>)
        ensures
            match manifest {
                Some(manifest) => self.retained().len() > 0 && *manifest
                    == self.retained()[0].manifest,
                None => self.retained().len() == 0,
            },
    {
        match self.newest() {
            Some(snapshot) => Some(&snapshot.manifest),
            None => None,
        }
    }

    /// All public material for the newest generation, captured from one
    /// retained snapshot so that a publication cannot mix setup epochs.
    pub fn session(&self) -> (session: Option<EnhanceSession>)
        requires
            self.wf(),
            // The encoded parameters fit in memory.
            self.retained().len() > 0 ==> (self.retained()[0].tables.at(
                DatabaseId::Enhance,
            ) matches Some(table) ==> 2 * table.public_params@.len() + 4 <= usize::MAX),
        ensures
            match session {
                Some(session) => {
                    let newest = self.retained()[0];
                    &&& self.retained().len() > 0
                    &&& newest.tables.at(DatabaseId::Enhance) matches Some(table)
                    &&& newest.manifest.tables.at(DatabaseId::Enhance) matches Some(published)
                    &&& session.generation.describes(newest.manifest, published, self.rules())
                    &&& session.params == table.shape
                    &&& session.public_params_base64@ == base64_text(table.public_params@)
                },
                None => self.retained().len() == 0 || self.retained()[0].tables.at(
                    DatabaseId::Enhance,
                ) is None || self.retained()[0].manifest.tables.at(DatabaseId::Enhance) is None,
            },
    {
        match self.newest() {
            None => None,
            Some(snapshot) => match snapshot.tables.get(DatabaseId::Enhance) {
                None => None,
                Some(table) => match snapshot.manifest.public(&self.protocol) {
                    None => None,
                    Some(generation) => Some(
                        EnhanceSession {
                            generation,
                            params: table.shape,
                            public_params_base64: base64_encode(table.public_params.as_slice()),
                        },
                    ),
                },
            },
        }
    }

    /// Every distinct replica across all pools, in first-seen group order.
    pub fn workers(&self) -> (workers: Vec<WorkerTarget>)
        ensures
            workers@ == distinct_workers(self.pool_replicas()),
    {
        let mut workers: Vec<WorkerTarget> = Vec::new();
        let mut seen: Vec<String> = Vec::new();
        assert(texts(seen@) =~= crate::enhance::setup::labels(workers@));
        if let Some(state) = self.tables.get(DatabaseId::Enhance) {
            add_distinct(&state.setup, &mut workers, &mut seen, Ghost(Seq::empty()));
        }
        let ghost first = table_replicas(self.served(DatabaseId::Enhance));
        if let Some(state) = self.tables.get(DatabaseId::TransparentSpendCold) {
            add_distinct(&state.setup, &mut workers, &mut seen, Ghost(first));
        }
        let ghost second = first + table_replicas(self.served(DatabaseId::TransparentSpendCold));
        if let Some(state) = self.tables.get(DatabaseId::TransparentSpendWarm) {
            add_distinct(&state.setup, &mut workers, &mut seen, Ghost(second));
        }
        proof {
            assert(Seq::<WorkerTarget>::empty() + first =~= first);
            assert(first + Seq::<WorkerTarget>::empty() =~= first);
            assert(second + Seq::<WorkerTarget>::empty() =~= second);
        }
        workers
    }

    /// Replicas of all served tables, table by table, group by group.
    pub open spec fn pool_replicas(&self) -> Seq<WorkerTarget> {
        table_replicas(self.served(DatabaseId::Enhance)) + table_replicas(
            self.served(DatabaseId::TransparentSpendCold),
        ) + table_replicas(self.served(DatabaseId::TransparentSpendWarm))
    }

    /// Which of the offered tables a publish covers: those that are served, in
    /// order. There has to be one; publishing then counts as building.
    pub fn begin_publish(&mut self, offered: &Vec<DatabaseId>, anchor_height: u64, now: u64) -> (
    chosen: Result<Vec<usize>, String>)
        requires
            old(self).wf(),
        ensures
            final(self).wf(),
            final(self).same_data(old(self)),
            match chosen {
                Ok(chosen) => {
                    &&& chosen@.len() > 0
                    &&& chosen@.map_values(|i: usize| i as int) == served_offers(
                        old(self),
                        offered@,
                        offered@.len() as int,
                    )
                    &&& final(self).current_phase() == (CoordinatorPhase::Building {
                        anchor_height,
                    })
                    &&& final(self).idle_since() == (if old(self).idle_since() is None {
                        Some(now)
                    } else {
                        old(self).idle_since()
                    })
                },
                Err(message) => {
                    &&& served_offers(old(self), offered@, offered@.len() as int).len() == 0
                    &&& message@ == "nothing to publish"@
                    &&& final(self).current_phase() == old(self).current_phase()
                    &&& final(self).idle_since() == old(self).idle_since()
                },
            },
    {
        let mut chosen: Vec<usize> = Vec::new();
        let mut i: usize = 0;
        assert(chosen@.map_values(|i: usize| i as int) =~= served_offers(old(self), offered@, 0));
        while i < offered.len()
            invariant
                i <= offered.len(),
                *self == *old(self),
                chosen@.map_values(|i: usize| i as int) == served_offers(
                    old(self),
                    offered@,
                    i as int,
                ),
            decreases offered.len() - i,
        {
            let ghost before = chosen@;
            if self.tables.get(offered[i]).is_some() {
                chosen.push(i);
                assert(chosen@.map_values(|i: usize| i as int) =~= before.map_values(
                    |i: usize| i as int,
                ).push(i as int));
                assert(old(self).served(offered@[i as int]) is Some);
            }
            i = i + 1;
        }
        if chosen.len() == 0 {
            assert(chosen@.map_values(|i: usize| i as int).len() == 0);
            return Err(String::from_str("nothing to publish"));
        }
        self.set_phase(CoordinatorPhase::Building { anchor_height }, now);
        Ok(chosen)
    }

    /// The tree size a publish is anchored to: the positions of the enhancement
    /// source where one is published, else that of the newest generation.
    pub fn anchored_tree_size(&self, enhance_positions: Option<u64>) -> (size: u64)
        ensures
            size == (match enhance_positions {
                Some(positions) => positions,
                None => if self.retained().len() > 0 {
                    self.retained()[0].manifest.ironwood_tree_size
                } else {
                    0
                },
            }),
    {
        match enhance_positions {
            Some(positions) => positions,
            None => match self.newest() {
                Some(snapshot) => snapshot.manifest.ironwood_tree_size,
                None => 0,
            },
        }
    }

    /// Swaps in a built generation while keeping previous ones answerable, and
    /// serves it.
    pub fn complete_publish(
        &mut self,
        anchor: Anchor,
        ironwood_tree_size: u64,
        built: PerTable<BuiltTable>,
        now: u64,
    )
        requires
            old(self).wf(),
        ensures
            final(self).wf(),
            forall|table: DatabaseId| #[trigger] final(self).served(table) == old(self).served(table),
            forall|table: DatabaseId| #[trigger] final(self).slots(table) == old(self).slots(table),
            final(self).rules() == old(self).rules(),
            final(self).current_phase() == CoordinatorPhase::Serving,
            final(self).idle_since() is None,
            final(self).retained().len() > 0,
            final(self).retained() == retained_after(
                old(self).retained(),
                final(self).retained()[0],
            ),
            publishes_built(final(self).retained()[0], anchor, ironwood_tree_size, built),
    {
        let generation: u64 = anchor.height;
        let mut manifests: PerTable<TableManifest> = PerTable::new();
        let mut snapshots: PerTable<TableSnapshot> = PerTable::new();
        match built.enhance {
            Some(table) => {
                manifests.insert(DatabaseId::Enhance, table.manifest);
                snapshots.insert(DatabaseId::Enhance, table.snapshot);
            },
            None => {},
        }
        match built.cold {
            Some(table) => {
                manifests.insert(DatabaseId::TransparentSpendCold, table.manifest);
                snapshots.insert(DatabaseId::TransparentSpendCold, table.snapshot);
            },
            None => {},
        }
        match built.warm {
            Some(table) => {
                manifests.insert(DatabaseId::TransparentSpendWarm, table.manifest);
                snapshots.insert(DatabaseId::TransparentSpendWarm, table.snapshot);
            },
            None => {},
        }
        let snapshot = GenerationSnapshot {
            manifest: GenerationManifest {
                anchor_height: anchor.height,
                anchor_block_hash: anchor.hash,
                ironwood_tree_size,
                generation,
                tables: manifests,
            },
            tables: snapshots,
        };
        let ghost was = self.live@;
        let mut i: usize = 0;
        let ghost mut k: int = 0;
        let mut live: Vec<GenerationSnapshot> = Vec::new();
        std::mem::swap(&mut live, &mut self.live);
        assert(live@ =~= others(was.take(0), generation) + was.skip(0));
        while i < live.len()
            invariant
                0 <= k <= was.len(),
                i == others(was.take(k), generation).len(),
                live@ == others(was.take(k), generation) + was.skip(k),
            decreases live.len() - i,
        {
            proof {
                assert(live@[i as int] == was[k]);
                assert(was.take(k + 1).drop_last() =~= was.take(k));
                assert(was.take(k + 1).last() == was[k]);
            }
            if live[i].manifest.generation == generation {
                let _ = live.remove(i);
                proof {
                    assert(live@ =~= others(was.take(k + 1), generation) + was.skip(k + 1));
                    k = k + 1;
                }
            } else {
                proof {
                    assert(live@ =~= others(was.take(k + 1), generation) + was.skip(k + 1));
                    k = k + 1;
                }
                i = i + 1;
            }
        }
        proof {
            assert(k == was.len());
            assert(was.take(k) =~= was);
            assert(live@ =~= others(was, generation));
            law_retention(was, snapshot);
        }
        live.insert(0, snapshot);
        assert(live@ =~= seq![snapshot] + others(was, generation));
        live.truncate(RETAINED_GENERATIONS);
        self.live = live;
        assert(self.live@ =~= retained_after(was, snapshot));
        let ghost middle = *self;
        proof {
            lemma_others(was, generation);
            assert(same_tables(snapshot));
            assert forall|i: int| 0 <= i < self.retained().len() implies same_tables(
                #[trigger] self.retained()[i],
            ) by {
                if i > 0 {
                    let kept = others(was, generation)[i - 1];
                    assert(self.retained()[i] == kept);
                    let j = choose|j: int| 0 <= j < was.len() && was[j] == kept;
                    assert(same_tables(old(self).retained()[j]));
                }
            }
            assert forall|table: DatabaseId|
                (#[trigger] self.served(table)) is Some implies setup_valid(
                self.served(table)->0,
            ) && self.served(table)->0.table == table by {
                assert(old(self).served(table) == self.served(table));
            }
            assert forall|table: DatabaseId| (#[trigger] self.slots(
                table,
            )) is Some implies self.slots(table)->0 >= 1 by {
                assert(old(self).slots(table) == self.slots(table));
            }
        }
        self.set_phase(CoordinatorPhase::Serving, now);
        proof {
            assert forall|table: DatabaseId| #[trigger] self.served(table) == old(self).served(
                table,
            ) by {
                assert(middle.served(table) == old(self).served(table));
            }
            assert forall|table: DatabaseId| #[trigger] self.slots(table) == old(self).slots(
                table,
            ) by {
                assert(middle.slots(table) == old(self).slots(table));
            }
        }
    }

    /// What the health route answers at a time.
    pub fn health(&self, now: u64) -> (report: HealthReport)
        requires
            self.wf(),
            forall|table: DatabaseId|
                (#[trigger] self.served(table)) matches Some(setup) ==> replica_count(
                    setup.groups@,
                ) <= usize::MAX,
        ensures
            report.status == (if healthy(
                self.current_phase(),
                (match self.idle_since() {
                    Some(since) if since < now => (now - since) as u64,
                    _ => 0,
                }),
            ) {
                HTTP_OK
            } else {
                HTTP_UNAVAILABLE
            }),
            report.retained_generations == self.retained().len(),
            self.retained().len() == 0 ==> report.generation is None && report.anchor_height is None
                && report.ironwood_tree_size is None,
            self.retained().len() > 0 ==> report.generation == Some(
                self.retained()[0].manifest.generation,
            ) && report.anchor_height == Some(self.retained()[0].manifest.anchor_height)
                && report.ironwood_tree_size == Some(
                self.retained()[0].manifest.ironwood_tree_size,
            ),
            forall|table: DatabaseId|
                match #[trigger] report.tables.at(table) {
                    Some(health) => {
                        &&& self.served(table) matches Some(setup)
                        &&& health.workers == replica_count(setup.groups@)
                        &&& health.shards == self.published_shards(table)
                    },
                    None => self.served(table) is None,
                },
    {
        let idle: u64 = match self.non_serving_since {
            Some(since) => if since < now {
                now - since
            } else {
                0
            },
            None => 0,
        };
        let mut tables: PerTable<TableHealth> = PerTable::new();
        if let Some(state) = self.tables.get(DatabaseId::Enhance) {
            assert(self.served(DatabaseId::Enhance) is Some);
            tables.insert(DatabaseId::Enhance, self.table_health(DatabaseId::Enhance, state));
        }
        if let Some(state) = self.tables.get(DatabaseId::TransparentSpendCold) {
            assert(self.served(DatabaseId::TransparentSpendCold) is Some);
            tables.insert(
                DatabaseId::TransparentSpendCold,
                self.table_health(DatabaseId::TransparentSpendCold, state),
            );
        }
        if let Some(state) = self.tables.get(DatabaseId::TransparentSpendWarm) {
            assert(self.served(DatabaseId::TransparentSpendWarm) is Some);
            tables.insert(
                DatabaseId::TransparentSpendWarm,
                self.table_health(DatabaseId::TransparentSpendWarm, state),
            );
        }
        let newest = self.newest();
        HealthReport {
            status: health_status(&self.phase, idle),
            generation: match newest {
                Some(snapshot) => Some(snapshot.manifest.generation),
                None => None,
            },
            retained_generations: self.live.len(),
            anchor_height: match newest {
                Some(snapshot) => Some(snapshot.manifest.anchor_height),
                None => None,
            },
            ironwood_tree_size: match newest {
                Some(snapshot) => Some(snapshot.manifest.ironwood_tree_size),
                None => None,
            },
            tables,
        }
    }

    /// Shards of a table in the newest generation.
    pub open spec fn published_shards(&self, table: DatabaseId) -> nat {
        if self.retained().len() == 0 {
            0
        } else {
            match self.retained()[0].manifest.tables.at(table) {
                Some(manifest) => manifest.shards@.len(),
                None => 0,
            }
        }
    }

    fn table_health(&self, table: DatabaseId, state: &TableState) -> (health: TableHealth)
        requires
            replica_count(state.setup.groups@) <= usize::MAX,
        ensures
            health.workers == replica_count(state.setup.groups@),
            health.shards == self.published_shards(table),
    {
        let shards: usize = match self.newest() {
            Some(snapshot) => match snapshot.manifest.tables.get(table) {
                Some(manifest) => manifest.shards.len(),
                None => 0,
            },
            None => 0,
        };
        let groups = &state.setup.groups;
        let mut workers: usize = 0;
        let mut g: usize = 0;
        while g < groups.len()
            invariant
                g <= groups.len(),
                replica_count(groups@) <= usize::MAX,
                workers == replica_count(groups@.take(g as int)),
            decreases groups.len() - g,
        {
            proof {
                assert(groups@.take(g + 1).drop_last() =~= groups@.take(g as int));
                lemma_replica_count_monotonic(groups@, g + 1);
            }
            workers = workers + groups[g].replicas.len();
            g = g + 1;
        }
        assert(groups@.take(g as int) =~= groups@);
        TableHealth { shards, workers }
    }
}

proof fn lemma_replica_count_monotonic(groups: Seq<crate::enhance::setup::WorkerGroup>, n: int)
    requires
        0 <= n <= groups.len(),
    ensures
        replica_count(groups.take(n)) <= replica_count(groups),
    decreases groups.len(),
{
    if n < groups.len() {
        lemma_replica_count_monotonic(groups.drop_last(), n);
        assert(groups.drop_last().take(n) =~= groups.take(n));
    } else {
        assert(groups.take(n) =~= groups);
    }
}

/// Whether a snapshot publishes the built tables at an anchor.
pub open spec fn publishes_built(
    snapshot: GenerationSnapshot,
    anchor: Anchor,
    ironwood_tree_size: u64,
    built: PerTable<BuiltTable>,
) -> bool {
    &&& snapshot.manifest.anchor_height == anchor.height
    &&& snapshot.manifest.anchor_block_hash == anchor.hash
    &&& snapshot.manifest.ironwood_tree_size == ironwood_tree_size
    &&& snapshot.manifest.generation == anchor.height
    &&& forall|table: DatabaseId|
        match #[trigger] built.at(table) {
            Some(table_built) => {
                &&& snapshot.manifest.tables.at(table) == Some(table_built.manifest)
                &&& snapshot.tables.at(table) == Some(table_built.snapshot)
            },
            None => {
                &&& snapshot.manifest.tables.at(table) is None
                &&& snapshot.tables.at(table) is None
            },
        }
}

/// Indices of the first `n` offered tables that are served.
pub open spec fn served_offers(state: &CoordinatorState, offered: Seq<DatabaseId>, n: int) -> Seq<
    int,
>
    decreases n,
{
    if n <= 0 {
        Seq::empty()
    } else {
        let rest = served_offers(state, offered, n - 1);
        if state.served(offered[n - 1]) is Some {
            rest.push(n - 1)
        } else {
            rest
        }
    }
}

/// Replicas of a served table, group by group.
pub open spec fn table_replicas(setup: Option<TableSetup>) -> Seq<WorkerTarget> {
    match setup {
        Some(setup) => group_replicas(setup.groups@),
        None => Seq::empty(),
    }
}

pub open spec fn group_replicas(groups: Seq<crate::enhance::setup::WorkerGroup>) -> Seq<
    WorkerTarget,
>
    decreases groups.len(),
{
    if groups.len() == 0 {
        Seq::empty()
    } else {
        group_replicas(groups.drop_last()) + groups.last().replicas@
    }
}

/// Workers without those whose name came up before.
pub open spec fn distinct_workers(replicas: Seq<WorkerTarget>) -> Seq<WorkerTarget>
    decreases replicas.len(),
{
    if replicas.len() == 0 {
        Seq::empty()
    } else {
        let rest = distinct_workers(replicas.drop_last());
        if crate::enhance::setup::labels(rest).contains(replicas.last().label()) {
            rest
        } else {
            rest.push(replicas.last())
        }
    }
}

fn add_distinct(
    setup: &TableSetup,
    workers: &mut Vec<WorkerTarget>,
    seen: &mut Vec<String>,
    Ghost(earlier): Ghost<Seq<WorkerTarget>>,
)
    requires
        old(workers)@ == distinct_workers(earlier),
        texts(old(seen)@) == crate::enhance::setup::labels(old(workers)@),
    ensures
        final(workers)@ == distinct_workers(earlier + group_replicas(setup.groups@)),
        texts(final(seen)@) == crate::enhance::setup::labels(final(workers)@),
{
    let groups = &setup.groups;
    let mut g: usize = 0;
    assert(earlier + group_replicas(groups@.take(0)) =~= earlier);
    while g < groups.len()
        invariant
            g <= groups.len(),
            workers@ == distinct_workers(earlier + group_replicas(groups@.take(g as int))),
            texts(seen@) == crate::enhance::setup::labels(workers@),
        decreases groups.len() - g,
    {
        let replicas = &groups[g].replicas;
        let ghost before = earlier + group_replicas(groups@.take(g as int));
        let mut r: usize = 0;
        assert(before + replicas@.take(0) =~= before);
        while r < replicas.len()
            invariant
                r <= replicas.len(),
                workers@ == distinct_workers(before + replicas@.take(r as int)),
                texts(seen@) == crate::enhance::setup::labels(workers@),
            decreases replicas.len() - r,
        {
            let replica = &replicas[r];
            proof {
                let longer = before + replicas@.take(r + 1);
                assert(longer.drop_last() =~= before + replicas@.take(r as int));
                assert(longer.last() == *replica);
            }
            let ghost old_workers = workers@;
            let ghost old_seen = seen@;
            if !list_holds(seen, replica.name()) {
                workers.push(replica.copied());
                seen.push(String::from_str(replica.name()));
                assert(texts(seen@) =~= texts(old_seen).push(replica.label()));
                assert(crate::enhance::setup::labels(workers@) =~= crate::enhance::setup::labels(
                    old_workers,
                ).push(replica.label()));
            }
            r = r + 1;
        }
        proof {
            assert(replicas@.take(r as int) =~= replicas@);
            assert(groups@.take(g + 1).drop_last() =~= groups@.take(g as int));
            assert(earlier + group_replicas(groups@.take(g + 1)) =~= before + replicas@);
        }
        g = g + 1;
    }
    assert(groups@.take(g as int) =~= groups@);
}

/// A publish leaves the published generation and, behind it, the others in their
/// order; a generation of the same id is replaced, and only the first eight stay.
pub proof fn law_publish_replaces_and_keeps_eight(
    snapshots: Seq<GenerationSnapshot>,
    published: GenerationSnapshot,
)
    ensures
        ({
            let others = snapshots.filter(
                |snapshot: GenerationSnapshot|
                    snapshot.manifest.generation != published.manifest.generation,
            );
            retained_after(snapshots, published) == seq![published] + others.take(
                if others.len() < 7 {
                    others.len() as int
                } else {
                    7
                },
            )
        }),
{
    let id = published.manifest.generation;
    lemma_others_are_the_rest(snapshots, id);
    let rest = snapshots.filter(
        |snapshot: GenerationSnapshot| snapshot.manifest.generation != id,
    );
    let count = if rest.len() < 7 {
        rest.len() as int
    } else {
        7
    };
    assert(retained_after(snapshots, published) =~= seq![published] + rest.take(count));
}

proof fn lemma_others_are_the_rest(snapshots: Seq<GenerationSnapshot>, id: u64)
    ensures
        others(snapshots, id) == snapshots.filter(
            |snapshot: GenerationSnapshot| snapshot.manifest.generation != id,
        ),
    decreases snapshots.len(),
{
    reveal(Seq::filter);
    let other = |snapshot: GenerationSnapshot| snapshot.manifest.generation != id;
    if snapshots.len() > 0 {
        lemma_others_are_the_rest(snapshots.drop_last(), id);
    }
    assert(others(snapshots, id) =~= snapshots.filter(other));
}

/// A table is placed by the first setup that is for it, and is not served without one.
pub proof fn law_tables_are_placed_by_their_first_setup(
    setups: Seq<TableSetup>,
    from: int,
    table: DatabaseId,
)
    requires
        0 <= from,
    ensures
        match placement(setups, from, table) {
            Some(setup) => exists|i: int|
                {
                    &&& from <= i < setups.len()
                    &&& #[trigger] setups[i] == setup
                    &&& setup.table == table
                    &&& forall|j: int| from <= j < i ==> (#[trigger] setups[j]).table != table
                },
            None => forall|i: int|
                from <= i < setups.len() ==> (#[trigger] setups[i]).table != table,
        },
    decreases setups.len() - from,
{
    if from < setups.len() && setups[from].table != table {
        law_tables_are_placed_by_their_first_setup(setups, from + 1, table);
        if let Some(setup) = placement(setups, from, table) {
            let i = choose|i: int|
                {
                    &&& from + 1 <= i < setups.len()
                    &&& #[trigger] setups[i] == setup
                    &&& setup.table == table
                    &&& forall|j: int| from + 1 <= j < i ==> (#[trigger] setups[j]).table != table
                };
            assert(setups[i] == setup);
        }
    } else if from < setups.len() {
        assert(setups[from] == placement(setups, from, table)->0);
    }
}

/// The replicas of groups are counted one by one, and a replica is among them
/// exactly where a group lists it.
pub proof fn law_group_replicas_are_all_counted(
    groups: Seq<crate::enhance::setup::WorkerGroup>,
    target: WorkerTarget,
)
    ensures
        replica_count(groups) == group_replicas(groups).len(),
        group_replicas(groups).contains(target) <==> exists|g: int|
            0 <= g < groups.len() && (#[trigger] groups[g]).replicas@.contains(target),
    decreases groups.len(),
{
    if groups.len() > 0 {
        let head = groups.drop_last();
        law_group_replicas_are_all_counted(head, target);
        let before = group_replicas(head);
        let own = groups.last().replicas@;
        let all = group_replicas(groups);
        if all.contains(target) {
            let k = all.index_of(target);
            if k < before.len() {
                assert(before[k] == target);
                let g = choose|g: int|
                    0 <= g < head.len() && (#[trigger] head[g]).replicas@.contains(target);
                assert(groups[g].replicas@.contains(target));
            } else {
                assert(own[k - before.len()] == target);
                assert(groups[groups.len() - 1].replicas@.contains(target));
            }
        }
        if exists|g: int|
            0 <= g < groups.len() && (#[trigger] groups[g]).replicas@.contains(target) {
            let g = choose|g: int|
                0 <= g < groups.len() && (#[trigger] groups[g]).replicas@.contains(target);
            if g < head.len() {
                assert(head[g].replicas@.contains(target));
                let k = before.index_of(target);
                assert(all[k] == target);
            } else {
                let k = own.index_of(target);
                assert(all[before.len() + k] == target);
            }
        }
    } else {
        assert(!group_replicas(groups).contains(target));
    }
}

/// Workers are told apart by their labels: every label occurs once, and the worker
/// that stands for it is the first with it.
pub proof fn law_every_worker_is_listed_once(replicas: Seq<WorkerTarget>, r: int)
    requires
        0 <= r < replicas.len(),
    ensures
        crate::enhance::setup::labels(distinct_workers(replicas)).no_duplicates(),
        crate::enhance::setup::labels(distinct_workers(replicas)).contains(replicas[r].label()),
        distinct_workers(replicas).contains(replicas[r]) || exists|q: int|
            0 <= q < r && (#[trigger] replicas[q]).label() == replicas[r].label(),
    decreases replicas.len(),
{
    let head = replicas.drop_last();
    let rest = distinct_workers(head);
    let all = distinct_workers(replicas);
    let names = crate::enhance::setup::labels(rest);
    let last = replicas.last();
    if head.len() > 0 {
        law_every_worker_is_listed_once(
            head,
            if r < head.len() {
                r
            } else {
                0
            },
        );
    }
    if names.contains(last.label()) {
        if r == head.len() {
            let k = names.index_of(last.label());
            assert(rest[k].label() == last.label());
            lemma_distinct_workers_are_replicas(head, k);
            let q = choose|q: int| 0 <= q < head.len() && #[trigger] head[q] == rest[k];
            assert(replicas[q].label() == last.label());
        } else if !rest.contains(head[r]) {
            let q = choose|q: int| 0 <= q < r && (#[trigger] head[q]).label() == head[r].label();
            assert(replicas[q].label() == replicas[r].label());
        }
    } else {
        assert(crate::enhance::setup::labels(all) =~= names.push(last.label()));
        if r == head.len() {
            assert(all[rest.len() as int] == last);
            assert(names.push(last.label())[names.len() as int] == last.label());
        } else {
            let k = names.index_of(head[r].label());
            assert(names.push(last.label())[k] == head[r].label());
            if rest.contains(head[r]) {
                let m = rest.index_of(head[r]);
                assert(all[m] == replicas[r]);
            } else {
                let q = choose|q: int|
                    0 <= q < r && (#[trigger] head[q]).label() == head[r].label();
                assert(replicas[q].label() == replicas[r].label());
            }
        }
    }
}

/// Every distinct worker is one of the replicas.
pub proof fn lemma_distinct_workers_are_replicas(replicas: Seq<WorkerTarget>, k: int)
    requires
        0 <= k < distinct_workers(replicas).len(),
    ensures
        exists|q: int| 0 <= q < replicas.len() && #[trigger] replicas[q] == distinct_workers(
            replicas,
        )[k],
    decreases replicas.len(),
{
    let head = replicas.drop_last();
    let rest = distinct_workers(head);
    if k < rest.len() {
        lemma_distinct_workers_are_replicas(head, k);
        let q = choose|q: int| 0 <= q < head.len() && #[trigger] head[q] == rest[k];
        assert(replicas[q] == distinct_workers(replicas)[k]);
    } else {
        assert(replicas[replicas.len() - 1] == distinct_workers(replicas)[k]);
    }
}

/// The offers that are taken are those of served tables, in the order offered.
pub proof fn law_offers_of_served_tables_are_taken(
    state: &CoordinatorState,
    offered: Seq<DatabaseId>,
    n: int,
)
    requires
        0 <= n <= offered.len(),
    ensures
        served_offers(state, offered, n) == Seq::new(n as nat, |i: int| i).filter(
            |i: int| state.served(offered[i]) is Some,
        ),
    decreases n,
{
    reveal(Seq::filter);
    let taken = |i: int| state.served(offered[i]) is Some;
    let all = Seq::new(n as nat, |i: int| i);
    if n > 0 {
        law_offers_of_served_tables_are_taken(state, offered, n - 1);
        assert(all.drop_last() =~= Seq::new((n - 1) as nat, |i: int| i));
    }
    assert(served_offers(state, offered, n) =~= all.filter(taken));
}

/// Every replica of every served table is in the pool, and nothing else is.
pub proof fn law_the_pool_holds_the_replicas_of_every_table(
    state: &CoordinatorState,
    target: WorkerTarget,
)
    ensures
        state.pool_replicas().contains(target) <==> exists|table: DatabaseId, g: int|
            #![trigger state.served(table)->0.groups@[g]]
            state.served(table) is Some && 0 <= g < state.served(table)->0.groups@.len()
                && state.served(table)->0.groups@[g].replicas@.contains(target),
{
    let a = table_replicas(state.served(DatabaseId::Enhance));
    let b = table_replicas(state.served(DatabaseId::TransparentSpendCold));
    let c = table_replicas(state.served(DatabaseId::TransparentSpendWarm));
    let all = state.pool_replicas();
    lemma_table_replicas(state, DatabaseId::Enhance, target);
    lemma_table_replicas(state, DatabaseId::TransparentSpendCold, target);
    lemma_table_replicas(state, DatabaseId::TransparentSpendWarm, target);
    if all.contains(target) {
        let k = all.index_of(target);
        if k < a.len() {
            assert(a[k] == target);
        } else if k < a.len() + b.len() {
            assert(b[k - a.len()] == target);
        } else {
            assert(c[k - a.len() - b.len()] == target);
        }
    }
    if a.contains(target) {
        assert(all[a.index_of(target)] == target);
    }
    if b.contains(target) {
        assert(all[a.len() + b.index_of(target)] == target);
    }
    if c.contains(target) {
        assert(all[a.len() + b.len() + c.index_of(target)] == target);
    }
    assert forall|table: DatabaseId, g: int|
        #![trigger state.served(table)->0.groups@[g]]
        state.served(table) is Some && 0 <= g < state.served(table)->0.groups@.len()
            && state.served(table)->0.groups@[g].replicas@.contains(target) implies all.contains(
        target,
    ) by {
        match table {
            DatabaseId::Enhance => {},
            DatabaseId::TransparentSpendCold => {},
            DatabaseId::TransparentSpendWarm => {},
        }
    }
}

proof fn lemma_table_replicas(state: &CoordinatorState, table: DatabaseId, target: WorkerTarget)
    ensures
        table_replicas(state.served(table)).contains(target) <==> exists|g: int|
            #![trigger state.served(table)->0.groups@[g]]
            state.served(table) is Some && 0 <= g < state.served(table)->0.groups@.len()
                && state.served(table)->0.groups@[g].replicas@.contains(target),
{
    if let Some(setup) = state.served(table) {
        law_group_replicas_are_all_counted(setup.groups@, target);
    }
}

/// A table's published shards are those of the newest generation, where it has the
/// table.
pub proof fn law_published_shards_are_those_of_the_newest(
    state: &CoordinatorState,
    table: DatabaseId,
)
    ensures
        state.retained().len() > 0 && state.retained()[0].manifest.tables.at(table) is Some
            ==> state.published_shards(table) == state.retained()[0].manifest.tables.at(
            table,
        )->0.shards@.len(),
        state.retained().len() == 0 || state.retained()[0].manifest.tables.at(table) is None
            ==> state.published_shards(table) == 0,
{
}

} // verus!
