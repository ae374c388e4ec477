//! A worker's bookkeeping: which shard runtimes it holds, and which
//! generations it can still answer with them.

use vstd::prelude::*;
use vstd::seq_lib::*;

use crate::digest::{hex_text, sha256};
use crate::enhance::coordinator::RETAINED_GENERATIONS;
use crate::enhance::store::RecordJournal;
use crate::enhance::types::{DatabaseId, PerTable};
use crate::text::{decimal, push_decimal, same_text};

verus! {

/// Default concurrent shard evaluations per worker process.
pub const DEFAULT_EVALUATION_SLOTS: usize = 2;

/// One shard of an assignment, pinned to the digest of its rows.
#[derive(Debug, PartialEq, Eq)]
pub struct ActivateShard {
    pub shard_id: u64,
    pub rows_sha256: String,
}

/// Activates one generation across every table the worker serves. Tables the
/// worker holds no shards of are simply absent.
pub struct ActivateRequest {
    pub generation: u64,
    pub tables: PerTable<Vec<ActivateShard>>,
}

/// What identifies a runtime: table, shard, and the digest of its rows.
/// Preparing the frontier shard again for a new generation must not replace the
/// runtime that the previous generation still answers with.
pub type KeyView = (DatabaseId, u64, Seq<char>);

/// One prepared shard.
#[derive(Debug)]
pub struct Runtime {
    pub table: DatabaseId,
    pub shard_id: u64,
    pub rows_sha256: String,
    pub query_row_start: u64,
    /// When it was prepared, on the worker's own clock.
    pub prepared_at: u64,
}

impl Runtime {
    pub open spec fn key(&self) -> KeyView {
        (self.table, self.shard_id, self.rows_sha256@)
    }
}

/// One answerable generation: per table, the complete sorted assignment.
pub struct ActiveGeneration {
    pub generation: u64,
    pub tables: PerTable<Vec<ActivateShard>>,
}

/// An assignment as a value.
pub open spec fn assignment_view(shards: Seq<ActivateShard>) -> Seq<(u64, Seq<char>)> {
    shards.map_values(|shard: ActivateShard| (shard.shard_id, shard.rows_sha256@))
}

/// The ids of an assignment.
pub open spec fn ids_of(shards: Seq<ActivateShard>) -> Seq<u64> {
    shards.map_values(|shard: ActivateShard| shard.shard_id)
}

/// Ids in strictly increasing order.
pub open spec fn ids_ascending(shards: Seq<ActivateShard>) -> bool {
    forall|i: int, j: int|
        0 <= i < j < shards.len() ==> (#[trigger] shards[i]).shard_id < (
        #[trigger] shards[j]).shard_id
}

/// Whether an id comes up twice.
pub open spec fn repeats_an_id(shards: Seq<ActivateShard>) -> bool {
    exists|i: int, j: int|
        0 <= i < j < shards.len() && (#[trigger] shards[i]).shard_id == (
        #[trigger] shards[j]).shard_id
}

/// Whether a generation's assignment names a runtime.
pub open spec fn names(active: ActiveGeneration, key: KeyView) -> bool {
    active.tables.at(key.0) matches Some(shards) && assignment_view(shards@).contains(
        (key.1, key.2),
    )
}

/// Whether one of the generations names a runtime.
pub open spec fn referenced(active: Seq<ActiveGeneration>, key: KeyView) -> bool {
    exists|g: int| 0 <= g < active.len() && #[trigger] names(active[g], key)
}

/// Whether no two runtimes are the same.
pub open spec fn keys_distinct(runtimes: Seq<Runtime>) -> bool {
    forall|i: int, j: int|
        0 <= i < j < runtimes.len() ==> (#[trigger] runtimes[i]).key() != (
        #[trigger] runtimes[j]).key()
}

/// Whether a generation's tables have sorted assignments of prepared shards.
pub open spec fn assignments_prepared(active: ActiveGeneration, runtimes: Seq<Runtime>) -> bool {
    forall|table: DatabaseId|
        match #[trigger] active.tables.at(table) {
            Some(shards) => shards@.len() > 0 && ids_ascending(shards@) && table_prepared(
                runtimes,
                table,
                shards@,
            ),
            None => true,
        }
}

/// Whether this holds of every generation.
pub open spec fn all_prepared(active: Seq<ActiveGeneration>, runtimes: Seq<Runtime>) -> bool {
    forall|g: int| 0 <= g < active.len() ==> assignments_prepared(#[trigger] active[g], runtimes)
}

/// Whether a runtime is among those held.
pub open spec fn held(runtimes: Seq<Runtime>, key: KeyView) -> bool {
    exists|i: int| 0 <= i < runtimes.len() && (#[trigger] runtimes[i]).key() == key
}

/// The runtimes that a generation still references, in order.
pub open spec fn referenced_only(runtimes: Seq<Runtime>, active: Seq<ActiveGeneration>) -> Seq<
    Runtime,
>
    decreases runtimes.len(),
{
    if runtimes.len() == 0 {
        Seq::empty()
    } else {
        let rest = referenced_only(runtimes.drop_last(), active);
        if referenced(active, runtimes.last().key()) {
            rest.push(runtimes.last())
        } else {
            rest
        }
    }
}

pub open spec fn generations_ascending(active: Seq<ActiveGeneration>) -> bool {
    forall|i: int, j: int|
        0 <= i < j < active.len() ==> (#[trigger] active[i]).generation < (
        #[trigger] active[j]).generation
}

/// Where a generation goes among ascending ones.
pub open spec fn activation_place(active: Seq<ActiveGeneration>, generation: u64) -> int
    decreases active.len(),
{
    if active.len() == 0 || active.last().generation < generation {
        active.len() as int
    } else {
        activation_place(active.drop_last(), generation)
    }
}

/// The generations after one is added: an equal one is replaced, and the
/// oldest goes where there would be too many.
pub open spec fn after_activation(active: Seq<ActiveGeneration>, added: ActiveGeneration) -> Seq<
    ActiveGeneration,
> {
    let place = activation_place(active, added.generation);
    let all = if place < active.len() && active[place].generation == added.generation {
        active.update(place, added)
    } else {
        active.insert(place, added)
    };
    if all.len() > RETAINED_GENERATIONS {
        all.drop_first()
    } else {
        all
    }
}

proof fn lemma_activation_place(active: Seq<ActiveGeneration>, generation: u64)
    requires
        generations_ascending(active),
    ensures
        0 <= activation_place(active, generation) <= active.len(),
        forall|i: int|
            0 <= i < activation_place(active, generation) ==> (#[trigger] active[i]).generation
                < generation,
        forall|i: int|
            activation_place(active, generation) <= i < active.len() ==> (
            #[trigger] active[i]).generation >= generation,
    decreases active.len(),
{
    if active.len() > 0 && active.last().generation >= generation {
        let head = active.drop_last();
        assert forall|i: int, j: int| 0 <= i < j < head.len() implies (
        #[trigger] head[i]).generation < (#[trigger] head[j]).generation by {
            assert(head[i] == active[i] && head[j] == active[j]);
        }
        lemma_activation_place(head, generation);
        let place = activation_place(head, generation);
        assert forall|i: int| 0 <= i < place implies (#[trigger] active[i]).generation
            < generation by {
            assert(head[i] == active[i]);
        }
        assert forall|i: int| place <= i < active.len() implies (#[trigger] active[i]).generation
            >= generation by {
            if i < head.len() {
                assert(head[i] == active[i]);
            }
        }
    } else if active.len() > 0 {
        assert forall|i: int| 0 <= i < active.len() implies (#[trigger] active[i]).generation
            < generation by {
            if i < active.len() - 1 {
                assert(active[i].generation < active[active.len() - 1].generation);
            }
        }
    }
}

/// Activation keeps the generations ascending and few.
pub proof fn law_activation_bounds_generations(
    active: Seq<ActiveGeneration>,
    added: ActiveGeneration,
)
    requires
        generations_ascending(active),
        active.len() <= RETAINED_GENERATIONS,
    ensures
        generations_ascending(after_activation(active, added)),
        after_activation(active, added).len() <= RETAINED_GENERATIONS,
{
    lemma_activation_place(active, added.generation);
    let place = activation_place(active, added.generation);
    let all = if place < active.len() && active[place].generation == added.generation {
        active.update(place, added)
    } else {
        active.insert(place, added)
    };
    assert forall|i: int, j: int| 0 <= i < j < all.len() implies (#[trigger] all[i]).generation < (
    #[trigger] all[j]).generation by {
        if all.len() == active.len() {
            if i != place {
                assert(all[i] == active[i]);
            }
            if j != place {
                assert(all[j] == active[j]);
            }
        } else {
            if i < place {
                assert(all[i] == active[i]);
            } else if i > place {
                assert(all[i] == active[i - 1]);
            }
            if j < place {
                assert(all[j] == active[j]);
            } else if j > place {
                assert(all[j] == active[j - 1]);
            }
        }
    }
}

/// Activation keeps the greatest generations: one that is not kept, whether it
/// was there or is the added one, is below every one of a full set.
pub proof fn law_activation_keeps_the_greatest(
    active: Seq<ActiveGeneration>,
    added: ActiveGeneration,
    generation: ActiveGeneration,
)
    requires
        generations_ascending(active),
        active.len() <= RETAINED_GENERATIONS,
        generation == added || active.contains(generation) && generation.generation
            != added.generation,
        !after_activation(active, added).contains(generation),
    ensures
        after_activation(active, added).len() == RETAINED_GENERATIONS,
        forall|i: int|
            0 <= i < RETAINED_GENERATIONS ==> generation.generation < (
            #[trigger] after_activation(active, added)[i]).generation,
{
    lemma_activation_place(active, added.generation);
    let place = activation_place(active, added.generation);
    let replaced = place < active.len() && active[place].generation == added.generation;
    let all = if replaced {
        active.update(place, added)
    } else {
        active.insert(place, added)
    };
    let after = after_activation(active, added);
    let at = if generation == added {
        place
    } else {
        let k = active.index_of(generation);
        if replaced || k < place {
            k
        } else {
            k + 1
        }
    };
    assert(all[at] == generation);
    if all.len() <= RETAINED_GENERATIONS {
        assert(after[at] == generation);
    } else {
        if at > 0 {
            assert(after[at - 1] == generation);
        }
        assert forall|i: int| 0 <= i < after.len() implies generation.generation < (
        #[trigger] after[i]).generation by {
            assert(after[i] == all[i + 1]);
            if i + 1 < place {
                assert(all[i + 1] == active[i + 1]);
            } else if i + 1 > place {
                assert(all[i + 1] == active[i]);
            }
            if at != place {
                assert(all[0] == active[0]);
            }
        }
    }
}

/// Every generation after an activation is the added one or was there before.
proof fn lemma_after_activation(active: Seq<ActiveGeneration>, added: ActiveGeneration, g: int)
    requires
        generations_ascending(active),
        0 <= g < after_activation(active, added).len(),
    ensures
        after_activation(active, added)[g] == added || exists|h: int|
            0 <= h < active.len() && after_activation(active, added)[g] == active[h],
{
    lemma_activation_place(active, added.generation);
    let place = activation_place(active, added.generation);
    let replaced = place < active.len() && active[place].generation == added.generation;
    let all = if replaced {
        active.update(place, added)
    } else {
        active.insert(place, added)
    };
    let i = if all.len() > RETAINED_GENERATIONS {
        g + 1
    } else {
        g
    };
    assert(after_activation(active, added)[g] == all[i]);
    if i != place {
        if replaced || i < place {
            assert(all[i] == active[i]);
        } else {
            assert(all[i] == active[i - 1]);
        }
    }
}

/// The shards of a table that a request names, sorted.
pub open spec fn is_sorted_copy(sorted: Seq<ActivateShard>, shards: Seq<ActivateShard>) -> bool {
    ids_ascending(sorted) && assignment_view(sorted).to_multiset() == assignment_view(
        shards,
    ).to_multiset()
}

/// The first shard of a sorted assignment that is not prepared.
pub open spec fn first_unprepared(
    runtimes: Seq<Runtime>,
    table: DatabaseId,
    sorted: Seq<ActivateShard>,
    i: int,
) -> Option<int>
    decreases sorted.len() - i,
{
    if i >= sorted.len() {
        None
    } else if !held(runtimes, (table, sorted[i].shard_id, sorted[i].rows_sha256@)) {
        Some(i)
    } else {
        first_unprepared(runtimes, table, sorted, i + 1)
    }
}

/// Why a table's part of a request is refused, if it is.
pub open spec fn table_refusal(
    runtimes: Seq<Runtime>,
    table: DatabaseId,
    shards: Seq<ActivateShard>,
    message: Seq<char>,
) -> bool {
    if repeats_an_id(shards) {
        message == "duplicate active shard in "@ + table.wire_name()
    } else {
        exists|sorted: Seq<ActivateShard>|
            {
                &&& #[trigger] is_sorted_copy(sorted, shards)
                &&& match first_unprepared(runtimes, table, sorted, 0) {
                    Some(i) => message == table.wire_name() + " shard "@ + decimal(
                        sorted[i].shard_id as nat,
                    ) + " with digest "@ + sorted[i].rows_sha256@ + " is not prepared"@,
                    None => false,
                }
            }
    }
}

/// Whether every shard of a table's part is prepared and named once.
pub open spec fn table_prepared(
    runtimes: Seq<Runtime>,
    table: DatabaseId,
    shards: Seq<ActivateShard>,
) -> bool {
    &&& !repeats_an_id(shards)
    &&& forall|i: int|
        0 <= i < shards.len() ==> held(
            runtimes,
            (table, (#[trigger] shards[i]).shard_id, shards[i].rows_sha256@),
        )
}

/// A request's shards of a table, none where it is absent.
pub open spec fn requested(request: ActivateRequest, table: DatabaseId) -> Seq<ActivateShard> {
    match request.tables.at(table) {
        Some(shards) => shards@,
        None => Seq::empty(),
    }
}

/// Sorts a part of a request and checks that it is prepared.
fn checked_part(runtimes: &Vec<Runtime>, table: DatabaseId, shards: &Vec<ActivateShard>) -> (part:
    Result<Vec<ActivateShard>, String>)
    ensures
        match part {
            Ok(sorted) => table_prepared(runtimes@, table, shards@) && is_sorted_copy(
                sorted@,
                shards@,
            ) && table_prepared(runtimes@, table, sorted@) && sorted@.len() == shards@.len(),
            Err(message) => !table_prepared(runtimes@, table, shards@) && table_refusal(
                runtimes@,
                table,
                shards@,
                message@,
            ),
        },
{
    let sorted = match sorted_shards(shards) {
        Some(sorted) => sorted,
        None => {
            let mut message = String::from_str("duplicate active shard in ");
            message.append(table.as_str());
            return Err(message);
        },
    };
    proof {
        lemma_sorted_copy(sorted@, shards@);
    }
    let mut i: usize = 0;
    while i < sorted.len()
        invariant
            i <= sorted.len(),
            is_sorted_copy(sorted@, shards@),
            !repeats_an_id(shards@),
            forall|k: int|
                0 <= k < sorted@.len() ==> assignment_view(shards@).contains(
                    ((#[trigger] sorted@[k]).shard_id, sorted@[k].rows_sha256@),
                ),
            first_unprepared(runtimes@, table, sorted@, 0) == first_unprepared(
                runtimes@,
                table,
                sorted@,
                i as int,
            ),
            forall|k: int|
                0 <= k < i ==> held(
                    runtimes@,
                    (table, (#[trigger] sorted@[k]).shard_id, sorted@[k].rows_sha256@),
                ),
        decreases sorted.len() - i,
    {
        if !holds_runtime(runtimes, table, sorted[i].shard_id, sorted[i].rows_sha256.as_str()) {
            let mut message = String::from_str(table.as_str());
            message.append(" shard ");
            push_decimal(&mut message, sorted[i].shard_id);
            message.append(" with digest ");
            message.append(sorted[i].rows_sha256.as_str());
            message.append(" is not prepared");
            proof {
                assert(first_unprepared(runtimes@, table, sorted@, 0) == Some(i as int));
                let view = assignment_view(shards@);
                let m = choose|m: int|
                    0 <= m < view.len() && view[m] == (
                        sorted@[i as int].shard_id,
                        sorted@[i as int].rows_sha256@,
                    );
                assert(!held(
                    runtimes@,
                    (table, shards@[m].shard_id, shards@[m].rows_sha256@),
                ));
            }
            return Err(message);
        }
        i = i + 1;
    }
    proof {
        assert forall|m: int| 0 <= m < shards@.len() implies held(
            runtimes@,
            (table, (#[trigger] shards@[m]).shard_id, shards@[m].rows_sha256@),
        ) by {
            let item = assignment_view(shards@)[m];
            assert(assignment_view(shards@).contains(item));
            to_multiset_contains(assignment_view(shards@), item);
            to_multiset_contains(assignment_view(sorted@), item);
            let k = choose|k: int|
                0 <= k < assignment_view(sorted@).len() && assignment_view(sorted@)[k] == item;
            assert(held(
                runtimes@,
                (table, sorted@[k].shard_id, sorted@[k].rows_sha256@),
            ));
        }
        lemma_ascending_has_no_repeats(sorted@);
        to_multiset_len(assignment_view(sorted@));
        to_multiset_len(assignment_view(shards@));
    }
    Ok(sorted)
}

proof fn lemma_ascending_has_no_repeats(sorted: Seq<ActivateShard>)
    requires
        ids_ascending(sorted),
    ensures
        !repeats_an_id(sorted),
{
}

proof fn lemma_sorted_copy(sorted: Seq<ActivateShard>, shards: Seq<ActivateShard>)
    requires
        assignment_view(sorted).to_multiset() == assignment_view(shards).to_multiset(),
    ensures
        forall|k: int|
            0 <= k < sorted.len() ==> assignment_view(shards).contains(
                ((#[trigger] sorted[k]).shard_id, sorted[k].rows_sha256@),
            ),
{
    assert forall|k: int| 0 <= k < sorted.len() implies assignment_view(shards).contains(
        ((#[trigger] sorted[k]).shard_id, sorted[k].rows_sha256@),
    ) by {
        let item = assignment_view(sorted)[k];
        assert(assignment_view(sorted).contains(item));
        to_multiset_contains(assignment_view(sorted), item);
        to_multiset_contains(assignment_view(shards), item);
    }
}

/// The shards by id, unless an id comes up twice.
fn sorted_shards(shards: &Vec<ActivateShard>) -> (sorted: Option<Vec<ActivateShard>>)
    ensures
        match sorted {
            Some(sorted) => !repeats_an_id(shards@) && is_sorted_copy(sorted@, shards@),
            None => repeats_an_id(shards@),
        },
{
    let mut sorted: Vec<ActivateShard> = Vec::new();
    let mut n: usize = 0;
    assert(assignment_view(sorted@) =~= assignment_view(shards@.take(0)));
    while n < shards.len()
        invariant
            n <= shards.len(),
            ids_ascending(sorted@),
            assignment_view(sorted@).to_multiset() == assignment_view(
                shards@.take(n as int),
            ).to_multiset(),
            !repeats_an_id(shards@.take(n as int)),
        decreases shards.len() - n,
    {
        let shard = &shards[n];
        let ghost earlier = shards@.take(n as int);
        let mut place: usize = 0;
        while place < sorted.len() && sorted[place].shard_id < shard.shard_id
            invariant
                place <= sorted.len(),
                forall|k: int|
                    0 <= k < place ==> (#[trigger] sorted@[k]).shard_id < shard.shard_id,
            decreases sorted.len() - place,
        {
            place = place + 1;
        }
        if place < sorted.len() && sorted[place].shard_id == shard.shard_id {
            proof {
                lemma_sorted_copy(sorted@, earlier);
                let k = place as int;
                assert(sorted@[k].shard_id == shard.shard_id);
                let view = assignment_view(earlier);
                let m = choose|m: int|
                    0 <= m < view.len() && view[m] == (
                        sorted@[k].shard_id,
                        sorted@[k].rows_sha256@,
                    );
                assert(shards@[m].shard_id == shards@[n as int].shard_id);
            }
            return None;
        }
        let ghost before = sorted@;
        let copy = ActivateShard {
            shard_id: shard.shard_id,
            rows_sha256: shard.rows_sha256.clone(),
        };
        proof {
            assert forall|m: int| 0 <= m < n implies (#[trigger] shards@[m]).shard_id
                != shard.shard_id by {
                let item = assignment_view(earlier)[m];
                assert(assignment_view(earlier).contains(item));
                to_multiset_contains(assignment_view(earlier), item);
                to_multiset_contains(assignment_view(before), item);
                let k = choose|k: int|
                    0 <= k < assignment_view(before).len() && assignment_view(before)[k] == item;
                assert(before[k].shard_id == shards@[m].shard_id);
                if k < place {
                } else if k > place {
                    assert(before[place as int].shard_id < before[k].shard_id);
                }
            }
        }
        sorted.insert(place, copy);
        proof {
            let item = (shard.shard_id, shard.rows_sha256@);
            assert(assignment_view(sorted@) =~= assignment_view(before).insert(place as int, item));
            to_multiset_insert(assignment_view(before), place as int, item);
            assert(shards@.take(n + 1) =~= earlier.push(*shard));
            assert(assignment_view(shards@.take(n + 1)) =~= assignment_view(earlier).push(item));
            to_multiset_build(assignment_view(earlier), item);
            assert forall|i: int, j: int| 0 <= i < j < sorted@.len() implies (
            #[trigger] sorted@[i]).shard_id < (#[trigger] sorted@[j]).shard_id by {
                if i < place {
                    assert(sorted@[i] == before[i]);
                    if j < place {
                        assert(sorted@[j] == before[j]);
                    } else if j > place {
                        assert(sorted@[j] == before[j - 1]);
                    }
                } else {
                    assert(sorted@[j] == before[j - 1]);
                    if i > place {
                        assert(sorted@[i] == before[i - 1]);
                    } else if j - 1 > place {
                        assert(before[place as int].shard_id < before[j - 1].shard_id);
                    }
                }
            }
            let longer = shards@.take(n + 1);
            if repeats_an_id(longer) {
                let (i, j) = choose|i: int, j: int|
                    0 <= i < j < longer.len() && (#[trigger] longer[i]).shard_id == (
                    #[trigger] longer[j]).shard_id;
                if j < n {
                    assert(earlier[i].shard_id == earlier[j].shard_id);
                } else {
                    assert(shards@[i].shard_id == shard.shard_id);
                }
            }
        }
        n = n + 1;
    }
    assert(shards@.take(n as int) =~= shards@);
    Some(sorted)
}

fn holds_runtime(runtimes: &Vec<Runtime>, table: DatabaseId, shard_id: u64, digest: &str) -> (found:
    bool)
    ensures
        found == held(runtimes@, (table, shard_id, digest@)),
{
    let mut i: usize = 0;
    while i < runtimes.len()
        invariant
            i <= runtimes.len(),
            forall|j: int|
                0 <= j < i ==> (#[trigger] runtimes@[j]).key() != (table, shard_id, digest@),
        decreases runtimes.len() - i,
    {
        let runtime = &runtimes[i];
        if runtime.table == table && runtime.shard_id == shard_id && same_text(
            runtime.rows_sha256.as_str(),
            digest,
        ) {
            assert(runtimes@[i as int].key() == (table, shard_id, digest@));
            return true;
        }
        i = i + 1;
    }
    false
}

/// What a worker holds and can answer.
pub struct WorkerState {
    runtimes: Vec<Runtime>,
    active: Vec<ActiveGeneration>,
    evaluation_slots: usize,
}

impl WorkerState {
    /// Prepared shards.
    pub closed spec fn prepared(&self) -> Seq<Runtime> {
        self.runtimes@
    }

    /// Answerable generations, oldest first.
    pub closed spec fn answerable(&self) -> Seq<ActiveGeneration> {
        self.active@
    }

    pub closed spec fn slots(&self) -> usize {
        self.evaluation_slots
    }

    /// No runtime is held twice; generations are few and ascending; and every
    /// shard that a generation can be asked for is prepared.
    pub open spec fn wf(&self) -> bool {
        &&& self.slots() >= 1
        &&& keys_distinct(self.prepared())
        &&& generations_ascending(self.answerable())
        &&& self.answerable().len() <= RETAINED_GENERATIONS
        &&& all_prepared(self.answerable(), self.prepared())
    }

    pub fn new() -> (state: WorkerState)
        ensures
            state.wf(),
            state.prepared().len() == 0,
            state.answerable().len() == 0,
            state.slots() == DEFAULT_EVALUATION_SLOTS,
    {
        WorkerState::with_evaluation_slots(DEFAULT_EVALUATION_SLOTS)
    }

    pub fn with_evaluation_slots(evaluation_slots: usize) -> (state: WorkerState)
        ensures
            state.wf(),
            state.prepared().len() == 0,
            state.answerable().len() == 0,
            state.slots() == (if evaluation_slots == 0 {
                1
            } else {
                evaluation_slots
            }),
    {
        WorkerState {
            runtimes: Vec::new(),
            active: Vec::new(),
            evaluation_slots: if evaluation_slots == 0 {
                1
            } else {
                evaluation_slots
            },
        }
    }

    /// Shard evaluations admitted at once.
    pub fn evaluation_slots(&self) -> (slots: usize)
        ensures
            slots == self.slots(),
    {
        self.evaluation_slots
    }

    /// Whether a runtime for the shard's rows is held at this place of the
    /// global query.
    pub open spec fn cached(&self, key: KeyView, query_row_start: u64) -> bool {
        exists|i: int|
            0 <= i < self.prepared().len() && (#[trigger] self.prepared()[i]).key() == key
                && self.prepared()[i].query_row_start == query_row_start
    }

    /// Whether a shard has to be prepared: not where its runtime is cached.
    /// Rows that do not have the announced digest are refused.
    pub fn prepare_local(
        &self,
        table: DatabaseId,
        shard_id: u64,
        query_row_start: u64,
        rows_sha256: &str,
        rows: &[u8],
    ) -> (build: Result<bool, String>)
        ensures
            match build {
                Ok(build) => {
                    &&& hex_text(sha256(rows@)) == rows_sha256@
                    &&& build == !self.cached((table, shard_id, rows_sha256@), query_row_start)
                },
                Err(message) => {
                    &&& hex_text(sha256(rows@)) != rows_sha256@
                    &&& message@ == "row digest mismatch"@
                },
            },
    {
        let digest = RecordJournal::rows_digest(rows);
        if !same_text(digest.as_str(), rows_sha256) {
            return Err(String::from_str("row digest mismatch"));
        }
        Ok(!self.ensure_local(table, shard_id, query_row_start, rows_sha256))
    }

    /// Whether a shard's runtime is cached.
    pub fn ensure_local(
        &self,
        table: DatabaseId,
        shard_id: u64,
        query_row_start: u64,
        rows_sha256: &str,
    ) -> (cached: bool)
        ensures
            cached == self.cached((table, shard_id, rows_sha256@), query_row_start),
    {
        let mut i: usize = 0;
        while i < self.runtimes.len()
            invariant
                i <= self.runtimes.len(),
                forall|j: int|
                    0 <= j < i ==> !((#[trigger] self.prepared()[j]).key() == (
                        table,
                        shard_id,
                        rows_sha256@,
                    ) && self.prepared()[j].query_row_start == query_row_start),
            decreases self.runtimes.len() - i,
        {
            let runtime = &self.runtimes[i];
            assert(*runtime == self.prepared()[i as int]);
            if runtime.table == table && runtime.shard_id == shard_id && same_text(
                runtime.rows_sha256.as_str(),
                rows_sha256,
            ) && runtime.query_row_start == query_row_start {
                return true;
            }
            i = i + 1;
        }
        false
    }

    /// Holds a runtime that was built or loaded; an equal one is replaced.
    pub fn insert_runtime(&mut self, runtime: Runtime)
        requires
            old(self).wf(),
        ensures
            final(self).wf(),
            final(self).answerable() == old(self).answerable(),
            final(self).slots() == old(self).slots(),
            final(self).prepared() == with_runtime(old(self).prepared(), runtime),
            forall|key: KeyView|
                held(final(self).prepared(), key) <==> #[trigger] held(old(self).prepared(), key)
                    || key == runtime.key(),
    {
        let ghost was = self.runtimes@;
        let ghost key = runtime.key();
        let mut i: usize = 0;
        while i < self.runtimes.len()
            invariant
                i <= self.runtimes.len(),
                *self == *old(self),
                self.wf(),
                was == self.runtimes@,
                key == runtime.key(),
                forall|j: int| 0 <= j < i ==> (#[trigger] was[j]).key() != key,
            decreases self.runtimes.len() - i,
        {
            let held_one = &self.runtimes[i];
            if held_one.table == runtime.table && held_one.shard_id == runtime.shard_id
                && same_text(held_one.rows_sha256.as_str(), runtime.rows_sha256.as_str()) {
                proof {
                    lemma_runtime_place(was, key, i as int);
                }
                self.runtimes[i] = runtime;
                proof {
                    lemma_with_runtime(was, runtime);
                    assert(self.runtimes@ =~= with_runtime(was, runtime));
                    self.lemma_insert_keeps_wf(old(self), runtime);
                }
                return ;
            }
            assert(was[i as int].key() != key);
            i = i + 1;
        }
        proof {
            lemma_runtime_place(was, key, was.len() as int);
        }
        self.runtimes.push(runtime);
        proof {
            lemma_with_runtime(was, runtime);
            assert(self.runtimes@ =~= with_runtime(was, runtime));
            self.lemma_insert_keeps_wf(old(self), runtime);
        }
    }

    proof fn lemma_insert_keeps_wf(&self, before: &WorkerState, runtime: Runtime)
        requires
            before.wf(),
            self.active@ == before.active@,
            self.evaluation_slots == before.evaluation_slots,
            self.runtimes@ == with_runtime(before.runtimes@, runtime),
            forall|key: KeyView|
                held(self.prepared(), key) <==> #[trigger] held(before.prepared(), key) || key
                    == runtime.key(),
            keys_distinct(self.prepared()),
        ensures
            self.wf(),
    {
        assert forall|g: int| 0 <= g < self.answerable().len() implies assignments_prepared(
            #[trigger] self.answerable()[g],
            self.prepared(),
        ) by {
            let active = before.answerable()[g];
            assert(assignments_prepared(active, before.prepared()));
            assert forall|table: DatabaseId|
                match #[trigger] active.tables.at(table) {
                    Some(shards) => shards@.len() > 0 && ids_ascending(shards@) && table_prepared(
                        self.prepared(),
                        table,
                        shards@,
                    ),
                    None => true,
                } by {
                if active.tables.at(table) is Some {
                    let list = active.tables.at(table)->0@;
                    assert forall|i: int| 0 <= i < list.len() implies held(
                        self.prepared(),
                        (table, (#[trigger] list[i]).shard_id, list[i].rows_sha256@),
                    ) by {
                        assert(held(
                            before.prepared(),
                            (table, list[i].shard_id, list[i].rows_sha256@),
                        ));
                    }
                }
            }
        }
    }

    /// Activates a generation and evicts every runtime that no retained
    /// generation references, so that memory holds exactly the shards that can
    /// still be asked. A refused request changes nothing.
    pub fn activate_local(&mut self, request: &ActivateRequest) -> (done: Result<(), String>)
        requires
            old(self).wf(),
        ensures
            final(self).wf(),
            final(self).slots() == old(self).slots(),
            ({
                let nothing = forall|table: DatabaseId|
                    (#[trigger] requested(*request, table)).len() == 0;
                let all_prepared = forall|table: DatabaseId|
                    table_prepared(
                        old(self).prepared(),
                        table,
                        #[trigger] requested(*request, table),
                    );
                match done {
                    Ok(()) => {
                        &&& !nothing && all_prepared
                        &&& exists|added: ActiveGeneration| #[trigger]
                            is_activation(added, *request) && final(self).answerable()
                                == after_activation(old(self).answerable(), added)
                        &&& final(self).prepared() == referenced_only(
                            old(self).prepared(),
                            final(self).answerable(),
                        )
                        &&& forall|key: KeyView|
                            held(final(self).prepared(), key) <==> #[trigger] referenced(
                                final(self).answerable(),
                                key,
                            )
                    },
                    Err(message) => {
                        &&& final(self).prepared() == old(self).prepared()
                        &&& final(self).answerable() == old(self).answerable()
                        &&& if nothing {
                            message@ == "an active generation needs at least one shard"@
                        } else {
                            exists|table: DatabaseId|
                                {
                                    &&& !table_prepared(
                                        old(self).prepared(),
                                        table,
                                        #[trigger] requested(*request, table),
                                    )
                                    &&& forall|earlier: DatabaseId|
                                        earlier.rank() < table.rank() ==> table_prepared(
                                            old(self).prepared(),
                                            earlier,
                                            #[trigger] requested(*request, earlier),
                                        )
                                    &&& table_refusal(
                                        old(self).prepared(),
                                        table,
                                        requested(*request, table),
                                        message@,
                                    )
                                }
                        }
                    },
                }
            }),
    {
        let empty = empty_part(&request.tables.enhance) && empty_part(&request.tables.cold)
            && empty_part(&request.tables.warm);
        proof {
            assert(requested(*request, DatabaseId::Enhance).len() == 0
                || !(forall|table: DatabaseId| (#[trigger] requested(*request, table)).len() == 0));
            assert(requested(*request, DatabaseId::TransparentSpendCold).len() == 0
                || !(forall|table: DatabaseId| (#[trigger] requested(*request, table)).len() == 0));
            assert(requested(*request, DatabaseId::TransparentSpendWarm).len() == 0
                || !(forall|table: DatabaseId| (#[trigger] requested(*request, table)).len() == 0));
        }
        if empty {
            return Err(String::from_str("an active generation needs at least one shard"));
        }
        let ghost prepared = self.runtimes@;
        let mut tables: PerTable<Vec<ActivateShard>> = PerTable::new();
        match self.part_for(DatabaseId::Enhance, &request.tables.enhance) {
            Ok(Some(part)) => {
                tables.insert(DatabaseId::Enhance, part);
            },
            Ok(None) => {},
            Err(message) => {
                assert(!table_prepared(
                    prepared,
                    DatabaseId::Enhance,
                    requested(*request, DatabaseId::Enhance),
                ));
                return Err(message);
            },
        }
        match self.part_for(DatabaseId::TransparentSpendCold, &request.tables.cold) {
            Ok(Some(part)) => {
                tables.insert(DatabaseId::TransparentSpendCold, part);
            },
            Ok(None) => {},
            Err(message) => {
                assert(!table_prepared(
                    prepared,
                    DatabaseId::TransparentSpendCold,
                    requested(*request, DatabaseId::TransparentSpendCold),
                ));
                return Err(message);
            },
        }
        match self.part_for(DatabaseId::TransparentSpendWarm, &request.tables.warm) {
            Ok(Some(part)) => {
                tables.insert(DatabaseId::TransparentSpendWarm, part);
            },
            Ok(None) => {},
            Err(message) => {
                assert(!table_prepared(
                    prepared,
                    DatabaseId::TransparentSpendWarm,
                    requested(*request, DatabaseId::TransparentSpendWarm),
                ));
                return Err(message);
            },
        }
        let added = ActiveGeneration { generation: request.generation, tables };
        assert(is_activation(added, *request));
        proof {
            assert forall|table: DatabaseId| table_prepared(
                prepared,
                table,
                #[trigger] requested(*request, table),
            ) by {}
        }
        let ghost was = self.active@;
        self.add_generation(added);
        proof {
            law_activation_bounds_generations(was, added);
            lemma_activation_place(was, added.generation);
            let now = self.active@;
            assert(assignments_prepared(added, prepared));
            assert forall|g: int| 0 <= g < now.len() implies assignments_prepared(
                #[trigger] now[g],
                prepared,
            ) by {
                lemma_after_activation(was, added, g);
                if now[g] != added {
                    let h = choose|h: int| 0 <= h < was.len() && now[g] == was[h];
                    assert(assignments_prepared(was[h], prepared));
                }
            }
        }
        self.evict();
        Ok(())
    }

    fn part_for(&self, table: DatabaseId, part: &Option<Vec<ActivateShard>>) -> (checked: Result<
        Option<Vec<ActivateShard>>,
        String,
    >)
        ensures
            ({
                let shards = match part {
                    Some(shards) => shards@,
                    None => Seq::<ActivateShard>::empty(),
                };
                match checked {
                    Ok(Some(sorted)) => {
                        &&& table_prepared(self.prepared(), table, shards)
                        &&& table_prepared(self.prepared(), table, sorted@)
                        &&& is_sorted_copy(sorted@, shards)
                        &&& shards.len() > 0
                        &&& sorted@.len() > 0
                    },
                    Ok(None) => shards.len() == 0 && table_prepared(self.prepared(), table, shards),
                    Err(message) => !table_prepared(self.prepared(), table, shards)
                        && table_refusal(self.prepared(), table, shards, message@),
                }
            }),
    {
        match part {
            None => Ok(None),
            Some(shards) => match checked_part(&self.runtimes, table, shards) {
                Ok(sorted) => {
                    if sorted.len() > 0 {
                        Ok(Some(sorted))
                    } else {
                        Ok(None)
                    }
                },
                Err(message) => Err(message),
            },
        }
    }

    fn add_generation(&mut self, added: ActiveGeneration)
        requires
            generations_ascending(old(self).answerable()),
            old(self).answerable().len() <= RETAINED_GENERATIONS,
        ensures
            final(self).answerable() == after_activation(old(self).answerable(), added),
            final(self).prepared() == old(self).prepared(),
            final(self).slots() == old(self).slots(),
    {
        let ghost was = self.active@;
        let mut place: usize = self.active.len();
        assert(was.take(place as int) =~= was);
        while place > 0 && self.active[place - 1].generation >= added.generation
            invariant
                *self == *old(self),
                was == self.active@,
                place <= self.active.len(),
                activation_place(was, added.generation) == activation_place(
                    was.take(place as int),
                    added.generation,
                ),
            decreases place,
        {
            assert(was.take(place as int).drop_last() =~= was.take(place - 1));
            place = place - 1;
        }
        proof {
            assert(place > 0 ==> was.take(place as int).last() == was[place - 1]);
            assert(activation_place(was, added.generation) == place);
        }
        if place < self.active.len() && self.active[place].generation == added.generation {
            self.active[place] = added;
            assert(self.active@ =~= was.update(place as int, added));
        } else {
            self.active.insert(place, added);
            assert(self.active@ =~= was.insert(place as int, added));
        }
        if self.active.len() > RETAINED_GENERATIONS {
            let ghost all = self.active@;
            let _ = self.active.remove(0);
            assert(self.active@ =~= all.drop_first());
        }
    }

    fn evict(&mut self)
        requires
            old(self).slots() >= 1,
            keys_distinct(old(self).prepared()),
            generations_ascending(old(self).answerable()),
            old(self).answerable().len() <= RETAINED_GENERATIONS,
            all_prepared(old(self).answerable(), old(self).prepared()),
        ensures
            final(self).wf(),
            final(self).answerable() == old(self).answerable(),
            final(self).slots() == old(self).slots(),
            final(self).prepared() == referenced_only(
                old(self).prepared(),
                old(self).answerable(),
            ),
            forall|key: KeyView|
                held(final(self).prepared(), key) <==> #[trigger] referenced(
                    final(self).answerable(),
                    key,
                ),
    {
        let ghost was = self.runtimes@;
        let ghost active = self.active@;
        let mut i: usize = 0;
        let ghost mut k: int = 0;
        let mut runtimes: Vec<Runtime> = Vec::new();
        std::mem::swap(&mut runtimes, &mut self.runtimes);
        assert(runtimes@ =~= referenced_only(was.take(0), active) + was.skip(0));
        while i < runtimes.len()
            invariant
                0 <= k <= was.len(),
                self.active@ == active,
                self.evaluation_slots == old(self).evaluation_slots,
                i == referenced_only(was.take(k), active).len(),
                runtimes@ == referenced_only(was.take(k), active) + was.skip(k),
            decreases runtimes.len() - i,
        {
            proof {
                assert(runtimes@[i as int] == was[k]);
                assert(was.take(k + 1).drop_last() =~= was.take(k));
                assert(was.take(k + 1).last() == was[k]);
            }
            if references(&self.active, &runtimes[i]) {
                proof {
                    assert(runtimes@ =~= referenced_only(was.take(k + 1), active) + was.skip(
                        k + 1,
                    ));
                    k = k + 1;
                }
                i = i + 1;
            } else {
                let _ = runtimes.remove(i);
                proof {
                    assert(runtimes@ =~= referenced_only(was.take(k + 1), active) + was.skip(
                        k + 1,
                    ));
                    k = k + 1;
                }
            }
        }
        proof {
            assert(k == was.len());
            assert(was.take(k) =~= was);
            assert(runtimes@ =~= referenced_only(was, active));
            lemma_referenced_only(was, active);
        }
        self.runtimes = runtimes;
        proof {
            let kept = self.runtimes@;
            assert forall|key: KeyView| held(kept, key) <==> #[trigger] referenced(active, key) by {
                if referenced(active, key) {
                    let g = choose|g: int| 0 <= g < active.len() && #[trigger] names(active[g], key);
                    let shards = active[g].tables.at(key.0)->0@;
                    assert(assignments_prepared(active[g], was));
                    assert(table_prepared(was, key.0, shards));
                    let m = choose|m: int|
                        0 <= m < assignment_view(shards).len() && assignment_view(shards)[m] == (
                            key.1,
                            key.2,
                        );
                    assert(held(was, (key.0, shards[m].shard_id, shards[m].rows_sha256@)));
                    assert(held(kept, key));
                }
            }
            assert forall|g: int| 0 <= g < active.len() implies assignments_prepared(
                #[trigger] active[g],
                kept,
            ) by {
                assert(assignments_prepared(active[g], was));
                assert forall|table: DatabaseId|
                    match #[trigger] active[g].tables.at(table) {
                        Some(shards) => shards@.len() > 0 && ids_ascending(shards@)
                            && table_prepared(kept, table, shards@),
                        None => true,
                    } by {
                    let part = active[g].tables.at(table);
                    if part is Some {
                        let shards = part->0@;
                        assert forall|m: int| 0 <= m < shards.len() implies held(
                            kept,
                            (table, (#[trigger] shards[m]).shard_id, shards[m].rows_sha256@),
                        ) by {
                            let key = (table, shards[m].shard_id, shards[m].rows_sha256@);
                            assert(assignment_view(shards)[m] == (key.1, key.2));
                            assert(names(active[g], key));
                            assert(referenced(active, key));
                        }
                    }
                }
            }
        }
    }

    /// The runtimes to evaluate a request with, one per requested shard, in
    /// the order they were asked for. A request has to cover the complete
    /// assignment of a generation that is still answerable.
    pub fn evaluate_local(&self, table: DatabaseId, generation: u64, shard_ids: &Vec<u64>) -> (plan:
        Result<Vec<String>, String>)
        requires
            self.wf(),
        ensures
            ({
                let active = find_active(self.answerable(), generation, 0);
                match plan {
                    Ok(digests) => {
                        &&& active matches Some(g)
                        &&& self.answerable()[g].tables.at(table) matches Some(shards)
                        &&& shard_ids@.to_multiset() == ids_of(shards@).to_multiset()
                        &&& digests@.len() == shard_ids@.len()
                        &&& forall|i: int|
                            0 <= i < shard_ids@.len() ==> {
                                &&& assignment_view(shards@).contains(
                                    (shard_ids@[i], (#[trigger] digests@[i])@),
                                )
                                &&& held(self.prepared(), (table, shard_ids@[i], digests@[i]@))
                            }
                    },
                    Err(message) => match active {
                        None => message@ == "generation mismatch"@,
                        Some(g) => match self.answerable()[g].tables.at(table) {
                            None => message@ == "generation has no "@ + table.wire_name()
                                + " shards on this worker"@,
                            Some(shards) => {
                                &&& shard_ids@.to_multiset() != ids_of(shards@).to_multiset()
                                &&& message@
                                    == "request does not cover the complete active shard assignment"@
                            },
                        },
                    },
                }
            }),
    {
        let g: usize = match self.find_generation(generation) {
            Some(g) => g,
            None => {
                return Err(String::from_str("generation mismatch"));
            },
        };
        let shards = match self.active[g].tables.get(table) {
            Some(shards) => shards,
            None => {
                let mut message = String::from_str("generation has no ");
                message.append(table.as_str());
                message.append(" shards on this worker");
                return Err(message);
            },
        };
        proof {
            assert(self.answerable()[g as int].tables.at(table) == Some(*shards));
            assert(assignments_prepared(self.answerable()[g as int], self.prepared()));
        }
        if !covers_assignment(shard_ids, shards) {
            return Err(
                String::from_str("request does not cover the complete active shard assignment"),
            );
        }
        let mut digests: Vec<String> = Vec::new();
        let mut i: usize = 0;
        while i < shard_ids.len()
            invariant
                i <= shard_ids.len(),
                shard_ids@.to_multiset() == ids_of(shards@).to_multiset(),
                table_prepared(self.prepared(), table, shards@),
                digests@.len() == i,
                forall|k: int|
                    0 <= k < i ==> {
                        &&& assignment_view(shards@).contains(
                            (shard_ids@[k], (#[trigger] digests@[k])@),
                        )
                        &&& held(self.prepared(), (table, shard_ids@[k], digests@[k]@))
                    },
            decreases shard_ids.len() - i,
        {
            let at: usize = place_of_id(shards, shard_ids[i], Ghost(shard_ids@), Ghost(i as int));
            proof {
                let shard = shards@[at as int];
                assert(assignment_view(shards@)[at as int] == (shard_ids@[i as int], shard.rows_sha256@));
                assert(held(self.prepared(), (table, shard.shard_id, shard.rows_sha256@)));
            }
            digests.push(shards[at].rows_sha256.clone());
            i = i + 1;
        }
        Ok(digests)
    }

    fn find_generation(&self, generation: u64) -> (found: Option<usize>)
        ensures
            match found {
                Some(g) => find_active(self.answerable(), generation, 0) == Some(g as int) && g
                    < self.answerable().len(),
                None => find_active(self.answerable(), generation, 0) is None,
            },
    {
        let mut i: usize = 0;
        while i < self.active.len()
            invariant
                i <= self.active.len(),
                find_active(self.answerable(), generation, 0) == find_active(
                    self.answerable(),
                    generation,
                    i as int,
                ),
            decreases self.active.len() - i,
        {
            if self.active[i].generation == generation {
                return Some(i);
            }
            i = i + 1;
        }
        None
    }

    /// The most recently prepared runtime of a shard, by its digest.
    pub fn crs_local(&self, table: DatabaseId, shard_id: u64) -> (digest: Result<String, String>)
        ensures
            match digest {
                Ok(digest) => exists|i: int|
                    {
                        &&& 0 <= i < self.prepared().len()
                        &&& (#[trigger] self.prepared()[i]).key() == (table, shard_id, digest@)
                        &&& forall|j: int|
                            0 <= j < self.prepared().len() && (
                            #[trigger] self.prepared()[j]).table == table
                                && self.prepared()[j].shard_id == shard_id
                                ==> self.prepared()[j].prepared_at
                                <= self.prepared()[i].prepared_at
                    },
                Err(message) => {
                    &&& message@ == "shard is not prepared"@
                    &&& forall|j: int|
                        0 <= j < self.prepared().len() ==> !((
                        #[trigger] self.prepared()[j]).table == table
                            && self.prepared()[j].shard_id == shard_id)
                },
            },
    {
        let mut best: Option<usize> = None;
        let mut i: usize = 0;
        while i < self.runtimes.len()
            invariant
                i <= self.runtimes.len(),
                match best {
                    Some(b) => {
                        &&& b < i
                        &&& self.runtimes@[b as int].table == table
                        &&& self.runtimes@[b as int].shard_id == shard_id
                        &&& forall|j: int|
                            0 <= j < i && (#[trigger] self.runtimes@[j]).table == table
                                && self.runtimes@[j].shard_id == shard_id
                                ==> self.runtimes@[j].prepared_at
                                <= self.runtimes@[b as int].prepared_at
                    },
                    None => forall|j: int|
                        0 <= j < i ==> !((#[trigger] self.runtimes@[j]).table == table
                            && self.runtimes@[j].shard_id == shard_id),
                },
            decreases self.runtimes.len() - i,
        {
            if self.runtimes[i].table == table && self.runtimes[i].shard_id == shard_id {
                best = match best {
                    Some(b) => if self.runtimes[b].prepared_at <= self.runtimes[i].prepared_at {
                        Some(i)
                    } else {
                        Some(b)
                    },
                    None => Some(i),
                };
            }
            i = i + 1;
        }
        match best {
            Some(b) => {
                assert(self.prepared()[b as int].key() == (
                    table,
                    shard_id,
                    self.runtimes@[b as int].rows_sha256@,
                ));
                Ok(self.runtimes[b].rows_sha256.clone())
            },
            None => Err(String::from_str("shard is not prepared")),
        }
    }

    /// Runtimes currently held.
    pub fn cached_shard_count(&self) -> (count: usize)
        ensures
            count == self.prepared().len(),
    {
        self.runtimes.len()
    }

    /// The newest answerable generation.
    pub fn newest(&self) -> (active: Option<&ActiveGeneration>)
        ensures
            match active {
                Some(active) => self.answerable().len() > 0 && *active == self.answerable().last(),
                None => self.answerable().len() == 0,
            },
    {
        if self.active.len() == 0 {
            None
        } else {
            Some(&self.active[self.active.len() - 1])
        }
    }
}

/// The first generation with this id.
pub open spec fn find_active(active: Seq<ActiveGeneration>, generation: u64, from: int) -> Option<
    int,
>
    decreases active.len() - from,
{
    if from >= active.len() {
        None
    } else if active[from].generation == generation {
        Some(from)
    } else {
        find_active(active, generation, from + 1)
    }
}

/// Whether a generation is the activation of a request: its shards per table,
/// sorted, tables without any left out.
pub open spec fn is_activation(added: ActiveGeneration, request: ActivateRequest) -> bool {
    &&& added.generation == request.generation
    &&& forall|table: DatabaseId|
        match #[trigger] added.tables.at(table) {
            Some(sorted) => is_sorted_copy(sorted@, requested(request, table)) && sorted@.len() > 0,
            None => requested(request, table).len() == 0,
        }
}

fn empty_part(part: &Option<Vec<ActivateShard>>) -> (empty: bool)
    ensures
        empty == (match part {
            Some(shards) => shards@.len() == 0,
            None => true,
        }),
{
    match part {
        Some(shards) => shards.len() == 0,
        None => true,
    }
}

fn references(active: &Vec<ActiveGeneration>, runtime: &Runtime) -> (found: bool)
    ensures
        found == referenced(active@, runtime.key()),
{
    let mut g: usize = 0;
    while g < active.len()
        invariant
            g <= active.len(),
            forall|h: int| 0 <= h < g ==> !(#[trigger] names(active@[h], runtime.key())),
        decreases active.len() - g,
    {
        if let Some(shards) = active[g].tables.get(runtime.table) {
            let mut i: usize = 0;
            while i < shards.len()
                invariant
                    i <= shards.len(),
                    g < active.len(),
                    active@[g as int].tables.at(runtime.table) == Some(*shards),
                    forall|j: int|
                        0 <= j < i ==> !((#[trigger] shards@[j]).shard_id == runtime.shard_id
                            && shards@[j].rows_sha256@ == runtime.rows_sha256@),
                decreases shards.len() - i,
            {
                if shards[i].shard_id == runtime.shard_id && same_text(
                    shards[i].rows_sha256.as_str(),
                    runtime.rows_sha256.as_str(),
                ) {
                    assert(assignment_view(shards@)[i as int] == (
                        runtime.shard_id,
                        runtime.rows_sha256@,
                    ));
                    assert(names(active@[g as int], runtime.key()));
                    return true;
                }
                i = i + 1;
            }
            proof {
                let view = assignment_view(shards@);
                assert forall|j: int| 0 <= j < view.len() implies view[j] != (
                    runtime.shard_id,
                    runtime.rows_sha256@,
                ) by {
                    assert(shards@[j].shard_id == view[j].0);
                }
            }
        }
        g = g + 1;
    }
    false
}

proof fn lemma_referenced_only(runtimes: Seq<Runtime>, active: Seq<ActiveGeneration>)
    requires
        keys_distinct(runtimes),
    ensures
        forall|key: KeyView|
            #[trigger] held(referenced_only(runtimes, active), key) <==> held(runtimes, key)
                && referenced(active, key),
        keys_distinct(referenced_only(runtimes, active)),
    decreases runtimes.len(),
{
    if runtimes.len() > 0 {
        let head = runtimes.drop_last();
        let last = runtimes.last();
        let rest = referenced_only(head, active);
        let all = referenced_only(runtimes, active);
        assert forall|i: int, j: int| 0 <= i < j < head.len() implies (#[trigger] head[i]).key() != (
        #[trigger] head[j]).key() by {
            assert(head[i] == runtimes[i] && head[j] == runtimes[j]);
        }
        lemma_referenced_only(head, active);
        assert forall|key: KeyView| #[trigger] held(all, key) <==> held(runtimes, key)
            && referenced(active, key) by {
            if held(all, key) {
                let i = choose|i: int| 0 <= i < all.len() && (#[trigger] all[i]).key() == key;
                if i < rest.len() {
                    assert(rest[i] == all[i]);
                    assert(held(rest, key));
                    let j = choose|j: int| 0 <= j < head.len() && (#[trigger] head[j]).key() == key;
                    assert(runtimes[j].key() == key);
                } else {
                    assert(runtimes[runtimes.len() - 1].key() == key);
                }
            }
            if held(runtimes, key) && referenced(active, key) {
                let j = choose|j: int|
                    0 <= j < runtimes.len() && (#[trigger] runtimes[j]).key() == key;
                if j < head.len() {
                    assert(head[j].key() == key);
                    assert(held(head, key));
                    assert(held(rest, key));
                    let i = choose|i: int| 0 <= i < rest.len() && (#[trigger] rest[i]).key() == key;
                    assert(all[i].key() == key);
                } else {
                    assert(all[all.len() - 1].key() == key);
                }
            }
        }
        assert forall|i: int, j: int| 0 <= i < j < all.len() implies (#[trigger] all[i]).key() != (
        #[trigger] all[j]).key() by {
            assert(all[i] == rest[i]);
            if j < rest.len() {
                assert(all[j] == rest[j]);
            } else {
                assert(held(rest, rest[i].key()));
                let m = choose|m: int|
                    0 <= m < head.len() && (#[trigger] head[m]).key() == rest[i].key();
                assert(runtimes[m].key() == rest[i].key());
                assert(runtimes[runtimes.len() - 1] == last);
            }
        }
    }
}

/// Where a runtime with this key is held, or the end.
pub open spec fn runtime_place(runtimes: Seq<Runtime>, key: KeyView, from: int) -> int
    decreases runtimes.len() - from,
{
    if from >= runtimes.len() || runtimes[from].key() == key {
        from
    } else {
        runtime_place(runtimes, key, from + 1)
    }
}

/// The runtimes with one added, or replaced where its key is already held.
pub open spec fn with_runtime(runtimes: Seq<Runtime>, runtime: Runtime) -> Seq<Runtime> {
    let place = runtime_place(runtimes, runtime.key(), 0);
    if place < runtimes.len() {
        runtimes.update(place, runtime)
    } else {
        runtimes.push(runtime)
    }
}

proof fn lemma_runtime_place(runtimes: Seq<Runtime>, key: KeyView, at: int)
    requires
        0 <= at <= runtimes.len(),
        forall|j: int| 0 <= j < at ==> (#[trigger] runtimes[j]).key() != key,
        at < runtimes.len() ==> runtimes[at].key() == key,
    ensures
        runtime_place(runtimes, key, 0) == at,
{
    lemma_runtime_place_from(runtimes, key, 0, at);
}

proof fn lemma_runtime_place_from(runtimes: Seq<Runtime>, key: KeyView, from: int, at: int)
    requires
        0 <= from <= at <= runtimes.len(),
        forall|j: int| from <= j < at ==> (#[trigger] runtimes[j]).key() != key,
        at < runtimes.len() ==> runtimes[at].key() == key,
    ensures
        runtime_place(runtimes, key, from) == at,
    decreases at - from,
{
    if from < at {
        lemma_runtime_place_from(runtimes, key, from + 1, at);
    }
}

proof fn lemma_place_bounds(runtimes: Seq<Runtime>, key: KeyView, from: int)
    requires
        0 <= from <= runtimes.len(),
    ensures
        from <= runtime_place(runtimes, key, from) <= runtimes.len(),
        runtime_place(runtimes, key, from) < runtimes.len() ==> runtimes[runtime_place(
            runtimes,
            key,
            from,
        )].key() == key,
        forall|j: int|
            from <= j < runtime_place(runtimes, key, from) ==> (#[trigger] runtimes[j]).key()
                != key,
    decreases runtimes.len() - from,
{
    if from < runtimes.len() && runtimes[from].key() != key {
        lemma_place_bounds(runtimes, key, from + 1);
    }
}

proof fn lemma_with_runtime(runtimes: Seq<Runtime>, runtime: Runtime)
    requires
        keys_distinct(runtimes),
    ensures
        forall|key: KeyView|
            held(with_runtime(runtimes, runtime), key) <==> #[trigger] held(runtimes, key) || key
                == runtime.key(),
        keys_distinct(with_runtime(runtimes, runtime)),
{
    let own = runtime.key();
    lemma_place_bounds(runtimes, own, 0);
    let place = runtime_place(runtimes, own, 0);
    let all = with_runtime(runtimes, runtime);
    assert(all[place] == runtime);
    assert forall|key: KeyView| held(all, key) <==> #[trigger] held(runtimes, key) || key == own by {
        if held(all, key) {
            let i = choose|i: int| 0 <= i < all.len() && (#[trigger] all[i]).key() == key;
            if i != place {
                assert(runtimes[i].key() == key);
            }
        }
        if held(runtimes, key) {
            let i = choose|i: int| 0 <= i < runtimes.len() && (#[trigger] runtimes[i]).key() == key;
            if i != place {
                assert(all[i].key() == key);
            } else {
                assert(all[place].key() == key);
            }
        }
        if key == own {
            assert(all[place].key() == key);
        }
    }
    assert forall|i: int, j: int| 0 <= i < j < all.len() implies (#[trigger] all[i]).key() != (
    #[trigger] all[j]).key() by {
        if i != place {
            assert(all[i] == runtimes[i]);
        }
        if j != place {
            assert(all[j] == runtimes[j]);
        }
        if i == place && j < runtimes.len() && place < runtimes.len() {
            assert(runtimes[place].key() != runtimes[j].key());
        }
    }
}

/// Whether the requested ids are the assignment's, in any order.
fn covers_assignment(shard_ids: &Vec<u64>, shards: &Vec<ActivateShard>) -> (covers: bool)
    requires
        ids_ascending(shards@),
    ensures
        covers == (shard_ids@.to_multiset() == ids_of(shards@).to_multiset()),
{
    let sorted = sorted_ids(shard_ids);
    let ghost ids = ids_of(shards@);
    proof {
        lemma_ids_sorted(shards@);
        to_multiset_len(shard_ids@);
        to_multiset_len(sorted@);
        to_multiset_len(ids);
    }
    if sorted.len() != shards.len() {
        return false;
    }
    let mut i: usize = 0;
    while i < sorted.len()
        invariant
            i <= sorted.len(),
            sorted.len() == shards.len(),
            ids == ids_of(shards@),
            nondecreasing(sorted@),
            nondecreasing(ids),
            sorted@.to_multiset() == shard_ids@.to_multiset(),
            forall|j: int| 0 <= j < i ==> sorted@[j] == ids[j],
        decreases sorted.len() - i,
    {
        if sorted[i] != shards[i].shard_id {
            proof {
                if shard_ids@.to_multiset() == ids.to_multiset() {
                    lemma_sorted_equal(sorted@, ids);
                    assert(sorted@[i as int] == ids[i as int]);
                }
            }
            return false;
        }
        i = i + 1;
    }
    assert(sorted@ =~= ids);
    true
}

pub open spec fn nondecreasing(ids: Seq<u64>) -> bool {
    forall|i: int, j: int| 0 <= i < j < ids.len() ==> ids[i] <= ids[j]
}

proof fn lemma_ids_sorted(shards: Seq<ActivateShard>)
    requires
        ids_ascending(shards),
    ensures
        nondecreasing(ids_of(shards)),
{
    let ids = ids_of(shards);
    assert forall|i: int, j: int| 0 <= i < j < ids.len() implies ids[i] <= ids[j] by {
        assert(shards[i].shard_id < shards[j].shard_id);
    }
}

/// Two sorted lists of the same numbers are the same list.
proof fn lemma_sorted_equal(a: Seq<u64>, b: Seq<u64>)
    requires
        nondecreasing(a),
        nondecreasing(b),
        a.to_multiset() == b.to_multiset(),
    ensures
        a == b,
    decreases a.len(),
{
    to_multiset_len(a);
    to_multiset_len(b);
    if a.len() == 0 {
        assert(a =~= b);
    } else {
        let x = a.last();
        let y = b.last();
        assert(a.contains(x)) by {
            assert(a[a.len() - 1] == x);
        }
        assert(b.contains(y)) by {
            assert(b[b.len() - 1] == y);
        }
        to_multiset_contains(a, x);
        to_multiset_contains(b, x);
        to_multiset_contains(b, y);
        to_multiset_contains(a, y);
        let i = choose|i: int| 0 <= i < b.len() && b[i] == x;
        let j = choose|j: int| 0 <= j < a.len() && a[j] == y;
        assert(x <= y) by {
            if i < b.len() - 1 {
                assert(b[i] <= b[b.len() - 1]);
            }
        }
        assert(y <= x) by {
            if j < a.len() - 1 {
                assert(a[j] <= a[a.len() - 1]);
            }
        }
        to_multiset_remove(a, a.len() - 1);
        to_multiset_remove(b, b.len() - 1);
        assert(a.remove(a.len() - 1) =~= a.drop_last());
        assert(b.remove(b.len() - 1) =~= b.drop_last());
        lemma_sorted_equal(a.drop_last(), b.drop_last());
        assert(a =~= a.drop_last().push(x));
        assert(b =~= b.drop_last().push(y));
    }
}

/// The ids in nondecreasing order.
fn sorted_ids(ids: &Vec<u64>) -> (sorted: Vec<u64>)
    ensures
        nondecreasing(sorted@),
        sorted@.to_multiset() == ids@.to_multiset(),
{
    let mut sorted: Vec<u64> = Vec::new();
    let mut n: usize = 0;
    assert(sorted@ =~= ids@.take(0));
    while n < ids.len()
        invariant
            n <= ids.len(),
            nondecreasing(sorted@),
            sorted@.to_multiset() == ids@.take(n as int).to_multiset(),
        decreases ids.len() - n,
    {
        let id: u64 = ids[n];
        let mut place: usize = 0;
        while place < sorted.len() && sorted[place] <= id
            invariant
                place <= sorted.len(),
                forall|k: int| 0 <= k < place ==> sorted@[k] <= id,
            decreases sorted.len() - place,
        {
            place = place + 1;
        }
        let ghost before = sorted@;
        sorted.insert(place, id);
        proof {
            to_multiset_insert(before, place as int, id);
            assert(ids@.take(n + 1) =~= ids@.take(n as int).push(id));
            to_multiset_build(ids@.take(n as int), id);
            assert forall|i: int, j: int| 0 <= i < j < sorted@.len() implies sorted@[i]
                <= sorted@[j] by {
                if i < place {
                    assert(sorted@[i] == before[i]);
                    if j < place {
                        assert(sorted@[j] == before[j]);
                    } else if j > place {
                        assert(sorted@[j] == before[j - 1]);
                    }
                } else {
                    assert(sorted@[j] == before[j - 1]);
                    if i > place {
                        assert(sorted@[i] == before[i - 1]);
                    } else if j - 1 > place {
                        assert(before[place as int] <= before[j - 1]);
                    }
                }
            }
        }
        n = n + 1;
    }
    assert(ids@.take(n as int) =~= ids@);
    sorted
}

/// Place of an id of a covered request in the assignment.
fn place_of_id(
    shards: &Vec<ActivateShard>,
    id: u64,
    Ghost(request): Ghost<Seq<u64>>,
    Ghost(i): Ghost<int>,
) -> (at: usize)
    requires
        request.to_multiset() == ids_of(shards@).to_multiset(),
        0 <= i < request.len(),
        request[i] == id,
    ensures
        at < shards@.len(),
        shards@[at as int].shard_id == id,
{
    let ghost place = choose|k: int| 0 <= k < ids_of(shards@).len() && ids_of(shards@)[k] == id;
    proof {
        assert(request.contains(id));
        to_multiset_contains(request, id);
        to_multiset_contains(ids_of(shards@), id);
        assert(shards@[place].shard_id == id);
    }
    let mut at: usize = 0;
    while shards[at].shard_id != id
        invariant
            at <= place < shards@.len(),
            shards@[place].shard_id == id,
            forall|k: int| 0 <= k < at ==> (#[trigger] shards@[k]).shard_id != id,
        decreases shards.len() - at,
    {
        at = at + 1;
    }
    at
}

/// A runtime stays exactly as long as an active generation lists its shard with its
/// digest; what stays keeps its order.
pub proof fn law_unreferenced_runtimes_are_dropped(
    runtimes: Seq<Runtime>,
    active: Seq<ActiveGeneration>,
)
    ensures
        referenced_only(runtimes, active) == runtimes.filter(
            |runtime: Runtime|
                exists|g: int, i: int|
                    {
                        &&& 0 <= g < active.len()
                        &&& active[g].tables.at(runtime.table) matches Some(shards)
                        &&& 0 <= i < shards@.len()
                        &&& shards@[i].shard_id == runtime.shard_id
                        &&& (#[trigger] active[g].tables.at(runtime.table)->0@[i]).rows_sha256@
                            == runtime.rows_sha256@
                    },
        ),
    decreases runtimes.len(),
{
    reveal(Seq::filter);
    let used = |runtime: Runtime|
        exists|g: int, i: int|
            {
                &&& 0 <= g < active.len()
                &&& active[g].tables.at(runtime.table) matches Some(shards)
                &&& 0 <= i < shards@.len()
                &&& shards@[i].shard_id == runtime.shard_id
                &&& (#[trigger] active[g].tables.at(runtime.table)->0@[i]).rows_sha256@
                    == runtime.rows_sha256@
            };
    if runtimes.len() > 0 {
        let last = runtimes.last();
        law_unreferenced_runtimes_are_dropped(runtimes.drop_last(), active);
        if referenced(active, last.key()) {
            let g = choose|g: int| 0 <= g < active.len() && #[trigger] names(active[g], last.key());
            let shards = active[g].tables.at(last.table)->0@;
            let i = assignment_view(shards).index_of((last.shard_id, last.rows_sha256@));
            assert(shards[i].shard_id == last.shard_id);
            assert(active[g].tables.at(last.table)->0@[i].rows_sha256@ == last.rows_sha256@);
            assert(used(last));
        }
        if used(last) {
            let (g, i) = choose|g: int, i: int|
                {
                    &&& 0 <= g < active.len()
                    &&& active[g].tables.at(last.table) matches Some(shards)
                    &&& 0 <= i < shards@.len()
                    &&& shards@[i].shard_id == last.shard_id
                    &&& (#[trigger] active[g].tables.at(last.table)->0@[i]).rows_sha256@
                        == last.rows_sha256@
                };
            let shards = active[g].tables.at(last.table)->0@;
            assert(assignment_view(shards)[i] == (last.shard_id, last.rows_sha256@));
            assert(names(active[g], last.key()));
        }
        assert(used(last) == referenced(active, last.key()));
    }
    assert(referenced_only(runtimes, active) =~= runtimes.filter(used));
}

/// The shard that is named as not prepared is the first without a runtime of its id
/// and digest; none is named where every shard has one.
pub proof fn law_the_first_unprepared_shard_is_named(
    runtimes: Seq<Runtime>,
    table: DatabaseId,
    sorted: Seq<ActivateShard>,
    from: int,
)
    requires
        0 <= from,
    ensures
        ({
            let prepared = |i: int|
                exists|r: int|
                    0 <= r < runtimes.len() && (#[trigger] runtimes[r]).table == table
                        && runtimes[r].shard_id == sorted[i].shard_id && runtimes[r].rows_sha256@
                        == sorted[i].rows_sha256@;
            match first_unprepared(runtimes, table, sorted, from) {
                Some(i) => {
                    &&& from <= i < sorted.len()
                    &&& !prepared(i)
                    &&& forall|j: int| from <= j < i ==> #[trigger] prepared(j)
                },
                None => forall|j: int| from <= j < sorted.len() ==> #[trigger] prepared(j),
            }
        }),
    decreases sorted.len() - from,
{
    if from < sorted.len() {
        let key = (table, sorted[from].shard_id, sorted[from].rows_sha256@);
        if held(runtimes, key) {
            law_the_first_unprepared_shard_is_named(runtimes, table, sorted, from + 1);
            let r = choose|r: int|
                0 <= r < runtimes.len() && (#[trigger] runtimes[r]).key() == key;
            assert(runtimes[r].table == table);
        } else {
            assert forall|r: int| 0 <= r < runtimes.len() implies !((
            #[trigger] runtimes[r]).table == table && runtimes[r].shard_id == sorted[from].shard_id
                && runtimes[r].rows_sha256@ == sorted[from].rows_sha256@) by {
                assert(runtimes[r].key() != key);
            }
        }
    }
}

/// The generation that is looked up is the one of the id asked for.
pub proof fn law_lookups_find_the_generation(
    active: Seq<ActiveGeneration>,
    generation: u64,
    from: int,
)
    requires
        0 <= from,
    ensures
        match find_active(active, generation, from) {
            Some(i) => {
                &&& from <= i < active.len()
                &&& active[i].generation == generation
                &&& forall|j: int|
                    from <= j < i ==> (#[trigger] active[j]).generation != generation
            },
            None => forall|j: int|
                from <= j < active.len() ==> (#[trigger] active[j]).generation != generation,
        },
    decreases active.len() - from,
{
    if from < active.len() && active[from].generation != generation {
        law_lookups_find_the_generation(active, generation, from + 1);
    }
}

/// Taking a runtime in keeps all others where they are; it stands in the place of
/// the first with its table, id and digest, or behind all.
pub proof fn law_a_runtime_takes_its_own_place(runtimes: Seq<Runtime>, runtime: Runtime)
    ensures
        ({
            let after = with_runtime(runtimes, runtime);
            let same = |i: int|
                runtimes[i].table == runtime.table && runtimes[i].shard_id == runtime.shard_id
                    && runtimes[i].rows_sha256@ == runtime.rows_sha256@;
            if exists|i: int| 0 <= i < runtimes.len() && #[trigger] same(i) {
                exists|i: int|
                    {
                        &&& 0 <= i < runtimes.len()
                        &&& #[trigger] same(i)
                        &&& forall|j: int| 0 <= j < i ==> !(#[trigger] same(j))
                        &&& after == runtimes.update(i, runtime)
                    }
            } else {
                after == runtimes.push(runtime)
            }
        }),
{
    let same = |i: int|
        runtimes[i].table == runtime.table && runtimes[i].shard_id == runtime.shard_id
            && runtimes[i].rows_sha256@ == runtime.rows_sha256@;
    lemma_place_of_a_runtime(runtimes, runtime.key(), 0);
    let place = runtime_place(runtimes, runtime.key(), 0);
    assert forall|i: int| 0 <= i < runtimes.len() implies #[trigger] same(i) == (runtimes[i].key()
        == runtime.key()) by {}
    if place < runtimes.len() {
        assert(same(place));
    }
}

proof fn lemma_place_of_a_runtime(runtimes: Seq<Runtime>, key: KeyView, from: int)
    requires
        0 <= from <= runtimes.len(),
    ensures
        from <= runtime_place(runtimes, key, from) <= runtimes.len(),
        forall|j: int|
            from <= j < runtime_place(runtimes, key, from) ==> (#[trigger] runtimes[j]).key()
                != key,
        runtime_place(runtimes, key, from) < runtimes.len() ==> runtimes[runtime_place(
            runtimes,
            key,
            from,
        )].key() == key,
    decreases runtimes.len() - from,
{
    if from < runtimes.len() && runtimes[from].key() != key {
        lemma_place_of_a_runtime(runtimes, key, from + 1);
    }
}

} // verus!
