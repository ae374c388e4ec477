//! Activating a built table: which replicas to ask, and what is published
//! once they have answered.

use vstd::prelude::*;

use crate::digest::{hex_encode, hex_text, sha256, sha256_digest};
use crate::enhance::publish::{
    assigned, group_assignment, lemma_named_groups_are_assigned, GroupBuild, TableBuild,
};
use crate::enhance::query::{all_available, ready_names};
use crate::enhance::setup::WorkerTarget;
use crate::enhance::types::{
    owner_of_shard, DatabaseId, PerTable, Protocol, TableManifest,
};
use crate::enhance::worker::{ActivateRequest, ActivateShard};
use crate::pir_types::leading_epoch;
use crate::text::{ascending, ascending_place, decimal, push_decimal, texts};

verus! {

/// The activations of one worker group, one per remaining candidate.
pub struct GroupActivation {
    pub group: String,
    pub requests: Vec<(WorkerTarget, ActivateRequest)>,
}

/// The groups of activations, in order.
pub open spec fn group_names(activations: Seq<GroupActivation>) -> Seq<Seq<char>> {
    activations.map_values(|activation: GroupActivation| activation.group@)
}

/// Whether a group owns a shard of the table.
pub open spec fn in_use(build: &TableBuild, group: GroupBuild) -> bool {
    group_assignment(build.prepared(), group.name@).len() > 0
}

/// Whether a request activates exactly a group's assignment.
pub open spec fn asks_for(build: &TableBuild, group: GroupBuild, request: ActivateRequest) -> bool {
    &&& request.generation == build.anchor()
    &&& forall|table: DatabaseId|
        table != build.identity() ==> (#[trigger] request.tables.at(table)) is None
    &&& request.tables.at(build.identity()) matches Some(shards) && assigned(shards@)
        == group_assignment(build.prepared(), group.name@)
}

/// Whether an activation asks every candidate of a group in use for the
/// group's assignment.
pub open spec fn activates(build: &TableBuild, activation: GroupActivation, g: int) -> bool {
    let group = build.pool()[g];
    &&& 0 <= g < build.pool().len()
    &&& in_use(build, group)
    &&& activation.group@ == group.name@
    &&& activation.requests@.len() == group.candidates@.len()
    &&& forall|c: int|
        0 <= c < activation.requests@.len() ==> (#[trigger] activation.requests@[c]).0
            == group.candidates@[c].target && asks_for(build, group, activation.requests@[c].1)
}

/// Whether an activation is of one of the first `below` groups.
pub open spec fn activates_one(build: &TableBuild, activation: GroupActivation, below: int) -> bool {
    exists|g: int| 0 <= g < below && #[trigger] activates(build, activation, g)
}

/// Whether these are the activations of a build: by group name, one of every
/// group that owns a shard.
pub open spec fn are_activations(build: &TableBuild, activations: Seq<GroupActivation>) -> bool {
    &&& ascending(group_names(activations))
    &&& forall|i: int|
        0 <= i < activations.len() ==> activates_one(
            build,
            #[trigger] activations[i],
            build.pool().len() as int,
        )
    &&& forall|g: int|
        0 <= g < build.pool().len() && in_use(build, #[trigger] build.pool()[g]) ==> group_names(
            activations,
        ).contains(build.pool()[g].name@)
}

fn copied_shards(shards: &Vec<ActivateShard>) -> (copy: Vec<ActivateShard>)
    ensures
        assigned(copy@) == assigned(shards@),
{
    let mut copy: Vec<ActivateShard> = Vec::new();
    let mut i: usize = 0;
    while i < shards.len()
        invariant
            i <= shards.len(),
            copy@ == shards@.take(i as int),
        decreases shards.len() - i,
    {
        copy.push(
            ActivateShard {
                shard_id: shards[i].shard_id,
                rows_sha256: shards[i].rows_sha256.clone(),
            },
        );
        assert(shards@.take(i + 1) =~= shards@.take(i as int).push(shards@[i as int]));
        i = i + 1;
    }
    assert(shards@.take(i as int) == shards@);
    copy
}

/// Workers of one group that hold its assignment, asked in turn.
pub struct ReadyWorkerGroup {
    pub name: String,
    pub replicas: Vec<WorkerTarget>,
}

/// The requests that were answered, in order.
pub open spec fn answered(requests: Seq<(WorkerTarget, ActivateRequest)>, oks: Seq<bool>) -> Seq<
    WorkerTarget,
>
    decreases requests.len(),
{
    if requests.len() == 0 {
        Seq::empty()
    } else {
        let n = requests.len() - 1;
        let rest = answered(requests.drop_last(), oks);
        if n < oks.len() && oks[n] {
            rest.push(requests.last().0)
        } else {
            rest
        }
    }
}

fn answered_targets(activation: &GroupActivation, oks: &Vec<bool>) -> (ready: Vec<WorkerTarget>)
    ensures
        ready@ == answered(activation.requests@, oks@),
{
    let mut ready: Vec<WorkerTarget> = Vec::new();
    let mut i: usize = 0;
    while i < activation.requests.len()
        invariant
            i <= activation.requests.len(),
            ready@ == answered(activation.requests@.take(i as int), oks@),
        decreases activation.requests.len() - i,
    {
        proof {
            let all = activation.requests@;
            assert(all.take(i + 1).drop_last() == all.take(i as int));
        }
        if i < oks.len() && oks[i] {
            ready.push(activation.requests[i].0.copied());
        }
        i = i + 1;
    }
    assert(activation.requests@.take(i as int) == activation.requests@);
    ready
}

impl ReadyWorkerGroup {
    /// Every replica once, starting with the next in turn.
    pub open spec fn rotation(replicas: Seq<WorkerTarget>, next: nat) -> Seq<WorkerTarget> {
        Seq::new(
            replicas.len(),
            |offset: int| replicas[(next % replicas.len() + offset) % replicas.len() as int],
        )
    }

    /// The replicas in the order that the request with this turn tries them.
    pub fn replicas_for_request(&self, turn: usize) -> (order: Vec<WorkerTarget>)
        requires
            self.replicas@.len() > 0,
        ensures
            order@ == Self::rotation(self.replicas@, turn as nat),
    {
        let count: usize = self.replicas.len();
        let start: usize = turn % count;
        let mut order: Vec<WorkerTarget> = Vec::new();
        let mut offset: usize = 0;
        let ghost wanted = Self::rotation(self.replicas@, turn as nat);
        while offset < count
            invariant
                offset <= count,
                count == self.replicas@.len(),
                start == turn as int % count as int,
                start < count,
                wanted == Self::rotation(self.replicas@, turn as nat),
                order@ == wanted.take(offset as int),
            decreases count - offset,
        {
            let before_end: usize = count - start;
            let at: usize = if offset < before_end {
                start + offset
            } else {
                offset - before_end
            };
            proof {
                if offset < before_end {
                    vstd::arithmetic::div_mod::lemma_small_mod((start + offset) as nat, count as nat);
                } else {
                    vstd::arithmetic::div_mod::lemma_mod_add_multiples_vanish(
                        start + offset - count,
                        count as int,
                    );
                    vstd::arithmetic::div_mod::lemma_small_mod(
                        (start + offset - count) as nat,
                        count as nat,
                    );
                }
                assert(at as int == (start + offset) % count as int);
            }
            order.push(self.replicas[at].copied());
            assert(wanted.take(offset + 1) =~= wanted.take(offset as int).push(
                wanted[offset as int],
            ));
            offset = offset + 1;
        }
        assert(wanted.take(count as int) =~= wanted);
        order
    }
}

/// A request's order starts with the replica in turn and names every replica
/// once: position `k` of the order is the replica `k` places further round.
pub proof fn law_rotation_visits_every_replica(replicas: Seq<WorkerTarget>, next: nat, r: int)
    requires
        0 <= r < replicas.len(),
    ensures
        exists|offset: int|
            0 <= offset < replicas.len() && #[trigger] ReadyWorkerGroup::rotation(
                replicas,
                next,
            )[offset] == replicas[r],
{
    let n = replicas.len() as int;
    let start = next as int % n;
    let offset = if r >= start {
        r - start
    } else {
        r - start + n
    };
    if r >= start {
        vstd::arithmetic::div_mod::lemma_small_mod(r as nat, n as nat);
    } else {
        vstd::arithmetic::div_mod::lemma_mod_add_multiples_vanish(r, n);
        vstd::arithmetic::div_mod::lemma_small_mod(r as nat, n as nat);
    }
    assert(ReadyWorkerGroup::rotation(replicas, next)[offset] == replicas[r]);
}

/// The numbers of the table's retrieval parameters.
#[derive(Clone, Copy, Debug, PartialEq, Eq, Structural)]
pub struct TableShape {
    pub degree: u64,
    pub plaintext_modulus: u64,
    pub db_rows: u64,
    pub db_cols: u64,
    pub query_bits: u64,
}

/// What one table of a generation is answered with.
pub struct TableSnapshot {
    pub shape: TableShape,
    pub public_params: Vec<u8>,
    pub public_params_epoch: [u8; 8],
    /// Ready groups, by name.
    pub ready_groups: Vec<ReadyWorkerGroup>,
}

/// A table ready to be published.
pub struct BuiltTable {
    pub manifest: TableManifest,
    pub snapshot: TableSnapshot,
}

/// The identifier of a table's parameters.
pub open spec fn parameter_id(revision: Seq<char>, table: DatabaseId, shape: TableShape) -> Seq<
    char,
> {
    revision + "-"@ + table.wire_name() + "-d"@ + decimal(shape.degree as nat) + "-p"@ + decimal(
        shape.plaintext_modulus as nat,
    ) + "-rows"@ + decimal(shape.db_rows as nat) + "-cols"@ + decimal(shape.db_cols as nat)
}

impl TableBuild {
    /// The activations to send once every shard is prepared: by group name,
    /// one per candidate of every group that owns a shard.
    pub fn activations(&self) -> (activations: Vec<GroupActivation>)
        requires
            self.wf(),
        ensures
            are_activations(self, activations@),
    {
        let groups = self.pool_groups();
        let mut names: Vec<String> = Vec::new();
        let mut activations: Vec<GroupActivation> = Vec::new();
        let mut g: usize = 0;
        while g < groups.len()
            invariant
                g <= groups.len(),
                self.wf(),
                groups@ == self.pool(),
                texts(names@) == group_names(activations@),
                ascending(texts(names@)),
                forall|i: int|
                    0 <= i < activations@.len() ==> activates_one(
                        self,
                        #[trigger] activations@[i],
                        g as int,
                    ),
                forall|h: int|
                    0 <= h < g && in_use(self, #[trigger] self.pool()[h]) ==> group_names(
                        activations@,
                    ).contains(self.pool()[h].name@),
            decreases groups.len() - g,
        {
            let group = &groups[g];
            proof {
                self.law_candidates_nonempty(g as int);
                self.law_candidates_are_complete(g as int, 0);
            }
            if group.candidates[0].assignment.len() > 0 {
                let requests = self.group_requests(g);
                proof {
                    if texts(names@).contains(group.name@) {
                        let i = choose|i: int|
                            0 <= i < group_names(activations@).len() && group_names(
                                activations@,
                            )[i] == group.name@;
                        let h = choose|h: int| 0 <= h < g && activates(self, activations@[i], h);
                        self.lemma_names_distinct(h, g as int);
                    }
                }
                let place: usize = ascending_place(&names, group.name.as_str());
                let ghost old_names = names@;
                let ghost old_list = activations@;
                let activation = GroupActivation { group: group.name.clone(), requests };
                names.insert(place, group.name.clone());
                activations.insert(place, activation);
                proof {
                    assert(activates(self, activation, g as int));
                    assert(texts(names@) =~= texts(old_names).insert(place as int, group.name@));
                    assert(group_names(activations@) =~= group_names(old_list).insert(
                        place as int,
                        group.name@,
                    ));
                    assert forall|i: int| 0 <= i < activations@.len() implies activates_one(
                        self,
                        #[trigger] activations@[i],
                        g + 1,
                    ) by {
                        if i < place {
                            assert(activations@[i] == old_list[i]);
                            let h = choose|h: int| 0 <= h < g && activates(self, old_list[i], h);
                            assert(activates(self, activations@[i], h));
                        } else if i > place {
                            let moved = old_list[i - 1];
                            assert(activations@[i] == moved);
                            let h = choose|h: int| 0 <= h < g && activates(self, moved, h);
                            assert(activates(self, activations@[i], h));
                        } else {
                            assert(activates(self, activations@[i], g as int));
                        }
                    }
                    assert forall|h: int|
                        0 <= h < g + 1 && in_use(self, #[trigger] self.pool()[h]) implies group_names(
                        activations@,
                    ).contains(self.pool()[h].name@) by {
                        let list = group_names(activations@);
                        if h == g {
                            assert(list[place as int] == group.name@);
                        } else {
                            let shorter = group_names(old_list);
                            let i = choose|i: int|
                                0 <= i < shorter.len() && shorter[i] == self.pool()[h].name@;
                            if i < place {
                                assert(list[i] == shorter[i]);
                            } else {
                                assert(list[i + 1] == shorter[i]);
                            }
                        }
                    }
                }
            } else {
                assert(assigned(group.candidates@[0].assignment@).len() == 0);
                assert(!in_use(self, self.pool()[g as int]));
            }
            g = g + 1;
        }
        activations
    }

    fn group_requests(&self, g: usize) -> (requests: Vec<(WorkerTarget, ActivateRequest)>)
        requires
            self.wf(),
            g < self.pool().len(),
        ensures
            requests@.len() == self.pool()[g as int].candidates@.len(),
            forall|c: int|
                0 <= c < requests@.len() ==> (#[trigger] requests@[c]).0
                    == self.pool()[g as int].candidates@[c].target && asks_for(
                    self,
                    self.pool()[g as int],
                    requests@[c].1,
                ),
    {
        let groups = self.pool_groups();
        let group = &groups[g];
        let mut requests: Vec<(WorkerTarget, ActivateRequest)> = Vec::new();
        let mut c: usize = 0;
        while c < group.candidates.len()
            invariant
                c <= group.candidates.len(),
                self.wf(),
                g < self.pool().len(),
                *group == self.pool()[g as int],
                requests@.len() == c,
                forall|k: int|
                    0 <= k < c ==> (#[trigger] requests@[k]).0 == group.candidates@[k].target
                        && asks_for(self, *group, requests@[k].1),
            decreases group.candidates.len() - c,
        {
            let candidate = &group.candidates[c];
            proof {
                self.law_candidates_are_complete(g as int, c as int);
            }
            let mut tables: PerTable<Vec<ActivateShard>> = PerTable::new();
            tables.insert(self.table_id(), copied_shards(&candidate.assignment));
            let request = ActivateRequest { generation: self.anchor_generation(), tables };
            assert(asks_for(self, *group, request));
            requests.push((candidate.target.copied(), request));
            c = c + 1;
        }
        requests
    }

    /// Publishes the table once all shards are prepared and the activations were
    /// sent: `outcomes` says of each request whether it was answered. One answer per group is enough;
    /// a group without any fails the build, the first by name.
    pub fn finish(
        &self,
        activations: &Vec<GroupActivation>,
        outcomes: &Vec<Vec<bool>>,
        shape: TableShape,
        public_params: Vec<u8>,
        protocol: &Protocol,
    ) -> (finished: Result<BuiltTable, String>)
        requires
            self.wf(),
            self.is_whole(),
            are_activations(self, activations@),
            outcomes@.len() == activations@.len(),
        ensures
            ({
                let failed = |i: int|
                    0 <= i < activations@.len() && answered(
                        activations@[i].requests@,
                        outcomes@[i]@,
                    ).len() == 0;
                match finished {
                    Ok(built) => {
                        &&& forall|i: int| !(#[trigger] failed(i))
                        &&& built.snapshot.shape == shape
                        &&& built.snapshot.public_params@ == public_params@
                        &&& built.snapshot.public_params_epoch@ == sha256(public_params@).take(8)
                        &&& built.snapshot.ready_groups@.len() == activations@.len()
                        &&& forall|i: int|
                            0 <= i < activations@.len() ==> {
                                let ready = #[trigger] built.snapshot.ready_groups@[i];
                                &&& ready.name@ == activations@[i].group@
                                &&& ready.replicas@ == answered(
                                    activations@[i].requests@,
                                    outcomes@[i]@,
                                )
                                &&& ready.replicas@.len() > 0
                            }
                        &&& self.publishes(built.manifest, shape, public_params@, *protocol)
                        &&& built.manifest.shards@.len() == self.final_shard() + 1
                        &&& all_available(built.manifest.shards@, built.snapshot.ready_groups@)
                    },
                    Err(message) => exists|i: int| #[trigger]
                        failed(i) && (forall|j: int| 0 <= j < i ==> !(#[trigger] failed(j)))
                            && message@ == "worker group "@ + activations@[i].group@
                            + " did not activate any replica for generation "@ + decimal(
                            self.anchor() as nat,
                        ),
                }
            }),
    {
        let ghost failed = |i: int|
            0 <= i < activations@.len() && answered(
                activations@[i].requests@,
                outcomes@[i]@,
            ).len() == 0;
        let mut ready_groups: Vec<ReadyWorkerGroup> = Vec::new();
        let mut i: usize = 0;
        while i < activations.len()
            invariant
                i <= activations.len(),
                outcomes@.len() == activations@.len(),
                failed == (|i: int|
                    0 <= i < activations@.len() && answered(
                        activations@[i].requests@,
                        outcomes@[i]@,
                    ).len() == 0),
                ready_groups@.len() == i,
                forall|k: int| 0 <= k < i ==> !(#[trigger] failed(k)),
                forall|k: int|
                    0 <= k < i ==> {
                        let ready = #[trigger] ready_groups@[k];
                        &&& ready.name@ == activations@[k].group@
                        &&& ready.replicas@ == answered(activations@[k].requests@, outcomes@[k]@)
                        &&& ready.replicas@.len() > 0
                    },
            decreases activations.len() - i,
        {
            let replicas = answered_targets(&activations[i], &outcomes[i]);
            if replicas.len() == 0 {
                let mut message = String::from_str("worker group ");
                message.append(activations[i].group.as_str());
                message.append(" did not activate any replica for generation ");
                push_decimal(&mut message, self.anchor_generation());
                assert(failed(i as int));
                return Err(message);
            }
            ready_groups.push(
                ReadyWorkerGroup { name: activations[i].group.clone(), replicas },
            );
            i = i + 1;
        }
        let digest = sha256_digest(public_params.as_slice());
        let epoch = leading_epoch(digest.as_slice());
        let mut id = protocol.revision.clone();
        id.append("-");
        id.append(self.table_id().as_str());
        id.append("-d");
        push_decimal(&mut id, shape.degree);
        id.append("-p");
        push_decimal(&mut id, shape.plaintext_modulus);
        id.append("-rows");
        push_decimal(&mut id, shape.db_rows);
        id.append("-cols");
        push_decimal(&mut id, shape.db_cols);
        let manifest = self.manifest_with(
            id,
            hex_encode(epoch.as_slice()),
            hex_encode(digest.as_slice()),
        );
        proof {
            let shards = self.prepared();
            assert forall|k: int| 0 <= k < shards.len() implies ready_names(
                ready_groups@,
            ).contains((#[trigger] shards[k]).worker@) by {
                self.law_prepared_shards_are_in_order(k);
                lemma_named_groups_are_assigned(shards, k);
                let g = owner_of_shard(k as nat, self.pool().len())->0 as int;
                assert(in_use(self, self.pool()[g]));
                let named = group_names(activations@);
                let r = named.index_of(shards[k].worker@);
                assert(ready_names(ready_groups@)[r] == shards[k].worker@);
            }
        }
        Ok(
            BuiltTable {
                manifest,
                snapshot: TableSnapshot {
                    shape,
                    public_params,
                    public_params_epoch: epoch,
                    ready_groups,
                },
            },
        )
    }

    /// Whether a manifest publishes what was built.
    pub open spec fn publishes(
        &self,
        manifest: TableManifest,
        shape: TableShape,
        public_params: Seq<u8>,
        protocol: Protocol,
    ) -> bool {
        let used = self.geometry().rows_used(self.position_count() as nat);
        &&& manifest.record_bytes == self.geometry().record_bytes as u32
        &&& manifest.records_per_row == self.geometry().records_per_row as u32
        &&& manifest.row_bytes == self.geometry().row_size() as u32
        &&& manifest.shard_rows == self.geometry().shard_rows as u32
        &&& manifest.positions == self.position_count()
        &&& manifest.used_rows == used
        &&& manifest.logical_rows == self.geometry().capacity_rows(used)
        &&& manifest.parameter_id@ == parameter_id(protocol.revision@, self.identity(), shape)
        &&& manifest.setup_seed == self.seed()
        &&& manifest.public_params_epoch@ == hex_text(sha256(public_params).take(8))
        &&& manifest.public_params_sha256@ == hex_text(sha256(public_params))
        &&& manifest.shards@ == self.prepared()
    }
}

/// The replicas that are ready are those whose request was answered, in the order
/// of the requests.
pub proof fn law_answered_replicas_are_ready(
    requests: Seq<(WorkerTarget, ActivateRequest)>,
    oks: Seq<bool>,
)
    ensures
        answered(requests, oks) == Seq::new(requests.len(), |i: int| i).filter(
            |i: int| i < oks.len() && oks[i],
        ).map_values(|i: int| requests[i].0),
    decreases requests.len(),
{
    reveal(Seq::filter);
    let ok = |i: int| i < oks.len() && oks[i];
    let target = |i: int| requests[i].0;
    let all = Seq::new(requests.len(), |i: int| i);
    if requests.len() > 0 {
        let head = requests.drop_last();
        law_answered_replicas_are_ready(head, oks);
        let before = Seq::new(head.len(), |i: int| i);
        assert(all.drop_last() =~= before);
        let chosen = before.filter(ok);
        assert forall|k: int| 0 <= k < chosen.len() implies head[#[trigger] chosen[k]].0
            == requests[chosen[k]].0 by {
            assert(chosen.contains(chosen[k]));
            before.lemma_filter_contains_rev(ok, chosen[k]);
            assert(before.contains(chosen[k]));
        }
        assert(chosen.map_values(|i: int| head[i].0) =~= chosen.map_values(target));
    }
    assert(answered(requests, oks) =~= all.filter(ok).map_values(target));
}

/// A request starts with the replica in turn, goes on to the last and then from the
/// first up to that one; the next request starts one further.
pub proof fn law_requests_take_turns(replicas: Seq<WorkerTarget>, next: nat)
    requires
        replicas.len() > 0,
    ensures
        ({
            let start = next as int % replicas.len() as int;
            ReadyWorkerGroup::rotation(replicas, next) == replicas.skip(start) + replicas.take(
                start,
            )
        }),
        ReadyWorkerGroup::rotation(replicas, next + 1)[0] == if next as int % replicas.len() as int
            + 1 < replicas.len() {
            replicas[next as int % replicas.len() as int + 1]
        } else {
            replicas[0]
        },
{
    let n = replicas.len() as int;
    let start = next as int % n;
    let turned = ReadyWorkerGroup::rotation(replicas, next);
    let parts = replicas.skip(start) + replicas.take(start);
    assert forall|k: int| 0 <= k < n implies #[trigger] turned[k] == parts[k] by {
        if start + k < n {
            vstd::arithmetic::div_mod::lemma_small_mod((start + k) as nat, n as nat);
        } else {
            vstd::arithmetic::div_mod::lemma_mod_add_multiples_vanish(start + k - n, n);
            vstd::arithmetic::div_mod::lemma_small_mod((start + k - n) as nat, n as nat);
        }
    }
    assert(turned =~= parts);
    let after = (next + 1) as int % n;
    vstd::arithmetic::div_mod::lemma_add_mod_noop(next as int, 1, n);
    if start + 1 < n {
        vstd::arithmetic::div_mod::lemma_small_mod((start + 1) as nat, n as nat);
        vstd::arithmetic::div_mod::lemma_small_mod(1, n as nat);
        assert(after == start + 1);
    } else {
        if n > 1 {
            vstd::arithmetic::div_mod::lemma_small_mod(1, n as nat);
        }
        assert(after == 0) by {
            vstd::arithmetic::div_mod::lemma_mod_self_0(n);
            if n == 1 {
                assert(after == 0);
            }
        }
    }
    vstd::arithmetic::div_mod::lemma_small_mod(after as nat, n as nat);
}

} // verus!
