//! Building one table of a generation.
//!
//! Every shard is prepared on all available replicas of the group that owns
//! it; a replica stays a candidate as long as it has completed the group's
//! whole assignment with the same hint as its peers. One activated replica per
//! group is the publication quorum. The steps are pure: the caller prepares
//! shards and activates workers in between.

use vstd::prelude::*;
use vstd::seq_lib::*;

use crate::digest::{hex_text, sha256};
use crate::enhance::coordinator::CoordinatorState;
use crate::enhance::setup::{
    lemma_valid_groups, labels, setup_valid, TableSetup, WorkerTarget,
};
use crate::enhance::source::TableSource;
use crate::enhance::store::RecordJournal;
use crate::enhance::types::{
    copy_descriptors, group_index_for_shard, owner_of_shard, DatabaseId, DatabaseLayout, Protocol,
    ShardDescriptor, TableManifest,
};
use crate::enhance::worker::ActivateShard;
use crate::text::{ascending, ascending_place, decimal, list_holds, push_decimal, texts};

verus! {

/// Shard ids with their row digests, as a value.
pub open spec fn assigned(shards: Seq<ActivateShard>) -> Seq<(u64, Seq<char>)> {
    shards.map_values(|shard: ActivateShard| (shard.shard_id, shard.rows_sha256@))
}

/// The shards that descriptors give to a group, in order.
pub open spec fn group_assignment(descriptors: Seq<ShardDescriptor>, group: Seq<char>) -> Seq<
    (u64, Seq<char>),
>
    decreases descriptors.len(),
{
    if descriptors.len() == 0 {
        Seq::empty()
    } else {
        let rest = group_assignment(descriptors.drop_last(), group);
        let last = descriptors.last();
        if last.worker@ == group {
            rest.push((last.shard_id, last.rows_sha256@))
        } else {
            rest
        }
    }
}

/// A group that a descriptor names is assigned something.
pub proof fn lemma_named_groups_are_assigned(descriptors: Seq<ShardDescriptor>, i: int)
    requires
        0 <= i < descriptors.len(),
    ensures
        group_assignment(descriptors, descriptors[i].worker@).len() > 0,
    decreases descriptors.len(),
{
    if i < descriptors.len() - 1 {
        lemma_named_groups_are_assigned(descriptors.drop_last(), i);
    }
}

/// A replica that has completed everything asked of it so far.
pub struct Candidate {
    pub target: WorkerTarget,
    pub assignment: Vec<ActivateShard>,
}

impl Candidate {
    pub open spec fn view(&self) -> (WorkerTarget, Seq<(u64, Seq<char>)>) {
        (self.target, assigned(self.assignment@))
    }
}

/// Candidates as values.
pub open spec fn views(candidates: Seq<Candidate>) -> Seq<(WorkerTarget, Seq<(u64, Seq<char>)>)> {
    candidates.map_values(|candidate: Candidate| candidate.view())
}

/// The targets of candidates, in order.
pub open spec fn targets(candidates: Seq<Candidate>) -> Seq<WorkerTarget> {
    candidates.map_values(|candidate: Candidate| candidate.target)
}

/// One worker group while its table is built.
pub struct GroupBuild {
    pub name: String,
    /// Remaining candidates, by name.
    pub candidates: Vec<Candidate>,
}

/// What one replica answered when asked to prepare a shard.
pub struct PreparedHint {
    pub replica: String,
    /// The coefficients of the shard's hint.
    pub hint: Vec<u64>,
}

/// The replicas whose hint equals the first one, in order.
pub open spec fn agreeing(prepared: Seq<PreparedHint>, canonical: Seq<u64>) -> Seq<Seq<char>>
    decreases prepared.len(),
{
    if prepared.len() == 0 {
        Seq::empty()
    } else {
        let rest = agreeing(prepared.drop_last(), canonical);
        if prepared.last().hint@ == canonical {
            rest.push(prepared.last().replica@)
        } else {
            rest
        }
    }
}

/// The candidates that a prepared shard leaves: those that agreed, each with
/// the shard added to its assignment.
pub open spec fn kept(
    candidates: Seq<(WorkerTarget, Seq<(u64, Seq<char>)>)>,
    accepted: Seq<Seq<char>>,
    shard: (u64, Seq<char>),
) -> Seq<(WorkerTarget, Seq<(u64, Seq<char>)>)>
    decreases candidates.len(),
{
    if candidates.len() == 0 {
        Seq::empty()
    } else {
        let rest = kept(candidates.drop_last(), accepted, shard);
        let last = candidates.last();
        if accepted.contains(last.0.label()) {
            rest.push((last.0, last.1.push(shard)))
        } else {
            rest
        }
    }
}

proof fn lemma_kept_uniform(
    candidates: Seq<(WorkerTarget, Seq<(u64, Seq<char>)>)>,
    accepted: Seq<Seq<char>>,
    shard: (u64, Seq<char>),
    common: Seq<(u64, Seq<char>)>,
)
    requires
        forall|c: int| 0 <= c < candidates.len() ==> (#[trigger] candidates[c]).1 == common,
    ensures
        forall|c: int|
            0 <= c < kept(candidates, accepted, shard).len() ==> (#[trigger] kept(
                candidates,
                accepted,
                shard,
            )[c]).1 == common.push(shard),
    decreases candidates.len(),
{
    if candidates.len() > 0 {
        let head = candidates.drop_last();
        assert forall|c: int| 0 <= c < head.len() implies (#[trigger] head[c]).1 == common by {
            assert(head[c] == candidates[c]);
        }
        lemma_kept_uniform(head, accepted, shard, common);
        assert(candidates[candidates.len() - 1].1 == common);
        let rest = kept(head, accepted, shard);
        let all = kept(candidates, accepted, shard);
        assert forall|c: int| 0 <= c < all.len() implies (#[trigger] all[c]).1 == common.push(
            shard,
        ) by {
            if c < rest.len() {
                assert(all[c] == rest[c]);
            }
        }
    }
}

/// One shard to be prepared.
pub struct ShardPlan {
    pub shard_id: u64,
    /// Index of the owning group.
    pub group: usize,
    /// Replicas to prepare it on.
    pub replicas: Vec<WorkerTarget>,
    /// The padded rows.
    pub rows: Vec<u8>,
    /// Their digest.
    pub rows_sha256: String,
    /// First row of the shard in the global query.
    pub query_row_start: u64,
    /// Populated positions of the shard.
    pub populated: u64,
}

/// One table of a generation under construction.
pub struct TableBuild {
    table: DatabaseId,
    generation: u64,
    layout: DatabaseLayout,
    positions: u64,
    used_rows: u64,
    logical_rows: u64,
    setup_seed: u64,
    groups: Vec<GroupBuild>,
    descriptors: Vec<ShardDescriptor>,
    last_shard: u64,
}

impl TableBuild {
    pub closed spec fn identity(&self) -> DatabaseId {
        self.table
    }

    pub closed spec fn anchor(&self) -> u64 {
        self.generation
    }

    pub closed spec fn geometry(&self) -> DatabaseLayout {
        self.layout
    }

    pub closed spec fn position_count(&self) -> u64 {
        self.positions
    }

    pub closed spec fn seed(&self) -> u64 {
        self.setup_seed
    }

    pub closed spec fn pool(&self) -> Seq<GroupBuild> {
        self.groups@
    }

    /// Shards prepared so far.
    pub closed spec fn prepared(&self) -> Seq<ShardDescriptor> {
        self.descriptors@
    }

    pub closed spec fn final_shard(&self) -> u64 {
        self.last_shard
    }

    /// Every prepared shard belongs to its owner, and every remaining candidate
    /// of a group has completed exactly the group's share.
    pub closed spec fn wf(&self) -> bool {
        &&& self.layout.valid()
        &&& self.used_rows == self.layout.rows_used(self.positions as nat)
        &&& self.logical_rows == self.layout.capacity_rows(self.used_rows as nat)
        &&& self.positions > 0
        &&& self.last_shard * self.layout.positions_per_shard() < self.positions
        &&& self.groups@.len() > 0
        &&& forall|i: int, j: int|
            0 <= i < j < self.groups@.len() ==> (#[trigger] self.groups@[i]).name@ != (
            #[trigger] self.groups@[j]).name@
        &&& forall|g: int|
            0 <= g < self.groups@.len() ==> (#[trigger] self.groups@[g]).candidates@.len() > 0
        &&& forall|g: int, c: int|
            0 <= g < self.groups@.len() && 0 <= c < self.groups@[g].candidates@.len() ==> assigned(
                (#[trigger] self.groups@[g].candidates@[c]).assignment@,
            ) == group_assignment(self.descriptors@, self.groups@[g].name@)
        &&& self.descriptors@.len() <= self.last_shard + 1
        &&& forall|i: int|
            0 <= i < self.descriptors@.len() ==> self.describes(#[trigger] self.descriptors@[i], i)
    }

    /// Whether a descriptor is the one of shard `i`.
    pub open spec fn describes(&self, shard: ShardDescriptor, i: int) -> bool {
        &&& shard.shard_id == i
        &&& shard.global_row_start == i * self.geometry().shard_rows
        &&& shard.sealed == (shard.populated_positions == self.geometry().positions_per_shard())
        &&& owner_of_shard(i as nat, self.pool().len()) matches Some(g) && g < self.pool().len()
            && shard.worker@ == self.pool()[g as int].name@
    }

    /// What well-formedness says of the remaining candidates: every group has
    /// one, and each holds the group's complete assignment.
    pub proof fn law_candidates_are_complete(&self, g: int, c: int)
        requires
            self.wf(),
            0 <= g < self.pool().len(),
            0 <= c < self.pool()[g].candidates@.len(),
        ensures
            self.pool()[g].candidates@.len() > 0,
            assigned(self.pool()[g].candidates@[c].assignment@) == group_assignment(
                self.prepared(),
                self.pool()[g].name@,
            ),
    {
    }

    /// What well-formedness says of the prepared shards: they are shards zero
    /// up to but not including their count, each with its owner.
    pub proof fn law_prepared_shards_are_in_order(&self, i: int)
        requires
            self.wf(),
            0 <= i < self.prepared().len(),
        ensures
            self.describes(self.prepared()[i], i),
            self.prepared().len() <= self.final_shard() + 1,
            self.prepared()[i].shard_id == i,
            self.prepared()[i].global_row_start == i * self.geometry().shard_rows,
            self.prepared()[i].sealed <==> self.prepared()[i].populated_positions
                == self.geometry().shard_rows * self.geometry().records_per_row,
            self.pool().len() == 1 ==> self.prepared()[i].worker@ == self.pool()[0].name@,
            self.pool().len() > 1 ==> i / 6 < self.pool().len() && self.prepared()[i].worker@
                == self.pool()[i / 6].name@,
    {
    }

    /// Whether this is a build of `source` that has not started.
    pub open spec fn starts<S: TableSource>(
        &self,
        setup: TableSetup,
        source: &S,
        generation: u64,
        protocol: Protocol,
    ) -> bool {
        &&& self.wf()
        &&& self.builds(source)
        &&& self.anchor() == generation
        &&& self.seed() == source.identity().seed(protocol)
        &&& self.prepared().len() == 0
        &&& self.pool().len() == setup.groups@.len()
        &&& forall|g: int|
            0 <= g < self.pool().len() ==> {
                &&& (#[trigger] self.pool()[g]).name@ == setup.groups@[g].name@
                &&& ascending(labels(targets(self.pool()[g].candidates@)))
                &&& targets(self.pool()[g].candidates@).to_multiset()
                    == setup.groups@[g].replicas@.to_multiset()
            }
    }

    /// Whether this is a build of `source`.
    pub open spec fn builds<S: TableSource>(&self, source: &S) -> bool {
        &&& self.identity() == source.identity()
        &&& self.geometry() == source.geometry()
        &&& self.position_count() == source.position_count()
        &&& self.final_shard() == source.final_shard()
    }

    /// Starts building a served table from a source whose layout is the
    /// protocol's and which is not empty.
    pub fn begin<S: TableSource>(
        state: &CoordinatorState,
        source: &S,
        generation: u64,
        protocol: &Protocol,
    ) -> (begun: Result<TableBuild, String>)
        requires
            state.wf(),
            source.ready(),
            source.position_count() <= 0x8000_0000_0000_0000,
            source.geometry().shard_rows <= 0x8000_0000_0000_0000,
        ensures
            ({
                let table = source.identity();
                match begun {
                    Ok(build) => {
                        &&& state.served(table) matches Some(setup) && setup.table == table
                            && build.starts(setup, source, generation, *protocol)
                        &&& source.geometry() == table.geometry(*protocol)
                        &&& source.position_count() > 0
                    },
                    Err(message) => if state.served(table) is None {
                        message@ == "table "@ + table.wire_name() + " is not served"@
                    } else if source.geometry() != table.geometry(*protocol) {
                        message@ == "source layout for "@ + table.wire_name()
                            + " does not match the protocol"@
                    } else {
                        &&& source.position_count() == 0
                        &&& message@ == "cannot publish an empty "@ + table.wire_name() + " table"@
                    },
                }
            }),
    {
        let table = source.table();
        let setup = match state.table(table) {
            Ok(served) => &served.setup,
            Err(message) => {
                return Err(message);
            },
        };
        let layout = source.layout();
        if layout != table.layout(protocol) {
            let mut message = String::from_str("source layout for ");
            message.append(table.as_str());
            message.append(" does not match the protocol");
            return Err(message);
        }
        let positions: u64 = source.positions();
        if positions == 0 {
            let mut message = String::from_str("cannot publish an empty ");
            message.append(table.as_str());
            message.append(" table");
            return Err(message);
        }
        let ids = source.shard_ids();
        let last_shard: u64 = *ids.end();
        proof {
            source.lemma_published_shards(last_shard as nat);
            lemma_rows_at_most_positions(layout, positions as nat);
        }
        let used_rows: u64 = layout.used_rows_for(positions);
        let logical_rows: u64 = layout.logical_rows_for(used_rows);
        let mut groups: Vec<GroupBuild> = Vec::new();
        let mut g: usize = 0;
        proof {
            if setup.groups@.len() > 0 {
                lemma_valid_groups(*setup, 0);
            }
        }
        while g < setup.groups.len()
            invariant
                g <= setup.groups.len(),
                setup_valid(*setup),
                groups@.len() == g,
                forall|i: int|
                    0 <= i < g ==> (#[trigger] groups@[i]).name@ == setup.groups@[i].name@,
                forall|i: int|
                    0 <= i < g ==> ascending(labels(targets((#[trigger] groups@[i]).candidates@))),
                forall|i: int|
                    0 <= i < g ==> targets((#[trigger] groups@[i]).candidates@).to_multiset()
                        == setup.groups@[i].replicas@.to_multiset(),
                forall|i: int| 0 <= i < g ==> (#[trigger] groups@[i]).candidates@.len() > 0,
                forall|i: int, c: int|
                    0 <= i < g && 0 <= c < groups@[i].candidates@.len() ==> (
                    #[trigger] groups@[i].candidates@[c]).assignment@.len() == 0,
            decreases setup.groups.len() - g,
        {
            proof {
                lemma_valid_groups(*setup, g as int);
            }
            let candidates = sorted_candidates(setup, g);
            groups.push(GroupBuild { name: setup.groups[g].name.clone(), candidates });
            g = g + 1;
        }
        let build = TableBuild {
            table,
            generation,
            layout,
            positions,
            used_rows,
            logical_rows,
            setup_seed: table.setup_seed(protocol),
            groups,
            descriptors: Vec::new(),
            last_shard,
        };
        proof {
            assert forall|i: int, c: int|
                0 <= i < groups@.len() && 0 <= c < groups@[i].candidates@.len() implies assigned(
                (#[trigger] groups@[i].candidates@[c]).assignment@,
            ) == group_assignment(build.descriptors@, groups@[i].name@) by {
                assert(assigned(groups@[i].candidates@[c].assignment@) =~= Seq::<
                    (u64, Seq<char>),
                >::empty());
            }
            assert forall|i: int, j: int| 0 <= i < j < groups@.len() implies (
            #[trigger] groups@[i]).name@ != (#[trigger] groups@[j]).name@ by {
                assert(setup.groups@[i].name@ != setup.groups@[j].name@);
            }
        }
        Ok(build)
    }

    /// Whether shards remain to be prepared.
    pub fn remaining(&self) -> (more: bool)
        requires
            self.wf(),
        ensures
            more == (self.prepared().len() <= self.final_shard()),
    {
        self.descriptors.len() as u64 <= self.last_shard
    }

    /// The next shard to prepare: its owner, its rows, and the replicas that
    /// are still candidates. Fails where the groups cannot own the shard.
    pub fn plan_shard<S: TableSource>(&self, source: &S) -> (planned: Result<ShardPlan, String>)
        requires
            self.wf(),
            self.builds(source),
            source.ready(),
            self.prepared().len() <= self.final_shard(),
        ensures
            ({
                let shard = self.prepared().len();
                let owner = owner_of_shard(shard, self.pool().len());
                match planned {
                    Ok(plan) => {
                        &&& owner == Some(plan.group as nat)
                        &&& plan.group < self.pool().len()
                        &&& plan.shard_id == shard
                        &&& plan.replicas@ == targets(self.pool()[plan.group as int].candidates@)
                        &&& plan.rows@ == source.padded_shard(shard)
                        &&& plan.rows_sha256@ == hex_text(sha256(plan.rows@))
                        &&& plan.query_row_start == shard * self.geometry().shard_rows
                        &&& plan.populated == source.filled(shard)
                    },
                    Err(message) => {
                        &&& owner is None
                        &&& message@ == self.identity().wire_name() + " shard "@ + decimal(shard)
                            + " exceeds the capacity of "@ + decimal(self.pool().len())
                            + " worker groups"@
                    },
                }
            }),
    {
        let shard_id: u64 = self.descriptors.len() as u64;
        let group: usize = match group_index_for_shard(shard_id, self.groups.len()) {
            Some(group) => group,
            None => {
                let mut message = String::from_str(self.table.as_str());
                message.append(" shard ");
                push_decimal(&mut message, shard_id);
                message.append(" exceeds the capacity of ");
                push_decimal(&mut message, self.groups.len() as u64);
                message.append(" worker groups");
                return Err(message);
            },
        };
        proof {
            source.lemma_published_shards(shard_id as nat);
        }
        let rows = match source.read_shard_rows(shard_id) {
            Ok(rows) => rows,
            Err(message) => {
                assert(false);
                return Err(message);
            },
        };
        let rows_sha256 = RecordJournal::rows_digest(rows.as_slice());
        proof {
            self.lemma_row_start_fits(shard_id as nat);
        }
        let query_row_start: u64 = shard_id * self.layout.shard_rows as u64;
        let replicas = copied_targets(&self.groups[group].candidates);
        let populated: u64 = source.populated_positions_in_shard(shard_id);
        Ok(ShardPlan { shard_id, group, replicas, rows, rows_sha256, query_row_start, populated })
    }

    proof fn lemma_row_start_fits(&self, shard_id: nat)
        requires
            self.wf(),
            shard_id <= self.last_shard,
        ensures
            shard_id * self.layout.shard_rows < self.positions,
            shard_id <= self.positions,
    {
        self.layout.lemma_valid_bounds();
        let s = shard_id as int;
        let last = self.last_shard as int;
        let rows = self.layout.shard_rows as int;
        let per = self.layout.records_per_row as int;
        let width = self.layout.positions_per_shard() as int;
        assert(rows <= rows * per) by (nonlinear_arith)
            requires
                per >= 1,
                rows >= 0,
        ;
        assert(s * rows <= last * width && s <= s * width && s * width <= last * width)
            by (nonlinear_arith)
            requires
                0 <= s <= last,
                0 <= rows <= width,
                width >= 1,
        ;
    }

    /// Takes the answers of the replicas that prepared the planned shard, in
    /// the order they came. The first hint is canonical: replicas that failed
    /// or disagree with it are no longer candidates of their group.
    pub fn record_shard(self, plan: &ShardPlan, prepared: &Vec<PreparedHint>) -> (recorded: Result<
        TableBuild,
        String,
    >)
        requires
            self.wf(),
            self.prepared().len() <= self.final_shard(),
            plan.shard_id == self.prepared().len(),
            plan.group < self.pool().len(),
            owner_of_shard(plan.shard_id as nat, self.pool().len()) == Some(plan.group as nat),
        ensures
            ({
                let group = self.pool()[plan.group as int];
                let table = self.identity().wire_name();
                match recorded {
                    Ok(next) => {
                        let accepted = agreeing(prepared@, prepared@[0].hint@);
                        &&& next.wf()
                        &&& next.unchanged_but_progress(&self)
                        &&& prepared@.len() > 0
                        &&& next.prepared() == self.prepared().push(
                            (ShardDescriptor {
                                shard_id: plan.shard_id,
                                global_row_start: (plan.shard_id
                                    * self.geometry().shard_rows) as u64,
                                populated_positions: plan.populated,
                                rows_sha256: plan.rows_sha256,
                                sealed: plan.populated == self.geometry().positions_per_shard(),
                                worker: group.name,
                            }),
                        )
                        &&& forall|g: int|
                            0 <= g < self.pool().len() ==> (#[trigger] next.pool()[g]).name
                                == self.pool()[g].name && (g != plan.group ==> next.pool()[g]
                                == self.pool()[g])
                        &&& views(next.pool()[plan.group as int].candidates@) == kept(
                            views(group.candidates@),
                            accepted,
                            (plan.shard_id, plan.rows_sha256@),
                        )
                    },
                    Err(message) => if prepared@.len() == 0 {
                        message@ == "worker group "@ + group.name@ + " has no ready replica for "@
                            + table + " shard "@ + decimal(plan.shard_id as nat)
                    } else {
                        &&& kept(
                            views(group.candidates@),
                            agreeing(prepared@, prepared@[0].hint@),
                            (plan.shard_id, plan.rows_sha256@),
                        ).len() == 0
                        &&& message@ == "worker group "@ + group.name@
                            + " has no replica with a complete matching "@ + table
                            + " assignment"@
                    },
                }
            }),
    {
        let at: usize = plan.group;
        if prepared.len() == 0 {
            let mut message = String::from_str("worker group ");
            message.append(self.groups[at].name.as_str());
            message.append(" has no ready replica for ");
            message.append(self.table.as_str());
            message.append(" shard ");
            push_decimal(&mut message, plan.shard_id);
            return Err(message);
        }
        let accepted = agreeing_replicas(prepared);
        let candidates = kept_candidates(&self.groups[at].candidates, &accepted, plan);
        if candidates.len() == 0 {
            let mut message = String::from_str("worker group ");
            message.append(self.groups[at].name.as_str());
            message.append(" has no replica with a complete matching ");
            message.append(self.table.as_str());
            message.append(" assignment");
            return Err(message);
        }
        proof {
            self.lemma_row_start_fits(plan.shard_id as nat);
            self.layout.lemma_valid_bounds();
        }
        let descriptor = ShardDescriptor {
            shard_id: plan.shard_id,
            global_row_start: plan.shard_id * self.layout.shard_rows as u64,
            populated_positions: plan.populated,
            rows_sha256: plan.rows_sha256.clone(),
            sealed: plan.populated == self.layout.shard_positions() as u64,
            worker: self.groups[at].name.clone(),
        };
        let ghost before = self;
        let ghost group = self.groups@[at as int];
        let mut next = self;
        let name = next.groups[at].name.clone();
        let mut groups: Vec<GroupBuild> = Vec::new();
        std::mem::swap(&mut groups, &mut next.groups);
        groups[at] = GroupBuild { name, candidates };
        next.groups = groups;
        next.descriptors.push(descriptor);
        proof {
            let was = before.descriptors@;
            let now = next.descriptors@;
            assert(now.drop_last() == was);
            assert(next.groups@ == before.groups@.update(at as int, groups@[at as int]));
            let shard = (plan.shard_id, plan.rows_sha256@);
            let common = group_assignment(was, group.name@);
            let old_views = views(group.candidates@);
            assert forall|c: int| 0 <= c < old_views.len() implies (#[trigger] old_views[c]).1
                == common by {
                assert(assigned(before.groups@[at as int].candidates@[c].assignment@) == common);
            }
            lemma_kept_uniform(old_views, texts(accepted@), shard, common);
            assert forall|g: int, c: int|
                0 <= g < next.groups@.len() && 0 <= c
                    < next.groups@[g].candidates@.len() implies assigned(
                (#[trigger] next.groups@[g].candidates@[c]).assignment@,
            ) == group_assignment(now, next.groups@[g].name@) by {
                if g == at {
                    let v = views(candidates@);
                    assert(v[c] == candidates@[c].view());
                } else {
                    assert(next.groups@[g] == before.groups@[g]);
                    assert(before.groups@[g].name@ != group.name@);
                    assert(assigned(before.groups@[g].candidates@[c].assignment@)
                        == group_assignment(was, before.groups@[g].name@));
                }
            }
            assert forall|i: int| 0 <= i < now.len() implies next.describes(
                #[trigger] now[i],
                i,
            ) by {
                if i < was.len() {
                    assert(before.describes(was[i], i));
                    assert(now[i] == was[i]);
                }
            }
            assert forall|i: int, j: int| 0 <= i < j < next.groups@.len() implies (
            #[trigger] next.groups@[i]).name@ != (#[trigger] next.groups@[j]).name@ by {
                assert(before.groups@[i].name@ != before.groups@[j].name@);
            }
        }
        Ok(next)
    }

    /// The groups of the build.
    pub fn pool_groups(&self) -> (groups: &Vec<GroupBuild>)
        ensures
            groups@ == self.pool(),
    {
        &self.groups
    }

    pub fn table_id(&self) -> (table: DatabaseId)
        ensures
            table == self.identity(),
    {
        self.table
    }

    pub fn anchor_generation(&self) -> (generation: u64)
        ensures
            generation == self.anchor(),
    {
        self.generation
    }

    /// Whether every shard of the table is prepared.
    pub open spec fn is_whole(&self) -> bool {
        self.prepared().len() == self.final_shard() + 1
    }

    /// Every group keeps at least one candidate.
    pub proof fn law_candidates_nonempty(&self, g: int)
        requires
            self.wf(),
            0 <= g < self.pool().len(),
        ensures
            self.pool()[g].candidates@.len() > 0,
    {
    }

    pub proof fn lemma_names_distinct(&self, g: int, h: int)
        requires
            self.wf(),
            0 <= g < self.pool().len(),
            0 <= h < self.pool().len(),
            self.pool()[g].name@ == self.pool()[h].name@,
        ensures
            g == h,
    {
        if g < h {
            assert(self.groups@[g].name@ != self.groups@[h].name@);
        } else if h < g {
            assert(self.groups@[h].name@ != self.groups@[g].name@);
        }
    }

    /// The manifest of what was built, under the given identifiers.
    pub fn manifest_with(
        &self,
        parameter_id: String,
        public_params_epoch: String,
        public_params_sha256: String,
    ) -> (manifest: TableManifest)
        requires
            self.wf(),
        ensures
            manifest.record_bytes == self.geometry().record_bytes as u32,
            manifest.records_per_row == self.geometry().records_per_row as u32,
            manifest.row_bytes == self.geometry().row_size() as u32,
            manifest.shard_rows == self.geometry().shard_rows as u32,
            manifest.positions == self.position_count(),
            manifest.used_rows == self.geometry().rows_used(self.position_count() as nat),
            manifest.logical_rows == self.geometry().capacity_rows(manifest.used_rows as nat),
            manifest.parameter_id == parameter_id,
            manifest.setup_seed == self.seed(),
            manifest.public_params_epoch == public_params_epoch,
            manifest.public_params_sha256 == public_params_sha256,
            manifest.shards@ == self.prepared(),
    {
        proof {
            self.layout.lemma_valid_bounds();
        }
        TableManifest {
            record_bytes: self.layout.record_bytes as u32,
            records_per_row: self.layout.records_per_row as u32,
            row_bytes: self.layout.row_bytes() as u32,
            shard_rows: self.layout.shard_rows as u32,
            positions: self.positions,
            used_rows: self.used_rows,
            logical_rows: self.logical_rows,
            parameter_id,
            setup_seed: self.setup_seed,
            public_params_epoch,
            public_params_sha256,
            shards: copy_descriptors(&self.descriptors),
        }
    }

    /// Everything but the candidates and the prepared shards is as before.
    pub open spec fn unchanged_but_progress(&self, before: &TableBuild) -> bool {
        &&& self.identity() == before.identity()
        &&& self.anchor() == before.anchor()
        &&& self.geometry() == before.geometry()
        &&& self.position_count() == before.position_count()
        &&& self.seed() == before.seed()
        &&& self.final_shard() == before.final_shard()
        &&& self.pool().len() == before.pool().len()
    }
}

proof fn lemma_rows_at_most_positions(layout: DatabaseLayout, positions: nat)
    requires
        layout.valid(),
    ensures
        layout.rows_used(positions) <= positions,
{
    let p = positions as int;
    let r = layout.records_per_row as int;
    let q = (p + r - 1) / r;
    vstd::arithmetic::div_mod::lemma_fundamental_div_mod(p + r - 1, r);
    assert(q <= p) by (nonlinear_arith)
        requires
            p + r - 1 == r * q + (p + r - 1) % r,
            (p + r - 1) % r >= 0,
            r >= 1,
            p >= 0,
    ;
}

/// The replicas of a group as candidates without an assignment, by name.
fn sorted_candidates(setup: &TableSetup, g: usize) -> (candidates: Vec<Candidate>)
    requires
        setup_valid(*setup),
        g < setup.groups@.len(),
    ensures
        ascending(labels(targets(candidates@))),
        targets(candidates@).to_multiset() == setup.groups@[g as int].replicas@.to_multiset(),
        candidates@.len() > 0,
        forall|c: int|
            0 <= c < candidates@.len() ==> (#[trigger] candidates@[c]).assignment@.len() == 0,
{
    let replicas = &setup.groups[g].replicas;
    let mut names: Vec<String> = Vec::new();
    let mut candidates: Vec<Candidate> = Vec::new();
    let mut r: usize = 0;
    proof {
        lemma_valid_groups(*setup, g as int);
        assert(targets(candidates@) =~= replicas@.take(0));
    }
    while r < replicas.len()
        invariant
            r <= replicas.len(),
            g < setup.groups@.len(),
            *replicas == setup.groups@[g as int].replicas,
            setup_valid(*setup),
            texts(names@) == labels(targets(candidates@)),
            ascending(texts(names@)),
            candidates@.len() == r,
            targets(candidates@).to_multiset() == replicas@.take(r as int).to_multiset(),
            forall|c: int|
                0 <= c < candidates@.len() ==> (#[trigger] candidates@[c]).assignment@.len() == 0,
        decreases replicas.len() - r,
    {
        let replica = &replicas[r];
        proof {
            lemma_valid_groups(*setup, g as int);
            lemma_name_is_new(setup.groups@, g as int, r as int, targets(candidates@));
        }
        let place: usize = ascending_place(&names, replica.name());
        let ghost old_names = names@;
        let ghost old_candidates = candidates@;
        names.insert(place, String::from_str(replica.name()));
        candidates.insert(place, Candidate { target: replica.copied(), assignment: Vec::new() });
        proof {
            let list = targets(old_candidates);
            assert(texts(names@) =~= texts(old_names).insert(place as int, replica.label()));
            assert(targets(candidates@) =~= list.insert(place as int, *replica));
            assert(labels(targets(candidates@)) =~= labels(list).insert(
                place as int,
                replica.label(),
            ));
            to_multiset_insert(list, place as int, *replica);
            assert(replicas@.take(r + 1) =~= replicas@.take(r as int).push(*replica));
            to_multiset_build(replicas@.take(r as int), *replica);
        }
        r = r + 1;
    }
    proof {
        assert(replicas@.take(r as int) == replicas@);
    }
    candidates
}

/// A replica's name is none of those that came before it in its group.
proof fn lemma_name_is_new(
    groups: Seq<crate::enhance::setup::WorkerGroup>,
    g: int,
    r: int,
    earlier: Seq<WorkerTarget>,
)
    requires
        0 <= g < groups.len(),
        0 <= r < groups[g].replicas@.len(),
        !crate::enhance::setup::reuses_replica_name(groups, g),
        earlier.to_multiset() == groups[g].replicas@.take(r).to_multiset(),
    ensures
        !labels(earlier).contains(groups[g].replicas@[r].label()),
{
    let replicas = groups[g].replicas@;
    let name = replicas[r].label();
    if labels(earlier).contains(name) {
        let i = choose|i: int| 0 <= i < labels(earlier).len() && labels(earlier)[i] == name;
        let twin = earlier[i];
        assert(earlier.contains(twin));
        to_multiset_contains(earlier, twin);
        to_multiset_contains(replicas.take(r), twin);
        assert(replicas.take(r).contains(twin));
        let j = choose|j: int| 0 <= j < replicas.take(r).len() && replicas.take(r)[j] == twin;
        let before = crate::enhance::setup::labels_before(groups, g, r);
        let own = labels(replicas.take(r));
        let pool = crate::enhance::setup::pool_labels(groups.take(g));
        assert(own[j] == name);
        assert(before[pool.len() + j] == name);
        assert(before.contains(name));
        assert(crate::enhance::setup::reuses_replica_name(groups, g));
    }
}

fn copied_targets(candidates: &Vec<Candidate>) -> (list: Vec<WorkerTarget>)
    ensures
        list@ == targets(candidates@),
{
    let mut list: Vec<WorkerTarget> = Vec::new();
    let mut i: usize = 0;
    while i < candidates.len()
        invariant
            i <= candidates.len(),
            list@ == targets(candidates@.take(i as int)),
        decreases candidates.len() - i,
    {
        list.push(candidates[i].target.copied());
        assert(targets(candidates@.take(i + 1)) =~= targets(candidates@.take(i as int)).push(
            candidates@[i as int].target,
        ));
        i = i + 1;
    }
    assert(candidates@.take(i as int) == candidates@);
    list
}

/// Whether two hints are equal.
fn same_hint(a: &Vec<u64>, b: &Vec<u64>) -> (same: bool)
    ensures
        same == (a@ == b@),
{
    if a.len() != b.len() {
        return false;
    }
    let mut i: usize = 0;
    while i < a.len()
        invariant
            i <= a.len(),
            a.len() == b.len(),
            forall|j: int| 0 <= j < i ==> a@[j] == b@[j],
        decreases a.len() - i,
    {
        if a[i] != b[i] {
            return false;
        }
        i = i + 1;
    }
    assert(a@ =~= b@);
    true
}

fn agreeing_replicas(prepared: &Vec<PreparedHint>) -> (names: Vec<String>)
    requires
        prepared@.len() > 0,
    ensures
        texts(names@) == agreeing(prepared@, prepared@[0].hint@),
{
    let mut names: Vec<String> = Vec::new();
    let mut i: usize = 0;
    let ghost canonical = prepared@[0].hint@;
    assert(texts(names@) =~= agreeing(prepared@.take(0), canonical));
    while i < prepared.len()
        invariant
            i <= prepared.len(),
            prepared@.len() > 0,
            canonical == prepared@[0].hint@,
            texts(names@) == agreeing(prepared@.take(i as int), canonical),
        decreases prepared.len() - i,
    {
        proof {
            assert(prepared@.take(i + 1).drop_last() == prepared@.take(i as int));
            assert(prepared@.take(i + 1).last() == prepared@[i as int]);
        }
        let ghost before = names@;
        if same_hint(&prepared[i].hint, &prepared[0].hint) {
            names.push(prepared[i].replica.clone());
            assert(texts(names@) =~= texts(before).push(prepared@[i as int].replica@));
        }
        i = i + 1;
    }
    assert(prepared@.take(i as int) == prepared@);
    names
}

fn copied_assignment(shards: &Vec<ActivateShard>) -> (copy: Vec<ActivateShard>)
    ensures
        copy@ == shards@,
{
    let mut copy: Vec<ActivateShard> = Vec::new();
    let mut i: usize = 0;
    while i < shards.len()
        invariant
            i <= shards.len(),
            copy@ == shards@.take(i as int),
        decreases shards.len() - i,
    {
        copy.push(
            ActivateShard {
                shard_id: shards[i].shard_id,
                rows_sha256: shards[i].rows_sha256.clone(),
            },
        );
        assert(shards@.take(i + 1) =~= shards@.take(i as int).push(shards@[i as int]));
        i = i + 1;
    }
    assert(shards@.take(i as int) == shards@);
    copy
}

fn kept_candidates(candidates: &Vec<Candidate>, accepted: &Vec<String>, plan: &ShardPlan) -> (next:
    Vec<Candidate>)
    ensures
        views(next@) == kept(
            views(candidates@),
            texts(accepted@),
            (plan.shard_id, plan.rows_sha256@),
        ),
{
    let ghost shard = (plan.shard_id, plan.rows_sha256@);
    let mut next: Vec<Candidate> = Vec::new();
    let mut i: usize = 0;
    assert(views(next@) =~= kept(views(candidates@).take(0), texts(accepted@), shard));
    while i < candidates.len()
        invariant
            i <= candidates.len(),
            shard == (plan.shard_id, plan.rows_sha256@),
            views(next@) == kept(views(candidates@).take(i as int), texts(accepted@), shard),
        decreases candidates.len() - i,
    {
        let candidate = &candidates[i];
        let ghost all = views(candidates@);
        proof {
            assert(all.take(i + 1).drop_last() =~= all.take(i as int));
            assert(all.take(i + 1).last() == candidate.view());
        }
        let ghost before = next@;
        if list_holds(accepted, candidate.target.name()) {
            let mut assignment = copied_assignment(&candidate.assignment);
            assignment.push(
                ActivateShard { shard_id: plan.shard_id, rows_sha256: plan.rows_sha256.clone() },
            );
            assert(assigned(assignment@) =~= assigned(candidate.assignment@).push(shard));
            let added = Candidate { target: candidate.target.copied(), assignment };
            next.push(added);
            assert(views(next@) =~= views(before).push(added.view()));
        }
        i = i + 1;
    }
    assert(views(candidates@).take(i as int) == views(candidates@));
    next
}

/// A group is assigned the shards that name it, in the order of the shards.
pub proof fn law_assignments_follow_the_descriptors(
    descriptors: Seq<ShardDescriptor>,
    group: Seq<char>,
)
    ensures
        group_assignment(descriptors, group) == descriptors.filter(
            |shard: ShardDescriptor| shard.worker@ == group,
        ).map_values(|shard: ShardDescriptor| (shard.shard_id, shard.rows_sha256@)),
    decreases descriptors.len(),
{
    reveal(Seq::filter);
    let own = |shard: ShardDescriptor| shard.worker@ == group;
    let named = |shard: ShardDescriptor| (shard.shard_id, shard.rows_sha256@);
    if descriptors.len() > 0 {
        law_assignments_follow_the_descriptors(descriptors.drop_last(), group);
    }
    assert(group_assignment(descriptors, group) =~= descriptors.filter(own).map_values(named));
}

/// The replicas that agree are those with the canonical hint, in the order in which
/// they answered.
pub proof fn law_agreeing_replicas_have_the_canonical_hint(
    prepared: Seq<PreparedHint>,
    canonical: Seq<u64>,
)
    ensures
        agreeing(prepared, canonical) == prepared.filter(
            |answer: PreparedHint| answer.hint@ == canonical,
        ).map_values(|answer: PreparedHint| answer.replica@),
    decreases prepared.len(),
{
    reveal(Seq::filter);
    let same = |answer: PreparedHint| answer.hint@ == canonical;
    let named = |answer: PreparedHint| answer.replica@;
    if prepared.len() > 0 {
        law_agreeing_replicas_have_the_canonical_hint(prepared.drop_last(), canonical);
    }
    assert(agreeing(prepared, canonical) =~= prepared.filter(same).map_values(named));
}

/// The candidates that stay are those that agreed, in their order, each with the
/// shard behind what it was assigned before.
pub proof fn law_candidates_stay_with_the_shard(
    candidates: Seq<(WorkerTarget, Seq<(u64, Seq<char>)>)>,
    accepted: Seq<Seq<char>>,
    shard: (u64, Seq<char>),
)
    ensures
        kept(candidates, accepted, shard) == candidates.filter(
            |candidate: (WorkerTarget, Seq<(u64, Seq<char>)>)| accepted.contains(
                candidate.0.label(),
            ),
        ).map_values(
            |candidate: (WorkerTarget, Seq<(u64, Seq<char>)>)|
                (candidate.0, candidate.1.push(shard)),
        ),
    decreases candidates.len(),
{
    reveal(Seq::filter);
    let agreed = |candidate: (WorkerTarget, Seq<(u64, Seq<char>)>)| accepted.contains(
        candidate.0.label(),
    );
    let grown = |candidate: (WorkerTarget, Seq<(u64, Seq<char>)>)|
        (candidate.0, candidate.1.push(shard));
    if candidates.len() > 0 {
        law_candidates_stay_with_the_shard(candidates.drop_last(), accepted, shard);
    }
    assert(kept(candidates, accepted, shard) =~= candidates.filter(agreed).map_values(grown));
}

} // verus!
