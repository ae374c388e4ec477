//! Worker placement: which groups of interchangeable workers serve a table.

use vstd::prelude::*;

use crate::enhance::types::DatabaseId;
use crate::text::{list_holds, texts};

verus! {

/// One worker process.
#[derive(Debug)]
pub enum WorkerTarget {
    Remote { name: String, base_url: String },
    Embedded { name: String },
}

impl WorkerTarget {
    pub open spec fn label(self) -> Seq<char> {
        match self {
            WorkerTarget::Remote { name, .. } => name@,
            WorkerTarget::Embedded { name } => name@,
        }
    }

    pub fn name(&self) -> (name: &str)
        ensures
            name@ == self.label(),
    {
        match self {
            WorkerTarget::Remote { name, .. } => name.as_str(),
            WorkerTarget::Embedded { name } => name.as_str(),
        }
    }

    /// A field-for-field copy.
    pub fn copied(&self) -> (copy: WorkerTarget)
        ensures
            copy == *self,
    {
        match self {
            WorkerTarget::Remote { name, base_url } => WorkerTarget::Remote {
                name: name.clone(),
                base_url: base_url.clone(),
            },
            WorkerTarget::Embedded { name } => WorkerTarget::Embedded { name: name.clone() },
        }
    }
}

/// Interchangeable workers holding the same complete shard range. The name is
/// stable placement identity; replica names identify physical processes and
/// may be replaced without moving shards.
#[derive(Debug)]
pub struct WorkerGroup {
    pub name: String,
    pub replicas: Vec<WorkerTarget>,
}

/// One table the coordinator serves and the ordered worker groups that own its
/// shards. Groups may share physical hosts; ownership is per table.
#[derive(Debug)]
pub struct TableSetup {
    pub table: DatabaseId,
    pub groups: Vec<WorkerGroup>,
}

/// The names of workers, in order.
pub open spec fn labels(replicas: Seq<WorkerTarget>) -> Seq<Seq<char>> {
    replicas.map_values(|replica: WorkerTarget| replica.label())
}

/// The names of all replicas of groups, group by group.
pub open spec fn pool_labels(groups: Seq<WorkerGroup>) -> Seq<Seq<char>>
    decreases groups.len(),
{
    if groups.len() == 0 {
        Seq::empty()
    } else {
        pool_labels(groups.drop_last()) + labels(groups.last().replicas@)
    }
}

/// Replica names that come before replica `r` of group `g`.
pub open spec fn labels_before(groups: Seq<WorkerGroup>, g: int, r: int) -> Seq<Seq<char>> {
    pool_labels(groups.take(g)) + labels(groups[g].replicas@.take(r))
}

/// Whether group `g` reuses a replica name.
pub open spec fn reuses_replica_name(groups: Seq<WorkerGroup>, g: int) -> bool {
    exists|r: int|
        0 <= r < groups[g].replicas@.len() && labels_before(groups, g, r).contains(
            (#[trigger] groups[g].replicas@[r]).label(),
        )
}

pub open spec fn group_names_distinct(groups: Seq<WorkerGroup>) -> bool {
    forall|i: int, j: int|
        0 <= i < j < groups.len() ==> (#[trigger] groups[i]).name@ != (#[trigger] groups[j]).name@
}

/// What is wrong with group `g` of a setup, if anything.
pub open spec fn group_issue(setup: TableSetup, g: int) -> Option<Seq<char>> {
    let groups = setup.groups@;
    let table = setup.table.wire_name();
    if groups[g].name@.len() == 0 {
        Some("worker group name in "@ + table + " must not be empty"@)
    } else if groups[g].replicas@.len() == 0 {
        Some("worker group "@ + groups[g].name@ + " in "@ + table + " needs at least one replica"@)
    } else if reuses_replica_name(groups, g) {
        Some("worker replica names in the "@ + table + " pool must be unique"@)
    } else {
        None
    }
}

/// The first issue among the groups from `g` on.
pub open spec fn first_group_issue(setup: TableSetup, g: int) -> Option<Seq<char>>
    decreases setup.groups@.len() - g,
{
    if g >= setup.groups@.len() {
        None
    } else {
        match group_issue(setup, g) {
            Some(issue) => Some(issue),
            None => first_group_issue(setup, g + 1),
        }
    }
}

/// What is wrong with a setup taken by itself, if anything.
pub open spec fn setup_issue(setup: TableSetup) -> Option<Seq<char>> {
    let table = setup.table.wire_name();
    if setup.groups@.len() == 0 {
        Some("table "@ + table + " needs at least one worker group"@)
    } else if !group_names_distinct(setup.groups@) {
        Some("worker group names in the "@ + table + " pool must be unique"@)
    } else {
        first_group_issue(setup, 0)
    }
}

/// A setup that can be served: named groups, each with a replica, no name
/// used twice.
pub open spec fn setup_valid(setup: TableSetup) -> bool {
    setup_issue(setup) is None
}

proof fn lemma_labels_push(replicas: Seq<WorkerTarget>, r: int)
    requires
        0 <= r < replicas.len(),
    ensures
        labels(replicas.take(r + 1)) == labels(replicas.take(r)).push(replicas[r].label()),
{
    assert(labels(replicas.take(r + 1)) =~= labels(replicas.take(r)).push(replicas[r].label()));
}

/// A valid setup has a replica in every group, and its groups have names.
pub proof fn lemma_valid_groups(setup: TableSetup, g: int)
    requires
        setup_valid(setup),
        0 <= g < setup.groups@.len(),
    ensures
        setup.groups@[g].name@.len() > 0,
        setup.groups@[g].replicas@.len() > 0,
        !reuses_replica_name(setup.groups@, g),
        group_names_distinct(setup.groups@),
{
    lemma_no_issue_after(setup, 0, g);
}

proof fn lemma_no_issue_after(setup: TableSetup, from: int, g: int)
    requires
        first_group_issue(setup, from) is None,
        0 <= from <= g < setup.groups@.len(),
    ensures
        group_issue(setup, g) is None,
    decreases g - from,
{
    if from < g {
        lemma_no_issue_after(setup, from + 1, g);
    }
}

/// Checks one setup: the first thing wrong with it, in words.
pub fn check_setup(setup: &TableSetup) -> (checked: Result<(), String>)
    ensures
        match checked {
            Ok(()) => setup_valid(*setup),
            Err(message) => setup_issue(*setup) == Some(message@),
        },
{
    let table = setup.table.as_str();
    if setup.groups.len() == 0 {
        let mut message = String::from_str("table ");
        message.append(table);
        message.append(" needs at least one worker group");
        return Err(message);
    }
    let mut names: Vec<String> = Vec::new();
    let mut i: usize = 0;
    while i < setup.groups.len()
        invariant
            i <= setup.groups.len(),
            setup.groups@.len() > 0,
            table@ == setup.table.wire_name(),
            names@.len() == i,
            forall|j: int| 0 <= j < i ==> (#[trigger] names@[j])@ == setup.groups@[j].name@,
            forall|a: int, b: int|
                0 <= a < b < i ==> (#[trigger] setup.groups@[a]).name@ != (
                #[trigger] setup.groups@[b]).name@,
        decreases setup.groups.len() - i,
    {
        if list_holds(&names, setup.groups[i].name.as_str()) {
            proof {
                let j = choose|j: int|
                    0 <= j < texts(names@).len() && texts(names@)[j] == setup.groups@[i as int].name@;
                assert(names@[j]@ == setup.groups@[j].name@);
                assert(!group_names_distinct(setup.groups@));
            }
            let mut message = String::from_str("worker group names in the ");
            message.append(table);
            message.append(" pool must be unique");
            return Err(message);
        }
        proof {
            assert forall|a: int| 0 <= a < i implies (#[trigger] setup.groups@[a]).name@
                != setup.groups@[i as int].name@ by {
                assert(names@[a]@ == setup.groups@[a].name@);
                assert(texts(names@)[a] == names@[a]@);
            }
        }
        names.push(setup.groups[i].name.clone());
        i = i + 1;
    }
    let mut seen: Vec<String> = Vec::new();
    let mut g: usize = 0;
    let ghost groups = setup.groups@;
    assert(texts(seen@) =~= pool_labels(groups.take(0)));
    while g < setup.groups.len()
        invariant
            g <= setup.groups.len(),
            groups == setup.groups@,
            groups.len() > 0,
            group_names_distinct(groups),
            table@ == setup.table.wire_name(),
            texts(seen@) == pool_labels(groups.take(g as int)),
            first_group_issue(*setup, 0) == first_group_issue(*setup, g as int),
        decreases setup.groups.len() - g,
    {
        let group = &setup.groups[g];
        if group.name.as_str().is_empty() {
            let mut message = String::from_str("worker group name in ");
            message.append(table);
            message.append(" must not be empty");
            return Err(message);
        }
        if group.replicas.len() == 0 {
            let mut message = String::from_str("worker group ");
            message.append(group.name.as_str());
            message.append(" in ");
            message.append(table);
            message.append(" needs at least one replica");
            return Err(message);
        }
        let mut r: usize = 0;
        assert(texts(seen@) =~= labels_before(groups, g as int, 0));
        while r < group.replicas.len()
            invariant
                g < groups.len(),
                groups == setup.groups@,
                group_names_distinct(groups),
                *group == groups[g as int],
                group.name@.len() > 0,
                group.replicas@.len() > 0,
                table@ == setup.table.wire_name(),
                r <= group.replicas.len(),
                texts(seen@) == labels_before(groups, g as int, r as int),
                first_group_issue(*setup, 0) == first_group_issue(*setup, g as int),
                forall|q: int|
                    0 <= q < r ==> !labels_before(groups, g as int, q).contains(
                        (#[trigger] group.replicas@[q]).label(),
                    ),
            decreases group.replicas.len() - r,
        {
            let name = group.replicas[r].name();
            if list_holds(&seen, name) {
                assert(labels_before(groups, g as int, r as int).contains(
                    groups[g as int].replicas@[r as int].label(),
                ));
                let mut message = String::from_str("worker replica names in the ");
                message.append(table);
                message.append(" pool must be unique");
                return Err(message);
            }
            let ghost before = seen@;
            seen.push(String::from_str(name));
            proof {
                lemma_labels_push(group.replicas@, r as int);
                assert(texts(seen@) =~= texts(before).push(name@));
                assert(texts(seen@) =~= labels_before(groups, g as int, r + 1));
            }
            r = r + 1;
        }
        proof {
            assert(group.replicas@.take(r as int) == group.replicas@);
            assert(groups.take(g + 1).drop_last() == groups.take(g as int));
            assert(groups.take(g + 1).last() == *group);
            assert(!reuses_replica_name(groups, g as int));
        }
        g = g + 1;
    }
    Ok(())
}

/// Checks the setups of a coordinator, in order. The error is the first thing
/// wrong: with a setup, or with a table that comes up twice.
pub fn check_setups(setups: &Vec<TableSetup>) -> (checked: Result<(), String>)
    ensures
        match checked {
            Ok(()) => setups_valid(setups@),
            Err(message) => setups_issue(setups@) == Some(message@),
        },
{
    if setups.len() == 0 {
        return Err(String::from_str("at least one PIR table is required"));
    }
    let mut i: usize = 0;
    while i < setups.len()
        invariant
            i <= setups.len(),
            setups@.len() > 0,
            first_setup_issue(setups@, 0) == first_setup_issue(setups@, i as int),
        decreases setups.len() - i,
    {
        match check_setup(&setups[i]) {
            Ok(()) => {},
            Err(message) => {
                return Err(message);
            },
        }
        let mut j: usize = 0;
        while j < i
            invariant
                j <= i < setups.len(),
                setup_valid(setups@[i as int]),
                setups@.len() > 0,
                first_setup_issue(setups@, 0) == first_setup_issue(setups@, i as int),
                forall|k: int|
                    0 <= k < j ==> (#[trigger] setups@[k]).table != setups@[i as int].table,
            decreases i - j,
        {
            if setups[j].table == setups[i].table {
                let mut message = String::from_str("table ");
                message.append(setups[i].table.as_str());
                message.append(" is configured twice");
                assert(configured_before(setups@, i as int));
                return Err(message);
            }
            j = j + 1;
        }
        assert(!configured_before(setups@, i as int));
        i = i + 1;
    }
    Ok(())
}

/// Whether an earlier setup names the same table.
pub open spec fn configured_before(setups: Seq<TableSetup>, i: int) -> bool {
    exists|j: int| 0 <= j < i && (#[trigger] setups[j]).table == setups[i].table
}

/// The first issue among the setups from `i` on.
pub open spec fn first_setup_issue(setups: Seq<TableSetup>, i: int) -> Option<Seq<char>>
    decreases setups.len() - i,
{
    if i >= setups.len() {
        None
    } else {
        match setup_issue(setups[i]) {
            Some(issue) => Some(issue),
            None => if configured_before(setups, i) {
                Some("table "@ + setups[i].table.wire_name() + " is configured twice"@)
            } else {
                first_setup_issue(setups, i + 1)
            },
        }
    }
}

/// What is wrong with a list of setups, if anything.
pub open spec fn setups_issue(setups: Seq<TableSetup>) -> Option<Seq<char>> {
    if setups.len() == 0 {
        Some("at least one PIR table is required"@)
    } else {
        first_setup_issue(setups, 0)
    }
}

pub open spec fn setups_valid(setups: Seq<TableSetup>) -> bool {
    setups_issue(setups) is None
}

/// In a valid list every setup is valid by itself.
pub proof fn lemma_valid_setups(setups: Seq<TableSetup>, from: int, i: int)
    requires
        first_setup_issue(setups, from) is None,
        0 <= from <= i < setups.len(),
    ensures
        setup_valid(setups[i]),
        !configured_before(setups, i),
    decreases i - from,
{
    if from < i {
        lemma_valid_setups(setups, from + 1, i);
    }
}

/// A table's setup is accepted exactly where it has a group, no two groups share a
/// name, every group has a name and a replica, and no two replicas share a name.
pub proof fn law_setups_are_accepted_when_all_names_differ(setup: TableSetup)
    ensures
        setup_issue(setup) is None <==> {
            &&& setup.groups@.len() > 0
            &&& forall|i: int, j: int|
                0 <= i < j < setup.groups@.len() ==> (#[trigger] setup.groups@[i]).name@ != (
                #[trigger] setup.groups@[j]).name@
            &&& forall|g: int|
                0 <= g < setup.groups@.len() ==> (#[trigger] setup.groups@[g]).name@.len() > 0
                    && setup.groups@[g].replicas@.len() > 0
            &&& pool_labels(setup.groups@).no_duplicates()
        },
{
    let groups = setup.groups@;
    lemma_first_group_issue(setup, 0);
    lemma_no_reuse(groups, groups.len() as int);
    assert(groups.take(groups.len() as int) =~= groups);
    if setup_issue(setup) is None {
        assert forall|g: int| 0 <= g < groups.len() implies !(#[trigger] reuses_replica_name(
            groups,
            g,
        )) by {
            assert(group_issue(setup, g) is None);
        }
        assert forall|g: int| 0 <= g < groups.len() implies (#[trigger] groups[g]).name@.len() > 0
            && groups[g].replicas@.len() > 0 by {
            assert(group_issue(setup, g) is None);
        }
    }
    if pool_labels(groups).no_duplicates() && forall|g: int|
        0 <= g < groups.len() ==> (#[trigger] groups[g]).name@.len() > 0
            && groups[g].replicas@.len() > 0 {
        assert forall|g: int| 0 <= g < groups.len() implies (#[trigger] group_issue(
            setup,
            g,
        )) is None by {
            assert(groups[g].name@.len() > 0);
        }
    }
}

proof fn lemma_first_group_issue(setup: TableSetup, from: int)
    requires
        0 <= from,
    ensures
        first_group_issue(setup, from) is None <==> forall|g: int|
            from <= g < setup.groups@.len() ==> (#[trigger] group_issue(setup, g)) is None,
    decreases setup.groups@.len() - from,
{
    if from < setup.groups@.len() {
        lemma_first_group_issue(setup, from + 1);
    }
}

proof fn lemma_no_reuse(groups: Seq<WorkerGroup>, n: int)
    requires
        0 <= n <= groups.len(),
    ensures
        pool_labels(groups.take(n)).no_duplicates() <==> forall|g: int|
            0 <= g < n ==> !(#[trigger] reuses_replica_name(groups, g)),
    decreases n,
{
    if n == 0 {
        assert(groups.take(0).len() == 0);
    } else {
        let g = n - 1;
        lemma_no_reuse(groups, g);
        assert(groups.take(n).drop_last() =~= groups.take(g));
        let before = pool_labels(groups.take(g));
        let own = labels(groups[g].replicas@);
        let all = pool_labels(groups.take(n));
        assert(all =~= before + own);
        if all.no_duplicates() {
            assert(before.no_duplicates()) by {
                assert forall|i: int, j: int| 0 <= i < j < before.len() implies before[i]
                    != before[j] by {
                    assert(all[i] == before[i] && all[j] == before[j]);
                }
            }
            if reuses_replica_name(groups, g) {
                let r = choose|r: int|
                    0 <= r < groups[g].replicas@.len() && labels_before(groups, g, r).contains(
                        (#[trigger] groups[g].replicas@[r]).label(),
                    );
                let label = groups[g].replicas@[r].label();
                let earlier = labels_before(groups, g, r);
                let k = earlier.index_of(label);
                assert(earlier =~= all.take(before.len() + r));
                assert(all[k] == label);
                assert(all[before.len() + r] == label);
                assert(false);
            }
        }
        if before.no_duplicates() && !reuses_replica_name(groups, g) {
            assert forall|i: int, j: int| 0 <= i < j < all.len() implies all[i] != all[j] by {
                if j < before.len() {
                    assert(before[i] != before[j]);
                } else {
                    let r = j - before.len();
                    let earlier = labels_before(groups, g, r);
                    assert(earlier =~= all.take(j));
                    assert(earlier[i] == all[i]);
                    assert(groups[g].replicas@[r].label() == all[j]);
                    if all[i] == all[j] {
                        assert(earlier.contains(groups[g].replicas@[r].label()));
                        assert(reuses_replica_name(groups, g));
                    }
                }
            }
            assert forall|h: int| 0 <= h < n implies !(#[trigger] reuses_replica_name(
                groups,
                h,
            )) by {}
        }
    }
}

/// Setups are accepted exactly where there is one, each is accepted by itself and no
/// table is set up twice.
pub proof fn law_every_table_is_set_up_once(setups: Seq<TableSetup>)
    ensures
        setups_issue(setups) is None <==> {
            &&& setups.len() > 0
            &&& forall|i: int| 0 <= i < setups.len() ==> setup_issue(#[trigger] setups[i]) is None
            &&& forall|i: int, j: int|
                0 <= i < j < setups.len() ==> (#[trigger] setups[i]).table != (
                #[trigger] setups[j]).table
        },
{
    lemma_first_setup_issue(setups, 0);
    if forall|i: int| 0 <= i < setups.len() ==> !(#[trigger] configured_before(setups, i)) {
        assert forall|i: int, j: int| 0 <= i < j < setups.len() implies (
        #[trigger] setups[i]).table != (#[trigger] setups[j]).table by {
            assert(!configured_before(setups, j));
        }
    }
}

proof fn lemma_first_setup_issue(setups: Seq<TableSetup>, from: int)
    requires
        0 <= from,
    ensures
        first_setup_issue(setups, from) is None <==> {
            &&& forall|i: int|
                from <= i < setups.len() ==> setup_issue(#[trigger] setups[i]) is None
            &&& forall|i: int|
                from <= i < setups.len() ==> !(#[trigger] configured_before(setups, i))
        },
    decreases setups.len() - from,
{
    if from < setups.len() {
        lemma_first_setup_issue(setups, from + 1);
        assert(setup_issue(setups[from]) is Some || configured_before(setups, from)
            || first_setup_issue(setups, from) == first_setup_issue(setups, from + 1));
    }
}

} // verus!
