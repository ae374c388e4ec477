//! Decisions of the filter ingest loop: how far coverage still agrees with the
//! best chain, and when it is made durable.

use vstd::prelude::*;

use crate::filter::service::Phase;
use crate::filter::store::{chain_hash, FilterStore};
use crate::filter::types::BlockHash;

verus! {

/// What reconciling coverage with the best chain needs next.
#[derive(Debug)]
pub enum ReconcileStep {
    /// The highest covered block is on the best chain, or nothing is covered.
    Settled,
    /// The node's hash at this height decides.
    AskHash(u64),
    /// The highest covered block is not on the best chain: roll back to this
    /// height.
    Rollback(Option<u64>),
}

/// The height below.
pub open spec fn height_below(height: nat) -> Option<u64> {
    if height == 0 {
        None
    } else {
        Some((height - 1) as u64)
    }
}

fn below(height: u64) -> (lower: Option<u64>)
    ensures
        lower == height_below(height as nat),
{
    if height == 0 {
        None
    } else {
        Some(height - 1)
    }
}

/// Starts to reconcile coverage with a node whose best tip is at `tip`.
pub fn begin_reconcile(store: &FilterStore, tip: u64) -> (step: ReconcileStep)
    requires
        store.wf(),
    ensures
        step == (if store.covered() == 0 {
            ReconcileStep::Settled
        } else if store.next() - 1 <= tip {
            ReconcileStep::AskHash((store.next() - 1) as u64)
        } else {
            ReconcileStep::Rollback(height_below((store.next() - 1) as nat))
        }),
{
    proof {
        store.lemma_wf();
    }
    match store.covered_through() {
        None => ReconcileStep::Settled,
        Some(height) => if height <= tip {
            ReconcileStep::AskHash(height)
        } else {
            ReconcileStep::Rollback(below(height))
        },
    }
}

/// Goes on with the hash that the node has at the highest covered height.
pub fn resume_reconcile(store: &FilterStore, canonical: BlockHash) -> (step: ReconcileStep)
    requires
        store.wf(),
        store.covered() > 0,
    ensures
        step == (if canonical@ == chain_hash(store.chain_image(), store.covered() - 1) {
            ReconcileStep::Settled
        } else {
            ReconcileStep::Rollback(height_below((store.next() - 1) as nat))
        }),
{
    proof {
        store.lemma_wf();
    }
    match store.covered_through() {
        None => ReconcileStep::Settled,
        Some(height) => match store.block_hash_at(height) {
            Some(stored) => if stored.same(&canonical) {
                ReconcileStep::Settled
            } else {
                ReconcileStep::Rollback(below(height))
            },
            None => ReconcileStep::Settled,
        },
    }
}

/// Every rollback that reconciling asks for takes back the highest covered
/// block and no other, so reconciling comes to an end.
pub proof fn law_rollbacks_take_one_block(store: FilterStore)
    requires
        store.wf(),
        store.covered() > 0,
    ensures
        store.kept(height_below((store.next() - 1) as nat)) == store.covered() - 1,
{
    store.lemma_wf();
}

/// What to do once coverage agrees with the best chain.
#[derive(Debug)]
pub struct CatchUp {
    /// The phase to announce.
    pub phase: Phase,
    /// The first block to fetch, if any.
    pub next: Option<u64>,
}

/// Whether there is anything to fetch, and what to announce.
pub fn catch_up(next: u64, tip: u64) -> (plan: CatchUp)
    ensures
        next > tip ==> plan.phase is Serving && plan.next is None,
        next <= tip ==> plan.next == Some(next) && plan.phase == (Phase::Syncing {
            current_height: height_below(next as nat),
            target_height: tip,
        }),
{
    if next > tip {
        CatchUp { phase: Phase::Serving, next: None }
    } else {
        CatchUp {
            phase: Phase::Syncing { current_height: below(next), target_height: tip },
            next: Some(next),
        }
    }
}

/// Counts appended blocks up to the next checkpoint.
#[derive(Clone, Copy, Debug, PartialEq, Eq, Structural)]
pub struct CommitCounter {
    pub since_commit: u64,
    pub commit_every: u64,
}

impl CommitCounter {
    /// Counts a block; the result says whether a checkpoint is due.
    pub fn block_appended(&mut self) -> (due: bool)
        requires
            old(self).since_commit < u64::MAX,
        ensures
            final(self).commit_every == old(self).commit_every,
            due == (old(self).since_commit + 1 >= old(self).commit_every),
            final(self).since_commit == (if due {
                0
            } else {
                (old(self).since_commit + 1) as u64
            }),
    {
        self.since_commit = self.since_commit + 1;
        if self.since_commit >= self.commit_every {
            self.since_commit = 0;
            true
        } else {
            false
        }
    }
}

} // verus!
