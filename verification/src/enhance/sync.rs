//! Decisions of the ingest loop: when the journal still follows the best
//! chain, which block comes next, and when a generation is due. Asking the
//! node, and waiting, is left to the caller.

use vstd::prelude::*;

use crate::enhance::coordinator::Anchor;
use crate::enhance::ingest::EnhanceJournal;
use crate::enhance::status::CoordinatorPhase;
use crate::enhance::store::{kept_blocks, BlockEntry, RecordJournal};
use crate::enhance::types::GenerationManifest;
use crate::text::same_text;

verus! {

/// What reconciling the journal with the best chain needs next.
#[derive(Debug, PartialEq, Eq)]
pub enum ReconcileStep {
    /// The journal's end is on the best chain, or the journal is empty.
    Settled,
    /// The node's hash at this height decides.
    AskHash(u64),
    /// The last block is not on the best chain: rewind to this height.
    Rewind(Option<u64>),
}

/// Height of the block before the last one.
pub open spec fn height_before_last(blocks: Seq<BlockEntry>) -> Option<u64> {
    if blocks.len() < 2 {
        None
    } else {
        Some(blocks[blocks.len() - 2].height)
    }
}

fn previous_height(blocks: &[BlockEntry]) -> (height: Option<u64>)
    ensures
        height == height_before_last(blocks@),
{
    if blocks.len() < 2 {
        None
    } else {
        Some(blocks[blocks.len() - 2].height)
    }
}

/// First step for a node whose best tip is at `tip`.
pub open spec fn reconcile_step(blocks: Seq<BlockEntry>, tip: u64) -> ReconcileStep {
    if blocks.len() == 0 {
        ReconcileStep::Settled
    } else if blocks.last().height <= tip {
        ReconcileStep::AskHash(blocks.last().height)
    } else {
        ReconcileStep::Rewind(height_before_last(blocks))
    }
}

/// Starts to reconcile the journal with a node whose best tip is at `tip`.
pub fn begin_reconcile(journal: &RecordJournal, tip: u64) -> (step: ReconcileStep)
    ensures
        step == reconcile_step(journal.history(), tip),
{
    match journal.last_block() {
        None => ReconcileStep::Settled,
        Some(last) => if last.height <= tip {
            ReconcileStep::AskHash(last.height)
        } else {
            ReconcileStep::Rewind(previous_height(journal.blocks()))
        },
    }
}

/// Goes on with the hash that the node has at the last block's height.
pub fn resume_reconcile(journal: &RecordJournal, chain_hash: &str) -> (step: ReconcileStep)
    requires
        journal.history().len() > 0,
    ensures
        step == (if journal.history().last().hash@ == chain_hash@ {
            ReconcileStep::Settled
        } else {
            ReconcileStep::Rewind(height_before_last(journal.history()))
        }),
{
    match journal.last_block() {
        None => ReconcileStep::Settled,
        Some(last) => if same_text(last.hash.as_str(), chain_hash) {
            ReconcileStep::Settled
        } else {
            ReconcileStep::Rewind(previous_height(journal.blocks()))
        },
    }
}

/// Every rewind that reconciling asks for takes back the last block and no
/// other, so reconciling comes to an end.
pub proof fn law_rewinds_take_one_block(journal: RecordJournal)
    requires
        journal.history().len() > 0,
        journal.in_order(),
    ensures
        kept_blocks(journal.history(), height_before_last(journal.history()))
            == journal.history().drop_last(),
{
    let blocks = journal.history();
    reveal_with_fuel(kept_blocks, 3);
    if blocks.len() < 2 {
        assert(blocks.drop_last() =~= Seq::empty());
    } else {
        let n = blocks.len() - 1;
        assert(blocks[n].height == blocks[n - 1].height + 1);
    }
}

/// The blocks that are left when the node answers every question from one
/// chain: `hash_at` gives the chain's hash at each height.
pub open spec fn reconciled(
    blocks: Seq<BlockEntry>,
    tip: u64,
    hash_at: spec_fn(u64) -> Seq<char>,
) -> Seq<BlockEntry>
    decreases blocks.len(),
{
    if blocks.len() == 0 {
        blocks
    } else if blocks.last().height <= tip && blocks.last().hash@ == hash_at(blocks.last().height) {
        blocks
    } else {
        reconciled(blocks.drop_last(), tip, hash_at)
    }
}

/// Reconciling keeps the longest start of the journal that ends on the best
/// chain: its end, if any, is on the chain, and the end of every longer start
/// is not.
pub proof fn law_reconciled_ends_on_the_chain(
    blocks: Seq<BlockEntry>,
    tip: u64,
    hash_at: spec_fn(u64) -> Seq<char>,
)
    ensures
        ({
            let left = reconciled(blocks, tip, hash_at);
            &&& left.len() <= blocks.len()
            &&& left == blocks.take(left.len() as int)
            &&& left.len() > 0 ==> left.last().height <= tip && left.last().hash@ == hash_at(
                left.last().height,
            )
            &&& forall|i: int|
                left.len() <= i < blocks.len() ==> (#[trigger] blocks[i]).height > tip
                    || blocks[i].hash@ != hash_at(blocks[i].height)
        }),
    decreases blocks.len(),
{
    if blocks.len() == 0 || (blocks.last().height <= tip && blocks.last().hash@ == hash_at(
        blocks.last().height,
    )) {
        assert(blocks =~= blocks.take(blocks.len() as int));
    } else {
        let head = blocks.drop_last();
        law_reconciled_ends_on_the_chain(head, tip, hash_at);
        let left = reconciled(head, tip, hash_at);
        assert(head.take(left.len() as int) =~= blocks.take(left.len() as int));
        assert forall|i: int| left.len() <= i < blocks.len() implies (#[trigger] blocks[i]).height
            > tip || blocks[i].hash@ != hash_at(blocks[i].height) by {
            if i < head.len() {
                assert(head[i] == blocks[i]);
            }
        }
    }
}

/// The block to fetch first.
pub fn next_height(committed: Option<u64>, activation_height: u64) -> (next: u64)
    requires
        committed matches Some(height) ==> height < u64::MAX,
    ensures
        next == (match committed {
            Some(height) => (height + 1) as u64,
            None => activation_height,
        }),
{
    match committed {
        Some(height) => height + 1,
        None => activation_height,
    }
}

/// The phase to announce before fetching, if anything is to be fetched.
pub fn syncing_phase(next: u64, target: u64) -> (phase: Option<CoordinatorPhase>)
    ensures
        phase == (if next <= target {
            Some(
                CoordinatorPhase::Syncing {
                    current_height: if next == 0 {
                        0
                    } else {
                        (next - 1) as u64
                    },
                    target_height: target,
                },
            )
        } else {
            None
        }),
{
    if next <= target {
        let current_height: u64 = if next == 0 {
            0
        } else {
            next - 1
        };
        Some(CoordinatorPhase::Syncing { current_height, target_height: target })
    } else {
        None
    }
}

/// Whether the newest generation is the one of this anchor.
pub open spec fn already_published(
    manifest: Option<&GenerationManifest>,
    height: u64,
    hash: Seq<char>,
) -> bool {
    manifest is Some && manifest->0.anchor_height == height && manifest->0.anchor_block_hash@
        == hash
}

/// The anchor of the generation that is due: the journal has reached the
/// target and the newest generation is not of that very block.
pub fn due_anchor(
    journal: &EnhanceJournal,
    manifest: Option<&GenerationManifest>,
    target: u64,
) -> (anchor: Option<Anchor>)
    ensures
        ({
            let blocks = journal.records.history();
            match anchor {
                Some(anchor) => {
                    &&& blocks.len() > 0
                    &&& blocks.last().height == target
                    &&& !already_published(manifest, target, blocks.last().hash@)
                    &&& anchor.height == target
                    &&& anchor.hash@ == blocks.last().hash@
                },
                None => {
                    ||| blocks.len() == 0
                    ||| blocks.last().height != target
                    ||| already_published(manifest, target, blocks.last().hash@)
                },
            }
        }),
{
    let (height, hash) = match journal.highest_committed() {
        Some(block) => block,
        None => {
            return None;
        },
    };
    if height != target {
        return None;
    }
    if let Some(manifest) = manifest {
        if manifest.anchor_height == target && same_text(
            manifest.anchor_block_hash.as_str(),
            hash.as_str(),
        ) {
            return None;
        }
    }
    Some(Anchor { height, hash })
}

/// Whether an anchor is still the best tip, by what the node says now.
pub fn still_best(anchor: &Anchor, tip: u64, chain_hash: &str) -> (best: bool)
    ensures
        best == (tip == anchor.height && chain_hash@ == anchor.hash@),
{
    tip == anchor.height && same_text(chain_hash, anchor.hash.as_str())
}

/// A step that rewinds is taken exactly where the journal is above the tip; otherwise
/// the hash at its own height is asked for, and an empty journal is settled.
pub proof fn law_journals_above_the_tip_are_rewound(blocks: Seq<BlockEntry>, tip: u64)
    ensures
        reconcile_step(blocks, tip) is Settled <==> blocks.len() == 0,
        reconcile_step(blocks, tip) is Rewind <==> blocks.len() > 0 && blocks.last().height > tip,
        blocks.len() > 0 && blocks.last().height <= tip ==> reconcile_step(blocks, tip)
            == ReconcileStep::AskHash(blocks.last().height),
{
}

} // verus!
