//! What the coordinator needs from a table's rows to publish it.

use std::ops::RangeInclusive;
use vstd::prelude::*;

use crate::enhance::store::RecordJournal;
use crate::enhance::types::{DatabaseId, DatabaseLayout};

verus! {

/// `RangeInclusive::end` gives the upper bound of a range that has not been
/// iterated to exhaustion.
pub assume_specification<Idx>[ RangeInclusive::<Idx>::end ](range: &RangeInclusive<Idx>) -> (end:
    &Idx)
    ensures
        !range@.exhausted ==> *end == range@.end,
;

/// A publishable table. Journals implement it directly; sealed tables
/// implement it from memory.
pub trait TableSource {
    /// The source is internally consistent and its layout valid.
    spec fn ready(&self) -> bool;

    spec fn identity(&self) -> DatabaseId;

    spec fn geometry(&self) -> DatabaseLayout;

    /// Populated positions.
    spec fn position_count(&self) -> nat;

    /// The last shard that is published.
    spec fn final_shard(&self) -> nat;

    /// The full padded shard.
    spec fn padded_shard(&self, shard_id: nat) -> Seq<u8>;

    /// Populated positions of one shard.
    spec fn filled(&self, shard_id: nat) -> nat;

    /// Every published shard has a populated position.
    proof fn lemma_published_shards(&self, shard_id: nat)
        requires
            self.ready(),
            self.position_count() > 0,
            shard_id <= self.final_shard(),
        ensures
            self.geometry().valid(),
            self.filled(shard_id) > 0,
            shard_id * self.geometry().positions_per_shard() < self.position_count(),
    ;

    fn table(&self) -> (table: DatabaseId)
        ensures
            table == self.identity(),
    ;

    fn layout(&self) -> (layout: DatabaseLayout)
        ensures
            layout == self.geometry(),
    ;

    fn positions(&self) -> (count: u64)
        requires
            self.ready(),
        ensures
            count == self.position_count(),
    ;

    /// The shards with a populated position.
    fn shard_ids(&self) -> (ids: RangeInclusive<u64>)
        requires
            self.ready(),
        ensures
            forall|s: u64| ids@.start <= s <= ids@.end <==> #[trigger] self.filled(s as nat) > 0,
            self.position_count() > 0 ==> ids@.start == 0 && ids@.end == self.final_shard(),
            !ids@.exhausted,
    ;

    /// Fails exactly for a shard without a populated position.
    fn read_shard_rows(&self, shard_id: u64) -> (rows: Result<Vec<u8>, String>)
        requires
            self.ready(),
        ensures
            match rows {
                Ok(rows) => self.filled(shard_id as nat) > 0 && rows@ == self.padded_shard(
                    shard_id as nat,
                ),
                Err(_) => self.filled(shard_id as nat) == 0,
            },
    ;

    fn populated_positions_in_shard(&self, shard_id: u64) -> (count: u64)
        requires
            self.ready(),
        ensures
            count == self.filled(shard_id as nat),
    ;
}

/// A journal viewed as the table it backs.
pub struct TableJournal<'a> {
    table: DatabaseId,
    journal: &'a RecordJournal,
}

impl<'a> TableJournal<'a> {
    pub closed spec fn viewed(&self) -> &'a RecordJournal {
        self.journal
    }

    /// Views a journal as `table`; only the journal that backs it will do.
    pub fn new(table: DatabaseId, journal: &'a RecordJournal) -> (view: Result<
        TableJournal<'a>,
        String,
    >)
        ensures
            match view {
                Ok(view) => {
                    &&& journal.backed_table() == Some(table)
                    &&& view.identity() == table
                    &&& view.viewed() == journal
                },
                Err(message) => {
                    &&& journal.backed_table() != Some(table)
                    &&& message@ == "journal "@ + journal.label() + " does not back the "@
                        + table.wire_name() + " table"@
                },
            },
    {
        let backs: bool = match journal.table() {
            Some(backed) => backed == table,
            None => false,
        };
        if !backs {
            let mut message = String::from_str("journal ");
            message.append(journal.name());
            message.append(" does not back the ");
            message.append(table.as_str());
            message.append(" table");
            return Err(message);
        }
        Ok(TableJournal { table, journal })
    }
}

impl TableSource for TableJournal<'_> {
    open spec fn ready(&self) -> bool {
        self.viewed().wf()
    }

    closed spec fn identity(&self) -> DatabaseId {
        self.table
    }

    open spec fn geometry(&self) -> DatabaseLayout {
        self.viewed().geometry()
    }

    open spec fn position_count(&self) -> nat {
        self.viewed().size()
    }

    open spec fn final_shard(&self) -> nat {
        self.viewed().last_shard()
    }

    open spec fn padded_shard(&self, shard_id: nat) -> Seq<u8> {
        self.viewed().shard_rows(shard_id)
    }

    open spec fn filled(&self, shard_id: nat) -> nat {
        self.viewed().populated(shard_id)
    }

    proof fn lemma_published_shards(&self, shard_id: nat) {
        self.journal.lemma_wf();
        self.journal.geometry().lemma_valid_bounds();
        crate::enhance::store::law_shards_cover_the_journal(self.journal, shard_id);
    }

    fn table(&self) -> DatabaseId {
        self.table
    }

    fn layout(&self) -> DatabaseLayout {
        *self.journal.layout()
    }

    fn positions(&self) -> u64 {
        self.journal.tree_size()
    }

    fn shard_ids(&self) -> RangeInclusive<u64> {
        let ids = self.journal.shard_ids();
        assert forall|s: u64| ids@.start <= s <= ids@.end <==> #[trigger] self.filled(
            s as nat,
        ) > 0 by {
            assert(self.filled(s as nat) == self.journal.populated(s as nat));
        }
        ids
    }

    fn read_shard_rows(&self, shard_id: u64) -> Result<Vec<u8>, String> {
        proof {
            self.journal.lemma_wf();
            self.journal.geometry().lemma_valid_bounds();
        }
        match self.journal.read_shard_rows(shard_id) {
            Ok(rows) => Ok(rows),
            Err(error) => Err(error.message()),
        }
    }

    fn populated_positions_in_shard(&self, shard_id: u64) -> u64 {
        self.journal.populated_positions_in_shard(shard_id)
    }
}

} // verus!
