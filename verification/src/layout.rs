//! Row geometry of one table: records packed into rows, rows into shards.

use vstd::prelude::*;

use crate::numbers::{
    ceil_div, div_ceil, is_power_of_two, lemma_power_ceiling, lemma_power_ceiling_monotonic,
    lemma_power_ceiling_multiple, next_power_of_two, power_ceiling,
};

verus! {

/// Row geometry of one table. Parameters, shard sizes and artifact shapes all
/// derive from it.
#[derive(Clone, Copy, Debug, PartialEq, Eq, Structural)]
pub struct DatabaseLayout {
    /// Bytes in one logical record.
    pub record_bytes: usize,
    /// Records packed into one row.
    pub records_per_row: usize,
    /// Rows in one independently published shard.
    pub shard_rows: usize,
}

impl DatabaseLayout {
    pub open spec fn row_size(self) -> nat {
        (self.record_bytes * self.records_per_row) as nat
    }

    pub open spec fn positions_per_shard(self) -> nat {
        (self.shard_rows * self.records_per_row) as nat
    }

    pub open spec fn shard_size(self) -> nat {
        self.shard_rows as nat * self.row_size()
    }

    /// Rows that the first `positions` records occupy.
    pub open spec fn rows_used(self, positions: nat) -> nat {
        ceil_div(positions, self.records_per_row as nat)
    }

    /// Public row capacity: a power of two, never below one shard.
    pub open spec fn capacity_rows(self, used_rows: nat) -> nat {
        power_ceiling(
            if used_rows > self.shard_rows {
                used_rows
            } else {
                self.shard_rows as nat
            },
        )
    }

    /// Every count is positive and a shard fits in memory.
    pub open spec fn valid(self) -> bool {
        &&& self.record_bytes > 0
        &&& self.records_per_row > 0
        &&& self.shard_rows > 0
        &&& 8 * self.shard_size() <= usize::MAX
    }

    /// What a valid layout bounds.
    pub proof fn lemma_valid_bounds(self)
        requires
            self.valid(),
        ensures
            0 < self.row_size() <= self.shard_size(),
            0 < self.positions_per_shard() <= self.shard_size(),
            self.shard_size() == self.positions_per_shard() * self.record_bytes,
    {
        let a = self.record_bytes as int;
        let b = self.records_per_row as int;
        let c = self.shard_rows as int;
        assert(0 < a * b) by (nonlinear_arith)
            requires
                a > 0,
                b > 0,
        ;
        assert(0 < c * b) by (nonlinear_arith)
            requires
                c > 0,
                b > 0,
        ;
        assert(a * b <= c * (a * b)) by (nonlinear_arith)
            requires
                c > 0,
                0 < a * b,
        ;
        assert(c * (a * b) == (c * b) * a) by (nonlinear_arith);
        assert(c * b <= (c * b) * a) by (nonlinear_arith)
            requires
                a > 0,
                0 < c * b,
        ;
    }

    pub fn row_bytes(&self) -> (bytes: usize)
        requires
            self.row_size() <= usize::MAX,
        ensures
            bytes == self.row_size(),
    {
        self.record_bytes * self.records_per_row
    }

    pub fn shard_positions(&self) -> (positions: usize)
        requires
            self.positions_per_shard() <= usize::MAX,
        ensures
            positions == self.positions_per_shard(),
    {
        self.shard_rows * self.records_per_row
    }

    /// Item size of one row, in bits.
    pub fn item_size_bits(&self) -> (bits: u64)
        requires
            8 * self.row_size() <= usize::MAX,
        ensures
            bits == 8 * self.row_size(),
    {
        (self.row_bytes() * 8) as u64
    }

    pub fn shard_bytes(&self) -> (bytes: usize)
        requires
            self.row_size() <= usize::MAX,
            self.shard_size() <= usize::MAX,
        ensures
            bytes == self.shard_size(),
    {
        self.shard_rows * self.row_bytes()
    }

    pub fn used_rows_for(&self, positions: u64) -> (rows: u64)
        requires
            self.records_per_row > 0,
        ensures
            rows == self.rows_used(positions as nat),
    {
        div_ceil(positions, self.records_per_row as u64)
    }

    /// Public capacity: a power of two, never below one shard, so growth only
    /// extends the prefix-stable setup and sealed shards keep theirs.
    pub fn logical_rows_for(&self, used_rows: u64) -> (rows: u64)
        requires
            used_rows <= 0x8000_0000_0000_0000,
            self.shard_rows <= 0x8000_0000_0000_0000,
        ensures
            rows == self.capacity_rows(used_rows as nat),
    {
        let shard_rows: u64 = self.shard_rows as u64;
        next_power_of_two(
            if used_rows > shard_rows {
                used_rows
            } else {
                shard_rows
            },
        )
    }

    /// Row that holds a position, and the record's slot inside it.
    pub fn row_for_position(&self, position: u64) -> (place: (u64, usize))
        requires
            self.records_per_row > 0,
        ensures
            place.0 == position as int / self.records_per_row as int,
            place.1 == position as int % self.records_per_row as int,
    {
        let per_row: u64 = self.records_per_row as u64;
        assert(position % per_row < per_row);
        (position / per_row, (position % per_row) as usize)
    }
}

/// The public capacity is a power of two that covers every used row and at
/// least one shard, and it is less than twice what that takes.
pub proof fn law_capacity_covers(layout: DatabaseLayout, used_rows: nat)
    requires
        layout.shard_rows > 0,
    ensures
        is_power_of_two(layout.capacity_rows(used_rows)),
        layout.capacity_rows(used_rows) >= used_rows,
        layout.capacity_rows(used_rows) >= layout.shard_rows,
        layout.capacity_rows(used_rows) == 1 || layout.capacity_rows(used_rows) < 2 * used_rows
            || layout.capacity_rows(used_rows) < 2 * layout.shard_rows,
{
    lemma_power_ceiling(
        if used_rows > layout.shard_rows {
            used_rows
        } else {
            layout.shard_rows as nat
        },
    );
}

/// The public capacity never shrinks as rows are added, and with a power-of-two
/// shard height it is always a whole number of shards: growth only extends it.
pub proof fn law_capacity_grows_by_whole_shards(layout: DatabaseLayout, before: nat, after: nat)
    requires
        before <= after,
    ensures
        layout.capacity_rows(before) <= layout.capacity_rows(after),
        layout.shard_rows > 0 && is_power_of_two(layout.shard_rows as nat)
            ==> layout.capacity_rows(after) % (layout.shard_rows as nat) == 0,
{
    let low = if before > layout.shard_rows {
        before
    } else {
        layout.shard_rows as nat
    };
    let high = if after > layout.shard_rows {
        after
    } else {
        layout.shard_rows as nat
    };
    lemma_power_ceiling_monotonic(low, high);
    if layout.shard_rows > 0 && is_power_of_two(layout.shard_rows as nat) {
        lemma_power_ceiling_multiple(high, layout.shard_rows as nat);
    }
}

/// Row and slot together name the position: placing is one to one.
pub proof fn law_row_and_slot_name_the_position(records_per_row: nat, position: nat)
    requires
        records_per_row > 0,
    ensures
        (position / records_per_row) * records_per_row + position % records_per_row == position,
        position % records_per_row < records_per_row,
{
    vstd::arithmetic::div_mod::lemma_fundamental_div_mod(position as int, records_per_row as int);
    assert((position / records_per_row) * records_per_row == records_per_row * (position
        / records_per_row)) by (nonlinear_arith);
}

} // verus!
