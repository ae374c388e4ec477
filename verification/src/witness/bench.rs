//! Benchmarks of the retrieval engine over row files: which inputs are taken,
//! what is queried when, and when query keys are reused.

use vstd::prelude::*;

use crate::numbers::{ceil_div, div_ceil};

verus! {

/// Whether a row number is one of a table's.
pub open spec fn all_below(queries: Seq<u64>, rows: u64) -> bool {
    forall|i: int| 0 <= i < queries.len() ==> #[trigger] queries[i] < rows
}

fn rows_below(queries: &Vec<u64>, rows: u64) -> (yes: bool)
    ensures
        yes == all_below(queries@, rows),
{
    let mut i: usize = 0;
    while i < queries.len()
        invariant
            i <= queries.len(),
            forall|k: int| 0 <= k < i ==> #[trigger] queries@[k] < rows,
        decreases queries.len() - i,
    {
        if queries[i] >= rows {
            return false;
        }
        i = i + 1;
    }
    true
}

/// Inputs of a benchmark: a row file's length and row width, the rows of the
/// table, the rows to query, and how many queries to make.
#[derive(Debug)]
pub struct BenchInputs {
    pub source_bytes: u64,
    pub row_bytes: u64,
    pub rows: u64,
    pub queries: Vec<u64>,
    pub iterations: u64,
}

impl BenchInputs {
    /// Whether the round-trip benchmark takes the inputs.
    pub open spec fn bounded(&self) -> bool {
        &&& 3584 <= self.row_bytes <= 21504
        &&& 2048 <= self.rows <= 131072
        &&& self.source_bytes as int % self.row_bytes as int == 0
        &&& self.source_bytes as int / self.row_bytes as int <= self.rows
        &&& self.queries@.len() > 0
        &&& all_below(self.queries@, self.rows)
        &&& 1 <= self.iterations <= 10000
    }

    /// Whether the round-trip benchmark takes the inputs.
    pub fn is_bounded(&self) -> (yes: bool)
        ensures
            yes == self.bounded(),
    {
        3584 <= self.row_bytes && self.row_bytes <= 21504 && 2048 <= self.rows && self.rows
            <= 131072 && self.source_bytes % self.row_bytes == 0 && self.source_bytes
            / self.row_bytes <= self.rows && self.queries.len() > 0 && rows_below(
            &self.queries,
            self.rows,
        ) && 1 <= self.iterations && self.iterations <= 10000
    }

    /// Whether the reuse benchmark takes the inputs, its file aside.
    pub open spec fn reusable(&self) -> bool {
        &&& self.row_bytes == 3584 || self.row_bytes == 7168 || self.row_bytes == 10752
            || self.row_bytes == 17920
        &&& 2048 <= self.rows <= 131072
        &&& self.rows as int % 2048 == 0
        &&& 0 < self.queries@.len() <= 1000
        &&& self.iterations == self.queries@.len()
        &&& all_below(self.queries@, self.rows)
    }

    /// Whether the reuse benchmark takes the inputs, its file aside.
    pub fn is_reusable(&self) -> (yes: bool)
        ensures
            yes == self.reusable(),
    {
        (self.row_bytes == 3584 || self.row_bytes == 7168 || self.row_bytes == 10752
            || self.row_bytes == 17920) && 2048 <= self.rows && self.rows <= 131072 && self.rows
            % 2048 == 0 && self.queries.len() > 0 && self.queries.len() <= 1000
            && self.iterations == self.queries.len() as u64 && rows_below(&self.queries, self.rows)
    }

    /// Whether the file holds every row of the table.
    pub fn fills_table(&self) -> (yes: bool)
        requires
            self.reusable(),
        ensures
            yes == (self.source_bytes == self.rows * self.row_bytes),
    {
        assert(self.rows * self.row_bytes <= 131072 * 17920) by (nonlinear_arith)
            requires
                0 <= self.rows <= 131072,
                0 <= self.row_bytes <= 17920,
        ;
        self.source_bytes == self.rows * self.row_bytes
    }

    /// The row that a query of the round-trip benchmark asks for: the rows in
    /// turn.
    pub fn row_of(&self, iteration: u64) -> (row: u64)
        requires
            self.bounded(),
        ensures
            row == self.queries@[iteration as int % self.queries@.len() as int],
            row < self.rows,
    {
        let at: usize = (iteration % self.queries.len() as u64) as usize;
        self.queries[at]
    }
}

/// Whether a decoded row holds what was encoded.
pub open spec fn row_holds(decoded: Seq<u64>, expected: Seq<u16>) -> bool {
    &&& decoded.len() == expected.len()
    &&& forall|i: int| 0 <= i < decoded.len() ==> #[trigger] decoded[i] == expected[i]
}

/// Whether a decoded row holds what was encoded.
pub fn matches_row(decoded: &[u64], expected: &[u16]) -> (same: bool)
    ensures
        same == row_holds(decoded@, expected@),
{
    if decoded.len() != expected.len() {
        return false;
    }
    let mut i: usize = 0;
    while i < decoded.len()
        invariant
            i <= decoded.len(),
            decoded.len() == expected.len(),
            forall|k: int| 0 <= k < i ==> #[trigger] decoded@[k] == expected@[k],
        decreases decoded.len() - i,
    {
        if decoded[i] != expected[i] as u64 {
            assert(decoded@[i as int] != expected@[i as int]);
            return false;
        }
        i = i + 1;
    }
    true
}

/// Whether a response decoded well: far enough from an error, and to the row
/// that was encoded.
pub fn decodes_well(error: u64, delta: u64, columns: usize, decoded: &[u64], expected: &[u16]) -> (
    well: bool)
    ensures
        well == (error < delta / 8 && decoded@.len() == columns && row_holds(decoded@, expected@)),
{
    error < delta / 8 && decoded.len() == columns && matches_row(decoded, expected)
}

/// When query keys are reused.
#[derive(Clone, Copy, Debug, PartialEq, Eq, Structural)]
pub enum ReusePolicy {
    Auto,
    Fresh,
    Reuse,
}

impl ReusePolicy {
    pub open spec fn named(name: Seq<char>) -> Option<ReusePolicy> {
        if name == "auto"@ {
            Some(ReusePolicy::Auto)
        } else if name == "fresh"@ {
            Some(ReusePolicy::Fresh)
        } else if name == "reuse"@ {
            Some(ReusePolicy::Reuse)
        } else {
            None
        }
    }

    pub fn from_name(name: &str) -> (policy: Option<ReusePolicy>)
        ensures
            policy == Self::named(name@),
    {
        if crate::text::same_text(name, "auto") {
            Some(ReusePolicy::Auto)
        } else if crate::text::same_text(name, "fresh") {
            Some(ReusePolicy::Fresh)
        } else if crate::text::same_text(name, "reuse") {
            Some(ReusePolicy::Reuse)
        } else {
            None
        }
    }
}

/// Slots that share one set of keys.
pub const SLOTS: u64 = 4;

/// Whether a set of public data is in a cache.
pub open spec fn is_cached(mask: u32, set: nat) -> bool {
    (mask as int / (if set == 0 {
        1int
    } else if set == 1 {
        2
    } else if set == 2 {
        4
    } else {
        8
    })) % 2 == 1
}

pub open spec fn cached_count(mask: u32) -> int {
    (if is_cached(mask, 0) {
        1int
    } else {
        0
    }) + (if is_cached(mask, 1) {
        1int
    } else {
        0
    }) + (if is_cached(mask, 2) {
        1int
    } else {
        0
    }) + (if is_cached(mask, 3) {
        1int
    } else {
        0
    })
}

/// Sets of public data that reuse needs beyond the one that is always needed:
/// those of the four that are not cached, the first one aside.
pub open spec fn extra_sets(mask: u32) -> int {
    SLOTS - cached_count(mask) - (if is_cached(mask, 0) {
        0int
    } else {
        1
    })
}

/// What reuse costs and saves, and whether it is worth it.
#[derive(Clone, Copy, Debug, PartialEq, Eq, Structural)]
pub struct ReusePlan {
    pub key_saving: u64,
    pub extra_public_bytes: u64,
    pub reuse: bool,
}

/// Key uploads of a number of queries.
pub open spec fn uploads(queries: nat, reuse: bool) -> nat {
    if reuse {
        ceil_div(queries, SLOTS as nat)
    } else {
        queries
    }
}

/// Plans a run. A mask that names more than the four sets is refused.
pub fn plan_reuse(
    policy: ReusePolicy,
    cached_mask: u32,
    queries: u64,
    key_bytes: u64,
    row_bytes: u64,
) -> (plan: Option<ReusePlan>)
    requires
        0 < queries <= 1000,
        key_bytes <= u64::MAX / 1000,
        row_bytes <= 17920,
    ensures
        match plan {
            None => cached_mask > 15,
            Some(plan) => {
                &&& cached_mask <= 15
                &&& plan.key_saving == (queries - uploads(queries as nat, true)) * key_bytes
                &&& plan.extra_public_bytes == extra_sets(cached_mask) * row_bytes * 4
                &&& plan.reuse == (match policy {
                    ReusePolicy::Auto => plan.key_saving > plan.extra_public_bytes,
                    ReusePolicy::Fresh => false,
                    ReusePolicy::Reuse => true,
                })
            },
        },
{
    if cached_mask > 15 {
        return None;
    }
    let shared: u64 = div_ceil(queries, SLOTS);
    assert(shared <= queries);
    let spared: u64 = queries - shared;
    assert(spared * key_bytes <= u64::MAX) by (nonlinear_arith)
        requires
            0 <= spared <= 1000,
            0 <= key_bytes <= u64::MAX / 1000,
    ;
    let key_saving: u64 = spared * key_bytes;
    let first: u64 = (cached_mask % 2) as u64;
    let cached: u64 = first + ((cached_mask / 2) % 2) as u64 + ((cached_mask / 4) % 2) as u64 + ((
    cached_mask / 8) % 2) as u64;
    let extra: u64 = SLOTS - cached - (1 - first);
    assert(extra == extra_sets(cached_mask));
    assert(extra * row_bytes * 4 <= 4 * 17920 * 4) by (nonlinear_arith)
        requires
            0 <= extra <= 4,
            0 <= row_bytes <= 17920,
    ;
    assert(extra * row_bytes <= 4 * 17920) by (nonlinear_arith)
        requires
            0 <= extra <= 4,
            0 <= row_bytes <= 17920,
    ;
    let extra_public_bytes: u64 = extra * row_bytes * 4;
    let reuse: bool = match policy {
        ReusePolicy::Auto => key_saving > extra_public_bytes,
        ReusePolicy::Fresh => false,
        ReusePolicy::Reuse => true,
    };
    Some(ReusePlan { key_saving, extra_public_bytes, reuse })
}

/// The predicted saving is what is uploaded less when keys are reused.
pub proof fn law_predicted_saving_is_exact(queries: nat, key_bytes: nat)
    ensures
        uploads(queries, true) <= uploads(queries, false),
        (queries - uploads(queries, true)) * key_bytes == uploads(queries, false) * key_bytes
            - uploads(queries, true) * key_bytes,
{
    let shared = uploads(queries, true);
    assert((queries - shared) * key_bytes == queries * key_bytes - shared * key_bytes)
        by (nonlinear_arith);
}

/// Sets of public data that a run prepares.
pub fn public_sets(reuse: bool) -> (sets: u64)
    ensures
        sets == (if reuse {
            SLOTS
        } else {
            1
        }),
{
    if reuse {
        SLOTS
    } else {
        1
    }
}

/// Slots of the last batch that are left over.
pub fn unused_slots(queries: u64, reuse: bool) -> (slots: u64)
    ensures
        slots == (if reuse {
            uploads(queries as nat, true) * SLOTS - queries
        } else {
            0
        }),
{
    if reuse {
        (SLOTS - queries % SLOTS) % SLOTS
    } else {
        0
    }
}

/// Where a query of a run stands.
#[derive(Clone, Copy, Debug, PartialEq, Eq, Structural)]
pub struct Place {
    pub batch: u64,
    pub slot: u64,
    /// Whether keys are uploaded with it.
    pub uploads_keys: bool,
    /// How often it is sent: the very first query twice where a retry is tried.
    pub attempts: u64,
}

/// Where a query of a run stands: in batches of four where keys are reused,
/// each on its own where they are not.
pub fn place_of(index: u64, reuse: bool, retry_first: bool) -> (place: Place)
    ensures
        place.batch == (if reuse {
            index / SLOTS
        } else {
            index
        }),
        place.slot == (if reuse {
            index % SLOTS
        } else {
            0
        }),
        place.uploads_keys == (place.slot == 0),
        place.attempts == (if retry_first && index == 0 {
            2u64
        } else {
            1
        }),
{
    let batch: u64 = if reuse {
        index / SLOTS
    } else {
        index
    };
    let slot: u64 = if reuse {
        index % SLOTS
    } else {
        0
    };
    let attempts: u64 = if retry_first && index == 0 {
        2
    } else {
        1
    };
    Place { batch, slot, uploads_keys: slot == 0, attempts }
}

/// The four sets that a mask tells of are its four lowest bits.
pub proof fn law_masks_have_a_bit_for_every_set(mask: u32)
    ensures
        is_cached(mask, 0) <==> mask & 1 != 0,
        is_cached(mask, 1) <==> mask & 2 != 0,
        is_cached(mask, 2) <==> mask & 4 != 0,
        is_cached(mask, 3) <==> mask & 8 != 0,
{
    assert((mask / 1) % 2 == 1 <==> mask & 1 != 0) by (bit_vector);
    assert((mask / 2) % 2 == 1 <==> mask & 2 != 0) by (bit_vector);
    assert((mask / 4) % 2 == 1 <==> mask & 4 != 0) by (bit_vector);
    assert((mask / 8) % 2 == 1 <==> mask & 8 != 0) by (bit_vector);
}

/// With reuse, every four queries share an upload; without, each has its own.
pub proof fn law_four_queries_share_an_upload(queries: nat)
    ensures
        uploads(queries, false) == queries,
        queries <= 4 * uploads(queries, true) < queries + 4,
{
    crate::numbers::law_ceilings_are_least(queries, 4);
}

/// The sets that reuse needs beyond the first are the second to the fourth that are
/// not cached.
pub proof fn law_extra_sets_are_those_not_cached(mask: u32)
    ensures
        extra_sets(mask) == (if mask & 2 == 0 {
            1int
        } else {
            0
        }) + (if mask & 4 == 0 {
            1int
        } else {
            0
        }) + (if mask & 8 == 0 {
            1int
        } else {
            0
        }),
{
    law_masks_have_a_bit_for_every_set(mask);
}

} // verus!
