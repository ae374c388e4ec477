//! Hash-bucket tables built from fixed-width spend entries.

use std::ops::RangeInclusive;
use vstd::prelude::*;

use crate::codec::{copy_range, pad_zeros, push_bytes, zeros};
use crate::enhance::source::TableSource;
use crate::enhance::store::joined;
use crate::enhance::types::{DatabaseId, DatabaseLayout, Protocol};
use crate::text::push_decimal;

verus! {

/// Sizes of the entries that a bucket row holds.
#[derive(Clone, Copy, Debug, PartialEq, Eq, Structural)]
pub struct BucketShape {
    /// Bytes of one entry.
    pub entry_bytes: usize,
    /// Entries that fit one bucket.
    pub capacity: usize,
}

impl BucketShape {
    /// A full bucket fits its row.
    pub open spec fn fits(self, layout: DatabaseLayout) -> bool {
        self.entry_bytes * self.capacity <= layout.record_bytes
    }
}

/// The entries placed in bucket `b`, in order.
pub open spec fn members(entries: Seq<Vec<u8>>, placement: Seq<usize>, b: int) -> Seq<Vec<u8>>
    decreases entries.len(),
{
    if entries.len() == 0 {
        Seq::empty()
    } else {
        let rest = members(entries.drop_last(), placement.drop_last(), b);
        if placement.last() == b {
            rest.push(entries.last())
        } else {
            rest
        }
    }
}

/// A bucket's row: its entries in order, then zero bytes.
pub open spec fn bucket_row(
    entries: Seq<Vec<u8>>,
    placement: Seq<usize>,
    b: int,
    row_bytes: nat,
) -> Seq<u8> {
    let held = joined(members(entries, placement, b));
    held + zeros((row_bytes - held.len()) as nat)
}

/// Whether some bucket is given more entries than it holds.
pub open spec fn overflows(entries: Seq<Vec<u8>>, placement: Seq<usize>, capacity: nat) -> bool {
    exists|b: int| (#[trigger] members(entries, placement, b)).len() > capacity
}

proof fn lemma_members_monotonic(entries: Seq<Vec<u8>>, placement: Seq<usize>, n: int, b: int)
    requires
        0 <= n <= entries.len(),
        entries.len() == placement.len(),
    ensures
        members(entries.take(n), placement.take(n), b).len() <= members(
            entries,
            placement,
            b,
        ).len(),
    decreases entries.len(),
{
    if n < entries.len() {
        let e = entries.drop_last();
        let p = placement.drop_last();
        lemma_members_monotonic(e, p, n, b);
        assert(e.take(n) == entries.take(n));
        assert(p.take(n) == placement.take(n));
    } else {
        assert(entries.take(n) == entries);
        assert(placement.take(n) == placement);
    }
}

/// One table of hash buckets, one bucket per row.
pub struct BucketTable {
    table: DatabaseId,
    buckets: usize,
    layout: DatabaseLayout,
    rows: Vec<u8>,
}

/// What one attempt at a bucket count gave.
pub enum BuildOutcome {
    /// Every bucket held its entries.
    Built(BucketTable),
    /// A bucket overflowed: try again with this many buckets.
    Grow(usize),
}

impl BucketTable {
    pub closed spec fn kind(&self) -> DatabaseId {
        self.table
    }

    pub closed spec fn bucket_total(&self) -> nat {
        self.buckets as nat
    }

    pub closed spec fn shape(&self) -> DatabaseLayout {
        self.layout
    }

    /// All rows, one after the other.
    pub closed spec fn image(&self) -> Seq<u8> {
        self.rows@
    }

    /// The row of bucket `b`.
    pub open spec fn row(&self, b: int) -> Seq<u8> {
        self.image().subrange(
            b * self.shape().record_bytes,
            (b + 1) * self.shape().record_bytes,
        )
    }

    pub open spec fn wf(&self) -> bool {
        &&& self.shape().valid()
        &&& self.shape().records_per_row == 1
        &&& 0 < self.bucket_total() <= usize::MAX
        &&& self.image().len() == self.bucket_total() * self.shape().record_bytes
    }

    /// Places the entries in `buckets` buckets, as `placement` says for each.
    /// Where a bucket overflows the caller places them again in twice as many.
    pub fn build(
        table: DatabaseId,
        protocol: &Protocol,
        shape: BucketShape,
        entries: &[Vec<u8>],
        buckets: usize,
        placement: &[usize],
    ) -> (outcome: Result<BuildOutcome, String>)
        requires
            protocol.valid(),
            shape.fits(protocol.spend_geometry()),
            buckets > 0,
            buckets * protocol.spend_row_bytes <= usize::MAX,
            placement@.len() == entries@.len(),
            forall|i: int| 0 <= i < placement@.len() ==> (#[trigger] placement@[i]) < buckets,
            forall|i: int|
                0 <= i < entries@.len() ==> (#[trigger] entries@[i])@.len() == shape.entry_bytes,
        ensures
            match outcome {
                Ok(BuildOutcome::Built(built)) => {
                    &&& table != DatabaseId::Enhance
                    &&& !overflows(entries@, placement@, shape.capacity as nat)
                    &&& built.wf()
                    &&& built.kind() == table
                    &&& built.bucket_total() == buckets
                    &&& built.shape() == protocol.spend_geometry()
                    &&& forall|b: int|
                        0 <= b < buckets ==> #[trigger] built.row(b) == bucket_row(
                            entries@,
                            placement@,
                            b,
                            protocol.spend_row_bytes as nat,
                        )
                },
                Ok(BuildOutcome::Grow(next)) => {
                    &&& table != DatabaseId::Enhance
                    &&& overflows(entries@, placement@, shape.capacity as nat)
                    &&& next == 2 * buckets
                },
                Err(message) => if table == DatabaseId::Enhance {
                    message@ == "not a transparent spend table"@
                } else {
                    &&& overflows(entries@, placement@, shape.capacity as nat)
                    &&& 2 * buckets > usize::MAX
                    &&& message@ == "transparent spend table size overflow"@
                },
            },
    {
        match table {
            DatabaseId::Enhance => {
                return Err(String::from_str("not a transparent spend table"));
            },
            DatabaseId::TransparentSpendCold | DatabaseId::TransparentSpendWarm => {},
        }
        let layout = table.layout(protocol);
        let row_bytes: usize = layout.record_bytes;
        let mut contents: Vec<Vec<u8>> = Vec::new();
        let mut counts: Vec<usize> = Vec::new();
        let mut b: usize = 0;
        while b < buckets
            invariant
                b <= buckets,
                contents@.len() == b,
                counts@.len() == b,
                forall|c: int| 0 <= c < b ==> (#[trigger] contents@[c])@.len() == 0,
                forall|c: int| 0 <= c < b ==> #[trigger] counts@[c] == 0,
            decreases buckets - b,
        {
            contents.push(Vec::new());
            counts.push(0);
            b = b + 1;
        }
        let mut k: usize = 0;
        assert(entries@.take(0).len() == 0);
        while k < entries.len()
            invariant
                k <= entries.len(),
                placement@.len() == entries@.len(),
                table != DatabaseId::Enhance,
                forall|i: int| 0 <= i < placement@.len() ==> (#[trigger] placement@[i]) < buckets,
                forall|i: int|
                    0 <= i < entries@.len() ==> (#[trigger] entries@[i])@.len()
                        == shape.entry_bytes,
                contents@.len() == buckets,
                counts@.len() == buckets,
                forall|c: int|
                    0 <= c < buckets ==> (#[trigger] contents@[c])@ == joined(
                        members(entries@.take(k as int), placement@.take(k as int), c),
                    ),
                forall|c: int|
                    0 <= c < buckets ==> #[trigger] counts@[c] == members(
                        entries@.take(k as int),
                        placement@.take(k as int),
                        c,
                    ).len() && counts@[c] <= shape.capacity,
                forall|c: int|
                    0 <= c < buckets ==> (#[trigger] contents@[c])@.len() == counts@[c]
                        * shape.entry_bytes,
            decreases entries.len() - k,
        {
            let bucket: usize = placement[k];
            let slot: usize = counts[bucket];
            let ghost e0 = entries@.take(k as int);
            let ghost p0 = placement@.take(k as int);
            let ghost e1 = entries@.take(k + 1);
            let ghost p1 = placement@.take(k + 1);
            proof {
                assert(e1.drop_last() == e0);
                assert(p1.drop_last() == p0);
                assert(e1.last() == entries@[k as int]);
                assert(p1.last() == bucket);
            }
            if slot == shape.capacity {
                proof {
                    lemma_members_monotonic(entries@, placement@, k + 1, bucket as int);
                    assert(members(e1, p1, bucket as int).len() == slot + 1);
                    assert(members(entries@, placement@, bucket as int).len() > shape.capacity);
                }
                return match buckets.checked_mul(2) {
                    Some(next) => Ok(BuildOutcome::Grow(next)),
                    None => Err(String::from_str("transparent spend table size overflow")),
                };
            }
            let ghost before = contents@;
            let ghost counted = counts@;
            let mut row: Vec<u8> = Vec::new();
            std::mem::swap(&mut row, &mut contents[bucket]);
            push_bytes(&mut row, entries[k].as_slice());
            contents[bucket] = row;
            counts[bucket] = slot + 1;
            proof {
                let s = slot as int;
                assert((s + 1) * shape.entry_bytes == s * shape.entry_bytes + shape.entry_bytes)
                    by (nonlinear_arith);
                let pushed = members(e0, p0, bucket as int).push(entries@[k as int]);
                assert(pushed.drop_last() == members(e0, p0, bucket as int));
                assert(contents@ =~= before.update(bucket as int, contents@[bucket as int]));
                assert(counts@ =~= counted.update(bucket as int, (slot + 1) as usize));
                assert forall|c: int| 0 <= c < buckets implies (#[trigger] contents@[c])@ == joined(
                    members(e1, p1, c),
                ) by {
                    if c != bucket {
                        assert(contents@[c] == before[c]);
                    }
                }
            }
            k = k + 1;
        }
        proof {
            assert(entries@.take(k as int) == entries@);
            assert(placement@.take(k as int) == placement@);
            assert forall|c: int| (#[trigger] members(entries@, placement@, c)).len()
                <= shape.capacity by {
                if 0 <= c < buckets {
                    assert(counts@[c] <= shape.capacity);
                } else {
                    lemma_members_outside(entries@, placement@, c, buckets as int);
                }
            }
        }
        let mut rows: Vec<u8> = Vec::new();
        let mut r: usize = 0;
        assert(0 * row_bytes == 0) by (nonlinear_arith);
        while r < buckets
            invariant
                r <= buckets,
                row_bytes == protocol.spend_row_bytes,
                buckets * row_bytes <= usize::MAX,
                contents@.len() == buckets,
                counts@.len() == buckets,
                shape.entry_bytes * shape.capacity <= row_bytes,
                forall|c: int|
                    0 <= c < buckets ==> (#[trigger] contents@[c])@ == joined(
                        members(entries@, placement@, c),
                    ),
                forall|c: int| 0 <= c < buckets ==> #[trigger] counts@[c] <= shape.capacity,
                forall|c: int|
                    0 <= c < buckets ==> (#[trigger] contents@[c])@.len() == counts@[c]
                        * shape.entry_bytes,
                rows@.len() == r * row_bytes,
                forall|c: int|
                    0 <= c < r ==> #[trigger] rows@.subrange(c * row_bytes, (c + 1) * row_bytes)
                        == bucket_row(entries@, placement@, c, row_bytes as nat),
            decreases buckets - r,
        {
            let ghost before = rows@;
            let ghost held = contents@[r as int]@;
            proof {
                let n = counts@[r as int] as int;
                assert(n * shape.entry_bytes <= shape.entry_bytes * shape.capacity)
                    by (nonlinear_arith)
                    requires
                        0 <= n <= shape.capacity,
                        shape.entry_bytes >= 0,
                ;
                assert(contents@[r as int]@.len() == counts@[r as int] * shape.entry_bytes);
                let i = r as int;
                let w = row_bytes as int;
                assert((i + 1) * w == i * w + w) by (nonlinear_arith);
                assert((i + 1) * w <= buckets * w) by (nonlinear_arith)
                    requires
                        i + 1 <= buckets,
                        w >= 0,
                ;
            }
            push_bytes(&mut rows, contents[r].as_slice());
            pad_zeros(&mut rows, (r + 1) * row_bytes);
            proof {
                let i = r as int;
                let w = row_bytes as int;
                let row = bucket_row(entries@, placement@, i, row_bytes as nat);
                assert(row == held + zeros((w - held.len()) as nat));
                assert(rows@ =~= before + row);
                assert forall|c: int| 0 <= c < r + 1 implies #[trigger] rows@.subrange(
                    c * row_bytes,
                    (c + 1) * row_bytes,
                ) == bucket_row(entries@, placement@, c, row_bytes as nat) by {
                    assert((c + 1) * w == c * w + w) by (nonlinear_arith);
                    assert(0 <= c * w) by (nonlinear_arith)
                        requires
                            c >= 0,
                            w >= 0,
                    ;
                    if c < r {
                        assert((c + 1) * w <= i * w) by (nonlinear_arith)
                            requires
                                c + 1 <= i,
                                w >= 0,
                        ;
                        assert(rows@.subrange(c * w, (c + 1) * w) =~= before.subrange(
                            c * w,
                            (c + 1) * w,
                        ));
                    } else {
                        assert(rows@.subrange(c * w, (c + 1) * w) =~= row);
                    }
                }
            }
            r = r + 1;
        }
        let built = BucketTable { table, buckets, layout, rows };
        proof {
            assert forall|c: int| 0 <= c < buckets implies #[trigger] built.row(c) == bucket_row(
                entries@,
                placement@,
                c,
                protocol.spend_row_bytes as nat,
            ) by {
                assert(built.row(c) == rows@.subrange(c * row_bytes, (c + 1) * row_bytes));
            }
        }
        Ok(BuildOutcome::Built(built))
    }

    pub fn buckets(&self) -> (count: usize)
        ensures
            count == self.bucket_total(),
    {
        self.buckets
    }

    /// Rows of a shard that exist.
    pub open spec fn shard_fill(&self, shard_id: nat) -> nat {
        let start = shard_id * self.shape().shard_rows;
        if self.bucket_total() <= start {
            0
        } else if self.bucket_total() - start < self.shape().shard_rows {
            (self.bucket_total() - start) as nat
        } else {
            self.shape().shard_rows as nat
        }
    }
}

proof fn lemma_members_outside(entries: Seq<Vec<u8>>, placement: Seq<usize>, b: int, buckets: int)
    requires
        entries.len() == placement.len(),
        forall|i: int| 0 <= i < placement.len() ==> (#[trigger] placement[i]) < buckets,
        b < 0 || b >= buckets,
    ensures
        members(entries, placement, b).len() == 0,
    decreases entries.len(),
{
    if entries.len() > 0 {
        assert(placement[placement.len() - 1] < buckets);
        lemma_members_outside(entries.drop_last(), placement.drop_last(), b, buckets);
    }
}

impl TableSource for BucketTable {
    open spec fn ready(&self) -> bool {
        self.wf()
    }

    open spec fn identity(&self) -> DatabaseId {
        self.kind()
    }

    open spec fn geometry(&self) -> DatabaseLayout {
        self.shape()
    }

    open spec fn position_count(&self) -> nat {
        self.bucket_total()
    }

    open spec fn final_shard(&self) -> nat {
        ((self.bucket_total() - 1) / self.shape().shard_rows as int) as nat
    }

    open spec fn padded_shard(&self, shard_id: nat) -> Seq<u8> {
        let start = shard_id * self.shape().shard_rows;
        let present = self.image().subrange(
            start * self.shape().record_bytes,
            (start + self.shard_fill(shard_id)) * self.shape().record_bytes,
        );
        present + zeros((self.shape().shard_size() - present.len()) as nat)
    }

    open spec fn filled(&self, shard_id: nat) -> nat {
        self.shard_fill(shard_id)
    }

    proof fn lemma_published_shards(&self, shard_id: nat) {
        let last = self.final_shard() as int;
        let rows = self.shape().shard_rows as int;
        let total = self.bucket_total() as int;
        let s = shard_id as int;
        self.shape().lemma_valid_bounds();
        vstd::arithmetic::div_mod::lemma_fundamental_div_mod(total - 1, rows);
        assert(s * rows <= total - 1) by (nonlinear_arith)
            requires
                total - 1 == rows * last + (total - 1) % rows,
                (total - 1) % rows >= 0,
                0 <= s <= last,
                rows > 0,
        ;
        assert(rows * 1 == rows);
    }

    fn table(&self) -> DatabaseId {
        self.table
    }

    fn layout(&self) -> DatabaseLayout {
        self.layout
    }

    fn positions(&self) -> u64 {
        self.buckets as u64
    }

    fn shard_ids(&self) -> RangeInclusive<u64> {
        proof {
            let last = self.final_shard() as int;
            let rows = self.shape().shard_rows as int;
            let total = self.bucket_total() as int;
            self.shape().lemma_valid_bounds();
            vstd::arithmetic::div_mod::lemma_fundamental_div_mod(total - 1, rows);
            assert forall|s: u64| 0 <= s <= last <==> #[trigger] self.filled(s as nat) > 0 by {
                if s <= last {
                    self.lemma_published_shards(s as nat);
                } else {
                    assert(s * rows >= total) by (nonlinear_arith)
                        requires
                            total - 1 == rows * last + (total - 1) % rows,
                            (total - 1) % rows < rows,
                            s >= last + 1,
                            rows > 0,
                    ;
                }
            }
        }
        RangeInclusive::new(0, ((self.buckets - 1) / self.layout.shard_rows) as u64)
    }

    fn read_shard_rows(&self, shard_id: u64) -> Result<Vec<u8>, String> {
        let shard_rows: u64 = self.layout.shard_rows as u64;
        let start: Option<u64> = shard_id.checked_mul(shard_rows);
        let inside: bool = match start {
            Some(start) => start < self.buckets as u64,
            None => false,
        };
        if !inside {
            let mut message = String::from_str("shard ");
            push_decimal(&mut message, shard_id);
            message.append(" is outside the table");
            return Err(message);
        }
        let start: usize = match start {
            Some(start) => start as usize,
            None => 0,
        };
        let left: usize = self.buckets - start;
        let held: usize = if left < self.layout.shard_rows {
            left
        } else {
            self.layout.shard_rows
        };
        proof {
            self.layout.lemma_valid_bounds();
            assert(self.rows.len() <= usize::MAX);
            let w = self.layout.record_bytes as int;
            let s = start as int;
            let h = held as int;
            let n = self.buckets as int;
            let rows = self.layout.shard_rows as int;
            assert(start as nat == shard_id * self.layout.shard_rows);
            assert((s + h) * w == s * w + h * w) by (nonlinear_arith);
            assert(0 <= s * w && 0 <= h * w && (s + h) * w <= n * w) by (nonlinear_arith)
                requires
                    s >= 0,
                    h >= 0,
                    w >= 0,
                    s + h <= n,
            ;
            assert(h * w <= rows * w) by (nonlinear_arith)
                requires
                    h <= rows,
                    w >= 0,
            ;
            assert(w * 1 == w);
        }
        let from: usize = start * self.layout.record_bytes;
        let to: usize = from + held * self.layout.record_bytes;
        let mut shard = copy_range(self.rows.as_slice(), from, to);
        pad_zeros(&mut shard, self.layout.shard_bytes());
        Ok(shard)
    }

    fn populated_positions_in_shard(&self, shard_id: u64) -> u64 {
        let shard_rows: u64 = self.layout.shard_rows as u64;
        let buckets: u64 = self.buckets as u64;
        match shard_id.checked_mul(shard_rows) {
            None => 0,
            Some(start) => {
                if buckets <= start {
                    0
                } else if buckets - start < shard_rows {
                    buckets - start
                } else {
                    shard_rows
                }
            },
        }
    }
}

/// The cold and warm tables at one tip.
pub struct TransparentSpendTables {
    pub cold_end_height: u64,
    pub cold: BucketTable,
    pub warm: BucketTable,
}

/// Both sides of a partition after one build attempt each.
pub enum TablesOutcome {
    Built(TransparentSpendTables),
    /// Bucket counts to place the cold and the warm entries in next.
    Grow { cold_buckets: usize, warm_buckets: usize },
}

impl TransparentSpendTables {
    /// Builds both tables from a partition of the log, given how the entries of
    /// each side are placed. A side that overflowed is to be placed again in
    /// twice as many buckets, the other one as before.
    pub fn build(
        protocol: &Protocol,
        shape: BucketShape,
        partition: &crate::enhance::spend::SpendPartition,
        cold_buckets: usize,
        cold_placement: &[usize],
        warm_buckets: usize,
        warm_placement: &[usize],
    ) -> (outcome: Result<TablesOutcome, String>)
        requires
            protocol.valid(),
            shape.fits(protocol.spend_geometry()),
            cold_buckets > 0,
            cold_buckets * protocol.spend_row_bytes <= usize::MAX,
            warm_buckets > 0,
            warm_buckets * protocol.spend_row_bytes <= usize::MAX,
            cold_placement@.len() == partition.cold@.len(),
            warm_placement@.len() == partition.warm@.len(),
            forall|i: int|
                0 <= i < cold_placement@.len() ==> (#[trigger] cold_placement@[i]) < cold_buckets,
            forall|i: int|
                0 <= i < warm_placement@.len() ==> (#[trigger] warm_placement@[i]) < warm_buckets,
            forall|i: int|
                0 <= i < partition.cold@.len() ==> (#[trigger] partition.cold@[i])@.len()
                    == shape.entry_bytes,
            forall|i: int|
                0 <= i < partition.warm@.len() ==> (#[trigger] partition.warm@[i])@.len()
                    == shape.entry_bytes,
        ensures
            ({
                let cold_over = overflows(
                    partition.cold@,
                    cold_placement@,
                    shape.capacity as nat,
                );
                let warm_over = overflows(
                    partition.warm@,
                    warm_placement@,
                    shape.capacity as nat,
                );
                match outcome {
                    Ok(TablesOutcome::Built(tables)) => {
                        &&& !cold_over && !warm_over
                        &&& tables.cold_end_height == partition.cold_end_height
                        &&& tables.cold.wf() && tables.warm.wf()
                        &&& tables.cold.kind() == DatabaseId::TransparentSpendCold
                        &&& tables.warm.kind() == DatabaseId::TransparentSpendWarm
                        &&& tables.cold.bucket_total() == cold_buckets
                        &&& tables.warm.bucket_total() == warm_buckets
                        &&& forall|b: int|
                            0 <= b < cold_buckets ==> #[trigger] tables.cold.row(b) == bucket_row(
                                partition.cold@,
                                cold_placement@,
                                b,
                                protocol.spend_row_bytes as nat,
                            )
                        &&& forall|b: int|
                            0 <= b < warm_buckets ==> #[trigger] tables.warm.row(b) == bucket_row(
                                partition.warm@,
                                warm_placement@,
                                b,
                                protocol.spend_row_bytes as nat,
                            )
                    },
                    Ok(TablesOutcome::Grow { cold_buckets: cold, warm_buckets: warm }) => {
                        &&& cold_over || warm_over
                        &&& cold == (if cold_over {
                            2 * cold_buckets
                        } else {
                            cold_buckets as int
                        })
                        &&& warm == (if warm_over {
                            2 * warm_buckets
                        } else {
                            warm_buckets as int
                        })
                    },
                    Err(message) => {
                        &&& message@ == "transparent spend table size overflow"@
                        &&& cold_over && 2 * cold_buckets > usize::MAX || warm_over && 2
                            * warm_buckets > usize::MAX
                    },
                }
            }),
    {
        let cold = BucketTable::build(
            DatabaseId::TransparentSpendCold,
            protocol,
            shape,
            partition.cold.as_slice(),
            cold_buckets,
            cold_placement,
        );
        let cold = match cold {
            Ok(cold) => cold,
            Err(message) => {
                return Err(message);
            },
        };
        let warm = BucketTable::build(
            DatabaseId::TransparentSpendWarm,
            protocol,
            shape,
            partition.warm.as_slice(),
            warm_buckets,
            warm_placement,
        );
        let warm = match warm {
            Ok(warm) => warm,
            Err(message) => {
                return Err(message);
            },
        };
        match cold {
            BuildOutcome::Built(cold) => match warm {
                BuildOutcome::Built(warm) => Ok(
                    TablesOutcome::Built(
                        TransparentSpendTables {
                            cold_end_height: partition.cold_end_height,
                            cold,
                            warm,
                        },
                    ),
                ),
                BuildOutcome::Grow(next) => Ok(
                    TablesOutcome::Grow { cold_buckets, warm_buckets: next },
                ),
            },
            BuildOutcome::Grow(cold_next) => match warm {
                BuildOutcome::Built(_) => Ok(
                    TablesOutcome::Grow { cold_buckets: cold_next, warm_buckets },
                ),
                BuildOutcome::Grow(warm_next) => Ok(
                    TablesOutcome::Grow { cold_buckets: cold_next, warm_buckets: warm_next },
                ),
            },
        }
    }
}

/// A bucket holds the entries that are placed in it, in the order of the entries.
pub proof fn law_buckets_hold_what_is_placed_in_them(
    entries: Seq<Vec<u8>>,
    placement: Seq<usize>,
    b: int,
)
    requires
        entries.len() == placement.len(),
    ensures
        members(entries, placement, b) == Seq::new(entries.len(), |i: int| i).filter(
            |i: int| placement[i] == b,
        ).map_values(|i: int| entries[i]),
    decreases entries.len(),
{
    reveal(Seq::filter);
    let here = |i: int| placement[i] == b;
    let entry = |i: int| entries[i];
    let all = Seq::new(entries.len(), |i: int| i);
    if entries.len() > 0 {
        let e = entries.drop_last();
        let p = placement.drop_last();
        law_buckets_hold_what_is_placed_in_them(e, p, b);
        let before = Seq::new(e.len(), |i: int| i);
        assert(all.drop_last() =~= before);
        lemma_filters_agree(before, |i: int| p[i] == b, here);
        let chosen = before.filter(here);
        assert forall|k: int| 0 <= k < chosen.len() implies e[#[trigger] chosen[k]]
            == entries[chosen[k]] by {
            assert(chosen.contains(chosen[k]));
            before.lemma_filter_contains_rev(here, chosen[k]);
            assert(before.contains(chosen[k]));
        }
        assert(chosen.map_values(|i: int| e[i]) =~= chosen.map_values(entry));
    }
    assert(members(entries, placement, b) =~= all.filter(here).map_values(entry));
}

proof fn lemma_filters_agree(list: Seq<int>, f: spec_fn(int) -> bool, g: spec_fn(int) -> bool)
    requires
        forall|i: int| 0 <= i < list.len() ==> f(#[trigger] list[i]) == g(list[i]),
    ensures
        list.filter(f) == list.filter(g),
    decreases list.len(),
{
    reveal(Seq::filter);
    if list.len() > 0 {
        let head = list.drop_last();
        assert forall|i: int| 0 <= i < head.len() implies f(#[trigger] head[i]) == g(head[i]) by {
            assert(head[i] == list[i]);
        }
        lemma_filters_agree(head, f, g);
        assert(f(list[list.len() - 1]) == g(list[list.len() - 1]));
    }
}

/// A bucket's row holds the bucket's entries, one behind the other, and then zeros.
pub proof fn law_bucket_rows_end_in_zeros(
    entries: Seq<Vec<u8>>,
    placement: Seq<usize>,
    b: int,
    row_bytes: nat,
    i: int,
)
    requires
        0 <= i < row_bytes,
        joined(members(entries, placement, b)).len() <= row_bytes,
    ensures
        bucket_row(entries, placement, b, row_bytes).len() == row_bytes,
        bucket_row(entries, placement, b, row_bytes)[i] == if i < joined(
            members(entries, placement, b),
        ).len() {
            joined(members(entries, placement, b))[i]
        } else {
            0
        },
{
}

/// Every bucket's row is found in its shard at its place, unchanged.
pub proof fn law_bucket_shards_hold_the_rows(table: &BucketTable, b: int)
    requires
        table.wf(),
        0 <= b < table.bucket_total(),
    ensures
        ({
            let width = table.shape().record_bytes as int;
            let rows = table.shape().shard_rows as int;
            let shard = table.padded_shard((b / rows) as nat);
            shard.subrange((b % rows) * width, (b % rows + 1) * width) == table.row(b)
        }),
{
    table.shape().lemma_valid_bounds();
    let width = table.shape().record_bytes as int;
    let rows = table.shape().shard_rows as int;
    let total = table.bucket_total() as int;
    let shard = b / rows;
    let slot = b % rows;
    vstd::arithmetic::div_mod::lemma_fundamental_div_mod(b, rows);
    vstd::arithmetic::div_mod::lemma_mod_bound(b, rows);
    vstd::arithmetic::div_mod::lemma_div_pos_is_pos(b, rows);
    let start = shard * rows;
    assert(rows * shard == start) by (nonlinear_arith)
        requires
            start == shard * rows,
    ;
    assert(start >= 0) by (nonlinear_arith)
        requires
            start == shard * rows,
            shard >= 0,
            rows >= 0,
    ;
    let held = table.shard_fill(shard as nat) as int;
    assert(slot < held);
    assert((slot + 1) * width == slot * width + width) by (nonlinear_arith);
    assert((start + slot) * width == start * width + slot * width) by (nonlinear_arith);
    assert((start + slot + 1) * width == start * width + (slot + 1) * width) by (nonlinear_arith);
    assert((start + held) * width == start * width + held * width) by (nonlinear_arith);
    assert(0 <= slot * width && (slot + 1) * width <= held * width) by (nonlinear_arith)
        requires
            0 <= slot,
            slot + 1 <= held,
            width >= 0,
    ;
    assert(0 <= start * width) by (nonlinear_arith)
        requires
            start >= 0,
            width >= 0,
    ;
    assert((start + held) * width <= total * width) by (nonlinear_arith)
        requires
            start + held <= total,
            width >= 0,
    ;
    assert(table.padded_shard(shard as nat).subrange(slot * width, (slot + 1) * width)
        =~= table.row(b));
}

/// A bucket is among the rows of its shard that exist, and what does not exist is not.
pub proof fn law_bucket_shards_cover_the_table(table: &BucketTable, shard_id: nat, row: nat)
    requires
        table.wf(),
        row < table.shape().shard_rows,
    ensures
        row < table.shard_fill(shard_id) <==> shard_id * table.shape().shard_rows + row
            < table.bucket_total(),
        table.shard_fill(shard_id) <= table.shape().shard_rows,
{
    assert(shard_id * table.shape().shard_rows >= 0) by (nonlinear_arith)
        requires
            shard_id >= 0,
            table.shape().shard_rows >= 0,
    ;
}

} // verus!
