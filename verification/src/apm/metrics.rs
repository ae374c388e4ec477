//! Rolling windows over scrapes: which scrapes a window spans, which endpoints
//! have one, where a counter started over, and which bucket a quantile falls
//! into. The sums themselves are floating point and left to the caller.

use std::collections::VecDeque;
use vstd::prelude::*;

use crate::apm::number::{equal, equals, is_nan, less, less_than, INFINITY_BITS, SIGN_BIT};
use crate::apm::schema::Schema;
use crate::text::texts;

verus! {

/// Scrapes that are kept.
pub const MAX_SNAPSHOTS: usize = 21;

/// Length of a window, in whole seconds.
pub const WINDOW_SECONDS: u64 = 300;

pub const NANOS_PER_SECOND: u64 = 1_000_000_000;

/// A scrape and when it was made, in nanoseconds of some clock.
pub struct Timed<T> {
    pub at_nanos: u64,
    pub scrape: T,
}

/// Whole seconds from one time to a later one; none where it is not later.
pub open spec fn seconds_between(earlier: u64, later: u64) -> int {
    if later <= earlier {
        0
    } else {
        (later - earlier) / NANOS_PER_SECOND as int
    }
}

/// The latest scrapes.
pub struct RollingMetrics<T> {
    snapshots: VecDeque<Timed<T>>,
}

/// The first scrape, from a place on, that is in the window of the newest.
pub open spec fn first_in_window<T>(snapshots: Seq<Timed<T>>, from: int) -> int
    decreases snapshots.len() - from,
{
    if from < 0 || from >= snapshots.len() {
        from
    } else if seconds_between(snapshots[from].at_nanos, snapshots.last().at_nanos)
        <= WINDOW_SECONDS {
        from
    } else {
        first_in_window(snapshots, from + 1)
    }
}

/// A window starts at the first scrape that is less than 301 seconds older than
/// the newest one: every scrape before it is older.
pub proof fn law_windows_span_five_minutes<T>(snapshots: Seq<Timed<T>>)
    requires
        snapshots.len() > 0,
    ensures
        ({
            let start = first_in_window(snapshots, 0);
            &&& 0 <= start < snapshots.len()
            &&& snapshots.last().at_nanos - snapshots[start].at_nanos < 301_000_000_000
            &&& forall|j: int|
                0 <= j < start ==> snapshots.last().at_nanos - (#[trigger] snapshots[j]).at_nanos
                    >= 301_000_000_000
        }),
{
    lemma_first_in_window(snapshots, 0);
}

proof fn lemma_first_in_window<T>(snapshots: Seq<Timed<T>>, from: int)
    requires
        0 <= from < snapshots.len(),
        forall|j: int|
            0 <= j < from ==> snapshots.last().at_nanos - (#[trigger] snapshots[j]).at_nanos
                >= 301_000_000_000,
    ensures
        ({
            let start = first_in_window(snapshots, from);
            &&& from <= start < snapshots.len()
            &&& snapshots.last().at_nanos - snapshots[start].at_nanos < 301_000_000_000
            &&& forall|j: int|
                0 <= j < start ==> snapshots.last().at_nanos - (#[trigger] snapshots[j]).at_nanos
                    >= 301_000_000_000
        }),
    decreases snapshots.len() - from,
{
    if seconds_between(snapshots[from].at_nanos, snapshots.last().at_nanos) > WINDOW_SECONDS {
        lemma_first_in_window(snapshots, from + 1);
    }
}

/// The latest scrapes are kept, in order, and never more than 21: the newest is
/// the one that was added, and what was kept before moves at most one place.
pub proof fn law_the_latest_scrapes_are_kept<T>(
    before: RollingMetrics<T>,
    after: RollingMetrics<T>,
    added: Timed<T>,
    i: int,
)
    requires
        before.wf(),
        after.kept() == (if before.kept().len() < MAX_SNAPSHOTS {
            before.kept().push(added)
        } else {
            before.kept().push(added).drop_first()
        }),
        0 <= i < after.kept().len(),
    ensures
        after.kept().len() == (if before.kept().len() < 21 {
            before.kept().len() + 1
        } else {
            21
        }),
        after.kept()[after.kept().len() - 1 - i] == (if i == 0 {
            added
        } else {
            before.kept()[before.kept().len() - i]
        }),
{
}

impl<T> RollingMetrics<T> {
    pub closed spec fn kept(&self) -> Seq<Timed<T>> {
        self.snapshots@
    }

    pub open spec fn wf(&self) -> bool {
        self.kept().len() <= MAX_SNAPSHOTS
    }

    pub fn new() -> (metrics: RollingMetrics<T>)
        ensures
            metrics.wf(),
            metrics.kept().len() == 0,
    {
        RollingMetrics { snapshots: VecDeque::new() }
    }

    /// Adds a scrape; the oldest one goes where there are too many.
    pub fn push(&mut self, snapshot: Timed<T>)
        requires
            old(self).wf(),
        ensures
            final(self).wf(),
            final(self).kept() == (if old(self).kept().len() < MAX_SNAPSHOTS {
                old(self).kept().push(snapshot)
            } else {
                old(self).kept().push(snapshot).drop_first()
            }),
    {
        self.snapshots.push_back(snapshot);
        if self.snapshots.len() > MAX_SNAPSHOTS {
            let _ = self.snapshots.pop_front();
        }
    }

    pub fn len(&self) -> (len: usize)
        ensures
            len == self.kept().len(),
    {
        self.snapshots.len()
    }

    /// The scrape at a place, oldest first.
    pub fn snapshot(&self, i: usize) -> (snapshot: &Timed<T>)
        requires
            i < self.kept().len(),
        ensures
            *snapshot == self.kept()[i as int],
    {
        &self.snapshots[i]
    }

    /// The newest scrape.
    pub fn latest(&self) -> (snapshot: Option<&Timed<T>>)
        ensures
            match snapshot {
                Some(snapshot) => self.kept().len() > 0 && *snapshot == self.kept().last(),
                None => self.kept().len() == 0,
            },
    {
        let len: usize = self.snapshots.len();
        if len == 0 {
            None
        } else {
            Some(&self.snapshots[len - 1])
        }
    }

    /// Place of the oldest scrape in the window of the newest.
    pub fn oldest_index(&self) -> (index: Option<usize>)
        ensures
            match index {
                Some(index) => {
                    &&& index < self.kept().len()
                    &&& index == first_in_window(self.kept(), 0)
                    &&& seconds_between(
                        self.kept()[index as int].at_nanos,
                        self.kept().last().at_nanos,
                    ) <= WINDOW_SECONDS
                },
                None => self.kept().len() == 0,
            },
    {
        let len: usize = self.snapshots.len();
        if len == 0 {
            return None;
        }
        let newest: u64 = self.snapshots[len - 1].at_nanos;
        let mut i: usize = 0;
        while i < len - 1
            invariant
                i < len,
                len == self.snapshots.len(),
                newest == self.kept().last().at_nanos,
                first_in_window(self.kept(), 0) == first_in_window(self.kept(), i as int),
            decreases len - i,
        {
            let at: u64 = self.snapshots[i].at_nanos;
            let age: u64 = if newest <= at {
                0
            } else {
                (newest - at) / NANOS_PER_SECOND
            };
            if age <= WINDOW_SECONDS {
                return Some(i);
            }
            i = i + 1;
        }
        Some(i)
    }
}

/// Endpoints that have a window: the configured ones, then those among the
/// given ones that are not configured.
pub open spec fn window_endpoints(schema: Schema, seen: Seq<Seq<char>>) -> Seq<Seq<char>>
    decreases seen.len(),
{
    if seen.len() == 0 {
        texts(schema.endpoints@)
    } else if schema.configures(seen.last()) {
        window_endpoints(schema, seen.drop_last())
    } else {
        window_endpoints(schema, seen.drop_last()).push(seen.last())
    }
}

/// Endpoints that have a window, in the order in which they are shown.
pub fn window_names(schema: &Schema, seen: &Vec<String>) -> (names: Vec<String>)
    ensures
        texts(names@) == window_endpoints(*schema, texts(seen@)),
{
    let mut names: Vec<String> = Vec::new();
    let mut k: usize = 0;
    while k < schema.endpoints.len()
        invariant
            k <= schema.endpoints.len(),
            texts(names@) == texts(schema.endpoints@.take(k as int)),
        decreases schema.endpoints.len() - k,
    {
        let ghost before = texts(names@);
        names.push(schema.endpoints[k].clone());
        proof {
            let name = schema.endpoints@[k as int]@;
            assert(texts(names@) =~= before.push(name));
            assert(texts(schema.endpoints@.take(k + 1)) =~= before.push(name));
        }
        k = k + 1;
    }
    assert(schema.endpoints@.take(k as int) =~= schema.endpoints@);
    let ghost all = texts(seen@);
    let mut i: usize = 0;
    assert(all.take(0).len() == 0);
    while i < seen.len()
        invariant
            i <= seen.len(),
            all == texts(seen@),
            texts(names@) == window_endpoints(*schema, all.take(i as int)),
        decreases seen.len() - i,
    {
        assert(all[i as int] == seen@[i as int]@);
        assert(all.take(i + 1).drop_last() =~= all.take(i as int));
        let ghost before = texts(names@);
        if !schema.knows(seen[i].as_str()) {
            names.push(seen[i].clone());
            assert(texts(names@) =~= before.push(seen@[i as int]@));
        }
        i = i + 1;
    }
    assert(all.take(i as int) =~= all);
    names
}

/// Every configured endpoint has a window, in its place; behind them every other
/// endpoint that was seen has one, in the order seen, and nothing else has.
pub proof fn law_every_endpoint_has_a_window(schema: Schema, seen: Seq<Seq<char>>)
    ensures
        window_endpoints(schema, seen) == texts(schema.endpoints@) + seen.filter(
            |name: Seq<char>| !texts(schema.endpoints@).contains(name),
        ),
    decreases seen.len(),
{
    reveal(Seq::filter);
    let other = |name: Seq<char>| !texts(schema.endpoints@).contains(name);
    if seen.len() > 0 {
        law_every_endpoint_has_a_window(schema, seen.drop_last());
    }
    assert(window_endpoints(schema, seen) =~= texts(schema.endpoints@) + seen.filter(other));
}

/// Whether the server was started anew between two scrapes: both know when it
/// was started, and not at the same time.
pub fn process_generation_changed(previous: Option<u64>, next: Option<u64>) -> (changed: bool)
    ensures
        changed == (previous is Some && next is Some && !equal(previous->0, next->0)),
{
    match (previous, next) {
        (Some(previous), Some(next)) => !equals(previous, next),
        _ => false,
    }
}

/// Whether a counter's growth is its whole value, rather than the difference
/// to the value before: it started over, as it was told or because it fell.
pub fn counts_from_zero(current: u64, previous: u64, reset: bool) -> (whole: bool)
    ensures
        whole == (reset || less(current, previous)),
{
    reset || less_than(current, previous)
}

/// The first bucket with a bound.
pub open spec fn bucket_with(bounds: Seq<u64>, bound: u64, from: int) -> Option<int>
    decreases bounds.len() - from,
{
    if from < 0 || from >= bounds.len() {
        None
    } else if equal(bounds[from], bound) {
        Some(from)
    } else {
        bucket_with(bounds, bound, from + 1)
    }
}

/// The bucket with a bound is the first one whose bound is equal to it.
pub proof fn law_buckets_match_by_their_bound(bounds: Seq<u64>, bound: u64, from: int)
    requires
        0 <= from <= bounds.len(),
    ensures
        match bucket_with(bounds, bound, from) {
            Some(i) => {
                &&& from <= i < bounds.len()
                &&& equal(bounds[i], bound)
                &&& forall|j: int| from <= j < i ==> !equal(#[trigger] bounds[j], bound)
            },
            None => forall|j: int| from <= j < bounds.len() ==> !equal(#[trigger] bounds[j], bound),
        },
    decreases bounds.len() - from,
{
    if from < bounds.len() && !equal(bounds[from], bound) {
        law_buckets_match_by_their_bound(bounds, bound, from + 1);
    }
}

/// Place of the bucket with a bound.
pub fn matching_bucket(bounds: &Vec<u64>, bound: u64) -> (place: Option<usize>)
    ensures
        match place {
            Some(place) => bucket_with(bounds@, bound, 0) == Some(place as int) && place
                < bounds@.len(),
            None => bucket_with(bounds@, bound, 0) is None,
        },
{
    let mut i: usize = 0;
    while i < bounds.len()
        invariant
            i <= bounds.len(),
            bucket_with(bounds@, bound, 0) == bucket_with(bounds@, bound, i as int),
        decreases bounds.len() - i,
    {
        if equals(bounds[i], bound) {
            return Some(i);
        }
        i = i + 1;
    }
    None
}

/// Where a quantile falls.
#[derive(Clone, Copy, Debug, PartialEq, Eq, Structural)]
pub enum QuantilePick {
    /// At the bound of a bucket, or at zero.
    At(Option<usize>),
    /// Inside a bucket, above the bound of an earlier one, or above zero; the
    /// bucket before it, if any, holds what is counted below it.
    Inside { bucket: usize, lower: Option<usize> },
}

/// Whether a number is infinite, of either sign.
pub open spec fn infinite(bits: u64) -> bool {
    bits == INFINITY_BITS || bits == SIGN_BIT + INFINITY_BITS
}

/// The last bucket before a place with a finite bound.
pub open spec fn finite_before(bounds: Seq<u64>, n: int) -> Option<usize>
    decreases n,
{
    if n <= 0 {
        None
    } else if !infinite(bounds[n - 1]) && !is_nan(bounds[n - 1]) {
        Some((n - 1) as usize)
    } else {
        finite_before(bounds, n - 1)
    }
}

/// Whether a number is at least another.
pub open spec fn reaches(a: u64, b: u64) -> bool {
    less(b, a) || equal(a, b)
}

/// Where the observation of a rank falls, from a place on: into the first
/// bucket that counts up to it.
pub open spec fn quantile_from(bounds: Seq<u64>, counts: Seq<u64>, rank: u64, from: int) -> QuantilePick
    decreases bounds.len() - from,
{
    if from < 0 || from >= bounds.len() {
        QuantilePick::At(finite_before(bounds, from))
    } else if reaches(counts[from], rank) {
        if infinite(bounds[from]) {
            QuantilePick::At(finite_before(bounds, from))
        } else if !less(
            if from == 0 {
                0
            } else {
                counts[from - 1]
            },
            counts[from],
        ) {
            QuantilePick::At(Some(from as usize))
        } else {
            QuantilePick::Inside { bucket: from as usize, lower: finite_before(bounds, from) }
        }
    } else {
        quantile_from(bounds, counts, rank, from + 1)
    }
}

/// Whether a place is the nearest one below a bucket with a finite bound, or
/// there is none: a bound is finite where its pattern, the sign aside, is below
/// that of infinity.
pub open spec fn is_nearest_below(bounds: Seq<u64>, bucket: int, lower: Option<usize>) -> bool {
    match lower {
        Some(k) => {
            &&& k < bucket
            &&& bounds[k as int] % 0x8000_0000_0000_0000 < 0x7ff0_0000_0000_0000
            &&& forall|j: int|
                k < j < bucket ==> (#[trigger] bounds[j]) % 0x8000_0000_0000_0000
                    >= 0x7ff0_0000_0000_0000
        },
        None => forall|j: int|
            0 <= j < bucket ==> (#[trigger] bounds[j]) % 0x8000_0000_0000_0000
                >= 0x7ff0_0000_0000_0000,
    }
}

proof fn lemma_finite_before(bounds: Seq<u64>, n: int)
    requires
        0 <= n <= bounds.len() <= usize::MAX,
    ensures
        is_nearest_below(bounds, n, finite_before(bounds, n)),
    decreases n,
{
    if n > 0 {
        lemma_finite_before(bounds, n - 1);
    }
}

proof fn lemma_quantile_from(bounds: Seq<u64>, counts: Seq<u64>, rank: u64, from: int, bucket: int)
    requires
        bounds.len() == counts.len(),
        0 <= from <= bucket <= bounds.len(),
        forall|j: int| from <= j < bucket ==> !reaches(#[trigger] counts[j], rank),
    ensures
        quantile_from(bounds, counts, rank, from) == quantile_from(bounds, counts, rank, bucket),
    decreases bucket - from,
{
    if from < bucket {
        assert(!reaches(counts[from], rank));
        lemma_quantile_from(bounds, counts, rank, from + 1, bucket);
    }
}

/// A quantile falls into the first bucket that counts up to its rank. Inside it,
/// what it is above is the nearest finite bound below the bucket, or zero where
/// there is none; so is what it is at where the bucket has no finite end. Where
/// nothing is counted in the bucket, it is at the bucket's own bound.
pub proof fn law_quantiles_fall_into_the_first_bucket_that_counts_up(
    bounds: Seq<u64>,
    counts: Seq<u64>,
    rank: u64,
    bucket: int,
)
    requires
        bounds.len() == counts.len(),
        bounds.len() <= usize::MAX,
        0 <= bucket < bounds.len(),
        less(rank, counts[bucket]) || equal(rank, counts[bucket]),
        forall|j: int|
            0 <= j < bucket ==> !less(rank, #[trigger] counts[j]) && !equal(rank, counts[j]),
    ensures
        ({
            let pick = quantile_from(bounds, counts, rank, 0);
            let endless = bounds[bucket] % 0x8000_0000_0000_0000 == 0x7ff0_0000_0000_0000;
            let counted = less(
                if bucket == 0 {
                    0
                } else {
                    counts[bucket - 1]
                },
                counts[bucket],
            );
            &&& endless ==> pick is At && is_nearest_below(bounds, bucket, pick->At_0)
            &&& !endless && !counted ==> pick == QuantilePick::At(Some(bucket as usize))
            &&& !endless && counted ==> pick is Inside && pick->bucket == bucket
                && is_nearest_below(bounds, bucket, pick->lower)
        }),
{
    assert forall|j: int| 0 <= j < bucket implies !reaches(#[trigger] counts[j], rank) by {
        assert(!less(rank, counts[j]) && !equal(rank, counts[j]));
    }
    lemma_quantile_from(bounds, counts, rank, 0, bucket);
    lemma_finite_before(bounds, bucket);
}

/// Where no bucket counts up to its rank, a quantile is at the last finite bound,
/// or at zero where there is none.
pub proof fn law_quantiles_beyond_all_buckets(bounds: Seq<u64>, counts: Seq<u64>, rank: u64)
    requires
        bounds.len() == counts.len(),
        bounds.len() <= usize::MAX,
        forall|j: int|
            0 <= j < counts.len() ==> !less(rank, #[trigger] counts[j]) && !equal(rank, counts[j]),
    ensures
        quantile_from(bounds, counts, rank, 0) is At,
        is_nearest_below(
            bounds,
            bounds.len() as int,
            quantile_from(bounds, counts, rank, 0)->At_0,
        ),
{
    assert forall|j: int| 0 <= j < counts.len() implies !reaches(#[trigger] counts[j], rank) by {
        assert(!less(rank, counts[j]) && !equal(rank, counts[j]));
    }
    lemma_quantile_from(bounds, counts, rank, 0, bounds.len() as int);
    lemma_finite_before(bounds, bounds.len() as int);
}

/// Where every bound below a bucket is finite, a quantile inside the bucket lies
/// above the bound of the bucket just before it.
pub proof fn law_quantiles_stay_in_their_bucket(bounds: Seq<u64>, counts: Seq<u64>, rank: u64)
    requires
        bounds.len() == counts.len(),
        bounds.len() <= usize::MAX,
        quantile_from(bounds, counts, rank, 0) is Inside,
        forall|j: int|
            0 <= j < bounds.len() - 1 ==> (#[trigger] bounds[j]) % 0x8000_0000_0000_0000
                < 0x7ff0_0000_0000_0000,
    ensures
        ({
            let pick = quantile_from(bounds, counts, rank, 0);
            &&& pick->bucket < bounds.len()
            &&& pick->lower == (if pick->bucket == 0 {
                None
            } else {
                Some((pick->bucket - 1) as usize)
            })
        }),
{
    lemma_inside(bounds, counts, rank, 0);
    let bucket = quantile_from(bounds, counts, rank, 0)->bucket as int;
    lemma_finite_before(bounds, bucket);
    if bucket > 0 {
        assert(bounds[bucket - 1] % 0x8000_0000_0000_0000 < 0x7ff0_0000_0000_0000);
    }
}

proof fn lemma_inside(bounds: Seq<u64>, counts: Seq<u64>, rank: u64, from: int)
    requires
        bounds.len() == counts.len(),
        bounds.len() <= usize::MAX,
        0 <= from,
        quantile_from(bounds, counts, rank, from) is Inside,
    ensures
        ({
            let pick = quantile_from(bounds, counts, rank, from);
            &&& from <= pick->bucket < bounds.len()
            &&& pick->lower == finite_before(bounds, pick->bucket as int)
        }),
    decreases bounds.len() - from,
{
    if from < bounds.len() && !reaches(counts[from], rank) {
        lemma_inside(bounds, counts, rank, from + 1);
    }
}

/// Where the observation of a rank falls among cumulative buckets.
pub fn pick_quantile(bounds: &Vec<u64>, counts: &Vec<u64>, rank: u64) -> (pick: QuantilePick)
    requires
        bounds@.len() == counts@.len(),
    ensures
        pick == quantile_from(bounds@, counts@, rank, 0),
        pick matches QuantilePick::Inside { bucket, lower } ==> {
            &&& bucket < bounds@.len()
            &&& less(rank, counts@[bucket as int]) || equal(rank, counts@[bucket as int])
            &&& forall|j: int|
                0 <= j < bucket ==> !less(rank, #[trigger] counts@[j]) && !equal(rank, counts@[j])
            &&& match lower {
                Some(k) => k < bucket && bounds@[k as int] % 0x8000_0000_0000_0000
                    < 0x7ff0_0000_0000_0000 && forall|j: int|
                    k < j < bucket ==> (#[trigger] bounds@[j]) % 0x8000_0000_0000_0000
                        >= 0x7ff0_0000_0000_0000,
                None => forall|j: int|
                    0 <= j < bucket ==> (#[trigger] bounds@[j]) % 0x8000_0000_0000_0000
                        >= 0x7ff0_0000_0000_0000,
            }
        },
{
    let mut lower: Option<usize> = None;
    let mut i: usize = 0;
    while i < bounds.len()
        invariant
            i <= bounds.len(),
            bounds@.len() == counts@.len(),
            lower == finite_before(bounds@, i as int),
            forall|j: int|
                0 <= j < i ==> !less(rank, #[trigger] counts@[j]) && !equal(rank, counts@[j]),
            quantile_from(bounds@, counts@, rank, 0) == quantile_from(
                bounds@,
                counts@,
                rank,
                i as int,
            ),
        decreases bounds.len() - i,
    {
        let bound: u64 = bounds[i];
        let unbounded: bool = bound == INFINITY_BITS || bound == SIGN_BIT + INFINITY_BITS;
        if crate::apm::number::at_least(counts[i], rank) {
            if unbounded {
                return QuantilePick::At(lower);
            }
            let before: u64 = if i == 0 {
                0
            } else {
                counts[i - 1]
            };
            if !less_than(before, counts[i]) {
                return QuantilePick::At(Some(i));
            }
            proof {
                assert(bounds.len() <= usize::MAX);
                lemma_finite_before(bounds@, i as int);
            }
            return QuantilePick::Inside { bucket: i, lower };
        }
        let finite: bool = !unbounded && equals(bound, bound);
        if finite {
            lower = Some(i);
        }
        i = i + 1;
    }
    QuantilePick::At(lower)
}

} // verus!
