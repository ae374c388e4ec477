//! Putting things into the order in which the page shows them: by a rank, and
//! by name within a rank.

use vstd::prelude::*;
use vstd::seq_lib::*;

use crate::apm::number::{order_key, SIGN_BIT};
use crate::text::{
    lemma_text_before_irreflexive, lemma_text_before_total, lemma_text_before_transitive, precedes,
    text_before,
};

verus! {

/// What has a place on the page.
pub trait Ranked: Sized {
    spec fn place(&self) -> int;

    spec fn label(&self) -> Seq<char>;

    fn rank(&self) -> (rank: u64)
        ensures
            rank == self.place(),
    ;

    fn name(&self) -> (name: &str)
        ensures
            name@ == self.label(),
    ;
}

/// Whether one thing is shown before another.
pub open spec fn shown_before<T: Ranked>(a: T, b: T) -> bool {
    a.place() < b.place() || (a.place() == b.place() && text_before(a.label(), b.label()))
}

fn is_shown_before<T: Ranked>(a: &T, b: &T) -> (before: bool)
    ensures
        before == shown_before(*a, *b),
{
    let x: u64 = a.rank();
    let y: u64 = b.rank();
    x < y || (x == y && precedes(a.name(), b.name()))
}

proof fn lemma_shown_before<T: Ranked>(a: T, b: T, c: T)
    ensures
        shown_before(a, b) && shown_before(b, c) ==> shown_before(a, c),
        !(shown_before(a, b) && shown_before(b, a)),
        !shown_before(b, a) && !shown_before(c, b) ==> !shown_before(c, a),
{
    if shown_before(a, b) && shown_before(b, c) && a.place() == c.place() {
        lemma_text_before_transitive(a.label(), b.label(), c.label());
    }
    if shown_before(a, b) && shown_before(b, a) {
        lemma_text_before_transitive(a.label(), b.label(), a.label());
        lemma_text_before_irreflexive(a.label());
    }
    if !shown_before(b, a) && !shown_before(c, b) && shown_before(c, a) {
        lemma_text_before_total(a.label(), b.label());
        lemma_text_before_total(b.label(), c.label());
        if a.label() != b.label() && b.label() != c.label() {
            lemma_text_before_transitive(a.label(), b.label(), c.label());
        }
        lemma_text_before_irreflexive(a.label());
        if text_before(a.label(), c.label()) && text_before(c.label(), a.label()) {
            lemma_text_before_transitive(a.label(), c.label(), a.label());
        }
    }
}

/// Nothing is shown before what stands ahead of it.
pub open spec fn in_order<T: Ranked>(items: Seq<T>) -> bool {
    forall|i: int, j: int|
        0 <= i < j < items.len() ==> !shown_before(#[trigger] items[j], #[trigger] items[i])
}

/// Puts things into order.
pub fn arranged<T: Ranked>(items: Vec<T>) -> (out: Vec<T>)
    ensures
        in_order(out@),
        out@.to_multiset() == items@.to_multiset(),
{
    let ghost all = items@.to_multiset();
    let mut rest = items;
    let mut out: Vec<T> = Vec::new();
    proof {
        out@.to_multiset_ensures();
        assert(out@ =~= Seq::<T>::empty());
        assert(rest@.to_multiset() =~= all);
    }
    while rest.len() > 0
        invariant
            in_order(out@),
            out@.to_multiset().add(rest@.to_multiset()) =~= all,
        decreases rest.len(),
    {
        let ghost before_rest = rest@;
        let ghost before = out@;
        let item = rest.remove(0);
        let mut place: usize = out.len();
        while place > 0 && is_shown_before(&item, &out[place - 1])
            invariant
                place <= out.len(),
                out@ == before,
                forall|i: int| place <= i < out@.len() ==> shown_before(item, #[trigger] out@[i]),
            decreases place,
        {
            place = place - 1;
        }
        let ghost at = place as int;
        let ghost moved = item;
        out.insert(place, item);
        proof {
            assert(out@ =~= before.insert(at, moved));
            assert forall|i: int, j: int| 0 <= i < j < out@.len() implies !shown_before(
                #[trigger] out@[j],
                #[trigger] out@[i],
            ) by {
                if j < at {
                    assert(out@[i] == before[i] && out@[j] == before[j]);
                } else if j == at {
                    assert(out@[i] == before[i]);
                    if i < at - 1 {
                        lemma_shown_before(before[i], before[at - 1], moved);
                    }
                } else if i == at {
                    assert(out@[j] == before[j - 1]);
                    lemma_shown_before(moved, before[j - 1], moved);
                } else if i > at {
                    assert(out@[i] == before[i - 1] && out@[j] == before[j - 1]);
                } else {
                    assert(out@[i] == before[i] && out@[j] == before[j - 1]);
                }
            }
            before.to_multiset_ensures();
            before_rest.to_multiset_ensures();
            assert(rest@ =~= before_rest.remove(0));
            assert(rest@.to_multiset() =~= before_rest.to_multiset().remove(before_rest[0]));
            to_multiset_insert(before, at, moved);
            to_multiset_remove(before_rest, 0);
            assert(out@.to_multiset().add(rest@.to_multiset()) =~= all);
        }
    }
    proof {
        rest@.to_multiset_ensures();
        assert(rest@ =~= Seq::<T>::empty());
        assert(out@.to_multiset() =~= all);
    }
    out
}

/// A rank that orders bit patterns as their numbers are ordered.
pub open spec fn pattern_rank(bits: u64) -> int {
    order_key(bits) + SIGN_BIT
}

pub fn rank_of_pattern(bits: u64) -> (rank: u64)
    ensures
        rank == pattern_rank(bits),
{
    if bits < SIGN_BIT {
        bits + SIGN_BIT
    } else {
        u64::MAX - bits
    }
}

} // verus!
