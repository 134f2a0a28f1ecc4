//! Sorted lists: the timestamps that a consensus timestamp is taken from,
//! and the decided events in their final order.

use vstd::prelude::*;
use vstd::relations::{sorted_by, total_ordering};
use vstd::seq_lib::{lemma_sorted_unique, to_multiset_build};

use crate::event::EventHash;

verus! {

/// `s` with `t` put behind the last element that is not greater than it,
/// for a sorted `s`.
pub open spec fn insert_sorted(s: Seq<u64>, t: u64) -> Seq<u64>
    decreases s.len(),
{
    if s.len() == 0 {
        seq![t]
    } else if s.last() <= t {
        s.push(t)
    } else {
        insert_sorted(s.drop_last(), t).push(s.last())
    }
}

/// The numbers of `s` in ascending order.
pub open spec fn sorted_of(s: Seq<u64>) -> Seq<u64>
    decreases s.len(),
{
    if s.len() == 0 {
        Seq::empty()
    } else {
        insert_sorted(sorted_of(s.drop_last()), s.last())
    }
}

/// No number is followed by a smaller one.
pub open spec fn ascending(s: Seq<u64>) -> bool {
    forall|i: int, j: int| 0 <= i <= j < s.len() ==> s[i] <= s[j]
}

/// The mean of the middle element of a sorted list and its two neighbours,
/// the middle taken again where a neighbour is missing; 0 for no elements.
pub open spec fn smoothed_median(sorted: Seq<u64>) -> int {
    if sorted.len() == 0 {
        0
    } else {
        let m = sorted.len() as int / 2;
        let middle = sorted[m];
        let before = if m > 0 {
            sorted[m - 1]
        } else {
            middle
        };
        let after = if sorted.len() > m + 1 {
            sorted[m + 1]
        } else {
            middle
        };
        (before + middle + after) / 3
    }
}

proof fn lemma_insert_sorted_at(s: Seq<u64>, t: u64, i: int)
    requires
        0 <= i <= s.len(),
        forall|k: int| i <= k < s.len() ==> s[k] > t,
        i > 0 ==> s[i - 1] <= t,
    ensures
        insert_sorted(s, t) == s.insert(i, t),
    decreases s.len() - i,
{
    if s.len() == 0 {
        assert(s.insert(0, t) =~= seq![t]);
    } else if i == s.len() {
        assert(s.insert(i, t) =~= s.push(t));
    } else {
        lemma_insert_sorted_at(s.drop_last(), t, i);
        assert(s.drop_last().insert(i, t).push(s.last()) =~= s.insert(i, t));
    }
}

/// Sorting keeps the length and yields an ascending list.
pub proof fn law_sort_ascends(s: Seq<u64>)
    ensures
        sorted_of(s).len() == s.len(),
        ascending(sorted_of(s)),
    decreases s.len(),
{
    if s.len() > 0 {
        law_sort_ascends(s.drop_last());
        lemma_insert_keeps_ascending(sorted_of(s.drop_last()), s.last());
    }
}

/// Putting a number into an ascending list gives an ascending list of
/// that number and the numbers of the list.
pub proof fn lemma_insert_keeps_ascending(s: Seq<u64>, t: u64)
    requires
        ascending(s),
    ensures
        insert_sorted(s, t).len() == s.len() + 1,
        ascending(insert_sorted(s, t)),
        forall|k: int|
            0 <= k < s.len() + 1 ==> #[trigger] insert_sorted(s, t)[k] == t || s.contains(
                insert_sorted(s, t)[k],
            ),
    decreases s.len(),
{
    if s.len() > 0 && s.last() > t {
        let front = s.drop_last();
        lemma_insert_keeps_ascending(front, t);
        let r = insert_sorted(s, t);
        let f = insert_sorted(front, t);
        assert forall|k: int| 0 <= k < s.len() + 1 implies #[trigger] r[k] == t || s.contains(
            r[k],
        ) by {
            if k < f.len() {
                assert(r[k] == f[k]);
                if f[k] != t {
                    let m = choose|m: int| 0 <= m < front.len() && front[m] == f[k];
                    assert(s[m] == f[k]);
                }
            } else {
                assert(s[s.len() - 1] == r[k]);
            }
        }
        assert forall|i: int, j: int| 0 <= i <= j < r.len() implies r[i] <= r[j] by {
            if j < f.len() {
                assert(f[i] <= f[j]);
            } else if i < f.len() {
                assert(r[i] == f[i]);
                if f[i] != t {
                    let m = choose|m: int| 0 <= m < front.len() && front[m] == f[i];
                    assert(s[m] <= s[s.len() - 1]);
                }
            }
        }
    } else if s.len() > 0 {
        let r = s.push(t);
        assert forall|k: int| 0 <= k < s.len() + 1 implies #[trigger] r[k] == t || s.contains(
            r[k],
        ) by {
            if k < s.len() {
                assert(s[k] == r[k]);
            }
        }
        assert forall|i: int, j: int| 0 <= i <= j < r.len() implies r[i] <= r[j] by {
            if j == s.len() && i < s.len() {
                assert(s[i] <= s[s.len() - 1]);
            }
        }
    }
}

/// Puts `t` into the sorted list `v`.
pub fn insert_into_sorted(v: &mut Vec<u64>, t: u64)
    ensures
        final(v)@ == insert_sorted(old(v)@, t),
{
    let mut i: usize = v.len();
    while i > 0 && v[i - 1] > t
        invariant
            i <= v.len(),
            *v == *old(v),
            forall|k: int| i <= k < v.len() ==> v[k] > t,
        decreases i,
    {
        i -= 1;
    }
    proof {
        lemma_insert_sorted_at(v@, t, i as int);
    }
    v.insert(i, t);
}

/// The numbers of `v` in ascending order.
pub fn sort(v: &Vec<u64>) -> (r: Vec<u64>)
    ensures
        r@ == sorted_of(v@),
{
    let mut r: Vec<u64> = Vec::new();
    let mut i: usize = 0;
    proof {
        assert(v@.take(0) =~= Seq::<u64>::empty());
    }
    while i < v.len()
        invariant
            i <= v.len(),
            r@ == sorted_of(v@.take(i as int)),
        decreases v.len() - i,
    {
        proof {
            assert(v@.take(i + 1).drop_last() =~= v@.take(i as int));
            assert(v@.take(i + 1).last() == v@[i as int]);
        }
        insert_into_sorted(&mut r, v[i]);
        i += 1;
    }
    proof {
        assert(v@.take(v.len() as int) =~= v@);
    }
    r
}

/// The smoothed median of a sorted list.
pub fn median_of(sorted: &Vec<u64>) -> (r: u64)
    ensures
        r == smoothed_median(sorted@),
{
    if sorted.len() == 0 {
        return 0;
    }
    let m = sorted.len() / 2;
    let middle = sorted[m];
    let before = if m > 0 {
        sorted[m - 1]
    } else {
        middle
    };
    let after = if sorted.len() > m + 1 {
        sorted[m + 1]
    } else {
        middle
    };
    let sum: u128 = before as u128 + middle as u128 + after as u128;
    (sum / 3) as u64
}

/// A decided event as the final order sees it: the round that received
/// it, its consensus timestamp, the time of its making, and its hash.
#[derive(Debug, Clone, Copy, PartialEq, Eq, Structural)]
pub struct Decided {
    pub received: u64,
    pub timestamp: u64,
    pub created: u64,
    pub hash: EventHash,
}

/// `a` does not come after `b`: by received round, then by consensus
/// timestamp; where both agree, by the time of making and then by hash, so
/// that every node breaks a tie the same way.
pub open spec fn not_after(a: Decided, b: Decided) -> bool {
    if a.received != b.received {
        a.received < b.received
    } else if a.timestamp != b.timestamp {
        a.timestamp < b.timestamp
    } else if a.created != b.created {
        a.created < b.created
    } else {
        a.hash <= b.hash
    }
}

/// `s` with `d` put behind the last element that does not come after it.
pub open spec fn insert_decided(s: Seq<Decided>, d: Decided) -> Seq<Decided>
    decreases s.len(),
{
    if s.len() == 0 {
        seq![d]
    } else if not_after(s.last(), d) {
        s.push(d)
    } else {
        insert_decided(s.drop_last(), d).push(s.last())
    }
}

/// The final order of `s`: by received round, then by consensus
/// timestamp, then by time of making, then by hash.
pub open spec fn final_order(s: Seq<Decided>) -> Seq<Decided>
    decreases s.len(),
{
    if s.len() == 0 {
        Seq::empty()
    } else {
        insert_decided(final_order(s.drop_last()), s.last())
    }
}

proof fn lemma_insert_decided_at(s: Seq<Decided>, d: Decided, i: int)
    requires
        0 <= i <= s.len(),
        forall|k: int| i <= k < s.len() ==> !not_after(s[k], d),
        i > 0 ==> not_after(s[i - 1], d),
    ensures
        insert_decided(s, d) == s.insert(i, d),
    decreases s.len() - i,
{
    if s.len() == 0 {
        assert(s.insert(0, d) =~= seq![d]);
    } else if i == s.len() {
        assert(s.insert(i, d) =~= s.push(d));
    } else {
        lemma_insert_decided_at(s.drop_last(), d, i);
        assert(s.drop_last().insert(i, d).push(s.last()) =~= s.insert(i, d));
    }
}

/// Whether `a` does not come after `b`.
pub fn comes_not_after(a: &Decided, b: &Decided) -> (r: bool)
    ensures
        r == not_after(*a, *b),
{
    if a.received != b.received {
        a.received < b.received
    } else if a.timestamp != b.timestamp {
        a.timestamp < b.timestamp
    } else if a.created != b.created {
        a.created < b.created
    } else {
        a.hash <= b.hash
    }
}

/// The decided events of `v` in their final order.
pub fn order_decided(v: &Vec<Decided>) -> (r: Vec<Decided>)
    ensures
        r@ == final_order(v@),
{
    let mut r: Vec<Decided> = Vec::new();
    let mut i: usize = 0;
    proof {
        assert(v@.take(0) =~= Seq::<Decided>::empty());
    }
    while i < v.len()
        invariant
            i <= v.len(),
            r@ == final_order(v@.take(i as int)),
        decreases v.len() - i,
    {
        proof {
            assert(v@.take(i + 1).drop_last() =~= v@.take(i as int));
            assert(v@.take(i + 1).last() == v@[i as int]);
        }
        let d = v[i];
        let mut at: usize = r.len();
        while at > 0 && !comes_not_after(&r[at - 1], &d)
            invariant
                at <= r.len(),
                forall|k: int| at <= k < r.len() ==> !not_after(r[k], d),
            decreases at,
        {
            at -= 1;
        }
        proof {
            lemma_insert_decided_at(r@, d, at as int);
        }
        r.insert(at, d);
        i += 1;
    }
    proof {
        assert(v@.take(v.len() as int) =~= v@);
    }
    r
}

/// The order of the decided events, as a relation.
pub open spec fn decided_order() -> spec_fn(Decided, Decided) -> bool {
    |a: Decided, b: Decided| not_after(a, b)
}

/// Putting a decided event into a list in final order gives a list in
/// final order, of that event and the events of the list.
proof fn lemma_insert_decided_sorted(s: Seq<Decided>, d: Decided)
    requires
        sorted_by(s, decided_order()),
    ensures
        sorted_by(insert_decided(s, d), decided_order()),
        insert_decided(s, d).to_multiset() == s.to_multiset().insert(d),
        insert_decided(s, d).len() == s.len() + 1,
        forall|k: int|
            0 <= k < s.len() + 1 ==> #[trigger] insert_decided(s, d)[k] == d || s.contains(
                insert_decided(s, d)[k],
            ),
    decreases s.len(),
{
    let leq = decided_order();
    let r = insert_decided(s, d);
    if s.len() == 0 {
        to_multiset_build(s, d);
        assert(seq![d] =~= s.push(d));
    } else if not_after(s.last(), d) {
        to_multiset_build(s, d);
        assert forall|i: int, j: int| 0 <= i < j < r.len() implies #[trigger] leq(r[i], r[j]) by {
            if j == s.len() {
                if i < s.len() - 1 {
                    assert(leq(s[i], s[s.len() - 1]));
                }
            } else {
                assert(leq(s[i], s[j]));
            }
        }
        assert forall|k: int| 0 <= k < s.len() + 1 implies #[trigger] r[k] == d || s.contains(
            r[k],
        ) by {
            if k < s.len() {
                assert(s[k] == r[k]);
            }
        }
    } else {
        let front = s.drop_last();
        assert forall|i: int, j: int| 0 <= i < j < front.len() implies #[trigger] leq(
            front[i],
            front[j],
        ) by {
            assert(leq(s[i], s[j]));
        }
        lemma_insert_decided_sorted(front, d);
        let f = insert_decided(front, d);
        to_multiset_build(f, s.last());
        to_multiset_build(front, s.last());
        assert(front.push(s.last()) =~= s);
        assert(front.to_multiset().insert(d).insert(s.last()) =~= front.to_multiset().insert(
            s.last(),
        ).insert(d));
        assert forall|k: int| 0 <= k < s.len() + 1 implies #[trigger] r[k] == d || s.contains(
            r[k],
        ) by {
            if k < f.len() {
                assert(r[k] == f[k]);
                if f[k] != d {
                    let m = choose|m: int| 0 <= m < front.len() && front[m] == f[k];
                    assert(s[m] == f[k]);
                }
            } else {
                assert(s[s.len() - 1] == r[k]);
            }
        }
        assert forall|i: int, j: int| 0 <= i < j < r.len() implies #[trigger] leq(r[i], r[j]) by {
            if j < f.len() {
                assert(leq(f[i], f[j]));
            } else {
                assert(r[i] == f[i]);
                if f[i] != d {
                    let m = choose|m: int| 0 <= m < front.len() && front[m] == f[i];
                    assert(leq(s[m], s[s.len() - 1]));
                }
            }
        }
    }
}

/// The final order is sorted and made of the events that were listed.
proof fn lemma_final_order(s: Seq<Decided>)
    ensures
        sorted_by(final_order(s), decided_order()),
        final_order(s).to_multiset() == s.to_multiset(),
    decreases s.len(),
{
    if s.len() == 0 {
        assert(final_order(s) =~= s);
    } else {
        lemma_final_order(s.drop_last());
        lemma_insert_decided_sorted(final_order(s.drop_last()), s.last());
        to_multiset_build(s.drop_last(), s.last());
        assert(s.drop_last().push(s.last()) =~= s);
    }
}

/// The final order does not depend on the order in which the decided
/// events are listed: two listings of the same events have the same final
/// order.
pub proof fn law_final_order_ignores_listing(x: Seq<Decided>, y: Seq<Decided>)
    requires
        x.to_multiset() == y.to_multiset(),
    ensures
        final_order(x) == final_order(y),
{
    lemma_final_order(x);
    lemma_final_order(y);
    assert(total_ordering(decided_order()));
    lemma_sorted_unique(final_order(x), final_order(y), decided_order());
}

} // verus!
