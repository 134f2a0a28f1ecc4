//! Ancestry in the stored DAG. A parent always stands before its child in
//! the store, and the store keeps a memo of what each of its events
//! reaches: a new event reaches its parents and what they reach, and every
//! question of ancestry between stored events is answered from the memo.
//! When events are forgotten, the memo is made anew from what is left.

use vstd::prelude::*;

use crate::event::{Event, EventCreator, EventHash};
use crate::events::{event_hashes, index_below, parent_index, Events};
use crate::index::{find_u64, first_index_of, lemma_first_index_of};

verus! {

/// `k` is the place of a parent of an event that stands at place `n` (or
/// would, being new) and names the parents `sp` and `op`.
pub open spec fn is_parent(s: Seq<Event>, n: int, sp: EventHash, op: EventHash, k: int) -> bool {
    k >= 0 && (k == parent_index(s, n, sp) || k == parent_index(s, n, op))
}

/// The event at place `k` is an ancestor of the event at place `n` with
/// parents `sp` and `op`: it is a parent of it, or a parent of an event
/// that is such an ancestor.
pub open spec fn reached(s: Seq<Event>, n: int, sp: EventHash, op: EventHash, k: int) -> bool
    decreases n - k,
{
    0 <= k < n <= s.len() && (is_parent(s, n, sp, op, k) || exists|j: int|
        k < j < n && reached(s, n, sp, op, j) && #[trigger] is_parent(
            s,
            j,
            s[j].self_parent,
            s[j].other_parent,
            k,
        ))
}

/// The place that `e` has in the store, or the store's length for an event
/// that it does not hold: only events before that place can be ancestors.
pub open spec fn bound_of(s: Seq<Event>, e: Event) -> int {
    let i = first_index_of(event_hashes(s), e.hash);
    if i >= 0 {
        i
    } else {
        s.len() as int
    }
}

/// The event with hash `a` is `e` or an ancestor of `e`.
pub open spec fn ancestor(s: Seq<Event>, a: EventHash, e: Event) -> bool {
    e.hash == a || exists|k: int|
        #[trigger] reached(s, bound_of(s, e), e.self_parent, e.other_parent, k) && s[k].hash == a
}

/// The event with hash `a` is reached from the parent `sp` by self-parent
/// links alone, among the first `n` events.
pub open spec fn self_reached(s: Seq<Event>, n: int, sp: EventHash, a: EventHash) -> bool
    decreases n,
{
    let q = parent_index(s, n, sp);
    0 <= q < n <= s.len() && (s[q].hash == a || self_reached(s, q, s[q].self_parent, a))
}

/// The event with hash `a` is `e` or an ancestor of `e` by self-parent links alone.
pub open spec fn self_ancestor(s: Seq<Event>, a: EventHash, e: Event) -> bool {
    e.hash == a || self_reached(s, bound_of(s, e), e.self_parent, a)
}

/// The stored event at place `j` is the event at place `kx` or a descendant of it.
pub open spec fn descends(s: Seq<Event>, kx: int, j: int) -> bool {
    j == kx || reached(s, j, s[j].self_parent, s[j].other_parent, kx)
}

/// The event at place `j` lies on a path from the event at place `n`, with
/// parents `sp` and `op`, back to the event at place `kx`.
pub open spec fn between(s: Seq<Event>, n: int, sp: EventHash, op: EventHash, kx: int, j: int) -> bool {
    reached(s, n, sp, op, j) && descends(s, kx, j)
}

/// The creators, each once and in order of first appearance, of the events
/// among the first `m` that lie on a path from the event at `n` back to `kx`.
pub open spec fn creators_between(
    s: Seq<Event>,
    n: int,
    sp: EventHash,
    op: EventHash,
    kx: int,
    m: int,
) -> Seq<EventCreator>
    decreases m,
{
    if m <= 0 {
        Seq::empty()
    } else {
        let before = creators_between(s, n, sp, op, kx, m - 1);
        if between(s, n, sp, op, kx, m - 1) && first_index_of(before, s[m - 1].creator) < 0 {
            before.push(s[m - 1].creator)
        } else {
            before
        }
    }
}

/// The creators met on the paths from `e` back to the event with hash `x`,
/// the creator of `e` among them; empty where `x` is no ancestor of `e`.
pub open spec fn path_creators(s: Seq<Event>, e: Event, x: EventHash) -> Seq<EventCreator> {
    let n = bound_of(s, e);
    let kx = index_below(s, n, x);
    if e.hash == x {
        seq![e.creator]
    } else if kx >= 0 && reached(s, n, e.self_parent, e.other_parent, kx) {
        let inner = creators_between(s, n, e.self_parent, e.other_parent, kx, n);
        if first_index_of(inner, e.creator) < 0 {
            inner.push(e.creator)
        } else {
            inner
        }
    } else {
        Seq::empty()
    }
}

/// `e` strongly sees the event with hash `x`: the paths from `e` back to it
/// pass through events of at least `threshold` creators.
pub open spec fn strongly_sees(s: Seq<Event>, e: Event, x: EventHash, threshold: u64) -> bool {
    path_creators(s, e, x).len() > 0 && path_creators(s, e, x).len() >= threshold
}

/// An ancestor is reached through one of the two parents: it is that
/// parent, or an ancestor of it.
pub open spec fn via_parent(s: Seq<Event>, n: int, h: EventHash, k: int) -> bool {
    let p = parent_index(s, n, h);
    p >= 0 && descends(s, k, p)
}

proof fn lemma_parent_index_bounds(s: Seq<Event>, n: int, h: EventHash)
    requires
        0 <= n <= s.len(),
    ensures
        -1 <= parent_index(s, n, h) < n,
        parent_index(s, n, h) >= 0 ==> s[parent_index(s, n, h)].hash == h,
{
    let hs = event_hashes(s).take(n);
    lemma_first_index_of(hs, h);
    let p = parent_index(s, n, h);
    if p >= 0 {
        assert(hs[p] == event_hashes(s)[p]);
    }
}

/// A parent is reached.
pub proof fn lemma_reached_parent(s: Seq<Event>, n: int, sp: EventHash, op: EventHash, k: int)
    requires
        0 <= k < n <= s.len(),
        is_parent(s, n, sp, op, k),
    ensures
        reached(s, n, sp, op, k),
{
}

/// A parent of what is reached is reached.
pub proof fn lemma_reached_step(s: Seq<Event>, n: int, sp: EventHash, op: EventHash, j: int, k: int)
    requires
        0 <= k < j < n <= s.len(),
        reached(s, n, sp, op, j),
        is_parent(s, j, s[j].self_parent, s[j].other_parent, k),
    ensures
        reached(s, n, sp, op, k),
{
    reveal_with_fuel(reached, 2);
}

/// The event above `k` through which `k` is reached, where `k` is reached
/// and no parent.
pub open spec fn step_above(s: Seq<Event>, n: int, sp: EventHash, op: EventHash, k: int) -> int {
    choose|j: int|
        k < j < n && reached(s, n, sp, op, j) && #[trigger] is_parent(
            s,
            j,
            s[j].self_parent,
            s[j].other_parent,
            k,
        )
}

/// What is reached is a parent, or a parent of [`step_above`], which is reached.
pub proof fn lemma_reached_cases(s: Seq<Event>, n: int, sp: EventHash, op: EventHash, k: int)
    requires
        reached(s, n, sp, op, k),
    ensures
        0 <= k < n <= s.len(),
        is_parent(s, n, sp, op, k) || ({
            let j = step_above(s, n, sp, op, k);
            k < j < n && reached(s, n, sp, op, j) && is_parent(
                s,
                j,
                s[j].self_parent,
                s[j].other_parent,
                k,
            )
        }),
{
    reveal_with_fuel(reached, 2);
}

/// Reaching down from an event is reaching down from one of its parents.
pub proof fn lemma_reached_top(s: Seq<Event>, n: int, sp: EventHash, op: EventHash, k: int)
    requires
        0 <= k < n <= s.len(),
    ensures
        reached(s, n, sp, op, k) == (via_parent(s, n, sp, k) || via_parent(s, n, op, k)),
    decreases n - k,
{
    lemma_parent_index_bounds(s, n, sp);
    lemma_parent_index_bounds(s, n, op);
    if reached(s, n, sp, op, k) {
        lemma_reached_cases(s, n, sp, op, k);
        if !is_parent(s, n, sp, op, k) {
            let j = step_above(s, n, sp, op, k);
            lemma_reached_top(s, n, sp, op, j);
            if via_parent(s, n, sp, j) {
                let p = parent_index(s, n, sp);
                lemma_descends_step(s, p, j, k);
            } else {
                let p = parent_index(s, n, op);
                lemma_descends_step(s, p, j, k);
            }
        }
    }
    if via_parent(s, n, sp, k) {
        lemma_reached_from_parent(s, n, sp, op, parent_index(s, n, sp), k);
    }
    if via_parent(s, n, op, k) {
        lemma_reached_from_parent(s, n, sp, op, parent_index(s, n, op), k);
    }
}

/// The parent `k` of `j` descends from whatever `j` descends from.
proof fn lemma_descends_step(s: Seq<Event>, p: int, j: int, k: int)
    requires
        0 <= k < j <= p < s.len(),
        descends(s, j, p),
        is_parent(s, j, s[j].self_parent, s[j].other_parent, k),
    ensures
        descends(s, k, p),
{
    if j == p {
        lemma_reached_parent(s, p, s[p].self_parent, s[p].other_parent, k);
    } else {
        lemma_reached_step(s, p, s[p].self_parent, s[p].other_parent, j, k);
    }
}

/// What a parent reaches, its child reaches.
proof fn lemma_reached_from_parent(
    s: Seq<Event>,
    n: int,
    sp: EventHash,
    op: EventHash,
    p: int,
    k: int,
)
    requires
        0 <= k <= p < n <= s.len(),
        is_parent(s, n, sp, op, p),
        descends(s, k, p),
    ensures
        reached(s, n, sp, op, k),
    decreases p - k,
{
    lemma_reached_parent(s, n, sp, op, p);
    if p != k {
        let psp = s[p].self_parent;
        let pop = s[p].other_parent;
        lemma_reached_cases(s, p, psp, pop, k);
        if !is_parent(s, p, psp, pop, k) {
            let j = step_above(s, p, psp, pop, k);
            lemma_reached_from_parent(s, n, sp, op, p, j);
            lemma_reached_step(s, n, sp, op, j, k);
        } else {
            lemma_reached_step(s, n, sp, op, p, k);
        }
    }
}

/// The memo of the store is in order: for each event it says of each
/// earlier event whether that is an ancestor of it.
pub open spec fn memo_ok(s: Seq<Event>, reach: Seq<Vec<bool>>) -> bool {
    &&& reach.len() == s.len()
    &&& forall|i: int| 0 <= i < s.len() ==> (#[trigger] reach[i])@.len() == i
    &&& forall|i: int, k: int|
        0 <= k < i < s.len() ==> #[trigger] reach[i]@[k] == reached(
            s,
            i,
            s[i].self_parent,
            s[i].other_parent,
            k,
        )
}

/// What an event reaches goes by the events before it alone.
pub proof fn lemma_reached_prefix(
    s: Seq<Event>,
    t: Seq<Event>,
    n: int,
    sp: EventHash,
    op: EventHash,
    k: int,
)
    requires
        0 <= n <= s.len(),
        n <= t.len(),
        s.take(n) == t.take(n),
    ensures
        reached(s, n, sp, op, k) == reached(t, n, sp, op, k),
    decreases n - k,
{
    if 0 <= k < n {
        lemma_same_parents(s, t, n, n, sp);
        lemma_same_parents(s, t, n, n, op);
        if reached(s, n, sp, op, k) && !is_parent(s, n, sp, op, k) {
            lemma_reached_cases(s, n, sp, op, k);
            let j = step_above(s, n, sp, op, k);
            lemma_reached_prefix(s, t, n, sp, op, j);
            assert(s.take(n)[j] == s[j] && t.take(n)[j] == t[j]);
            lemma_same_parents(s, t, n, j, s[j].self_parent);
            lemma_same_parents(s, t, n, j, s[j].other_parent);
            lemma_reached_step(t, n, sp, op, j, k);
        }
        if reached(t, n, sp, op, k) && !is_parent(t, n, sp, op, k) {
            lemma_reached_cases(t, n, sp, op, k);
            let j = step_above(t, n, sp, op, k);
            lemma_reached_prefix(s, t, n, sp, op, j);
            assert(s.take(n)[j] == s[j] && t.take(n)[j] == t[j]);
            lemma_same_parents(s, t, n, j, t[j].self_parent);
            lemma_same_parents(s, t, n, j, t[j].other_parent);
            lemma_reached_step(s, n, sp, op, j, k);
        }
        if is_parent(s, n, sp, op, k) {
            lemma_reached_parent(s, n, sp, op, k);
            lemma_reached_parent(t, n, sp, op, k);
        }
    } else {
        reveal_with_fuel(reached, 1);
    }
}

/// Stores that agree on their first `n` events resolve a parent among
/// the first `j` of them alike.
proof fn lemma_same_parents(s: Seq<Event>, t: Seq<Event>, n: int, j: int, h: EventHash)
    requires
        0 <= j <= n <= s.len(),
        n <= t.len(),
        s.take(n) == t.take(n),
    ensures
        parent_index(s, j, h) == parent_index(t, j, h),
{
    assert(event_hashes(s).take(j) =~= event_hashes(t).take(j)) by {
        assert forall|i: int| 0 <= i < j implies event_hashes(s)[i] == event_hashes(t)[i] by {
            assert(s.take(n)[i] == s[i] && t.take(n)[i] == t[i]);
        }
    }
}

/// A memo in order stays in order when an event is put at the end of
/// the store, with what it reaches.
pub proof fn lemma_memo_push(s: Seq<Event>, reach: Seq<Vec<bool>>, e: Event, row: Vec<bool>)
    requires
        memo_ok(s, reach),
        row@.len() == s.len(),
        forall|k: int|
            0 <= k < s.len() ==> row@[k] == reached(
                s,
                s.len() as int,
                e.self_parent,
                e.other_parent,
                k,
            ),
    ensures
        memo_ok(s.push(e), reach.push(row)),
{
    let t = s.push(e);
    let r = reach.push(row);
    assert forall|i: int| 0 <= i < t.len() implies (#[trigger] r[i])@.len() == i by {
        if i < s.len() {
            assert(r[i] == reach[i]);
        }
    }
    assert forall|i: int, k: int| 0 <= k < i < t.len() implies #[trigger] r[i]@[k] == reached(
        t,
        i,
        t[i].self_parent,
        t[i].other_parent,
        k,
    ) by {
        assert(s.take(i) =~= t.take(i));
        lemma_reached_prefix(s, t, i, t[i].self_parent, t[i].other_parent, k);
        if i < s.len() {
            assert(r[i] == reach[i]);
        }
    }
}

/// What is known of the place `k` once the events from place `i` on have
/// handed their mark down: `k` is a parent of the event itself, or a parent
/// of a reached event that stands at `i` or later.
pub open spec fn marked(s: Seq<Event>, n: int, sp: EventHash, op: EventHash, i: int, k: int) -> bool {
    0 <= k < n <= s.len() && (is_parent(s, n, sp, op, k) || exists|j: int|
        k < j < n && i <= j && reached(s, n, sp, op, j) && #[trigger] is_parent(
            s,
            j,
            s[j].self_parent,
            s[j].other_parent,
            k,
        ))
}

proof fn lemma_marked_is_reached(s: Seq<Event>, n: int, sp: EventHash, op: EventHash, i: int, k: int)
    requires
        i <= k + 1,
    ensures
        marked(s, n, sp, op, i, k) == reached(s, n, sp, op, k),
{
    reveal_with_fuel(reached, 2);
}

proof fn lemma_marked_step(s: Seq<Event>, n: int, sp: EventHash, op: EventHash, i: int, k: int)
    requires
        0 <= k < n <= s.len(),
        0 < i <= n,
    ensures
        marked(s, n, sp, op, i - 1, k) == (marked(s, n, sp, op, i, k) || (k < i - 1 && reached(
            s,
            n,
            sp,
            op,
            i - 1,
        ) && is_parent(s, i - 1, s[i - 1].self_parent, s[i - 1].other_parent, k))),
{
    if marked(s, n, sp, op, i - 1, k) && !marked(s, n, sp, op, i, k) {
        let j = choose|j: int|
            k < j < n && i - 1 <= j && reached(s, n, sp, op, j) && #[trigger] is_parent(
                s,
                j,
                s[j].self_parent,
                s[j].other_parent,
                k,
            );
        assert(j == i - 1);
    }
}

impl Events {
    /// For each of the first `n` events, whether it is an ancestor of an
    /// event that stands at place `n` and names the parents `sp` and `op`,
    /// found by one pass over the store from that place down.
    pub fn sweep_marks(&self, n: usize, sp: EventHash, op: EventHash) -> (marks: Vec<bool>)
        requires
            self.indexed(),
            n <= self.store@.len(),
        ensures
            marks@.len() == n,
            forall|k: int| 0 <= k < n ==> marks@[k] == reached(self.store@, n as int, sp, op, k),
    {
        let ghost s = self.store@;
        let mut marks: Vec<bool> = Vec::new();
        let mut c: usize = 0;
        while c < n
            invariant
                c <= n,
                marks@.len() == c,
                forall|k: int| 0 <= k < c ==> !marks@[k],
            decreases n - c,
        {
            marks.push(false);
            c += 1;
        }
        let first = self.find_parent(n, sp);
        let second = self.find_parent(n, op);
        match first {
            Some(p) => {
                marks.set(p, true);
            },
            None => {},
        }
        match second {
            Some(q) => {
                marks.set(q, true);
            },
            None => {},
        }
        let mut i: usize = n;
        while i > 0
            invariant
                self.indexed(),
                i <= n <= self.store@.len(),
                s == self.store@,
                marks@.len() == n,
                forall|k: int| 0 <= k < n ==> marks@[k] == marked(s, n as int, sp, op, i as int, k),
            decreases i,
        {
            let at = i - 1;
            let ghost before = marks@;
            proof {
                lemma_marked_is_reached(s, n as int, sp, op, i as int, at as int);
            }
            if marks[at] {
                let e = &self.store[at];
                match self.find_parent(at, e.self_parent) {
                    Some(p) => {
                        marks.set(p, true);
                    },
                    None => {},
                }
                match self.find_parent(at, e.other_parent) {
                    Some(q) => {
                        marks.set(q, true);
                    },
                    None => {},
                }
            }
            proof {
                assert forall|k: int| 0 <= k < n implies marks@[k] == marked(
                    s,
                    n as int,
                    sp,
                    op,
                    at as int,
                    k,
                ) by {
                    lemma_marked_step(s, n as int, sp, op, i as int, k);
                    assert(before[k] == marked(s, n as int, sp, op, i as int, k));
                }
            }
            i -= 1;
        }
        proof {
            assert forall|k: int| 0 <= k < n implies marks@[k] == reached(
                s,
                n as int,
                sp,
                op,
                k,
            ) by {
                lemma_marked_is_reached(s, n as int, sp, op, 0, k);
            }
        }
        marks
    }

    /// Marks, among the first `n` places, the event at place `p` and its
    /// ancestors, as the memo has them.
    fn mark_line(&self, marks: &mut Vec<bool>, p: usize)
        requires
            self.wf(),
            p < old(marks)@.len() <= self.store@.len(),
        ensures
            final(marks)@.len() == old(marks)@.len(),
            forall|k: int|
                0 <= k < old(marks)@.len() ==> final(marks)@[k] == (old(marks)@[k] || descends(
                    self.store@,
                    k,
                    p as int,
                )),
    {
        let ghost s = self.store@;
        let ghost before = marks@;
        proof {
            assert(memo_ok(s, self.reach@));
            assert(self.reach@[p as int]@.len() == p);
        }
        marks.set(p, true);
        let mut k: usize = 0;
        while k < p
            invariant
                self.wf(),
                s == self.store@,
                k <= p < marks@.len() <= s.len(),
                marks@.len() == before.len(),
                self.reach@[p as int]@.len() == p,
                forall|i: int|
                    0 <= i < k ==> #[trigger] marks@[i] == (before[i] || descends(s, i, p as int)),
                forall|i: int| k <= i < marks@.len() && i != p ==> #[trigger] marks@[i] == before[i],
                marks@[p as int],
            decreases p - k,
        {
            proof {
                assert(memo_ok(s, self.reach@));
                assert(self.reach@[p as int]@[k as int] == reached(
                    s,
                    p as int,
                    s[p as int].self_parent,
                    s[p as int].other_parent,
                    k as int,
                ));
            }
            let ghost earlier = marks@;
            let hit = self.reach[p][k];
            if hit {
                marks.set(k, true);
            }
            proof {
                assert(hit == descends(s, k as int, p as int));
                assert(marks@[k as int] == (before[k as int] || hit));
                assert forall|i: int| 0 <= i < k + 1 implies #[trigger] marks@[i] == (before[i]
                    || descends(s, i, p as int)) by {
                    if i < k {
                        assert(marks@[i] == earlier[i]);
                    }
                }
            }
            k += 1;
        }
        proof {
            assert forall|i: int| 0 <= i < marks@.len() implies marks@[i] == (before[i] || descends(
                s,
                i,
                p as int,
            )) by {
                if i > p {
                    reveal_with_fuel(reached, 1);
                }
            }
        }
    }

    /// For each of the first `n` events, whether it is an ancestor of an
    /// event that stands at place `n` and names the parents `sp` and `op`:
    /// its parents, and what the memo has as their ancestors.
    pub fn ancestor_marks(&self, n: usize, sp: EventHash, op: EventHash) -> (marks: Vec<bool>)
        requires
            self.wf(),
            n <= self.store@.len(),
        ensures
            marks@.len() == n,
            forall|k: int| 0 <= k < n ==> marks@[k] == reached(self.store@, n as int, sp, op, k),
    {
        let ghost s = self.store@;
        let mut marks: Vec<bool> = Vec::new();
        let mut c: usize = 0;
        while c < n
            invariant
                c <= n,
                marks@.len() == c,
                forall|k: int| 0 <= k < c ==> !marks@[k],
            decreases n - c,
        {
            marks.push(false);
            c += 1;
        }
        let first = self.find_parent(n, sp);
        let second = self.find_parent(n, op);
        match first {
            Some(p) => {
                self.mark_line(&mut marks, p);
            },
            None => {},
        }
        match second {
            Some(q) => {
                self.mark_line(&mut marks, q);
            },
            None => {},
        }
        proof {
            assert forall|k: int| 0 <= k < n implies marks@[k] == reached(
                s,
                n as int,
                sp,
                op,
                k,
            ) by {
                lemma_reached_top(s, n as int, sp, op, k);
            }
        }
        marks
    }

    /// For each of the first `n` events, whether it is the event at place
    /// `kx` or a descendant of it, as the memo has it.
    pub fn descendant_marks(&self, n: usize, kx: usize) -> (marks: Vec<bool>)
        requires
            self.wf(),
            kx < n <= self.store@.len(),
        ensures
            marks@.len() == n,
            forall|j: int| 0 <= j < n ==> marks@[j] == descends(self.store@, kx as int, j),
    {
        let ghost s = self.store@;
        let mut marks: Vec<bool> = Vec::new();
        let mut j: usize = 0;
        while j < n
            invariant
                self.wf(),
                j <= n <= self.store@.len(),
                kx < n,
                s == self.store@,
                marks@.len() == j,
                forall|k: int| 0 <= k < j ==> marks@[k] == descends(s, kx as int, k),
            decreases n - j,
        {
            proof {
                assert(memo_ok(s, self.reach@));
                assert(self.reach@[j as int]@.len() == j);
                if j < kx {
                    reveal_with_fuel(reached, 1);
                } else if j > kx {
                    assert(self.reach@[j as int]@[kx as int] == reached(
                        s,
                        j as int,
                        s[j as int].self_parent,
                        s[j as int].other_parent,
                        kx as int,
                    ));
                }
            }
            let mark = j == kx || (j > kx && self.reach[j][kx]);
            marks.push(mark);
            j += 1;
        }
        marks
    }

    /// The place that `e` has in the store, or the store's length.
    pub fn bound(&self, e: &Event) -> (n: usize)
        requires
            self.indexed(),
        ensures
            n as int == bound_of(self.store@, *e),
            n <= self.store@.len(),
    {
        match self.find(e.hash) {
            Some(i) => i,
            None => self.store.len(),
        }
    }

    /// Whether the event with hash `a` is `e` or an ancestor of `e`.
    pub fn reaches(&self, e: &Event, a: EventHash) -> (r: bool)
        requires
            self.wf(),
        ensures
            r == ancestor(self.store@, a, *e),
    {
        if e.hash == a {
            return true;
        }
        let n = self.bound(e);
        let marks = self.ancestor_marks(n, e.self_parent, e.other_parent);
        let mut k: usize = 0;
        while k < n
            invariant
                k <= n <= self.store@.len(),
                marks@.len() == n,
                n as int == bound_of(self.store@, *e),
                forall|i: int|
                    0 <= i < n ==> marks@[i] == reached(
                        self.store@,
                        n as int,
                        e.self_parent,
                        e.other_parent,
                        i,
                    ),
                forall|i: int| 0 <= i < k ==> !(marks@[i] && self.store@[i].hash == a),
            decreases n - k,
        {
            if marks[k] && self.store[k].hash == a {
                return true;
            }
            k += 1;
        }
        proof {
            if ancestor(self.store@, a, *e) {
                let w = choose|w: int|
                    #[trigger] reached(self.store@, n as int, e.self_parent, e.other_parent, w)
                        && self.store@[w].hash == a;
                reveal_with_fuel(reached, 1);
                assert(marks@[w]);
            }
        }
        false
    }

    /// Whether the event with hash `a` is `e` or an ancestor of `e` by
    /// self-parent links alone.
    pub fn self_reaches(&self, e: &Event, a: EventHash) -> (r: bool)
        requires
            self.indexed(),
        ensures
            r == self_ancestor(self.store@, a, *e),
    {
        if e.hash == a {
            return true;
        }
        let n = self.bound(e);
        self.self_chain_reaches(n, e.self_parent, a)
    }

    /// Whether the event with hash `a` is reached from the parent `first`,
    /// looked for among the first `bound` events, by self-parent links alone.
    pub fn self_chain_reaches(&self, bound: usize, first: EventHash, a: EventHash) -> (r: bool)
        requires
            self.indexed(),
            bound <= self.store@.len(),
        ensures
            r == self_reached(self.store@, bound as int, first, a),
    {
        let mut n = bound;
        let mut sp = first;
        loop
            invariant
                self.indexed(),
                n <= self.store@.len(),
                self_reached(self.store@, bound as int, first, a) == self_reached(
                    self.store@,
                    n as int,
                    sp,
                    a,
                ),
            decreases n,
        {
            match self.find_parent(n, sp) {
                None => {
                    return false;
                },
                Some(q) => {
                    if self.store[q].hash == a {
                        return true;
                    }
                    n = q;
                    sp = self.store[q].self_parent;
                },
            }
        }
    }

    /// The creators met on the paths from `e` back to the event with hash `x`.
    pub fn creators_on_paths(&self, e: &Event, x: EventHash) -> (r: Vec<EventCreator>)
        requires
            self.wf(),
        ensures
            r@ == path_creators(self.store@, *e, x),
    {
        let mut r: Vec<EventCreator> = Vec::new();
        if e.hash == x {
            r.push(e.creator);
            assert(r@ =~= seq![e.creator]);
            return r;
        }
        let n = self.bound(e);
        let kx = match self.find_below(n, x) {
            Some(kx) => kx,
            None => {
                return r;
            },
        };
        let above = self.ancestor_marks(n, e.self_parent, e.other_parent);
        if !above[kx] {
            return r;
        }
        let below = self.descendant_marks(n, kx);
        let ghost s = self.store@;
        let mut m: usize = 0;
        while m < n
            invariant
                m <= n <= self.store@.len(),
                s == self.store@,
                above@.len() == n,
                below@.len() == n,
                forall|k: int|
                    0 <= k < n ==> above@[k] == reached(s, n as int, e.self_parent, e.other_parent, k),
                forall|j: int| 0 <= j < n ==> below@[j] == descends(s, kx as int, j),
                r@ == creators_between(
                    s,
                    n as int,
                    e.self_parent,
                    e.other_parent,
                    kx as int,
                    m as int,
                ),
            decreases n - m,
        {
            if above[m] && below[m] {
                let creator = self.store[m].creator;
                if find_u64(&r, creator).is_none() {
                    r.push(creator);
                }
            }
            m += 1;
        }
        if find_u64(&r, e.creator).is_none() {
            r.push(e.creator);
        }
        r
    }

    /// Whether `e` strongly sees the event with hash `x`, where `threshold`
    /// creators make a super-majority.
    pub fn sees_strongly(&self, e: &Event, x: EventHash, threshold: u64) -> (r: bool)
        requires
            self.wf(),
        ensures
            r == strongly_sees(self.store@, *e, x, threshold),
    {
        let creators = self.creators_on_paths(e, x);
        creators.len() > 0 && (creators.len() as u64) >= threshold
    }
}

/// The stored event at place `q` has hash `x` or an ancestor with hash `x`.
pub open spec fn ancestor_at(s: Seq<Event>, x: EventHash, q: int) -> bool {
    s[q].hash == x || exists|k: int|
        #[trigger] reached(s, q, s[q].self_parent, s[q].other_parent, k) && s[k].hash == x
}

/// The place of the first descendant of the event with hash `x` on the way
/// back from an event that has hash `h`, stands at place `n` and names the
/// parents `sp` and `op`: the event itself (`n`) where it is `x`, has `x` as
/// a parent or as a self-ancestor; else what the walk finds from the other
/// parent, where `x` lies behind it, else from the self-parent. -1 where
/// `x` is no ancestor.
pub open spec fn first_descendant_at(
    s: Seq<Event>,
    x: EventHash,
    n: int,
    h: EventHash,
    sp: EventHash,
    op: EventHash,
) -> int
    decreases n,
{
    let p = parent_index(s, n, sp);
    let q = parent_index(s, n, op);
    if h == x {
        n
    } else if !(exists|k: int| #[trigger] reached(s, n, sp, op, k) && s[k].hash == x) {
        -1
    } else if (p >= 0 && s[p].hash == x) || (q >= 0 && s[q].hash == x) || self_reached(
        s,
        n,
        sp,
        x,
    ) {
        n
    } else if 0 <= q < n && ancestor_at(s, x, q) {
        first_descendant_at(s, x, q, s[q].hash, s[q].self_parent, s[q].other_parent)
    } else if 0 <= p < n {
        first_descendant_at(s, x, p, s[p].hash, s[p].self_parent, s[p].other_parent)
    } else {
        -1
    }
}

/// The first descendant of the event with hash `x` on the way back from `e`.
pub open spec fn first_descendant(s: Seq<Event>, x: EventHash, e: Event) -> int {
    first_descendant_at(s, x, bound_of(s, e), e.hash, e.self_parent, e.other_parent)
}

/// With hashes that occur once, an event has an ancestor with hash `x`
/// exactly where it descends from the one event with that hash.
proof fn lemma_ancestor_by_place(s: Seq<Event>, x: EventHash, kx: int, n: int, sp: EventHash, op: EventHash)
    requires
        crate::index::distinct(event_hashes(s)),
        0 <= n <= s.len(),
        kx == first_index_of(event_hashes(s), x),
    ensures
        (exists|k: int| #[trigger] reached(s, n, sp, op, k) && s[k].hash == x) == (0 <= kx < n
            && reached(s, n, sp, op, kx)),
{
    let hs = event_hashes(s);
    lemma_first_index_of(hs, x);
    reveal_with_fuel(reached, 1);
    if exists|k: int| #[trigger] reached(s, n, sp, op, k) && s[k].hash == x {
        let k = choose|k: int| #[trigger] reached(s, n, sp, op, k) && s[k].hash == x;
        assert(hs[k] == x);
        assert(hs[kx] == x);
        assert(k == kx);
    }
    if 0 <= kx < n && reached(s, n, sp, op, kx) {
        assert(hs[kx] == s[kx].hash);
    }
}

impl Events {
    /// The place of the first descendant of the event with hash `x` on the
    /// way back from `e`; the store's bound for `e` stands for `e` itself.
    pub fn first_descendant_index(&self, x: EventHash, e: &Event) -> (r: Option<usize>)
        requires
            self.wf(),
        ensures
            match r {
                Some(i) => i as int == first_descendant(self.store@, x, *e) && i
                    <= self.store@.len(),
                None => first_descendant(self.store@, x, *e) < 0,
            },
    {
        let ghost s = self.store@;
        let n0 = self.bound(e);
        if e.hash == x {
            return Some(n0);
        }
        let kx = match self.find(x) {
            Some(kx) => kx,
            None => {
                proof {
                    lemma_ancestor_by_place(
                        s,
                        x,
                        -1,
                        n0 as int,
                        e.self_parent,
                        e.other_parent,
                    );
                }
                return None;
            },
        };
        let below = self.descendant_marks(self.store.len(), kx);
        let mut n = n0;
        let mut h = e.hash;
        let mut sp = e.self_parent;
        let mut op = e.other_parent;
        loop
            invariant
                self.wf(),
                s == self.store@,
                n <= s.len(),
                kx < s.len(),
                kx as int == first_index_of(event_hashes(s), x),
                below@.len() == s.len(),
                forall|j: int| 0 <= j < s.len() ==> below@[j] == descends(s, kx as int, j),
                first_descendant(s, x, *e) == first_descendant_at(s, x, n as int, h, sp, op),
            decreases n,
        {
            if h == x {
                return Some(n);
            }
            let first = self.find_parent(n, sp);
            let second = self.find_parent(n, op);
            let via_first = match first {
                Some(p) => below[p],
                None => false,
            };
            let via_second = match second {
                Some(q) => below[q],
                None => false,
            };
            proof {
                lemma_ancestor_by_place(s, x, kx as int, n as int, sp, op);
                if kx < n {
                    lemma_reached_top(s, n as int, sp, op, kx as int);
                } else {
                    reveal_with_fuel(reached, 1);
                    lemma_parent_index_bounds(s, n as int, sp);
                    lemma_parent_index_bounds(s, n as int, op);
                    if via_first {
                        lemma_descends_bound(s, kx as int, first.unwrap() as int);
                    }
                    if via_second {
                        lemma_descends_bound(s, kx as int, second.unwrap() as int);
                    }
                }
            }
            if !via_first && !via_second {
                return None;
            }
            let first_is = match first {
                Some(p) => self.store[p].hash == x,
                None => false,
            };
            let second_is = match second {
                Some(q) => self.store[q].hash == x,
                None => false,
            };
            if first_is || second_is || self.self_chain_reaches(n, sp, x) {
                return Some(n);
            }
            proof {
                lemma_parent_index_bounds(s, n as int, sp);
                lemma_parent_index_bounds(s, n as int, op);
                lemma_first_index_of(event_hashes(s), x);
            }
            if via_second {
                let q = second.unwrap();
                proof {
                    lemma_ancestor_by_place(
                        s,
                        x,
                        kx as int,
                        q as int,
                        s[q as int].self_parent,
                        s[q as int].other_parent,
                    );
                    assert(event_hashes(s)[kx as int] == s[kx as int].hash);
                    assert(event_hashes(s)[q as int] == s[q as int].hash);
                    lemma_descends_bound(s, kx as int, q as int);
                    assert(ancestor_at(s, x, q as int));
                }
                n = q;
            } else {
                let p = first.unwrap();
                proof {
                    if second.is_some() {
                        let q = second.unwrap();
                        lemma_ancestor_by_place(
                            s,
                            x,
                            kx as int,
                            q as int,
                            s[q as int].self_parent,
                            s[q as int].other_parent,
                        );
                        assert(event_hashes(s)[kx as int] == s[kx as int].hash);
                        assert(event_hashes(s)[q as int] == s[q as int].hash);
                        assert(!ancestor_at(s, x, q as int));
                    }
                }
                n = p;
            }
            h = self.store[n].hash;
            sp = self.store[n].self_parent;
            op = self.store[n].other_parent;
        }
    }
}

/// A descendant stands at or after its ancestor.
proof fn lemma_descends_bound(s: Seq<Event>, kx: int, j: int)
    requires
        descends(s, kx, j),
    ensures
        kx <= j,
{
    reveal_with_fuel(reached, 1);
}

/// The first descendant stands at or before the event that the walk starts from.
pub proof fn lemma_first_descendant_bound(
    s: Seq<Event>,
    x: EventHash,
    n: int,
    h: EventHash,
    sp: EventHash,
    op: EventHash,
)
    requires
        0 <= n <= s.len(),
    ensures
        -1 <= first_descendant_at(s, x, n, h, sp, op) <= n,
    decreases n,
{
    let p = parent_index(s, n, sp);
    let q = parent_index(s, n, op);
    lemma_parent_index_bounds(s, n, sp);
    lemma_parent_index_bounds(s, n, op);
    if 0 <= q < n {
        lemma_first_descendant_bound(
            s,
            x,
            q,
            s[q].hash,
            s[q].self_parent,
            s[q].other_parent,
        );
    }
    if 0 <= p < n {
        lemma_first_descendant_bound(
            s,
            x,
            p,
            s[p].hash,
            s[p].self_parent,
            s[p].other_parent,
        );
    }
}

/// In a store without repeated hashes, a stored event has its own place as bound.
pub proof fn lemma_bound_of_stored(s: Seq<Event>, i: int)
    requires
        crate::index::distinct(event_hashes(s)),
        0 <= i < s.len(),
    ensures
        bound_of(s, s[i]) == i,
{
    assert(event_hashes(s)[i] == s[i].hash);
    crate::index::lemma_first_index_of_distinct(event_hashes(s), i);
}

} // verus!
