//! What a full diff carries: a store that was never purged hands an empty
//! store all that it knows.

use vstd::prelude::*;

use crate::event::{Event, EventCreator};
use crate::events::{
    acceptable, event_hashes, follows, gapless, known_keys, known_of, last_of, lemma_last_of,
    lemma_last_of_is, lemma_last_of_none, selected,
};
use crate::index::{
    distinct, first_index_of, lemma_first_index_is, lemma_first_index_none, lemma_first_index_of,
    lemma_first_index_of_distinct, lemma_first_index_push,
};

verus! {

/// All events of `creator` in `s`, in order.
pub open spec fn all_of(s: Seq<Event>, creator: EventCreator) -> Seq<Event> {
    selected(s, creator, -1, u64::MAX as int)
}

/// The places of the events of `creator` in `s`, in order.
pub open spec fn places(s: Seq<Event>, creator: EventCreator) -> Seq<int>
    decreases s.len(),
{
    if s.len() == 0 {
        Seq::empty()
    } else if s.last().creator == creator {
        places(s.drop_last(), creator).push(s.len() - 1)
    } else {
        places(s.drop_last(), creator)
    }
}

/// Every creator starts with a root: the store was never purged, and did
/// not start from a frame.
pub open spec fn rooted(s: Seq<Event>) -> bool {
    forall|i: int|
        0 <= i < s.len() ==> {
            let p = #[trigger] last_of(s.take(i), s[i].creator);
            p < 0 ==> s[i].self_parent == 0
        }
}

/// What is sent to a remote that knows nothing, without limit: for each of
/// the first `n` creators of `k`, all its events.
pub open spec fn full_diff(s: Seq<Event>, k: Seq<(EventCreator, u64)>, n: int) -> Seq<Event>
    decreases n,
{
    if n <= 0 {
        Seq::empty()
    } else {
        full_diff(s, k, n - 1) + all_of(s, k[n - 1].0)
    }
}

proof fn lemma_places(s: Seq<Event>, c: EventCreator)
    ensures
        places(s, c).len() == all_of(s, c).len(),
        forall|k: int|
            0 <= k < places(s, c).len() ==> 0 <= (#[trigger] places(s, c)[k]) < s.len() && s[places(
                s,
                c,
            )[k]] == all_of(s, c)[k] && all_of(s, c)[k].creator == c,
        forall|k1: int, k2: int|
            0 <= k1 < k2 < places(s, c).len() ==> places(s, c)[k1] < places(s, c)[k2],
        forall|i: int|
            0 <= i < s.len() && s[i].creator == c ==> exists|k: int|
                0 <= k < places(s, c).len() && #[trigger] places(s, c)[k] == i,
    decreases s.len(),
{
    if s.len() > 0 {
        let front = s.drop_last();
        lemma_places(front, c);
        let p = places(s, c);
        let pf = places(front, c);
        let e = all_of(s, c);
        let ef = all_of(front, c);
        assert forall|k: int| 0 <= k < p.len() implies 0 <= (#[trigger] p[k]) < s.len() && s[p[k]]
            == e[k] && e[k].creator == c by {
            if k < pf.len() {
                assert(p[k] == pf[k]);
                assert(front[pf[k]] == s[pf[k]]);
            }
        }
        assert forall|k1: int, k2: int| 0 <= k1 < k2 < p.len() implies p[k1] < p[k2] by {
            if k2 < pf.len() {
                assert(pf[k1] < pf[k2]);
            } else {
                assert(p[k1] == pf[k1]);
            }
        }
        assert forall|i: int| 0 <= i < s.len() && s[i].creator == c implies exists|k: int|
            0 <= k < p.len() && #[trigger] p[k] == i by {
            if i < front.len() {
                assert(front[i] == s[i]);
                let k = choose|k: int| 0 <= k < pf.len() && #[trigger] pf[k] == i;
                assert(p[k] == i);
            } else {
                assert(p[p.len() - 1] == i);
            }
        }
    }
}

/// Before the event at a place of `c` stands, of the events of `c`, the
/// one at the place before, or none.
proof fn lemma_prev_place(s: Seq<Event>, c: EventCreator, k: int)
    requires
        0 <= k < places(s, c).len(),
    ensures
        last_of(s.take(places(s, c)[k]), c) == if k == 0 {
            -1
        } else {
            places(s, c)[k - 1]
        },
{
    lemma_places(s, c);
    let p = places(s, c);
    let t = s.take(p[k]);
    if k == 0 {
        assert forall|j: int| 0 <= j < t.len() implies t[j].creator != c by {
            if s[j].creator == c {
                let m = choose|m: int| 0 <= m < p.len() && #[trigger] p[m] == j;
                if m > 0 {
                    assert(p[0] < p[m]);
                }
            }
        }
        lemma_last_of_none(t, c);
    } else {
        assert(p[k - 1] < p[k]);
        assert(t[p[k - 1]] == s[p[k - 1]]);
        assert forall|j: int| p[k - 1] < j < t.len() implies t[j].creator != c by {
            if s[j].creator == c {
                let m = choose|m: int| 0 <= m < p.len() && #[trigger] p[m] == j;
                if m < k - 1 {
                    assert(p[m] < p[k - 1]);
                } else if m > k {
                    assert(p[k] < p[m]);
                }
            }
        }
        lemma_last_of_is(t, c, p[k - 1]);
    }
}

/// The last place of `c` is the place of its last event.
proof fn lemma_last_place(s: Seq<Event>, c: EventCreator)
    requires
        last_of(s, c) >= 0,
    ensures
        places(s, c).len() > 0,
        places(s, c).last() == last_of(s, c),
{
    lemma_places(s, c);
    lemma_last_of(s, c);
    let p = places(s, c);
    let i = last_of(s, c);
    let k = choose|k: int| 0 <= k < p.len() && #[trigger] p[k] == i;
    if k < p.len() - 1 {
        assert(p[k] < p[p.len() - 1]);
        assert(s[p[p.len() - 1]].creator == c);
    }
}

/// The events of one creator form a chain: the first is a root, and each
/// other follows the one before.
proof fn lemma_chain(s: Seq<Event>, c: EventCreator, k: int)
    requires
        gapless(s),
        rooted(s),
        0 <= k < all_of(s, c).len(),
    ensures
        k == 0 ==> all_of(s, c)[0].self_parent == 0,
        k > 0 ==> follows(all_of(s, c)[k - 1], all_of(s, c)[k]),
{
    lemma_places(s, c);
    lemma_prev_place(s, c, k);
    let p = places(s, c);
    let i = p[k];
    assert(s[i].creator == c);
    let q = last_of(s.take(i), s[i].creator);
    if k > 0 {
        assert(follows(s[q], s[i]));
        assert(s[p[k - 1]] == all_of(s, c)[k - 1]);
    }
}

/// What a store knows: each creator once, with the id of its last event.
pub proof fn lemma_known(s: Seq<Event>)
    ensures
        distinct(known_keys(known_of(s))),
        forall|c: EventCreator|
            (#[trigger] first_index_of(known_keys(known_of(s)), c) >= 0) == (last_of(s, c) >= 0),
        forall|c: EventCreator|
            last_of(s, c) >= 0 ==> known_of(s)[#[trigger] first_index_of(
                known_keys(known_of(s)),
                c,
            )] == (c, s[last_of(s, c)].id),
    decreases s.len(),
{
    let k = known_of(s);
    let keys = known_keys(k);
    if s.len() == 0 {
        assert forall|c: EventCreator| #[trigger] first_index_of(keys, c) < 0 by {
            lemma_first_index_of(keys, c);
        }
    } else {
        let front = s.drop_last();
        lemma_known(front);
        let kf = known_of(front);
        let keysf = known_keys(kf);
        let e = s.last();
        let i = first_index_of(keysf, e.creator);
        lemma_first_index_of(keysf, e.creator);
        if i >= 0 {
            assert(keys =~= keysf);
            assert forall|c: EventCreator| last_of(s, c) >= 0 implies k[#[trigger] first_index_of(
                keys,
                c,
            )] == (c, s[last_of(s, c)].id) by {
                lemma_first_index_of(keysf, c);
                if c != e.creator {
                    assert(first_index_of(keysf, c) >= 0);
                    assert(front[last_of(front, c)] == s[last_of(front, c)]) by {
                        lemma_last_of(front, c);
                    }
                }
            }
        } else {
            assert(keys =~= keysf.push(e.creator));
            assert forall|a: int, b: int| 0 <= a < b < keys.len() implies keys[a] != keys[b] by {
                if b == keysf.len() {
                    assert(keysf[a] == keys[a]);
                } else {
                    assert(keysf[a] != keysf[b]);
                }
            }
            assert forall|c: EventCreator|
                (#[trigger] first_index_of(keys, c) >= 0) == (last_of(s, c) >= 0) by {
                lemma_first_index_push(keysf, e.creator, c);
                assert((first_index_of(keysf, c) >= 0) == (last_of(front, c) >= 0));
            }
            assert forall|c: EventCreator| last_of(s, c) >= 0 implies k[#[trigger] first_index_of(
                keys,
                c,
            )] == (c, s[last_of(s, c)].id) by {
                lemma_first_index_push(keysf, e.creator, c);
                lemma_first_index_of(keysf, c);
                if c != e.creator {
                    assert(first_index_of(keysf, c) >= 0);
                    assert(front[last_of(front, c)] == s[last_of(front, c)]) by {
                        lemma_last_of(front, c);
                    }
                }
            }
        }
    }
}

/// Events of a creator that a store does not know yet add the creator to
/// what is known, with the id of the last of them.
proof fn lemma_known_append(p: Seq<Event>, e: Seq<Event>, c: EventCreator)
    requires
        e.len() > 0,
        forall|k: int| 0 <= k < e.len() ==> (#[trigger] e[k]).creator == c,
        last_of(p, c) < 0,
    ensures
        known_of(p + e) == known_of(p).push((c, e.last().id)),
    decreases e.len(),
{
    lemma_known(p);
    let kp = known_of(p);
    assert((p + e).drop_last() =~= p + e.drop_last());
    assert((p + e).last() == e.last());
    if e.len() == 1 {
        assert(p + e.drop_last() =~= p);
    } else {
        lemma_known_append(p, e.drop_last(), c);
        let k = known_of(p + e.drop_last());
        let id = e.drop_last().last().id;
        assert(k == kp.push((c, id)));
        assert(known_keys(k) =~= known_keys(kp).push(c));
        lemma_first_index_push(known_keys(kp), c, c);
        assert(k.update(kp.len() as int, (c, e.last().id)) =~= kp.push((c, e.last().id)));
    }
}

/// The event `x` is an event of `s` by one of the first `n` creators that
/// `s` knows.
pub open spec fn from_store(s: Seq<Event>, n: int, x: Event) -> bool {
    exists|i: int|
        0 <= i < s.len() && #[trigger] s[i] == x && 0 <= first_index_of(
            known_keys(known_of(s)),
            s[i].creator,
        ) < n
}

/// The full diff of the first `n` creators that `s` knows: it is made of
/// events of `s` of those creators, no hash occurs twice in it, a store
/// takes each of its events after those before it, and such a store then
/// knows of those creators what `s` knows.
proof fn lemma_full_diff(s: Seq<Event>, n: int)
    requires
        distinct(event_hashes(s)),
        gapless(s),
        rooted(s),
        0 <= n <= known_of(s).len(),
    ensures
        forall|a: int|
            0 <= a < full_diff(s, known_of(s), n).len() ==> from_store(
                s,
                n,
                #[trigger] full_diff(s, known_of(s), n)[a],
            ),
        distinct(event_hashes(full_diff(s, known_of(s), n))),
        forall|a: int|
            0 <= a < full_diff(s, known_of(s), n).len() ==> acceptable(
                #[trigger] full_diff(s, known_of(s), n).take(a),
                full_diff(s, known_of(s), n)[a],
            ),
        known_of(full_diff(s, known_of(s), n)) == known_of(s).take(n),
    decreases n,
{
    let kn = known_of(s);
    let keys = known_keys(kn);
    let b = full_diff(s, kn, n);
    if n <= 0 {
        assert(kn.take(0) =~= Seq::<(EventCreator, u64)>::empty());
    } else {
        lemma_full_diff(s, n - 1);
        lemma_known(s);
        let bf = full_diff(s, kn, n - 1);
        let c = kn[n - 1].0;
        let e = all_of(s, c);
        let p = places(s, c);
        let m = bf.len() as int;
        assert(keys[n - 1] == c);
        lemma_first_index_of_distinct(keys, n - 1);
        lemma_places(s, c);
        lemma_last_place(s, c);
        assert(e.last() == s[last_of(s, c)]);
        assert(kn[n - 1] == (c, e.last().id));
        // the events before the block are by other creators
        assert forall|a: int| 0 <= a < m implies (#[trigger] bf[a]).creator != c by {
            assert(from_store(s, n - 1, bf[a]));
            let i = choose|i: int|
                0 <= i < s.len() && #[trigger] s[i] == bf[a] && 0 <= first_index_of(
                    keys,
                    s[i].creator,
                ) < n - 1;
            lemma_first_index_of(keys, s[i].creator);
        }
        lemma_last_of_none(bf, c);
        assert forall|k: int| 0 <= k < e.len() implies (#[trigger] e[k]).creator == c by {
            assert(s[p[k]] == e[k]);
        }
        lemma_known_append(bf, e, c);
        assert(kn.take(n) =~= kn.take(n - 1).push(kn[n - 1]));
        // made of events of the store
        assert forall|a: int| 0 <= a < b.len() implies from_store(s, n, #[trigger] b[a]) by {
            if a < m {
                assert(from_store(s, n - 1, bf[a]));
                let i = choose|i: int|
                    0 <= i < s.len() && #[trigger] s[i] == bf[a] && 0 <= first_index_of(
                        keys,
                        s[i].creator,
                    ) < n - 1;
                assert(s[i] == b[a]);
            } else {
                assert(s[p[a - m]] == b[a]);
            }
        }
        // no hash twice
        let hb = event_hashes(b);
        let hs = event_hashes(s);
        assert forall|a1: int, a2: int| 0 <= a1 < a2 < hb.len() implies hb[a1] != hb[a2] by {
            if a2 < m {
                assert(event_hashes(bf)[a1] != event_hashes(bf)[a2]);
            } else if a1 >= m {
                assert(p[a1 - m] < p[a2 - m]);
                assert(hs[p[a1 - m]] != hs[p[a2 - m]]);
            } else {
                assert(from_store(s, n - 1, bf[a1]));
                let i = choose|i: int|
                    0 <= i < s.len() && #[trigger] s[i] == bf[a1] && 0 <= first_index_of(
                        keys,
                        s[i].creator,
                    ) < n - 1;
                let j = p[a2 - m];
                assert(s[j] == b[a2]);
                assert(bf[a1].creator != c);
                assert(i != j);
                if i < j {
                    assert(hs[i] != hs[j]);
                } else {
                    assert(hs[j] != hs[i]);
                }
            }
        }
        // each event is taken after those before it
        assert forall|a: int| 0 <= a < b.len() implies acceptable(#[trigger] b.take(a), b[a]) by {
            if a < m {
                assert(b.take(a) =~= bf.take(a));
            } else {
                let k = a - m;
                let t = b.take(a);
                let ht = event_hashes(t);
                let x = b[a];
                assert(x == e[k]);
                assert forall|r: int| 0 <= r < ht.len() implies ht[r] != x.hash by {
                    assert(ht[r] == hb[r]);
                    assert(hb[a] == x.hash);
                }
                lemma_first_index_none(ht, x.hash);
                lemma_chain(s, c, k);
                if k == 0 {
                    assert(t =~= bf);
                } else {
                    assert(t[a - 1] == e[k - 1]);
                    assert forall|j: int| a - 1 < j < t.len() implies t[j].creator != c by {}
                    lemma_last_of_is(t, c, a - 1);
                    assert(ht[a - 1] == e[k - 1].hash);
                    assert forall|r: int| 0 <= r < a - 1 implies ht[r] != x.self_parent by {
                        assert(ht[r] == hb[r]);
                        assert(hb[a - 1] == e[k - 1].hash);
                    }
                    lemma_first_index_is(ht, x.self_parent, a - 1);
                }
            }
        }
    }
}

/// A full diff brings an empty store up to what the sender knows. Where
/// the store `s` is well-formed and every creator in it starts with a
/// root, an empty store that is handed the events of the full diff of `s`,
/// in their order, takes each of them, and then knows what `s` knows.
pub proof fn law_full_diff_carries_known(s: Seq<Event>)
    requires
        distinct(event_hashes(s)),
        gapless(s),
        rooted(s),
    ensures
        ({
            let sent = full_diff(s, known_of(s), known_of(s).len() as int);
            &&& forall|a: int| 0 <= a < sent.len() ==> acceptable(#[trigger] sent.take(a), sent[a])
            &&& known_of(sent) == known_of(s)
            &&& crate::events::known_map(sent) == crate::events::known_map(s)
        }),
{
    lemma_full_diff(s, known_of(s).len() as int);
    assert(known_of(s).take(known_of(s).len() as int) =~= known_of(s));
}

/// The full diff is what a remote that knows nothing is sent: each
/// creator that the store knows, with all its events.
pub proof fn law_diff_for_the_unknowing(s: Seq<Event>, k: Seq<(EventCreator, u64)>, limit: u64)
    ensures
        crate::events::diff_of(s, k, Map::empty(), limit) == Seq::new(
            k.len(),
            |i: int| (k[i].0, crate::events::event_views(all_of(s, k[i].0))),
        ),
        !crate::events::has_more_of(k, Map::empty(), limit),
    decreases k.len(),
{
    let nothing = Map::<EventCreator, u64>::empty();
    let want = Seq::new(
        k.len(),
        |i: int| (k[i].0, crate::events::event_views(all_of(s, k[i].0))),
    );
    if k.len() > 0 {
        law_diff_for_the_unknowing(s, k.drop_last(), limit);
        assert(crate::events::known_id(nothing, k.last().0) is None);
        assert(crate::events::diff_of(s, k, nothing, limit) =~= want);
    } else {
        assert(crate::events::diff_of(s, k, nothing, limit) =~= want);
    }
}

} // verus!
