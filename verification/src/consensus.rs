//! Consensus timestamps and the final order of the decided events.

use vstd::prelude::*;

use crate::ancestry::{first_descendant, lemma_bound_of_stored, lemma_first_descendant_bound};
use crate::event::{payload_views, Event, EventHash};
use crate::internal_txs::{clone_peer_txs, peer_tx_views, PeerTx};
use crate::membership::membership_applied;
use crate::order::{final_order, order_decided};
use crate::purge::purged;
use crate::events::event_hashes;
use crate::fame::lemma_same_frames_wf;
use crate::hashgraph::{round_index, Hashgraph};
use crate::index::{first_index_of, lemma_first_index_of};
use crate::order::{insert_into_sorted, median_of, smoothed_median, sorted_of, Decided};
use crate::received::{is_famous, same_but_records};
use crate::round::{Round, RoundEvent};

verus! {

/// The time that the famous witness behind the record `re` contributes to
/// the consensus timestamp of the event with hash `x`: the creation time of
/// the first descendant of `x` on the way back from the witness. None
/// where the record is not that of a stored famous witness that sees `x`.
pub open spec fn descendant_time(s: Seq<Event>, x: EventHash, re: RoundEvent) -> Option<u64> {
    let wi = first_index_of(event_hashes(s), re.hash);
    if is_famous(re) && wi >= 0 && 0 <= first_descendant(s, x, s[wi]) < s.len() {
        Some(s[first_descendant(s, x, s[wi])].timestamp)
    } else {
        None
    }
}

/// The times that the first `n` records contribute, in ascending order.
pub open spec fn descendant_times(s: Seq<Event>, x: EventHash, records: Seq<RoundEvent>, n: int) -> Seq<
    u64,
>
    decreases n,
{
    if n <= 0 {
        Seq::empty()
    } else {
        let before = descendant_times(s, x, records, n - 1);
        match descendant_time(s, x, records[n - 1]) {
            Some(t) => crate::order::insert_sorted(before, t),
            None => before,
        }
    }
}

/// The consensus timestamp of the event with hash `x`, received in
/// `round`: the smoothed median of the times that the round's famous
/// witnesses contribute.
pub open spec fn consensus_time(s: Seq<Event>, x: EventHash, round: Round) -> u64 {
    smoothed_median(descendant_times(s, x, round.events@, round.events@.len() as int)) as u64
}

/// The place of the round that received the event behind the record at
/// place `j` of the round at place `k`, where that round is materialized.
pub open spec fn receiver_of(pre: Hashgraph, k: int, j: int) -> int {
    round_index(pre.rounds@, pre.rounds@[k].events@[j].received)
}

/// The record at place `j` of the round at place `k` is that of a stored
/// event of `decided` whose receiving round is materialized.
pub open spec fn newly_stamped(pre: Hashgraph, decided: Seq<EventHash>, k: int, j: int) -> bool {
    let h = pre.rounds@[k].events@[j].hash;
    let s = pre.events.store@;
    let xi = first_index_of(event_hashes(s), h);
    &&& decided.contains(h)
    &&& xi >= 0
    &&& round_index(pre.rounds@, s[xi].round) == k
    &&& pre.rounds@[k].record_index(h) == j
    &&& receiver_of(pre, k, j) >= 0
}

/// The consensus timestamp of a record once the events `decided` are
/// stamped.
pub open spec fn timestamp_after(pre: Hashgraph, decided: Seq<EventHash>, k: int, j: int) -> u64 {
    if newly_stamped(pre, decided, k, j) {
        consensus_time(
            pre.events.store@,
            pre.rounds@[k].events@[j].hash,
            pre.rounds@[receiver_of(pre, k, j)],
        )
    } else {
        pre.rounds@[k].events@[j].timestamp
    }
}

/// The place `(k, j)` of the record of the stored event with hash `h`, as
/// far as it has one whose receiving round is materialized.
pub open spec fn stamp_place(pre: Hashgraph, h: EventHash) -> Option<(int, int)> {
    let s = pre.events.store@;
    let xi = first_index_of(event_hashes(s), h);
    let k = round_index(pre.rounds@, s[xi].round);
    let j = pre.rounds@[k].record_index(h);
    if xi >= 0 && k >= 0 && j >= 0 && receiver_of(pre, k, j) >= 0 {
        Some((k, j))
    } else {
        None
    }
}

/// What the final order goes by, for each event of `decided` that can be
/// stamped, in the order of `decided`.
pub open spec fn keys_of(pre: Hashgraph, decided: Seq<EventHash>) -> Seq<Decided>
    decreases decided.len(),
{
    if decided.len() == 0 {
        Seq::empty()
    } else {
        let before = keys_of(pre, decided.drop_last());
        let h = decided.last();
        match stamp_place(pre, h) {
            Some((k, j)) => before.push(
                Decided {
                    received: pre.rounds@[k].events@[j].received,
                    timestamp: consensus_time(
                        pre.events.store@,
                        h,
                        pre.rounds@[receiver_of(pre, k, j)],
                    ),
                    created: pre.events.store@[first_index_of(
                        event_hashes(pre.events.store@),
                        h,
                    )].timestamp,
                    hash: h,
                },
            ),
            None => before,
        }
    }
}

/// `post` is `pre` with the consensus timestamps of the events `decided`
/// on record.
pub open spec fn stamped(pre: Hashgraph, decided: Seq<EventHash>, post: Hashgraph) -> bool {
    &&& post.events == pre.events
    &&& post.transactions == pre.transactions
    &&& post.internal_transactions == pre.internal_transactions
    &&& same_but_records(pre, post)
    &&& forall|k: int, j: int|
        0 <= k < pre.rounds@.len() && 0 <= j < pre.rounds@[k].events@.len() ==> (
        #[trigger] post.rounds@[k].events@[j]) == (RoundEvent {
            timestamp: timestamp_after(pre, decided, k, j),
            ..pre.rounds@[k].events@[j]
        })
}

/// One stamp: the record at place `record` of the round at place `round`
/// gets the consensus timestamp `timestamp`.
#[derive(Debug, Clone, Copy)]
pub struct Stamp {
    pub round: usize,
    pub record: usize,
    pub timestamp: u64,
}

/// `d` is the stamp that `pre` puts on the record of one of the events `decided`.
pub open spec fn is_stamp(pre: Hashgraph, decided: Seq<EventHash>, d: Stamp) -> bool {
    &&& 0 <= d.round < pre.rounds@.len()
    &&& 0 <= d.record < pre.rounds@[d.round as int].events@.len()
    &&& newly_stamped(pre, decided, d.round as int, d.record as int)
    &&& d.timestamp == timestamp_after(pre, decided, d.round as int, d.record as int)
}

impl Hashgraph {
    /// The consensus timestamp of `event`, received in `round`.
    pub fn get_consensus_timestamp(&self, event: Event, round: &Round) -> (r: u64)
        requires
            self.wf(),
        ensures
            r == consensus_time(self.events.store@, event.hash, *round),
    {
        self.consensus_timestamp(event.hash, round)
    }

    /// The consensus timestamp of the event with hash `x`, received in `round`.
    pub fn consensus_timestamp(&self, x: EventHash, round: &Round) -> (r: u64)
        requires
            self.wf(),
        ensures
            r == consensus_time(self.events.store@, x, *round),
    {
        let ghost s = self.events.store@;
        let mut times: Vec<u64> = Vec::new();
        let mut j: usize = 0;
        while j < round.events.len()
            invariant
                self.wf(),
                s == self.events.store@,
                j <= round.events@.len(),
                times@ == descendant_times(s, x, round.events@, j as int),
            decreases round.events@.len() - j,
        {
            let record = &round.events[j];
            if record.witness && record.famous == crate::round::FamousType::True {
                match self.events.find(record.hash) {
                    Some(wi) => {
                        proof {
                            lemma_bound_of_stored(s, wi as int);
                            lemma_first_descendant_bound(
                                s,
                                x,
                                wi as int,
                                s[wi as int].hash,
                                s[wi as int].self_parent,
                                s[wi as int].other_parent,
                            );
                        }
                        match self.events.first_descendant_index(x, &self.events.store[wi]) {
                            Some(d) => {
                                insert_into_sorted(&mut times, self.events.store[d].timestamp);
                            },
                            None => {},
                        }
                    },
                    None => {},
                }
            }
            j += 1;
        }
        proof {
            lemma_median_fits(times@);
        }
        median_of(&times)
    }

    /// The stamp for the decided event with hash `h`, with what the final
    /// order goes by.
    pub fn stamp_of(&self, h: EventHash) -> (r: Option<(Stamp, Decided)>)
        requires
            self.wf(),
        ensures
            match r {
                Some((stamp, key)) => {
                    &&& stamp_place(*self, h) == Some((stamp.round as int, stamp.record as int))
                    &&& stamp.round < self.rounds@.len()
                    &&& stamp.record < self.rounds@[stamp.round as int].events@.len()
                    &&& self.rounds@[stamp.round as int].events@[stamp.record as int].hash == h
                    &&& stamp.timestamp == consensus_time(
                        self.events.store@,
                        h,
                        self.rounds@[receiver_of(*self, stamp.round as int, stamp.record as int)],
                    )
                    &&& key == (Decided {
                        received: self.rounds@[stamp.round as int].events@[stamp.record as int].received,
                        timestamp: stamp.timestamp,
                        created: self.events.store@[first_index_of(
                            event_hashes(self.events.store@),
                            h,
                        )].timestamp,
                        hash: h,
                    })
                },
                None => stamp_place(*self, h) is None,
            },
    {
        let xi = match self.events.find(h) {
            Some(xi) => xi,
            None => {
                return None;
            },
        };
        let k = match self.find_round(self.events.store[xi].round) {
            Some(k) => k,
            None => {
                return None;
            },
        };
        let j = match self.rounds[k].find(h) {
            Some(j) => j,
            None => {
                return None;
            },
        };
        let received = self.rounds[k].events[j].received;
        let kr = match self.find_round(received) {
            Some(kr) => kr,
            None => {
                return None;
            },
        };
        let timestamp = self.consensus_timestamp(h, &self.rounds[kr]);
        let created = self.events.store[xi].timestamp;
        Some(
            (
                Stamp { round: k, record: j, timestamp },
                Decided { received, timestamp, created, hash: h },
            ),
        )
    }

    /// Puts the consensus timestamps of the events `decided` on record;
    /// returns, for each of them, what the final order goes by.
    pub fn stamp(&mut self, decided: &Vec<EventHash>) -> (keys: Vec<Decided>)
        requires
            old(self).wf(),
        ensures
            final(self).wf(),
            stamped(*old(self), decided@, *final(self)),
            keys@ == keys_of(*old(self), decided@),
    {
        let ghost pre = *self;
        let ghost u = decided@;
        let mut keys: Vec<Decided> = Vec::new();
        let mut stamps: Vec<Stamp> = Vec::new();
        let mut t: usize = 0;
        proof {
            assert(u.take(0) =~= Seq::<EventHash>::empty());
        }
        while t < decided.len()
            invariant
                *self == pre,
                pre.wf(),
                u == decided@,
                t <= u.len(),
                keys@ == keys_of(pre, u.take(t as int)),
                forall|i: int| 0 <= i < stamps@.len() ==> is_stamp(pre, u, #[trigger] stamps@[i]),
                forall|i: int|
                    0 <= i < t && stamp_place(pre, #[trigger] u[i]) is Some ==> exists|m: int|
                        0 <= m < stamps@.len() && stamp_place(pre, u[i]) == Some(
                            ((#[trigger] stamps@[m]).round as int, stamps@[m].record as int),
                        ),
            decreases u.len() - t,
        {
            let h = decided[t];
            proof {
                assert(u.take(t + 1).drop_last() =~= u.take(t as int));
                assert(u.take(t + 1).last() == u[t as int]);
            }
            let ghost before = stamps@;
            match self.stamp_of(h) {
                Some((stamp, key)) => {
                    keys.push(key);
                    stamps.push(stamp);
                    proof {
                        assert(u.contains(h));
                        assert(is_stamp(pre, u, stamp));
                        assert(stamps@[before.len() as int] == stamp);
                        assert forall|i: int|
                            0 <= i < t + 1 && stamp_place(pre, #[trigger] u[i]) is Some implies exists|
                            m: int,
                        |
                            0 <= m < stamps@.len() && stamp_place(pre, u[i]) == Some(
                                ((#[trigger] stamps@[m]).round as int, stamps@[m].record as int),
                            ) by {
                            if i < t {
                                let m = choose|m: int|
                                    0 <= m < before.len() && stamp_place(pre, u[i]) == Some(
                                        ((#[trigger] before[m]).round as int, before[m].record as int),
                                    );
                                assert(stamps@[m] == before[m]);
                            } else {
                                assert(stamps@[before.len() as int].round == stamp.round);
                            }
                        }
                    }
                },
                None => {},
            }
            t += 1;
        }
        proof {
            assert(u.take(u.len() as int) =~= u);
        }
        let mut m: usize = 0;
        while m < stamps.len()
            invariant
                pre.wf(),
                m <= stamps@.len(),
                self.events == pre.events,
                self.transactions == pre.transactions,
                self.internal_transactions == pre.internal_transactions,
                same_but_records(pre, *self),
                forall|i: int| 0 <= i < stamps@.len() ==> is_stamp(pre, u, #[trigger] stamps@[i]),
                forall|k: int, j: int|
                    0 <= k < pre.rounds@.len() && 0 <= j < pre.rounds@[k].events@.len() ==> (
                    #[trigger] self.rounds@[k].events@[j]) == (RoundEvent {
                        timestamp: if exists|i: int|
                            0 <= i < m && (#[trigger] stamps@[i]).round == k && stamps@[i].record
                                == j {
                            timestamp_after(pre, u, k, j)
                        } else {
                            pre.rounds@[k].events@[j].timestamp
                        },
                        ..pre.rounds@[k].events@[j]
                    }),
            decreases stamps@.len() - m,
        {
            let d = stamps[m];
            let ghost before = *self;
            assert(is_stamp(pre, u, stamps@[m as int]));
            self.rounds[d.round].events[d.record].timestamp = d.timestamp;
            proof {
                assert forall|k: int, j: int|
                    0 <= k < pre.rounds@.len() && 0 <= j < pre.rounds@[k].events@.len() implies (
                #[trigger] self.rounds@[k].events@[j]) == (RoundEvent {
                    timestamp: if exists|i: int|
                        0 <= i < m + 1 && (#[trigger] stamps@[i]).round == k && stamps@[i].record
                            == j {
                        timestamp_after(pre, u, k, j)
                    } else {
                        pre.rounds@[k].events@[j].timestamp
                    },
                    ..pre.rounds@[k].events@[j]
                }) by {
                    let old_hit = exists|i: int|
                        0 <= i < m && (#[trigger] stamps@[i]).round == k && stamps@[i].record == j;
                    let new_hit = exists|i: int|
                        0 <= i < m + 1 && (#[trigger] stamps@[i]).round == k && stamps@[i].record
                            == j;
                    assert(before.rounds@[k].events@[j] == (RoundEvent {
                        timestamp: if old_hit {
                            timestamp_after(pre, u, k, j)
                        } else {
                            pre.rounds@[k].events@[j].timestamp
                        },
                        ..pre.rounds@[k].events@[j]
                    }));
                    if k == d.round && j == d.record {
                        assert(stamps@[m as int].round == k && stamps@[m as int].record == j);
                        assert(new_hit);
                    } else {
                        if new_hit {
                            let i = choose|i: int|
                                0 <= i < m + 1 && (#[trigger] stamps@[i]).round == k
                                    && stamps@[i].record == j;
                            assert(i < m);
                            assert(old_hit);
                        }
                        if old_hit {
                            let i = choose|i: int|
                                0 <= i < m && (#[trigger] stamps@[i]).round == k
                                    && stamps@[i].record == j;
                            assert(stamps@[i].round == k);
                            assert(new_hit);
                        }
                    }
                }
            }
            m += 1;
        }
        proof {
            assert forall|k: int, j: int|
                0 <= k < pre.rounds@.len() && 0 <= j < pre.rounds@[k].events@.len() implies (
            #[trigger] self.rounds@[k].events@[j]) == (RoundEvent {
                timestamp: timestamp_after(pre, u, k, j),
                ..pre.rounds@[k].events@[j]
            }) by {
                let hit = exists|i: int|
                    0 <= i < stamps@.len() && (#[trigger] stamps@[i]).round == k
                        && stamps@[i].record == j;
                if hit {
                    let i = choose|i: int|
                        0 <= i < stamps@.len() && (#[trigger] stamps@[i]).round == k
                            && stamps@[i].record == j;
                    assert(is_stamp(pre, u, stamps@[i]));
                } else if newly_stamped(pre, u, k, j) {
                    let h = pre.rounds@[k].events@[j].hash;
                    let i = choose|i: int| 0 <= i < u.len() && u[i] == h;
                    assert(stamp_place(pre, u[i]) == Some((k, j)));
                    let mm = choose|mm: int|
                        0 <= mm < stamps@.len() && stamp_place(pre, u[i]) == Some(
                            ((#[trigger] stamps@[mm]).round as int, stamps@[mm].record as int),
                        );
                    assert(stamps@[mm].round == k && stamps@[mm].record == j);
                }
            }
            assert forall|k: int| 0 <= k < pre.rounds@.len() implies self.rounds@[k].id
                == pre.rounds@[k].id && self.rounds@[k].peers == pre.rounds@[k].peers by {
                assert(self.rounds@[k] == (Round { events: self.rounds@[k].events, ..pre.rounds@[k] }));
            }
            lemma_same_frames_wf(pre.rounds@, self.rounds@);
        }
        keys
    }
}

/// The smoothed median of 64-bit numbers is a 64-bit number.
pub proof fn lemma_median_fits(sorted: Seq<u64>)
    ensures
        0 <= smoothed_median(sorted) <= u64::MAX,
{
}

/// The payloads of `txs` that are not empty, in order.
pub open spec fn nonempty(txs: Seq<Seq<u8>>) -> Seq<Seq<u8>>
    decreases txs.len(),
{
    if txs.len() == 0 {
        Seq::empty()
    } else if txs.last().len() == 0 {
        nonempty(txs.drop_last())
    } else {
        nonempty(txs.drop_last()).push(txs.last())
    }
}

/// `post` is `pre` after the decided event `d` has been emitted: its
/// payloads that are not empty follow on the decided payloads, its
/// membership transactions on the decided membership transactions, and
/// these take effect three rounds after the round that received the event.
/// An event that the store does not hold emits nothing.
pub open spec fn emitted_one(pre: Hashgraph, d: Decided, post: Hashgraph) -> bool {
    let xi = first_index_of(event_hashes(pre.events.store@), d.hash);
    if xi < 0 {
        post == pre
    } else {
        let e = pre.events.store@[xi];
        &&& post.events == pre.events
        &&& payload_views(post.transactions@) == payload_views(pre.transactions@) + nonempty(
            payload_views(e.transactions@),
        )
        &&& peer_tx_views(post.internal_transactions@) == peer_tx_views(
            pre.internal_transactions@,
        ) + peer_tx_views(e.internal_transactions@)
        &&& membership_applied(
            pre.rounds@,
            peer_tx_views(e.internal_transactions@),
            d.received,
            post.rounds@,
        )
    }
}

/// `post` is `pre` after the decided events `order` have been emitted one
/// after the other.
pub open spec fn emitted(pre: Hashgraph, order: Seq<Decided>, post: Hashgraph) -> bool
    decreases order.len(),
{
    if order.len() == 0 {
        post == pre
    } else {
        exists|mid: Hashgraph|
            emitted(pre, order.drop_last(), mid) && #[trigger] emitted_one(mid, order.last(), post)
    }
}

/// The highest round of the stored events among `keys`, 0 for none.
pub open spec fn max_round_of(s: Seq<Event>, keys: Seq<Decided>) -> u64
    decreases keys.len(),
{
    if keys.len() == 0 {
        0
    } else {
        let before = max_round_of(s, keys.drop_last());
        let xi = first_index_of(event_hashes(s), keys.last().hash);
        if xi >= 0 && s[xi].round > before {
            s[xi].round
        } else {
            before
        }
    }
}

/// `post` is `pre` after the events `decided` have been ordered: their
/// consensus timestamps are on record, they are emitted in their final
/// order, and what lies far enough behind them is purged.
pub open spec fn ordered(pre: Hashgraph, decided: Seq<EventHash>, post: Hashgraph) -> bool {
    exists|a: Hashgraph, b: Hashgraph|
        #[trigger] stamped(pre, decided, a) && #[trigger] emitted(
            a,
            final_order(keys_of(pre, decided)),
            b,
        ) && purged(b, max_round_of(pre.events.store@, keys_of(pre, decided)), post)
}

/// Copies the payloads of `src` that are not empty to the end of `out`.
pub fn append_nonempty(out: &mut Vec<Vec<u8>>, src: &Vec<Vec<u8>>)
    ensures
        payload_views(final(out)@) == payload_views(old(out)@) + nonempty(payload_views(src@)),
{
    let ghost base = payload_views(out@);
    let ghost views = payload_views(src@);
    let mut i: usize = 0;
    proof {
        assert(views.take(0) =~= Seq::<Seq<u8>>::empty());
        assert(base + nonempty(views.take(0)) =~= base);
    }
    while i < src.len()
        invariant
            i <= src@.len(),
            views == payload_views(src@),
            payload_views(out@) == base + nonempty(views.take(i as int)),
        decreases src@.len() - i,
    {
        proof {
            assert(views.take(i + 1).drop_last() =~= views.take(i as int));
            assert(views.take(i + 1).last() == src@[i as int]@);
        }
        if src[i].len() > 0 {
            let ghost before = out@;
            out.push(src[i].clone());
            proof {
                assert(payload_views(out@) =~= payload_views(before).push(src@[i as int]@));
                assert(payload_views(out@) =~= base + nonempty(views.take(i + 1)));
            }
        }
        i += 1;
    }
    proof {
        assert(views.take(src@.len() as int) =~= views);
    }
}

/// Copies the membership transactions `src` to the end of `out`.
pub fn append_peer_txs(out: &mut Vec<PeerTx>, src: &Vec<PeerTx>)
    ensures
        peer_tx_views(final(out)@) == peer_tx_views(old(out)@) + peer_tx_views(src@),
{
    let ghost base = peer_tx_views(out@);
    let ghost views = peer_tx_views(src@);
    let mut i: usize = 0;
    proof {
        assert(base + views.take(0) =~= base);
    }
    while i < src.len()
        invariant
            i <= src@.len(),
            views == peer_tx_views(src@),
            peer_tx_views(out@) == base + views.take(i as int),
        decreases src@.len() - i,
    {
        let ghost before = out@;
        out.push(src[i].clone());
        proof {
            assert(peer_tx_views(out@) =~= peer_tx_views(before).push(src@[i as int]@));
            assert(peer_tx_views(out@) =~= base + views.take(i + 1));
        }
        i += 1;
    }
    proof {
        assert(views.take(src@.len() as int) =~= views);
    }
}

impl Hashgraph {
    /// Emits the decided event `d`.
    pub fn emit_one(&mut self, d: &Decided)
        requires
            old(self).wf(),
        ensures
            final(self).wf(),
            emitted_one(*old(self), *d, *final(self)),
    {
        let xi = match self.events.find(d.hash) {
            Some(xi) => xi,
            None => {
                return ;
            },
        };
        append_nonempty(&mut self.transactions, &self.events.store[xi].transactions);
        append_peer_txs(
            &mut self.internal_transactions,
            &self.events.store[xi].internal_transactions,
        );
        let txs = clone_peer_txs(&self.events.store[xi].internal_transactions);
        self.apply_membership(&txs, d.received);
    }

    /// The highest round of the stored events among `keys`.
    pub fn max_round(&self, keys: &Vec<Decided>) -> (r: u64)
        requires
            self.wf(),
        ensures
            r == max_round_of(self.events.store@, keys@),
    {
        let mut r: u64 = 0;
        let mut i: usize = 0;
        proof {
            assert(keys@.take(0) =~= Seq::<Decided>::empty());
        }
        while i < keys.len()
            invariant
                self.wf(),
                i <= keys@.len(),
                r == max_round_of(self.events.store@, keys@.take(i as int)),
            decreases keys@.len() - i,
        {
            proof {
                assert(keys@.take(i + 1).drop_last() =~= keys@.take(i as int));
                assert(keys@.take(i + 1).last() == keys@[i as int]);
            }
            match self.events.find(keys[i].hash) {
                Some(xi) => {
                    if self.events.store[xi].round > r {
                        r = self.events.store[xi].round;
                    }
                },
                None => {},
            }
            i += 1;
        }
        proof {
            assert(keys@.take(keys@.len() as int) =~= keys@);
        }
        r
    }

    /// Orders the events `decided`, whose received round is on record:
    /// stamps them, emits them by received round and consensus timestamp,
    /// and purges behind them.
    pub fn consensus_order(&mut self, decided: Vec<EventHash>)
        requires
            old(self).wf(),
        ensures
            final(self).wf(),
            ordered(*old(self), decided@, *final(self)),
    {
        let ghost pre = *self;
        let keys = self.stamp(&decided);
        let ghost a = *self;
        let max_round = self.max_round(&keys);
        let order = order_decided(&keys);
        let mut i: usize = 0;
        proof {
            assert(order@.take(0) =~= Seq::<Decided>::empty());
        }
        while i < order.len()
            invariant
                self.wf(),
                i <= order@.len(),
                emitted(a, order@.take(i as int), *self),
            decreases order@.len() - i,
        {
            let ghost mid = *self;
            self.emit_one(&order[i]);
            proof {
                assert(order@.take(i + 1).drop_last() =~= order@.take(i as int));
                assert(order@.take(i + 1).last() == order@[i as int]);
                assert(emitted_one(mid, order@.take(i + 1).last(), *self));
            }
            i += 1;
        }
        proof {
            assert(order@.take(order@.len() as int) =~= order@);
        }
        let ghost b = *self;
        self.purge(max_round);
        proof {
            assert(stamped(pre, decided@, a));
            assert(emitted(a, final_order(keys_of(pre, decided@)), b));
            assert(purged(b, max_round_of(pre.events.store@, keys_of(pre, decided@)), *self));
        }
    }
}

} // verus!
