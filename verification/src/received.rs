//! The round in which an event is received: the first round after its own
//! whose fame is decided and whose famous witnesses all see it.

use vstd::prelude::*;

use crate::ancestry::ancestor;
use crate::event::{Event, EventHash};
use crate::events::{event_hashes, Events};
use crate::fame::lemma_same_frames_wf;
use crate::hashgraph::{round_index, Hashgraph};
use crate::index::{find_u64, first_index_of, lemma_first_index_of};
use crate::round::{FamousType, Round, RoundEvent};

verus! {

/// Every witness of the round has its verdict.
pub open spec fn fame_decided(round: Round) -> bool {
    forall|j: int|
        0 <= j < round.events@.len() ==> !(#[trigger] round.events@[j]).witness
            || round.events@[j].famous != FamousType::Undefined
}

/// The record is that of a famous witness.
pub open spec fn is_famous(re: RoundEvent) -> bool {
    re.witness && re.famous == FamousType::True
}

/// The round has a famous witness.
pub open spec fn has_famous(round: Round) -> bool {
    exists|j: int| 0 <= j < round.events@.len() && is_famous(#[trigger] round.events@[j])
}

/// The stored event with hash `w` sees the event with hash `x`.
pub open spec fn sees_hash(s: Seq<Event>, w: EventHash, x: EventHash) -> bool {
    let i = first_index_of(event_hashes(s), w);
    i >= 0 && ancestor(s, x, s[i])
}

/// Every famous witness of the round sees the event with hash `x`.
pub open spec fn famous_see(s: Seq<Event>, round: Round, x: EventHash) -> bool {
    forall|j: int|
        0 <= j < round.events@.len() && is_famous(#[trigger] round.events@[j]) ==> sees_hash(
            s,
            round.events@[j].hash,
            x,
        )
}

/// The round receives the event with hash `x`.
pub open spec fn receives(s: Seq<Event>, round: Round, x: EventHash) -> bool {
    fame_decided(round) && has_famous(round) && famous_see(s, round, x)
}

/// The place of the first round, from place `k` on, that receives `x`; -1
/// where none does.
pub open spec fn first_receiving(s: Seq<Event>, rounds: Seq<Round>, x: EventHash, k: int) -> int
    decreases rounds.len() - k,
{
    if k < 0 || k >= rounds.len() {
        -1
    } else if receives(s, rounds[k], x) {
        k
    } else {
        first_receiving(s, rounds, x, k + 1)
    }
}

/// The place of the round that receives the stored event with hash `h`:
/// the first that does after the event's own round, which must hold its
/// record; -1 where the event is not received yet.
pub open spec fn receiving_round(s: Seq<Event>, rounds: Seq<Round>, h: EventHash) -> int {
    let xi = first_index_of(event_hashes(s), h);
    if xi < 0 {
        -1
    } else {
        let k = round_index(rounds, s[xi].round);
        if k < 0 || rounds[k].record_index(h) < 0 {
            -1
        } else {
            first_receiving(s, rounds, h, k + 1)
        }
    }
}

/// The hashes of `u`, in order, whose events are received now.
pub open spec fn decided_of(s: Seq<Event>, rounds: Seq<Round>, u: Seq<EventHash>) -> Seq<EventHash>
    decreases u.len(),
{
    if u.len() == 0 {
        Seq::empty()
    } else if receiving_round(s, rounds, u.last()) >= 0 {
        decided_of(s, rounds, u.drop_last()).push(u.last())
    } else {
        decided_of(s, rounds, u.drop_last())
    }
}

/// The hashes of `u`, in order, whose events are not received yet.
pub open spec fn undecided_of(s: Seq<Event>, rounds: Seq<Round>, u: Seq<EventHash>) -> Seq<
    EventHash,
>
    decreases u.len(),
{
    if u.len() == 0 {
        Seq::empty()
    } else if receiving_round(s, rounds, u.last()) >= 0 {
        undecided_of(s, rounds, u.drop_last())
    } else {
        undecided_of(s, rounds, u.drop_last()).push(u.last())
    }
}

/// The record at place `j` of the round at place `k` is that of an
/// undecided event that is received now.
pub open spec fn newly_received(pre: Hashgraph, k: int, j: int) -> bool {
    let h = pre.rounds@[k].events@[j].hash;
    let s = pre.events.store@;
    let xi = first_index_of(event_hashes(s), h);
    &&& pre.events.undecided@.contains(h)
    &&& receiving_round(s, pre.rounds@, h) >= 0
    &&& round_index(pre.rounds@, s[xi].round) == k
    &&& pre.rounds@[k].record_index(h) == j
}

/// The received round of a record after the decision: for a newly
/// received event the id of its receiving round, else what it was.
pub open spec fn received_after(pre: Hashgraph, k: int, j: int) -> u64 {
    if newly_received(pre, k, j) {
        pre.rounds@[receiving_round(
            pre.events.store@,
            pre.rounds@,
            pre.rounds@[k].events@[j].hash,
        )].id
    } else {
        pre.rounds@[k].events@[j].received
    }
}

/// `post` differs from `pre` in the rounds' records alone, and there in
/// nothing that the votes, fame or ancestry rest on.
pub open spec fn same_but_records(pre: Hashgraph, post: Hashgraph) -> bool {
    &&& post.rounds@.len() == pre.rounds@.len()
    &&& forall|k: int|
        0 <= k < pre.rounds@.len() ==> (#[trigger] post.rounds@[k]) == (Round {
            events: post.rounds@[k].events,
            ..pre.rounds@[k]
        }) && post.rounds@[k].events@.len() == pre.rounds@[k].events@.len()
}

/// `post` is `pre` after the decision on the undecided events: those
/// received now, `decided`, have left the undecided and have their
/// received round on record.
pub open spec fn received_marked(pre: Hashgraph, decided: Seq<EventHash>, post: Hashgraph) -> bool {
    let s = pre.events.store@;
    &&& decided == decided_of(s, pre.rounds@, pre.events.undecided@)
    &&& post.events.undecided@ == undecided_of(s, pre.rounds@, pre.events.undecided@)
    &&& post.events.store == pre.events.store
    &&& post.transactions == pre.transactions
    &&& post.internal_transactions == pre.internal_transactions
    &&& same_but_records(pre, post)
    &&& forall|k: int, j: int|
        0 <= k < pre.rounds@.len() && 0 <= j < pre.rounds@[k].events@.len() ==> (
        #[trigger] post.rounds@[k].events@[j]) == (RoundEvent {
            received: received_after(pre, k, j),
            ..pre.rounds@[k].events@[j]
        })
}

/// One decision: the record at place `record` of the round at place
/// `round` is that of the event `hash`, received in the round `received`.
#[derive(Debug, Clone, Copy)]
pub struct Reception {
    pub hash: EventHash,
    pub round: usize,
    pub record: usize,
    pub received: u64,
}

/// `d` is the decision that `pre` takes on one of its undecided events.
pub open spec fn is_reception(pre: Hashgraph, d: Reception) -> bool {
    &&& 0 <= d.round < pre.rounds@.len()
    &&& 0 <= d.record < pre.rounds@[d.round as int].events@.len()
    &&& pre.rounds@[d.round as int].events@[d.record as int].hash == d.hash
    &&& newly_received(pre, d.round as int, d.record as int)
    &&& d.received == received_after(pre, d.round as int, d.record as int)
}

impl Hashgraph {
    /// Whether the round at place `k` receives the event with hash `x`.
    pub fn round_receives(&self, k: usize, x: EventHash) -> (r: bool)
        requires
            self.wf(),
            k < self.rounds@.len(),
        ensures
            r == receives(self.events.store@, self.rounds@[k as int], x),
    {
        let round = &self.rounds[k];
        let mut any_famous = false;
        let mut j: usize = 0;
        while j < round.events.len()
            invariant
                self.wf(),
                j <= round.events@.len(),
                k < self.rounds@.len(),
                *round == self.rounds@[k as int],
                forall|i: int|
                    0 <= i < j ==> !(#[trigger] round.events@[i]).witness || round.events@[i].famous
                        != FamousType::Undefined,
                any_famous == exists|i: int| 0 <= i < j && is_famous(#[trigger] round.events@[i]),
                forall|i: int|
                    0 <= i < j && is_famous(#[trigger] round.events@[i]) ==> sees_hash(
                        self.events.store@,
                        round.events@[i].hash,
                        x,
                    ),
            decreases round.events@.len() - j,
        {
            let record = &round.events[j];
            if record.witness {
                match record.famous {
                    FamousType::Undefined => {
                        assert(round.events@[j as int].witness && round.events@[j as int].famous
                            == FamousType::Undefined);
                        assert(!fame_decided(*round));
                        return false;
                    },
                    FamousType::False => {},
                    FamousType::True => {
                        let sees = match self.events.find(record.hash) {
                            Some(wi) => self.events.reaches(&self.events.store[wi], x),
                            None => false,
                        };
                        if !sees {
                            assert(is_famous(round.events@[j as int]));
                            assert(!sees_hash(self.events.store@, round.events@[j as int].hash, x));
                            assert(!famous_see(self.events.store@, *round, x));
                            return false;
                        }
                        any_famous = true;
                    },
                }
            }
            j += 1;
        }
        any_famous
    }

    /// The place of the first round, from place `from` on, that receives `x`.
    pub fn find_receiving(&self, x: EventHash, from: usize) -> (r: Option<usize>)
        requires
            self.wf(),
        ensures
            match r {
                Some(k) => k as int == first_receiving(
                    self.events.store@,
                    self.rounds@,
                    x,
                    from as int,
                ) && k < self.rounds@.len(),
                None => first_receiving(self.events.store@, self.rounds@, x, from as int) == -1,
            },
    {
        let mut k = from;
        while k < self.rounds.len()
            invariant
                self.wf(),
                first_receiving(self.events.store@, self.rounds@, x, from as int)
                    == first_receiving(self.events.store@, self.rounds@, x, k as int),
            decreases self.rounds@.len() - k,
        {
            if self.round_receives(k, x) {
                return Some(k);
            }
            k += 1;
        }
        None
    }

    /// The decision on the undecided event with hash `h`.
    pub fn reception_of(&self, h: EventHash) -> (r: Option<Reception>)
        requires
            self.wf(),
        ensures
            r.is_some() == (receiving_round(self.events.store@, self.rounds@, h) >= 0),
            r.is_some() ==> {
                let d = r.unwrap();
                let s = self.events.store@;
                let xi = first_index_of(event_hashes(s), h);
                &&& d.hash == h
                &&& d.round as int == round_index(self.rounds@, s[xi].round)
                &&& d.record as int == self.rounds@[d.round as int].record_index(h)
                &&& d.round < self.rounds@.len()
                &&& d.record < self.rounds@[d.round as int].events@.len()
                &&& self.rounds@[d.round as int].events@[d.record as int].hash == h
                &&& d.received == self.rounds@[receiving_round(s, self.rounds@, h)].id
            },
    {
        let xi = match self.events.find(h) {
            Some(xi) => xi,
            None => {
                return None;
            },
        };
        let k = match self.find_round(self.events.store[xi].round) {
            Some(k) => k,
            None => {
                return None;
            },
        };
        let j = match self.rounds[k].find(h) {
            Some(j) => j,
            None => {
                return None;
            },
        };
        let n = self.rounds.len();
        assert(k < n);
        match self.find_receiving(h, k + 1) {
            Some(rr) => Some(Reception { hash: h, round: k, record: j, received: self.rounds[rr].id }),
            None => None,
        }
    }

    /// Decides which undecided events are received now, takes them from
    /// the undecided and puts their received round on record; returns
    /// their hashes.
    pub fn mark_received(&mut self) -> (decided: Vec<EventHash>)
        requires
            old(self).wf(),
        ensures
            final(self).wf(),
            received_marked(*old(self), decided@, *final(self)),
    {
        let ghost pre = *self;
        let ghost s = self.events.store@;
        let ghost u = self.events.undecided@;
        let mut decided: Vec<EventHash> = Vec::new();
        let mut rest: Vec<EventHash> = Vec::new();
        let mut receptions: Vec<Reception> = Vec::new();
        let mut t: usize = 0;
        proof {
            assert(u.take(0) =~= Seq::<EventHash>::empty());
        }
        while t < self.events.undecided.len()
            invariant
                *self == pre,
                pre.wf(),
                s == pre.events.store@,
                u == pre.events.undecided@,
                t <= u.len(),
                decided@ == decided_of(s, pre.rounds@, u.take(t as int)),
                rest@ == undecided_of(s, pre.rounds@, u.take(t as int)),
                forall|i: int| 0 <= i < receptions@.len() ==> is_reception(pre, #[trigger] receptions@[i]),
                forall|i: int|
                    0 <= i < t && receiving_round(s, pre.rounds@, #[trigger] u[i]) >= 0 ==> exists|
                        m: int,
                    |
                        0 <= m < receptions@.len() && (#[trigger] receptions@[m]).hash == u[i],
            decreases u.len() - t,
        {
            let h = self.events.undecided[t];
            proof {
                assert(u.take(t + 1).drop_last() =~= u.take(t as int));
                assert(u.take(t + 1).last() == u[t as int]);
            }
            let ghost before = receptions@;
            match self.reception_of(h) {
                Some(d) => {
                    decided.push(h);
                    receptions.push(d);
                    proof {
                        assert(u.contains(h));
                        assert(is_reception(pre, d));
                        assert(receptions@[before.len() as int].hash == h);
                        assert forall|i: int|
                            0 <= i < t + 1 && receiving_round(s, pre.rounds@, #[trigger] u[i])
                                >= 0 implies exists|m: int|
                            0 <= m < receptions@.len() && (#[trigger] receptions@[m]).hash
                                == u[i] by {
                            if i < t {
                                let m = choose|m: int|
                                    0 <= m < before.len() && (#[trigger] before[m]).hash == u[i];
                                assert(receptions@[m].hash == u[i]);
                            }
                        }
                    }
                },
                None => {
                    rest.push(h);
                },
            }
            t += 1;
        }
        proof {
            assert(u.take(u.len() as int) =~= u);
        }
        self.events.undecided = rest;
        let mut m: usize = 0;
        while m < receptions.len()
            invariant
                pre.wf(),
                m <= receptions@.len(),
                self.events.store == pre.events.store,
                self.events.reach == pre.events.reach,
                self.events.by_hash == pre.events.by_hash,
                self.events.undecided@ == undecided_of(s, pre.rounds@, u),
                self.transactions == pre.transactions,
                self.internal_transactions == pre.internal_transactions,
                same_but_records(pre, *self),
                forall|i: int| 0 <= i < receptions@.len() ==> is_reception(pre, #[trigger] receptions@[i]),
                forall|k: int, j: int|
                    0 <= k < pre.rounds@.len() && 0 <= j < pre.rounds@[k].events@.len() ==> (
                    #[trigger] self.rounds@[k].events@[j]) == (RoundEvent {
                        received: if exists|i: int|
                            0 <= i < m && (#[trigger] receptions@[i]).round == k
                                && receptions@[i].record == j {
                            received_after(pre, k, j)
                        } else {
                            pre.rounds@[k].events@[j].received
                        },
                        ..pre.rounds@[k].events@[j]
                    }),
            decreases receptions@.len() - m,
        {
            let d = receptions[m];
            let ghost before = *self;
            assert(is_reception(pre, receptions@[m as int]));
            self.rounds[d.round].events[d.record].received = d.received;
            proof {
                assert forall|k: int, j: int|
                    0 <= k < pre.rounds@.len() && 0 <= j < pre.rounds@[k].events@.len() implies (
                #[trigger] self.rounds@[k].events@[j]) == (RoundEvent {
                    received: if exists|i: int|
                        0 <= i < m + 1 && (#[trigger] receptions@[i]).round == k
                            && receptions@[i].record == j {
                        received_after(pre, k, j)
                    } else {
                        pre.rounds@[k].events@[j].received
                    },
                    ..pre.rounds@[k].events@[j]
                }) by {
                    let old_hit = exists|i: int|
                        0 <= i < m && (#[trigger] receptions@[i]).round == k
                            && receptions@[i].record == j;
                    let new_hit = exists|i: int|
                        0 <= i < m + 1 && (#[trigger] receptions@[i]).round == k
                            && receptions@[i].record == j;
                    assert(before.rounds@[k].events@[j] == (RoundEvent {
                        received: if old_hit {
                            received_after(pre, k, j)
                        } else {
                            pre.rounds@[k].events@[j].received
                        },
                        ..pre.rounds@[k].events@[j]
                    }));
                    if k == d.round && j == d.record {
                        assert(receptions@[m as int].round == k && receptions@[m as int].record == j);
                        assert(new_hit);
                    } else {
                        if new_hit {
                            let i = choose|i: int|
                                0 <= i < m + 1 && (#[trigger] receptions@[i]).round == k
                                    && receptions@[i].record == j;
                            assert(i < m);
                            assert(old_hit);
                        }
                        if old_hit {
                            let i = choose|i: int|
                                0 <= i < m && (#[trigger] receptions@[i]).round == k
                                    && receptions@[i].record == j;
                            assert(receptions@[i].round == k);
                            assert(new_hit);
                        }
                    }
                }
            }
            m += 1;
        }
        proof {
            assert forall|k: int, j: int|
                0 <= k < pre.rounds@.len() && 0 <= j < pre.rounds@[k].events@.len() implies (
            #[trigger] self.rounds@[k].events@[j]) == (RoundEvent {
                received: received_after(pre, k, j),
                ..pre.rounds@[k].events@[j]
            }) by {
                let hit = exists|i: int|
                    0 <= i < receptions@.len() && (#[trigger] receptions@[i]).round == k
                        && receptions@[i].record == j;
                if hit {
                    let i = choose|i: int|
                        0 <= i < receptions@.len() && (#[trigger] receptions@[i]).round == k
                            && receptions@[i].record == j;
                    assert(is_reception(pre, receptions@[i]));
                } else if newly_received(pre, k, j) {
                    let h = pre.rounds@[k].events@[j].hash;
                    let i = choose|i: int| 0 <= i < u.len() && u[i] == h;
                    let mm = choose|mm: int|
                        0 <= mm < receptions@.len() && (#[trigger] receptions@[mm]).hash == u[i];
                    assert(is_reception(pre, receptions@[mm]));
                    assert(receptions@[mm].round == k && receptions@[mm].record == j);
                }
            }
            assert forall|k: int| 0 <= k < pre.rounds@.len() implies self.rounds@[k].id
                == pre.rounds@[k].id && self.rounds@[k].peers == pre.rounds@[k].peers by {
                assert(self.rounds@[k] == (Round { events: self.rounds@[k].events, ..pre.rounds@[k] }));
            }
            lemma_same_frames_wf(pre.rounds@, self.rounds@);
        }
        decided
    }
}

} // verus!
