use vstd::prelude::*;

use crate::ancestry::{
    ancestor, bound_of, first_descendant, path_creators, self_ancestor, strongly_sees,
};
use crate::event::{Event, EventCreator, EventHash};
use crate::events::{parent_index, Events};
use crate::internal_txs::PeerTx;
use crate::peers::Peers;
use crate::round::{inserted, is_fresh, FamousType, Round, RoundEvent};

verus! {

/// Round ids grow by one from the first round on, and every round's peer
/// set is well-formed.
pub open spec fn rounds_wf(rounds: Seq<Round>) -> bool {
    &&& forall|k: int| 0 <= k < rounds.len() ==> (#[trigger] rounds[k]).id == rounds[0].id + k
    &&& forall|k: int| 0 <= k < rounds.len() ==> (#[trigger] rounds[k]).peers.wf()
}

/// The place of the round with this id, or -1 where it is not materialized.
pub open spec fn round_index(rounds: Seq<Round>, id: u64) -> int {
    if rounds.len() > 0 && rounds[0].id <= id && id - rounds[0].id < rounds.len() {
        id - rounds[0].id
    } else {
        -1
    }
}

/// The place of the last round whose peer set holds `creator`, or -1.
pub open spec fn last_with_peer(rounds: Seq<Round>, creator: EventCreator) -> int
    decreases rounds.len(),
{
    if rounds.len() == 0 {
        -1
    } else if rounds.last().peers.contains(creator) {
        rounds.len() - 1
    } else {
        last_with_peer(rounds.drop_last(), creator)
    }
}

/// The place of the round that an event of `creator` without a stored
/// self-parent starts from: the last round that has `creator` as a peer, or
/// the last round where none has.
pub open spec fn last_populated(rounds: Seq<Round>, creator: EventCreator) -> int {
    let k = last_with_peer(rounds, creator);
    if k >= 0 {
        k
    } else {
        rounds.len() - 1
    }
}

/// The place of the round whose peer set decides about an event of round
/// `round`: that round where it is materialized (and not 0), else the last.
pub open spec fn deciding_round(rounds: Seq<Round>, round: u64) -> int {
    if round != 0 && round_index(rounds, round) >= 0 {
        round_index(rounds, round)
    } else {
        rounds.len() - 1
    }
}

/// The id of the round that `e` starts from: the round of its self-parent,
/// or, without a stored self-parent, of the last round populated for its creator.
pub open spec fn parent_round_id(s: Seq<Event>, rounds: Seq<Round>, e: Event) -> u64 {
    let p = parent_index(s, bound_of(s, e), e.self_parent);
    if p >= 0 {
        s[p].round
    } else {
        rounds[last_populated(rounds, e.creator)].id
    }
}

/// How many of the witnesses `ws` the event `e` strongly sees.
pub open spec fn count_seen(s: Seq<Event>, e: Event, ws: Seq<EventHash>, threshold: u64) -> nat
    decreases ws.len(),
{
    if ws.len() == 0 {
        0
    } else {
        count_seen(s, e, ws.drop_last(), threshold) + if strongly_sees(
            s,
            e,
            ws.last(),
            threshold,
        ) {
            1nat
        } else {
            0nat
        }
    }
}

/// `e` is a witness: a root, or an event that strongly sees a
/// super-majority of the witnesses of the round it starts from, by that
/// round's peer set.
pub open spec fn witness_of(s: Seq<Event>, rounds: Seq<Round>, e: Event) -> bool {
    e.self_parent == 0 || ({
        let k = round_index(rounds, parent_round_id(s, rounds, e));
        k >= 0 && count_seen(s, e, rounds[k].witnesses@, rounds[k].peers.super_majority)
            >= rounds[k].peers.super_majority
    })
}

/// The round of `e`: one past the round it starts from where it is a
/// witness and no root, else that round.
pub open spec fn round_of(s: Seq<Event>, rounds: Seq<Round>, e: Event) -> int {
    if e.self_parent != 0 && witness_of(s, rounds, e) {
        parent_round_id(s, rounds, e) + 1
    } else {
        parent_round_id(s, rounds, e) as int
    }
}

/// Whether the event `e`, its round assigned, finds a place in a round:
/// its round is materialized and has no record of it yet, or is the one
/// after the last round while the round that `e` starts from is materialized.
pub open spec fn has_place(s: Seq<Event>, rounds: Seq<Round>, e: Event) -> bool {
    let k = round_index(rounds, e.round);
    &&& rounds.len() > 0
    &&& e.round != 0
    &&& if k >= 0 {
        rounds[k].record_index(e.hash) < 0
    } else {
        e.round == rounds.last().id + 1 && round_index(rounds, parent_round_id(s, rounds, e))
            >= 0
    }
}

/// `post` is `pre` with the event `e` recorded in its round, as a witness
/// where `witness` says so: in the round `e.round` where it is
/// materialized, else in a new last round that takes over the peer set of
/// the round that `e` starts from.
pub open spec fn placed(pre: Hashgraph, e: Event, witness: bool, post: Hashgraph) -> bool {
    let k = round_index(pre.rounds@, e.round);
    let pk = round_index(pre.rounds@, parent_round_id(pre.events.store@, pre.rounds@, e));
    &&& post.events == pre.events
    &&& post.transactions == pre.transactions
    &&& post.internal_transactions == pre.internal_transactions
    &&& if k >= 0 {
        &&& post.rounds@.len() == pre.rounds@.len()
        &&& post.rounds@ == pre.rounds@.update(k, post.rounds@[k])
        &&& inserted(pre.rounds@[k], e.hash, witness, post.rounds@[k])
    } else {
        let r = post.rounds@.last();
        &&& post.rounds@.len() == pre.rounds@.len() + 1
        &&& post.rounds@ == pre.rounds@.push(r)
        &&& r.id == e.round
        &&& r.peers@ == pre.rounds@[pk].peers@
        &&& r.events@.len() == 1
        &&& is_fresh(r.events@[0], e.hash, witness)
        &&& r.witnesses@ =~= if witness {
            seq![e.hash]
        } else {
            Seq::<EventHash>::empty()
        }
        &&& !r.decided
        &&& !r.purged
    }
}

/// `post` is `pre` with round 1 set up with `peers`: as the first round
/// of an engine without rounds, or in place of what round 1 held; an
/// engine whose rounds start later stays as it is.
pub open spec fn bootstrapped(pre: Hashgraph, peers: Peers, post: Hashgraph) -> bool {
    let k = round_index(pre.rounds@, 1);
    let fresh = post.rounds@[if k >= 0 {
        k
    } else {
        0
    }];
    &&& post == (Hashgraph { rounds: post.rounds, ..pre })
    &&& if pre.rounds@.len() == 0 || k >= 0 {
        &&& post.rounds@ == if k >= 0 {
            pre.rounds@.update(k, fresh)
        } else {
            seq![fresh]
        }
        &&& fresh.id == 1
        &&& fresh.peers == peers
        &&& fresh.events@.len() == 0
        &&& fresh.witnesses@.len() == 0
        &&& !fresh.decided
        &&& !fresh.purged
    } else {
        post.rounds@ == pre.rounds@
    }
}

/// The state of the consensus engine: the stored events, the rounds, and
/// the decided payloads and membership transactions in their final order.
#[derive(Debug, Clone)]
pub struct Hashgraph {
    pub events: Events,
    pub rounds: Vec<Round>,
    pub transactions: Vec<Vec<u8>>,
    pub internal_transactions: Vec<PeerTx>,
}

impl Default for Hashgraph {
    /// An engine without events and rounds.
    fn default() -> (hg: Hashgraph)
        ensures
            hg.wf(),
            hg.events.store@.len() == 0,
            hg.events.undecided@.len() == 0,
            hg.rounds@.len() == 0,
            hg.transactions@.len() == 0,
            hg.internal_transactions@.len() == 0,
    {
        Hashgraph::new()
    }
}

impl Hashgraph {
    /// The store is well-formed, no event lies in an earlier round than
    /// its self-parent, and the rounds are well-formed.
    pub open spec fn wf(&self) -> bool {
        &&& self.events.wf()
        &&& crate::events::rounds_monotone(self.events.store@)
        &&& rounds_wf(self.rounds@)
    }

    /// An engine without events and rounds.
    pub fn new() -> (hg: Hashgraph)
        ensures
            hg.wf(),
            hg.events.store@.len() == 0,
            hg.events.undecided@.len() == 0,
            hg.rounds@.len() == 0,
            hg.transactions@.len() == 0,
            hg.internal_transactions@.len() == 0,
    {
        Hashgraph {
            events: Events::new(),
            rounds: Vec::new(),
            transactions: Vec::new(),
            internal_transactions: Vec::new(),
        }
    }

    /// Sets up round 1 with `peers`: as the first round of an engine
    /// without rounds, or in place of what round 1 held. An engine whose
    /// rounds start later stays as it is.
    pub fn bootstrap(&mut self, peers: Peers)
        requires
            old(self).wf(),
            peers.wf(),
        ensures
            final(self).wf(),
            bootstrapped(*old(self), peers, *final(self)),
    {
        let mut first_round = Round::new(1);
        first_round.peers = peers;
        if self.rounds.len() == 0 {
            self.rounds.push(first_round);
            assert(self.rounds@ =~= seq![first_round]);
        } else {
            match self.find_round(1) {
                Some(k) => {
                    self.rounds.set(k, first_round);
                },
                None => {},
            }
        }
    }

    /// The place of the round with this id.
    pub fn find_round(&self, id: u64) -> (r: Option<usize>)
        ensures
            match r {
                Some(k) => k as int == round_index(self.rounds@, id) && k < self.rounds@.len(),
                None => round_index(self.rounds@, id) == -1,
            },
    {
        if self.rounds.len() == 0 {
            return None;
        }
        let first = self.rounds[0].id;
        if id < first {
            return None;
        }
        let offset = id - first;
        if offset < self.rounds.len() as u64 {
            Some(offset as usize)
        } else {
            None
        }
    }

    /// The round with this id.
    pub fn round(&self, id: u64) -> (r: Option<&Round>)
        ensures
            match r {
                Some(round) => round_index(self.rounds@, id) >= 0 && *round
                    == self.rounds@[round_index(self.rounds@, id)],
                None => round_index(self.rounds@, id) == -1,
            },
    {
        match self.find_round(id) {
            Some(k) => Some(&self.rounds[k]),
            None => None,
        }
    }

    /// The peer set of the last round.
    pub fn get_last_decided_peers(&self) -> (r: Peers)
        requires
            self.rounds@.len() > 0,
        ensures
            r@ == self.rounds@.last().peers@,
            r.wf() == self.rounds@.last().peers.wf(),
    {
        self.rounds[self.rounds.len() - 1].peers.clone()
    }

    /// The place of the round whose peer set decides about `round`.
    pub fn find_deciding_round(&self, round: u64) -> (k: usize)
        requires
            self.rounds@.len() > 0,
        ensures
            k as int == deciding_round(self.rounds@, round),
            k < self.rounds@.len(),
    {
        if round != 0 {
            match self.find_round(round) {
                Some(k) => {
                    return k;
                },
                None => {},
            }
        }
        self.rounds.len() - 1
    }

    /// The peer set that decides about `event`: that of its round where the
    /// round is materialized, else that of the last round.
    pub fn get_decided_peers(&self, event: &Event) -> (r: Peers)
        requires
            self.rounds@.len() > 0,
        ensures
            r@ == self.rounds@[deciding_round(self.rounds@, event.round)].peers@,
            r.wf() == self.rounds@[deciding_round(self.rounds@, event.round)].peers.wf(),
    {
        let k = self.find_deciding_round(event.round);
        self.rounds[k].peers.clone()
    }

    /// Whether `possible_ancestor` is `e` or an ancestor of it.
    pub fn is_ancestor(&self, possible_ancestor: Event, e: Event) -> (r: bool)
        requires
            self.wf(),
        ensures
            r == ancestor(self.events.store@, possible_ancestor.hash, e),
    {
        self.events.reaches(&e, possible_ancestor.hash)
    }

    /// Whether `possible_ancestor` is `e` or an ancestor of it by
    /// self-parent links alone.
    pub fn is_self_ancestor(&self, possible_ancestor: Event, e: Event) -> (r: bool)
        requires
            self.wf(),
        ensures
            r == self_ancestor(self.events.store@, possible_ancestor.hash, e),
    {
        self.events.self_reaches(&e, possible_ancestor.hash)
    }

    /// `e` sees `possible_see` where that is `e` or an ancestor of it.
    pub fn see(&self, e: Event, possible_see: Event) -> (r: bool)
        requires
            self.wf(),
        ensures
            r == ancestor(self.events.store@, possible_see.hash, e),
    {
        self.events.reaches(&e, possible_see.hash)
    }

    /// Whether `e` strongly sees `possible_see`, by the peer set that
    /// decides about `possible_see`.
    pub fn strongly_see(&self, e: Event, possible_see: Event) -> (r: bool)
        requires
            self.wf(),
            self.rounds@.len() > 0,
        ensures
            r == strongly_sees(
                self.events.store@,
                e,
                possible_see.hash,
                self.rounds@[deciding_round(self.rounds@, possible_see.round)].peers.super_majority,
            ),
    {
        let k = self.find_deciding_round(possible_see.round);
        self.events.sees_strongly(&e, possible_see.hash, self.rounds[k].peers.super_majority)
    }

    /// Whether `possible_see` is `e` or an ancestor of it, with the
    /// creators met on the paths between the two.
    pub fn strongly_see_with_path(&self, e: Event, possible_see: Event) -> (r: (
        bool,
        Vec<EventCreator>,
    ))
        requires
            self.wf(),
        ensures
            r.1@ == path_creators(self.events.store@, e, possible_see.hash),
            r.0 == (r.1@.len() > 0),
    {
        let creators = self.events.creators_on_paths(&e, possible_see.hash);
        (creators.len() > 0, creators)
    }

    /// The place of the last round populated for the creator of `event`.
    pub fn find_last_populated(&self, creator: EventCreator) -> (k: usize)
        requires
            self.rounds@.len() > 0,
        ensures
            k as int == last_populated(self.rounds@, creator),
            k < self.rounds@.len(),
    {
        let mut n: usize = self.rounds.len();
        proof {
            assert(self.rounds@.take(n as int) =~= self.rounds@);
        }
        while n > 0
            invariant
                n <= self.rounds@.len(),
                last_with_peer(self.rounds@, creator) == last_with_peer(
                    self.rounds@.take(n as int),
                    creator,
                ),
            decreases n,
        {
            proof {
                assert(self.rounds@.take(n as int).drop_last() =~= self.rounds@.take(n - 1));
            }
            if self.rounds[n - 1].peers.has(creator) {
                return n - 1;
            }
            n -= 1;
        }
        self.rounds.len() - 1
    }

    /// The last round that has the creator of `event` as a peer, or the
    /// last round where none has.
    pub fn get_last_populated_round(&self, event: &Event) -> (r: &Round)
        requires
            self.rounds@.len() > 0,
        ensures
            *r == self.rounds@[last_populated(self.rounds@, event.creator)],
    {
        let k = self.find_last_populated(event.creator);
        &self.rounds[k]
    }

    /// The id of the round that `e` starts from.
    pub fn get_parent_round_id(&self, e: Event) -> (id: u64)
        requires
            self.wf(),
            self.rounds@.len() > 0,
        ensures
            id == parent_round_id(self.events.store@, self.rounds@, e),
    {
        self.parent_round_id_of(&e)
    }

    /// The id of the round that `e` starts from.
    pub fn parent_round_id_of(&self, e: &Event) -> (id: u64)
        requires
            self.wf(),
            self.rounds@.len() > 0,
        ensures
            id == parent_round_id(self.events.store@, self.rounds@, *e),
    {
        let n = self.events.bound(e);
        match self.events.find_parent(n, e.self_parent) {
            Some(p) => self.events.store[p].round,
            None => {
                let k = self.find_last_populated(e.creator);
                self.rounds[k].id
            },
        }
    }

    /// The round that `e` starts from, where it is materialized.
    pub fn get_parent_round(&self, e: Event) -> (r: Option<&Round>)
        requires
            self.wf(),
            self.rounds@.len() > 0,
        ensures
            ({
                let k = round_index(
                    self.rounds@,
                    parent_round_id(self.events.store@, self.rounds@, e),
                );
                match r {
                    Some(round) => k >= 0 && *round == self.rounds@[k],
                    None => k == -1,
                }
            }),
    {
        let id = self.parent_round_id_of(&e);
        self.round(id)
    }

    /// How many of the witnesses of the round at place `k` the event `e`
    /// strongly sees, by that round's peer set.
    pub fn count_strongly_seen(&self, e: &Event, k: usize) -> (n: usize)
        requires
            self.wf(),
            k < self.rounds@.len(),
        ensures
            n == count_seen(
                self.events.store@,
                *e,
                self.rounds@[k as int].witnesses@,
                self.rounds@[k as int].peers.super_majority,
            ),
    {
        let round = &self.rounds[k];
        let threshold = round.peers.super_majority;
        let mut n: usize = 0;
        let mut i: usize = 0;
        proof {
            assert(round.witnesses@.take(0) =~= Seq::<EventHash>::empty());
        }
        while i < round.witnesses.len()
            invariant
                self.wf(),
                i <= round.witnesses.len(),
                n <= i,
                n == count_seen(
                    self.events.store@,
                    *e,
                    round.witnesses@.take(i as int),
                    threshold,
                ),
            decreases round.witnesses.len() - i,
        {
            proof {
                assert(round.witnesses@.take(i + 1).drop_last() =~= round.witnesses@.take(i as int));
                assert(round.witnesses@.take(i + 1).last() == round.witnesses@[i as int]);
            }
            if self.events.sees_strongly(e, round.witnesses[i], threshold) {
                n += 1;
            }
            i += 1;
        }
        proof {
            assert(round.witnesses@.take(round.witnesses.len() as int) =~= round.witnesses@);
        }
        n
    }

    /// Whether `e` is a witness.
    pub fn is_witness(&self, e: Event) -> (r: bool)
        requires
            self.wf(),
            self.rounds@.len() > 0,
        ensures
            r == witness_of(self.events.store@, self.rounds@, e),
    {
        self.witness(&e)
    }

    /// Whether `e` is a witness.
    pub fn witness(&self, e: &Event) -> (r: bool)
        requires
            self.wf(),
            self.rounds@.len() > 0,
        ensures
            r == witness_of(self.events.store@, self.rounds@, *e),
    {
        if e.is_root() {
            return true;
        }
        let id = self.parent_round_id_of(e);
        match self.find_round(id) {
            None => false,
            Some(k) => {
                let seen = self.count_strongly_seen(e, k);
                seen as u64 >= self.rounds[k].peers.super_majority
            },
        }
    }

    /// The round of `e`.
    pub fn get_round_id(&self, e: Event) -> (id: u64)
        requires
            self.wf(),
            self.rounds@.len() > 0,
            round_of(self.events.store@, self.rounds@, e) <= u64::MAX,
        ensures
            id == round_of(self.events.store@, self.rounds@, e),
    {
        let is_witness = self.witness(&e);
        let mut id = self.parent_round_id_of(&e);
        if !e.is_root() && is_witness {
            id += 1;
        }
        id
    }

    /// Records `e` in the round that its `round` field names, as a witness
    /// where it is one; false, and nothing changed, where it has no place.
    pub fn add_to_round(&mut self, e: Event) -> (r: bool)
        requires
            old(self).wf(),
        ensures
            final(self).wf(),
            r == has_place(old(self).events.store@, old(self).rounds@, e),
            !r ==> *final(self) == *old(self),
            r ==> placed(
                *old(self),
                e,
                witness_of(old(self).events.store@, old(self).rounds@, e),
                *final(self),
            ),
    {
        if self.rounds.len() == 0 {
            return false;
        }
        let is_witness = self.witness(&e);
        self.place_in_round(&e, is_witness)
    }

    /// Records `e` in its round as [`Hashgraph::add_to_round`] does, with
    /// the witness flag given.
    pub fn place_in_round(&mut self, e: &Event, is_witness: bool) -> (r: bool)
        requires
            old(self).wf(),
        ensures
            final(self).wf(),
            r == has_place(old(self).events.store@, old(self).rounds@, *e),
            !r ==> *final(self) == *old(self),
            r ==> placed(*old(self), *e, is_witness, *final(self)),
    {
        if self.rounds.len() == 0 || e.round == 0 {
            return false;
        }
        match self.find_round(e.round) {
            Some(k) => {
                if self.rounds[k].find(e.hash).is_some() {
                    return false;
                }
                self.rounds[k].insert_hash(e.hash, is_witness);
                proof {
                    assert(self.rounds@ =~= old(self).rounds@.update(k as int, self.rounds@[k as int]));
                    assert forall|j: int| 0 <= j < self.rounds@.len() implies (
                    #[trigger] self.rounds@[j]).id == self.rounds@[0].id + j by {
                        assert(old(self).rounds@[j].id == old(self).rounds@[0].id + j);
                    }
                    assert forall|j: int| 0 <= j < self.rounds@.len() implies (
                    #[trigger] self.rounds@[j]).peers.wf() by {
                        assert(old(self).rounds@[j].peers.wf());
                    }
                }
                true
            },
            None => {
                let last = self.rounds[self.rounds.len() - 1].id;
                if last == u64::MAX || e.round != last + 1 {
                    return false;
                }
                let id = self.parent_round_id_of(e);
                let pk = match self.find_round(id) {
                    Some(pk) => pk,
                    None => {
                        return false;
                    },
                };
                let mut round = Round::new(e.round);
                round.peers = self.rounds[pk].peers.clone();
                round.insert_hash(e.hash, is_witness);
                proof {
                    assert(old(self).rounds@[pk as int].peers.wf());
                    assert(old(self).rounds@.last().id == old(self).rounds@[0].id + old(
                        self,
                    ).rounds@.len() - 1);
                    crate::index::lemma_first_index_of(
                        crate::round::record_hashes(round.events@),
                        e.hash,
                    );
                }
                self.rounds.push(round);
                proof {
                    assert forall|j: int| 0 <= j < self.rounds@.len() implies (
                    #[trigger] self.rounds@[j]).id == self.rounds@[0].id + j by {
                        if j < old(self).rounds@.len() {
                            assert(old(self).rounds@[j].id == old(self).rounds@[0].id + j);
                        }
                    }
                    assert forall|j: int| 0 <= j < self.rounds@.len() implies (
                    #[trigger] self.rounds@[j]).peers.wf() by {
                        if j < old(self).rounds@.len() {
                            assert(old(self).rounds@[j].peers.wf());
                        }
                    }
                }
                true
            },
        }
    }
}

} // verus!
