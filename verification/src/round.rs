use vstd::prelude::*;
use std::collections::HashMap;

use crate::event::{Event, EventHash};
use crate::index::{first_index_of, lemma_first_index_is, lemma_first_index_none, lemma_first_index_of};
use crate::peers::Peers;

verus! {

/// The verdict of the vote on a witness.
#[derive(Debug, Clone, Copy, PartialEq, Eq, Structural)]
pub enum FamousType {
    True,
    False,
    Undefined,
}

/// What a round records of one of its events.
#[derive(Debug, Clone, PartialEq, Eq)]
pub struct RoundEvent {
    pub hash: u64,
    pub witness: bool,
    pub famous: FamousType,
    /// The round in which the event was received, 0 while undecided.
    pub received: u64,
    /// The consensus timestamp in microseconds, 0 while undecided.
    pub timestamp: u64,
    /// For a witness, its votes on the witnesses of the round before.
    pub votes: HashMap<EventHash, bool>,
}

impl RoundEvent {
    /// The record that a round makes of the event `e`.
    pub fn from_event(e: Event) -> (r: RoundEvent)
        ensures
            r.hash == e.hash,
            !r.witness,
            r.famous == FamousType::Undefined,
            r.received == 0,
            r.timestamp == 0,
            r.votes@ == Map::<EventHash, bool>::empty(),
    {
        RoundEvent {
            hash: e.hash,
            witness: false,
            famous: FamousType::Undefined,
            received: 0,
            timestamp: 0,
            votes: HashMap::new(),
        }
    }

    /// The vote recorded on the witness `hash`: no where there is none.
    pub open spec fn vote_on(&self, hash: EventHash) -> bool {
        self.votes@.contains_key(hash) && self.votes@[hash]
    }

    /// Whether the witness voted yes on the witness `hash`.
    pub fn voted_yes(&self, hash: EventHash) -> (r: bool)
        ensures
            r == self.vote_on(hash),
    {
        match self.votes.get(&hash) {
            Some(vote) => *vote,
            None => false,
        }
    }
}

/// The hashes of a round's records, in order.
pub open spec fn record_hashes(events: Seq<RoundEvent>) -> Seq<u64> {
    Seq::new(events.len(), |i: int| events[i].hash)
}

/// `re` is the record that a round makes of a new event.
pub open spec fn is_fresh(re: RoundEvent, hash: EventHash, is_witness: bool) -> bool {
    &&& re.hash == hash
    &&& re.witness == is_witness
    &&& re.famous == FamousType::Undefined
    &&& re.received == 0
    &&& re.timestamp == 0
    &&& re.votes@ == Map::<EventHash, bool>::empty()
}

/// `post` is `pre` with a fresh record of the event `hash`: in the place of
/// an earlier record of it, else at the end; a witness is listed as one.
pub open spec fn inserted(pre: Round, hash: EventHash, is_witness: bool, post: Round) -> bool {
    let i = pre.record_index(hash);
    let j = post.record_index(hash);
    &&& post.id == pre.id
    &&& post.peers == pre.peers
    &&& post.decided == pre.decided
    &&& post.purged == pre.purged
    &&& post.witnesses@ == if is_witness {
        pre.witnesses@.push(hash)
    } else {
        pre.witnesses@
    }
    &&& 0 <= j < post.events@.len()
    &&& is_fresh(post.events@[j], hash, is_witness)
    &&& post.events@ == if i >= 0 {
        pre.events@.update(i, post.events@[j])
    } else {
        pre.events@.push(post.events@[j])
    }
}

/// One round of the graph: its events in order of arrival, its witnesses,
/// and the peer set that holds in it.
#[derive(Debug, Clone)]
pub struct Round {
    pub id: u64,
    pub events: Vec<RoundEvent>,
    pub witnesses: Vec<EventHash>,
    pub peers: Peers,
    pub decided: bool,
    pub purged: bool,
}

impl Default for Round {
    /// The round 0, without events and peers.
    fn default() -> (r: Round)
        ensures
            r.id == 0,
            r.events@.len() == 0,
            r.witnesses@.len() == 0,
            r.peers.wf(),
            r.peers.list().len() == 0,
            !r.decided,
            !r.purged,
    {
        Round::new(0)
    }
}

impl Round {
    /// The place of the record of `hash`, or -1.
    pub open spec fn record_index(&self, hash: EventHash) -> int {
        first_index_of(record_hashes(self.events@), hash)
    }

    /// The round `id`, without events and peers.
    pub fn new(id: u64) -> (r: Round)
        ensures
            r.id == id,
            r.events@.len() == 0,
            r.witnesses@.len() == 0,
            r.peers.wf(),
            r.peers.list().len() == 0,
            r.peers.self_id == 0,
            !r.decided,
            !r.purged,
    {
        Round {
            id,
            events: Vec::new(),
            witnesses: Vec::new(),
            peers: Peers::new(),
            decided: false,
            purged: false,
        }
    }

    /// The place of the record of `hash`.
    pub fn find(&self, hash: EventHash) -> (r: Option<usize>)
        ensures
            match r {
                Some(i) => i as int == self.record_index(hash) && i < self.events@.len()
                    && self.events@[i as int].hash == hash,
                None => self.record_index(hash) == -1,
            },
    {
        let mut i: usize = 0;
        while i < self.events.len()
            invariant
                i <= self.events.len(),
                forall|k: int| 0 <= k < i ==> self.events[k].hash != hash,
            decreases self.events.len() - i,
        {
            if self.events[i].hash == hash {
                proof {
                    let hs = record_hashes(self.events@);
                    assert forall|j: int| 0 <= j < i implies hs[j] != hash by {
                        assert(hs[j] == self.events[j].hash);
                    }
                    lemma_first_index_is(hs, hash, i as int);
                }
                return Some(i);
            }
            i += 1;
        }
        proof {
            let hs = record_hashes(self.events@);
            assert forall|j: int| 0 <= j < hs.len() implies hs[j] != hash by {
                assert(hs[j] == self.events[j].hash);
            }
            lemma_first_index_none(hs, hash);
        }
        None
    }

    /// The record of `hash`.
    pub fn get(&self, hash: EventHash) -> (r: Option<&RoundEvent>)
        ensures
            match r {
                Some(re) => self.record_index(hash) >= 0 && *re == self.events@[self.record_index(
                    hash,
                )],
                None => self.record_index(hash) == -1,
            },
    {
        match self.find(hash) {
            Some(i) => Some(&self.events[i]),
            None => None,
        }
    }

    /// Records `e` with a fresh record, in place of an earlier record of the
    /// same hash if there is one, and lists it as a witness if it is one.
    pub fn insert(&mut self, e: Event, is_witness: bool)
        ensures
            inserted(*old(self), e.hash, is_witness, *final(self)),
    {
        self.insert_hash(e.hash, is_witness);
    }

    /// Records the event with this hash as [`Round::insert`] does.
    pub fn insert_hash(&mut self, hash: EventHash, is_witness: bool)
        ensures
            inserted(*old(self), hash, is_witness, *final(self)),
    {
        let round_event = RoundEvent {
            hash,
            witness: is_witness,
            famous: FamousType::Undefined,
            received: 0,
            timestamp: 0,
            votes: HashMap::new(),
        };
        if is_witness {
            self.witnesses.push(hash);
        }
        let ghost before = self.events@;
        match self.find(hash) {
            Some(i) => {
                self.events.set(i, round_event);
                proof {
                    assert(record_hashes(self.events@) =~= record_hashes(before));
                }
            },
            None => {
                self.events.push(round_event);
                proof {
                    lemma_first_index_of(record_hashes(before), hash);
                    let n = before.len() as int;
                    let hs = record_hashes(self.events@);
                    assert(hs[n] == hash);
                    assert forall|j: int| 0 <= j < n implies hs[j] != hash by {
                        assert(record_hashes(before)[j] == hs[j]);
                    }
                    lemma_first_index_is(hs, hash, n);
                }
            },
        }
    }

    /// Forgets the round's events and witnesses; the peer set stays.
    pub fn purge(&mut self)
        ensures
            purged_round(*old(self), *final(self)),
    {
        self.events = Vec::new();
        self.witnesses = Vec::new();
        self.purged = true;
    }
}

/// `post` is the round `pre` purged: without events and witnesses, all
/// else as it was.
pub open spec fn purged_round(pre: Round, post: Round) -> bool {
    &&& post == (Round { events: post.events, witnesses: post.witnesses, purged: true, ..pre })
    &&& post.events@.len() == 0
    &&& post.witnesses@.len() == 0
}

} // verus!
