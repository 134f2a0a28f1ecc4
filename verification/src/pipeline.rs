//! The insertion pipeline: validate, assign the round, record, vote,
//! decide what is received, and order.

use vstd::prelude::*;

use crate::consensus::ordered;
use crate::event::{Event, EventHash};
use crate::events::acceptable;
use crate::fame::{famed, voted, votes};
use crate::hashgraph::{
    deciding_round, has_place, parent_round_id, placed, round_index, round_of, witness_of,
    Hashgraph,
};
use crate::received::received_marked;

verus! {

/// `post` is `pre` after the decision on the undecided events: those
/// received now are marked and, if there are any, ordered.
pub open spec fn received_decided(pre: Hashgraph, post: Hashgraph) -> bool {
    exists|decided: Seq<EventHash>, mid: Hashgraph|
        #[trigger] received_marked(pre, decided, mid) && if decided.len() > 0 {
            ordered(mid, decided, post)
        } else {
            post == mid
        }
}

/// `post` is `pre` after the stored event `e` has had its say: nothing
/// happens unless it votes; a voting witness casts its votes, brings about
/// the verdicts two rounds back, and the undecided events are decided on.
pub open spec fn fame_processed(pre: Hashgraph, e: Event, post: Hashgraph) -> bool {
    if !votes(pre.rounds@, e) {
        post == pre
    } else {
        exists|a: Hashgraph, b: Hashgraph|
            #[trigger] voted(pre, e, a) && #[trigger] famed(a, e, b) && received_decided(b, post)
    }
}

/// The event `e` with the round that the engine `pre` assigns it.
pub open spec fn assigned(pre: Hashgraph, e: Event) -> Event {
    Event { round: round_of(pre.events.store@, pre.rounds@, e) as u64, ..e }
}

/// Whether the engine takes the event `e`: there are rounds, the store
/// accepts it, the round it starts from is materialized, its own round is
/// a round (not 0, and within the machine's range), its creator is a peer
/// by the peer set that decides about that round, and the round has a
/// place for it.
pub open spec fn admits(pre: Hashgraph, e: Event) -> bool {
    let s = pre.events.store@;
    let rounds = pre.rounds@;
    let r = round_of(s, rounds, e);
    &&& rounds.len() > 0
    &&& acceptable(s, e)
    &&& round_index(rounds, parent_round_id(s, rounds, e)) >= 0
    &&& 0 < r <= u64::MAX
    &&& rounds[deciding_round(rounds, r as u64)].peers.contains(e.creator)
    &&& has_place(s, rounds, assigned(pre, e))
}

/// `post` is `pre` with the event `e` at the end of the store and of the
/// undecided.
pub open spec fn stored(pre: Hashgraph, e: Event, post: Hashgraph) -> bool {
    &&& post == (Hashgraph { events: post.events, ..pre })
    &&& post.events.store@ == pre.events.store@.push(e)
    &&& post.events.undecided@ == pre.events.undecided@.push(e.hash)
}

/// `post` is `pre` after the event `e` has gone through the pipeline: with
/// its round assigned it is recorded in that round, stored, and has its say.
pub open spec fn inserted_event(pre: Hashgraph, e: Event, post: Hashgraph) -> bool {
    let e1 = assigned(pre, e);
    let w = witness_of(pre.events.store@, pre.rounds@, e);
    exists|a: Hashgraph, b: Hashgraph|
        #[trigger] placed(pre, e1, w, a) && #[trigger] stored(a, e1, b) && fame_processed(
            b,
            e1,
            post,
        )
}

impl Hashgraph {
    /// Decides which undecided events are received now, and orders them.
    pub fn decide_round_received(&mut self)
        requires
            old(self).wf(),
        ensures
            final(self).wf(),
            received_decided(*old(self), *final(self)),
    {
        let ghost pre = *self;
        let decided = self.mark_received();
        let ghost mid = *self;
        if decided.len() > 0 {
            let ghost list = decided@;
            self.consensus_order(decided);
            proof {
                assert(received_marked(pre, list, mid) && ordered(mid, list, *self));
            }
        } else {
            proof {
                assert(received_marked(pre, decided@, mid));
            }
        }
    }

    /// Lets the recorded event `e` have its say.
    pub fn process_fame(&mut self, e: Event)
        requires
            old(self).wf(),
        ensures
            final(self).wf(),
            fame_processed(*old(self), e, *final(self)),
    {
        if self.find_voter(&e).is_none() {
            return ;
        }
        let ghost pre = *self;
        self.cast_votes(&e);
        let ghost a = *self;
        self.decide_fame(&e);
        let ghost b = *self;
        self.decide_round_received();
        proof {
            assert(voted(pre, e, a) && famed(a, e, b) && received_decided(b, *self));
        }
    }

    /// Lets the stored event at place `xi` have its say.
    pub fn process_fame_at(&mut self, xi: usize)
        requires
            old(self).wf(),
            xi < old(self).events.store@.len(),
        ensures
            final(self).wf(),
            fame_processed(*old(self), old(self).events.store@[xi as int], *final(self)),
    {
        let ghost pre = *self;
        let ghost e = self.events.store@[xi as int];
        let (k, i) = match self.find_voter(&self.events.store[xi]) {
            Some(place) => place,
            None => {
                return ;
            },
        };
        let votes = self.compute_votes(&self.events.store[xi], k - 1);
        self.set_votes(k, i, votes);
        let ghost a = *self;
        proof {
            assert(voted(pre, e, a));
            assert(a.rounds@[k as int].events@[i as int].hash == e.hash);
            crate::index::lemma_first_index_of(
                crate::round::record_hashes(pre.rounds@[k as int].events@),
                e.hash,
            );
            assert(crate::round::record_hashes(a.rounds@[k as int].events@)
                =~= crate::round::record_hashes(pre.rounds@[k as int].events@)) by {
                assert forall|j: int| 0 <= j < pre.rounds@[k as int].events@.len() implies a.rounds@[k as int].events@[j].hash
                    == pre.rounds@[k as int].events@[j].hash by {
                    if j != i {
                        assert(a.rounds@[k as int].events@[j] == pre.rounds@[k as int].events@[j]);
                    }
                }
            }
            assert(a.rounds@[0].id == pre.rounds@[0].id) by {
                if k != 0 {
                    assert(a.rounds@[0] == pre.rounds@[0]);
                }
            }
            assert(crate::fame::votes(a.rounds@, e));
        }
        if k >= 2 {
            let verdicts = self.verdicts(&self.events.store[xi], k);
            self.set_verdicts(k - 2, verdicts);
        }
        let ghost b = *self;
        proof {
            assert(famed(a, e, b));
        }
        self.decide_round_received();
        proof {
            assert(voted(pre, e, a) && famed(a, e, b) && received_decided(b, *self));
        }
    }

    /// Takes `event` into the graph: validates it, assigns its round,
    /// records and stores it, and lets it have its say. An event that is
    /// not taken leaves the engine as it was.
    pub fn insert_event(&mut self, event: Event) -> (r: bool)
        requires
            old(self).wf(),
        ensures
            final(self).wf(),
            r == admits(*old(self), event),
            !r ==> *final(self) == *old(self),
            r ==> inserted_event(*old(self), event, *final(self)),
            crate::laws::history_kept(*old(self), *final(self)),
    {
        proof {
            crate::laws::lemma_history_refl(*self);
        }
        let ghost pre = *self;
        let mut e = event;
        if self.rounds.len() == 0 {
            return false;
        }
        if !self.events.check_event(&e) {
            return false;
        }
        let id = self.parent_round_id_of(&e);
        if self.find_round(id).is_none() {
            return false;
        }
        let is_witness = self.witness(&e);
        let mut round = id;
        if !e.is_root() && is_witness {
            if id == u64::MAX {
                return false;
            }
            round = id + 1;
        }
        if round == 0 {
            return false;
        }
        let dk = self.find_deciding_round(round);
        if !self.rounds[dk].peers.has(e.creator) {
            return false;
        }
        e.round = round;
        proof {
            assert(e == assigned(pre, event));
        }
        if !self.place_in_round(&e, is_witness) {
            return false;
        }
        let ghost a = *self;
        let ghost e1 = e;
        let accepted = self.events.insert_event(e);
        proof {
            assert(accepted);
        }
        let ghost b = *self;
        let xi = self.events.store.len() - 1;
        self.process_fame_at(xi);
        proof {
            assert(placed(pre, e1, is_witness, a) && stored(a, e1, b) && fame_processed(
                b,
                e1,
                *self,
            ));
            crate::laws::law_insert_keeps_history(pre, event, *self);
        }
        true
    }
}

} // verus!
