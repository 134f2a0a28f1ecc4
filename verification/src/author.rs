//! Events of the node's own making, and the merge of what a peer sent.

use vstd::prelude::*;

use crate::ancestry::first_descendant;
use crate::event::{current_micros, event_digest, payload_views, Event, EventCreator, EventHash, EventView};
use crate::events::{
    diff_of, diff_views, has_more_of, known_of, last_of, CreatorEvents, EventsDiff,
};
use crate::hashgraph::Hashgraph;
use crate::internal_txs::{peer_tx_views, PeerTx, PeerTxView};
use crate::pipeline::{admits, inserted_event};

verus! {

/// The value of the event that `creator` makes after its last stored
/// event: the next id, that event as self-parent, and the digest as hash.
pub open spec fn next_event_view(
    s: Seq<Event>,
    creator: EventCreator,
    other_parent: EventHash,
    transactions: Seq<Seq<u8>>,
    internal_transactions: Seq<PeerTxView>,
    timestamp: u64,
) -> EventView {
    let last = s[last_of(s, creator)];
    let blank = EventView {
        id: (last.id + 1) as u64,
        hash: 0,
        timestamp,
        creator,
        self_parent: last.hash,
        other_parent,
        round: 0,
        transactions,
        internal_transactions,
    };
    EventView { hash: event_digest(blank), ..blank }
}

/// Whether `creator` can make an event: it has an event in the store, and
/// the id after that one exists.
pub open spec fn can_author(s: Seq<Event>, creator: EventCreator) -> bool {
    last_of(s, creator) >= 0 && s[last_of(s, creator)].id < u64::MAX
}

/// `post` is `pre` after an event with the value `v` was handed to the
/// pipeline, which took it (`taken`) or left the engine as it was.
pub open spec fn submitted(pre: Hashgraph, v: EventView, taken: bool, post: Hashgraph) -> bool {
    exists|e: Event|
        #[trigger] e@ == v && taken == admits(pre, e) && if taken {
            inserted_event(pre, e, post)
        } else {
            post == pre
        }
}

/// `post` is `pre` after `creator` has made its next event and handed it
/// to the pipeline; where it cannot make one, nothing happens.
pub open spec fn authored(
    pre: Hashgraph,
    creator: EventCreator,
    other_parent: EventHash,
    transactions: Seq<Seq<u8>>,
    internal_transactions: Seq<PeerTxView>,
    timestamp: u64,
    taken: bool,
    post: Hashgraph,
) -> bool {
    if can_author(pre.events.store@, creator) {
        submitted(
            pre,
            next_event_view(
                pre.events.store@,
                creator,
                other_parent,
                transactions,
                internal_transactions,
                timestamp,
            ),
            taken,
            post,
        )
    } else {
        !taken && post == pre
    }
}

/// `post` is `pre` after events with the values `events` were handed to
/// the pipeline one after the other.
pub open spec fn merged(pre: Hashgraph, events: Seq<EventView>, post: Hashgraph) -> bool
    decreases events.len(),
{
    if events.len() == 0 {
        post == pre
    } else {
        exists|mid: Hashgraph, taken: bool|
            merged(pre, events.drop_last(), mid) && #[trigger] submitted(
                mid,
                events.last(),
                taken,
                post,
            )
    }
}

/// The values of the events of the first `n` entries of `d`, entry by entry.
pub open spec fn flattened(d: Seq<CreatorEvents>, n: int) -> Seq<EventView>
    decreases n,
{
    if n <= 0 {
        Seq::empty()
    } else {
        flattened(d, n - 1) + crate::events::event_views(d[n - 1].events@)
    }
}

/// Why a merge did not lead to a reciprocal diff.
#[derive(Debug, Clone, Copy, PartialEq, Eq, Structural)]
pub enum MergeError {
    /// The sender had more events than it sent.
    HasMore,
    /// The node has no event of its own yet.
    NoOwnEvent,
    /// The store holds no event of the peer.
    UnknownPeer,
}

impl Hashgraph {
    /// Makes the next event of `creator` at the time `timestamp` and hands
    /// it to the pipeline.
    pub fn author(
        &mut self,
        creator: EventCreator,
        other_parent: EventHash,
        transactions: Vec<Vec<u8>>,
        internal_transactions: Vec<PeerTx>,
        timestamp: u64,
    ) -> (r: bool)
        requires
            old(self).wf(),
        ensures
            final(self).wf(),
            authored(
                *old(self),
                creator,
                other_parent,
                payload_views(transactions@),
                peer_tx_views(internal_transactions@),
                timestamp,
                r,
                *final(self),
            ),
    {
        let last = match self.events.last_index_of(creator) {
            Some(last) => last,
            None => {
                return false;
            },
        };
        let id = self.events.store[last].id;
        if id == u64::MAX {
            return false;
        }
        let self_parent = self.events.store[last].hash;
        let event = Event::with_timestamp(
            id + 1,
            creator,
            self_parent,
            other_parent,
            transactions,
            internal_transactions,
            timestamp,
        );
        let ghost e = event;
        let ghost pre = *self;
        let r = self.insert_event(event);
        proof {
            let v = next_event_view(
                pre.events.store@,
                creator,
                other_parent,
                payload_views(transactions@),
                peer_tx_views(internal_transactions@),
                timestamp,
            );
            let blank = EventView { hash: 0, round: 0, ..e@ };
            assert(crate::event::event_writes(blank) == crate::event::event_writes(e@));
            assert(e@ == v);
        }
        r
    }

    /// The id of the local node, by the peer set of the last round.
    pub fn self_id(&self) -> (id: u64)
        requires
            self.rounds@.len() > 0,
        ensures
            id == self.rounds@.last().peers.self_id,
    {
        self.rounds[self.rounds.len() - 1].peers.self_id
    }

    /// Makes the node's next event at the time `timestamp`, with the
    /// payload `tx` and the membership transactions `peer_txs`.
    pub fn add_self_event_at(&mut self, tx: Vec<u8>, peer_txs: Vec<PeerTx>, timestamp: u64) -> (r:
        bool)
        requires
            old(self).wf(),
        ensures
            final(self).wf(),
            old(self).rounds@.len() == 0 ==> !r && *final(self) == *old(self),
            old(self).rounds@.len() > 0 ==> authored(
                *old(self),
                old(self).rounds@.last().peers.self_id,
                0,
                seq![tx@],
                peer_tx_views(peer_txs@),
                timestamp,
                r,
                *final(self),
            ),
    {
        if self.rounds.len() == 0 {
            return false;
        }
        let self_id = self.self_id();
        let mut transactions: Vec<Vec<u8>> = Vec::new();
        transactions.push(tx);
        proof {
            assert(payload_views(transactions@) =~= seq![tx@]);
        }
        self.author(self_id, 0, transactions, peer_txs, timestamp)
    }

    /// Makes the node's next event, stamped with the current time.
    pub fn add_self_event(&mut self, tx: Vec<u8>, peer_txs: Vec<PeerTx>) -> (r: bool)
        requires
            old(self).wf(),
        ensures
            final(self).wf(),
            old(self).rounds@.len() == 0 ==> !r && *final(self) == *old(self),
            old(self).rounds@.len() > 0 ==> exists|timestamp: u64|
                #[trigger] authored(
                    *old(self),
                    old(self).rounds@.last().peers.self_id,
                    0,
                    seq![tx@],
                    peer_tx_views(peer_txs@),
                    timestamp,
                    r,
                    *final(self),
                ),
    {
        let timestamp = current_micros();
        self.add_self_event_at(tx, peer_txs, timestamp)
    }

    /// Hands copies of the events of `diff` to the pipeline, creator by
    /// creator.
    pub fn insert_all(&mut self, diff: &Vec<CreatorEvents>)
        requires
            old(self).wf(),
        ensures
            final(self).wf(),
            merged(*old(self), flattened(diff@, diff@.len() as int), *final(self)),
    {
        let ghost pre = *self;
        let mut c: usize = 0;
        while c < diff.len()
            invariant
                self.wf(),
                c <= diff@.len(),
                merged(pre, flattened(diff@, c as int), *self),
            decreases diff@.len() - c,
        {
            let events = &diff[c].events;
            let ghost base = flattened(diff@, c as int);
            let ghost views = crate::events::event_views(events@);
            let mut i: usize = 0;
            proof {
                assert(base + views.take(0) =~= base);
            }
            while i < events.len()
                invariant
                    self.wf(),
                    i <= events@.len(),
                    views == crate::events::event_views(events@),
                    merged(pre, base + views.take(i as int), *self),
                decreases events@.len() - i,
            {
                let ghost mid = *self;
                let copy = events[i].clone();
                let taken = self.insert_event(copy);
                proof {
                    let next = base + views.take(i + 1);
                    assert(next.drop_last() =~= base + views.take(i as int));
                    assert(next.last() == events@[i as int]@);
                    assert(copy@ == next.last());
                    assert(submitted(mid, next.last(), taken, *self));
                }
                i += 1;
            }
            proof {
                assert(views.take(events@.len() as int) =~= views);
            }
            c += 1;
        }
    }

    /// Merges what a peer sent at the time `timestamp`: hands its events
    /// to the pipeline; then, unless the peer has more to send or one of
    /// the two has no stored event, makes the event that records the sync,
    /// with the peer's last event as other parent, and answers with what
    /// the peer lacks.
    pub fn merge_events_at(
        &mut self,
        self_id: u64,
        peer_id: u64,
        other_events: EventsDiff,
        timestamp: u64,
    ) -> (r: Result<EventsDiff, MergeError>)
        requires
            old(self).wf(),
        ensures
            final(self).wf(),
            merge_done(*old(self), self_id, peer_id, other_events, timestamp, r, *final(self)),
    {
        let ghost pre = *self;
        self.insert_all(&other_events.diff);
        let ghost mid = *self;
        if other_events.has_more {
            return Err(MergeError::HasMore);
        }
        if self.events.last_index_of(self_id).is_none() {
            return Err(MergeError::NoOwnEvent);
        }
        let other = match self.events.last_index_of(peer_id) {
            Some(other) => other,
            None => {
                return Err(MergeError::UnknownPeer);
            },
        };
        let other_parent = self.events.store[other].hash;
        let transactions: Vec<Vec<u8>> = Vec::new();
        let internal: Vec<PeerTx> = Vec::new();
        proof {
            assert(payload_views(transactions@) =~= Seq::<Seq<u8>>::empty());
            assert(peer_tx_views(internal@) =~= Seq::<PeerTxView>::empty());
        }
        let taken = self.author(self_id, other_parent, transactions, internal, timestamp);
        let mut events_diff = self.events.events_diff(other_events.known, 0);
        events_diff.sender_id = self_id;
        proof {
            assert(authored(
                mid,
                self_id,
                mid.events.store@[last_of(mid.events.store@, peer_id)].hash,
                Seq::<Seq<u8>>::empty(),
                Seq::<PeerTxView>::empty(),
                timestamp,
                taken,
                *self,
            ));
        }
        Ok(events_diff)
    }

    /// Merges what a peer sent, at the current time.
    pub fn merge_events(&mut self, self_id: u64, peer_id: u64, other_events: EventsDiff) -> (r:
        Result<EventsDiff, MergeError>)
        requires
            old(self).wf(),
        ensures
            final(self).wf(),
            exists|timestamp: u64|
                #[trigger] merge_done(
                    *old(self),
                    self_id,
                    peer_id,
                    other_events,
                    timestamp,
                    r,
                    *final(self),
                ),
    {
        let timestamp = current_micros();
        self.merge_events_at(self_id, peer_id, other_events, timestamp)
    }

    /// A copy of the first descendant of `event` on the way back from
    /// `possible_decendant`: that event itself where it is `event`, has it
    /// as a parent or as a self-ancestor.
    pub fn get_first_decendant(&self, event: Event, possible_decendant: Event) -> (r: Option<Event>)
        requires
            self.wf(),
        ensures
            ({
                let s = self.events.store@;
                let d = first_descendant(s, event.hash, possible_decendant);
                match r {
                    Some(e) => 0 <= d <= s.len() && e@ == if d == crate::ancestry::bound_of(
                        s,
                        possible_decendant,
                    ) {
                        possible_decendant@
                    } else {
                        s[d]@
                    },
                    None => d < 0 || (d == s.len() && d != crate::ancestry::bound_of(
                        s,
                        possible_decendant,
                    )),
                }
            }),
    {
        let n = self.events.bound(&possible_decendant);
        match self.events.first_descendant_index(event.hash, &possible_decendant) {
            None => None,
            Some(d) => {
                if d == n {
                    Some(possible_decendant)
                } else if d < self.events.store.len() {
                    Some(self.events.store[d].clone())
                } else {
                    None
                }
            },
        }
    }
}

/// `post` and `r` are what the merge of `other`, sent by the peer
/// `peer_id`, makes of `pre` at the time `timestamp`: the events are handed
/// to the pipeline; a sender with more to send, a node without an event of
/// its own and a peer without a stored event each end the merge with their
/// error; else the node makes the event that records the sync, with the
/// peer's last event as other parent, and `r` answers the peer.
pub open spec fn merge_done(
    pre: Hashgraph,
    self_id: u64,
    peer_id: u64,
    other: EventsDiff,
    timestamp: u64,
    r: Result<EventsDiff, MergeError>,
    post: Hashgraph,
) -> bool {
    exists|mid: Hashgraph|
        {
            let s = mid.events.store@;
            &&& #[trigger] merged(pre, flattened(other.diff@, other.diff@.len() as int), mid)
            &&& if other.has_more {
                r == Err::<EventsDiff, MergeError>(MergeError::HasMore) && post == mid
            } else if last_of(s, self_id) < 0 {
                r == Err::<EventsDiff, MergeError>(MergeError::NoOwnEvent) && post == mid
            } else if last_of(s, peer_id) < 0 {
                r == Err::<EventsDiff, MergeError>(MergeError::UnknownPeer) && post == mid
            } else {
                &&& r is Ok
                &&& exists|taken: bool|
                    #[trigger] authored(
                        mid,
                        self_id,
                        s[last_of(s, peer_id)].hash,
                        Seq::<Seq<u8>>::empty(),
                        Seq::<PeerTxView>::empty(),
                        timestamp,
                        taken,
                        post,
                    )
                &&& answers(post, self_id, other.known@, r->Ok_0)
            }
        }
}

/// `d` is the answer of the engine `hg`, as `sender`, to a peer that knows
/// `known`: everything that the peer lacks, without limit.
pub open spec fn answers(
    hg: Hashgraph,
    sender: u64,
    known: Map<EventCreator, u64>,
    d: EventsDiff,
) -> bool {
    let s = hg.events.store@;
    &&& d.sender_id == sender
    &&& d.known@ == crate::events::known_map(s)
    &&& d.has_more == has_more_of(known_of(s), known, 0)
    &&& diff_views(d.diff@) == diff_of(s, known_of(s), known, 0)
}

} // verus!
