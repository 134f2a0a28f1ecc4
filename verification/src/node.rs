//! What a node decides between its network calls: how it answers its
//! peers, how it starts, and how it takes part in the gossip.

use vstd::prelude::*;
use std::collections::HashMap;

use crate::author::{answers, authored, submitted, MergeError};
use crate::event::{current_micros, event_digest, Event, EventCreator, EventView};
use crate::events::{diff_of, diff_views, has_more_of, known_of, EventsDiff, Frame};
use crate::frame::{frame_applied, is_last_frame};
use crate::hashgraph::Hashgraph;
use crate::internal_txs::{peer_tx_views, PeerTx, PeerTxType, PeerTxView};
use crate::peer::Peer;
use crate::peers::{is_entry, Peers};
use crate::round::Round;

verus! {

/// How many events of one creator a pull hands out at most.
pub const PULL_LIMIT: u64 = 16;

/// How many empty events the first node makes after the join of the
/// second, to drive the join through consensus.
pub const JOIN_PUSHES: usize = 6;

/// How a node is set up: how much it logs, where it listens, and the node
/// that it joins through, if any.
#[derive(Debug, Clone)]
pub struct NodeConfig {
    pub verbose: u8,
    pub listen_addr: String,
    pub connect_addr: Option<String>,
}

impl Default for NodeConfig {
    fn default() -> (r: NodeConfig)
        ensures
            r.verbose == 2,
            r.listen_addr@ == "127.0.0.1:3000"@,
            r.connect_addr is None,
    {
        NodeConfig { verbose: 2, listen_addr: "127.0.0.1:3000".to_string(), connect_addr: None }
    }
}

/// `after` is the peer set `before` once a gossip partner was drawn from
/// it, with the outcome `r`: the peers stay; nobody is drawn where
/// nobody can be; a peer that is drawn is one of the candidates, a copy of
/// its entry, and is remembered as the last pick; without a pick the
/// last pick stays.
pub open spec fn partner_drawn(before: Peers, r: Option<Peer>, after: Peers) -> bool {
    &&& after.list() == before.list()
    &&& after.self_id == before.self_id
    &&& after.super_majority == before.super_majority
    &&& !before.can_draw() ==> r is None
    &&& r is None ==> after.last_picked() == before.last_picked()
    &&& r is Some ==> before.pool().contains(r->Some_0.id) && after.last_picked()
        == r->Some_0.id && is_entry(before.list(), r->Some_0)
}

/// What becomes of a request to join.
#[derive(Debug)]
pub enum JoinReply {
    /// The node was alone and has made the join event, and the events
    /// that drive it through consensus, itself.
    Handled,
    /// The join is to be queued as a membership transaction for the
    /// node's next event.
    Enqueue(PeerTx),
}

/// `post` is `pre` after the node has made `n` events without payload or
/// membership transactions, one after the other, at some times.
pub open spec fn pushed(pre: Hashgraph, n: int, post: Hashgraph) -> bool
    decreases n,
{
    if n <= 0 {
        post == pre
    } else {
        exists|mid: Hashgraph, timestamp: u64, taken: bool|
            pushed(pre, n - 1, mid) && #[trigger] self_authored(
                mid,
                Seq::<PeerTxView>::empty(),
                timestamp,
                taken,
                post,
            )
    }
}

/// `post` is `pre` after the node has made an event with an empty payload
/// and the membership transactions `txs`; without rounds nothing happens.
pub open spec fn self_authored(
    pre: Hashgraph,
    txs: Seq<PeerTxView>,
    timestamp: u64,
    taken: bool,
    post: Hashgraph,
) -> bool {
    if pre.rounds@.len() == 0 {
        !taken && post == pre
    } else {
        authored(
            pre,
            pre.rounds@.last().peers.self_id,
            0,
            seq![Seq::<u8>::empty()],
            txs,
            timestamp,
            taken,
            post,
        )
    }
}

/// The value of the root event that `creator` starts with.
pub open spec fn root_view(
    creator: EventCreator,
    transactions: Seq<Seq<u8>>,
    internal_transactions: Seq<PeerTxView>,
    timestamp: u64,
) -> EventView {
    let blank = EventView {
        id: 0,
        hash: 0,
        timestamp,
        creator,
        self_parent: 0,
        other_parent: 0,
        round: 0,
        transactions,
        internal_transactions,
    };
    EventView { hash: event_digest(blank), ..blank }
}

impl Hashgraph {
    /// The last id that the store knows of `creator`.
    pub fn known_of(&self, creator: EventCreator) -> (r: Option<u64>)
        ensures
            match r {
                Some(id) => crate::events::last_of(self.events.store@, creator) >= 0 && id
                    == self.events.store@[crate::events::last_of(
                    self.events.store@,
                    creator,
                )].id,
                None => crate::events::last_of(self.events.store@, creator) == -1,
            },
    {
        match self.events.last_index_of(creator) {
            Some(i) => Some(self.events.store[i].id),
            None => None,
        }
    }

    /// Answers a pull: what the peer that knows `known` lacks, at most
    /// [`PULL_LIMIT`] events of each creator that it knows.
    pub fn pull(&self, known: HashMap<EventCreator, u64>) -> (r: EventsDiff)
        ensures
            r.sender_id == 0,
            r.known@ == crate::events::known_map(self.events.store@),
            r.has_more == has_more_of(known_of(self.events.store@), known@, PULL_LIMIT),
            diff_views(r.diff@) == diff_of(
                self.events.store@,
                known_of(self.events.store@),
                known@,
                PULL_LIMIT,
            ),
    {
        self.events.events_diff(known, PULL_LIMIT)
    }

    /// Whether a push of `sender` is taken: there are rounds, and the last
    /// round knows the sender.
    pub open spec fn takes_push(&self, sender: u64) -> bool {
        self.rounds@.len() > 0 && self.rounds@.last().peers.contains(sender)
    }

    /// Takes in a push at the time `timestamp`. The push of a sender that
    /// the last round does not know is refused, and leaves the engine as
    /// it was; that of a known sender is merged.
    pub fn push_at(&mut self, events: EventsDiff, timestamp: u64) -> (r: Result<
        EventsDiff,
        MergeError,
    >)
        requires
            old(self).wf(),
        ensures
            final(self).wf(),
            !old(self).takes_push(events.sender_id) ==> *final(self) == *old(self) && r
                == Err::<EventsDiff, MergeError>(MergeError::UnknownPeer),
            old(self).takes_push(events.sender_id) ==> crate::author::merge_done(
                *old(self),
                old(self).rounds@.last().peers.self_id,
                events.sender_id,
                events,
                timestamp,
                r,
                *final(self),
            ),
    {
        if self.rounds.len() == 0 {
            return Err(MergeError::UnknownPeer);
        }
        let peers = &self.rounds[self.rounds.len() - 1].peers;
        let self_id = peers.self_id;
        if !peers.has(events.sender_id) {
            return Err(MergeError::UnknownPeer);
        }
        let sender = events.sender_id;
        self.merge_events_at(self_id, sender, events, timestamp)
    }

    /// Takes in a push, at the current time; true where the push was
    /// taken, false where it was refused.
    pub fn push(&mut self, events: EventsDiff) -> (r: bool)
        requires
            old(self).wf(),
        ensures
            final(self).wf(),
            r == old(self).takes_push(events.sender_id),
            !r ==> *final(self) == *old(self),
            r ==> exists|timestamp: u64, merge: Result<EventsDiff, MergeError>|
                #[trigger] crate::author::merge_done(
                    *old(self),
                    old(self).rounds@.last().peers.self_id,
                    events.sender_id,
                    events,
                    timestamp,
                    merge,
                    *final(self),
                ),
    {
        if self.rounds.len() == 0 || !self.rounds[self.rounds.len() - 1].peers.has(
            events.sender_id,
        ) {
            return false;
        }
        let timestamp = current_micros();
        let _ = self.push_at(events, timestamp);
        true
    }

    /// Answers a fast sync: the last frame for the peer `peer_id`.
    pub fn fast_sync(&self, peer_id: u64) -> (frame: Frame)
        requires
            self.wf(),
        ensures
            is_last_frame(*self, peer_id, frame),
    {
        self.get_last_frame(peer_id)
    }

    /// Makes `n` events without payload or membership transactions.
    pub fn push_self_events(&mut self, n: usize)
        requires
            old(self).wf(),
        ensures
            final(self).wf(),
            pushed(*old(self), n as int, *final(self)),
    {
        let ghost pre = *self;
        let mut i: usize = 0;
        while i < n
            invariant
                self.wf(),
                i <= n,
                pushed(pre, i as int, *self),
            decreases n - i,
        {
            let ghost mid = *self;
            let timestamp = current_micros();
            let payload: Vec<u8> = Vec::new();
            let txs: Vec<PeerTx> = Vec::new();
            proof {
                assert(payload@ =~= Seq::<u8>::empty());
                assert(peer_tx_views(txs@) =~= Seq::<PeerTxView>::empty());
            }
            let taken = self.add_self_event_at(payload, txs, timestamp);
            proof {
                assert(self_authored(mid, Seq::<PeerTxView>::empty(), timestamp, taken, *self));
            }
            i += 1;
        }
    }

    /// Answers a request to join. A node that is alone by its last round
    /// makes the event with the join itself, and [`JOIN_PUSHES`] empty
    /// events after it; any other node has the join queued.
    pub fn ask_join(&mut self, peer: Peer) -> (r: JoinReply)
        requires
            old(self).wf(),
        ensures
            final(self).wf(),
            ({
                let alone = old(self).rounds@.len() > 0 && old(
                    self,
                ).rounds@.last().peers.list().len() == 1;
                if alone {
                    &&& r is Handled
                    &&& exists|mid: Hashgraph, timestamp: u64, taken: bool|
                        #[trigger] self_authored(
                            *old(self),
                            seq![
                                crate::internal_txs::PeerTxView {
                                    tx_type: PeerTxType::Join,
                                    peer: peer@,
                                },
                            ],
                            timestamp,
                            taken,
                            mid,
                        ) && pushed(mid, JOIN_PUSHES as int, *final(self))
                } else {
                    &&& *final(self) == *old(self)
                    &&& r is Enqueue
                    &&& r->Enqueue_0.tx_type == PeerTxType::Join
                    &&& r->Enqueue_0.peer == peer
                }
            }),
    {
        let n = self.rounds.len();
        if n == 0 || self.rounds[n - 1].peers.len() != 1 {
            return JoinReply::Enqueue(PeerTx::new(PeerTxType::Join, peer));
        }
        let ghost pre = *self;
        let timestamp = current_micros();
        let payload: Vec<u8> = Vec::new();
        let mut txs: Vec<PeerTx> = Vec::new();
        txs.push(PeerTx::new_join(peer));
        proof {
            assert(payload@ =~= Seq::<u8>::empty());
            assert(peer_tx_views(txs@) =~= seq![
                crate::internal_txs::PeerTxView { tx_type: PeerTxType::Join, peer: peer@ },
            ]);
        }
        let taken = self.add_self_event_at(payload, txs, timestamp);
        let ghost mid = *self;
        self.push_self_events(JOIN_PUSHES);
        proof {
            assert(self_authored(
                pre,
                seq![crate::internal_txs::PeerTxView { tx_type: PeerTxType::Join, peer: peer@ }],
                timestamp,
                taken,
                mid,
            ) && pushed(mid, JOIN_PUSHES as int, *self));
        }
        JoinReply::Handled
    }

    /// Sets up the first node of a network at the time `timestamp`: round
    /// 1 holds `self_peer` alone, and its root event carries its own join.
    pub fn found(&mut self, self_peer: Peer, timestamp: u64) -> (r: bool)
        requires
            old(self).wf(),
        ensures
            final(self).wf(),
            exists|mid: Hashgraph, peers: Peers|
                {
                    &&& peers.wf()
                    &&& peers.self_id == self_peer.id
                    &&& peers.list().len() == 1
                    &&& peers.list()[0]@ == self_peer@
                    &&& #[trigger] crate::hashgraph::bootstrapped(*old(self), peers, mid)
                    &&& submitted(
                        mid,
                        root_view(
                            self_peer.id,
                            Seq::<Seq<u8>>::empty(),
                            seq![
                                crate::internal_txs::PeerTxView {
                                    tx_type: PeerTxType::Join,
                                    peer: self_peer@,
                                },
                            ],
                            timestamp,
                        ),
                        r,
                        *final(self),
                    )
                },
    {
        let ghost pre = *self;
        let id = self_peer.id;
        let mut peers = Peers::new();
        let copy = self_peer.clone();
        peers.add_self(copy);
        let ghost set = peers;
        proof {
            let empty = Seq::<Peer>::empty();
            assert(!crate::peers::has_id(empty, copy.id));
            let p = choose|p: int| 0 <= p <= empty.len() && set.list() == empty.insert(p, copy);
            assert(set.list()[0] == copy);
        }
        self.bootstrap(peers);
        let ghost mid = *self;
        let transactions: Vec<Vec<u8>> = Vec::new();
        let mut internal: Vec<PeerTx> = Vec::new();
        internal.push(PeerTx::new_join(self_peer));
        let event = Event::with_timestamp(0, id, 0, 0, transactions, internal, timestamp);
        let ghost e = event;
        let r = self.insert_event(event);
        proof {
            let v = root_view(
                self_peer.id,
                Seq::<Seq<u8>>::empty(),
                seq![
                    crate::internal_txs::PeerTxView { tx_type: PeerTxType::Join, peer: self_peer@ },
                ],
                timestamp,
            );
            let blank = EventView { hash: 0, round: 0, ..e@ };
            assert(crate::event::event_writes(blank) == crate::event::event_writes(e@));
            assert(e@.transactions =~= Seq::<Seq<u8>>::empty());
            assert(e@.internal_transactions =~= seq![
                crate::internal_txs::PeerTxView { tx_type: PeerTxType::Join, peer: self_peer@ },
            ]);
            assert(e@ == v);
            assert(submitted(mid, v, r, *self));
            assert(set.wf() && set.self_id == self_peer.id && set.list().len() == 1
                && set.list()[0]@ == self_peer@ && crate::hashgraph::bootstrapped(pre, set, mid)
                && submitted(mid, v, r, *self));
        }
        r
    }

    /// Starts a joining node `self_id` from the frame that it was given,
    /// at the time `timestamp`: takes the frame in, then makes its own
    /// root event with the payload `payload`.
    pub fn join(&mut self, frame: &Frame, self_id: u64, payload: Vec<u8>, timestamp: u64) -> (r:
        bool)
        requires
            old(self).wf(),
            forall|t: int| 0 <= t < frame.events@.len() ==> (#[trigger] frame.events@[t]).peers.wf(),
        ensures
            final(self).wf(),
            exists|mid: Hashgraph|
                #[trigger] frame_applied(
                    *old(self),
                    frame.events@,
                    self_id,
                    frame.events@.len() as int,
                    mid,
                ) && submitted(
                    mid,
                    root_view(
                        self_id,
                        seq![payload@],
                        Seq::<PeerTxView>::empty(),
                        timestamp,
                    ),
                    r,
                    *final(self),
                ),
    {
        self.apply_frame(frame, self_id);
        let ghost mid = *self;
        let mut transactions: Vec<Vec<u8>> = Vec::new();
        transactions.push(payload);
        let internal: Vec<PeerTx> = Vec::new();
        let event = Event::with_timestamp(0, self_id, 0, 0, transactions, internal, timestamp);
        let ghost e = event;
        let r = self.insert_event(event);
        proof {
            let blank = EventView { hash: 0, round: 0, ..e@ };
            assert(crate::event::event_writes(blank) == crate::event::event_writes(e@));
            assert(e@.transactions =~= seq![payload@]);
            assert(e@.internal_transactions =~= Seq::<PeerTxView>::empty());
            assert(e@ == root_view(
                self_id,
                seq![payload@],
                Seq::<PeerTxView>::empty(),
                timestamp,
            ));
        }
        r
    }

    /// Draws the peer to gossip with, in the last round's peer set, which
    /// remembers the pick so that the next draw prefers another peer.
    /// None without rounds, or while the node knows no other peer.
    pub fn gossip_partner(&mut self) -> (r: Option<Peer>)
        requires
            old(self).wf(),
        ensures
            final(self).wf(),
            *final(self) == (Hashgraph { rounds: final(self).rounds, ..*old(self) }),
            final(self).rounds@.len() == old(self).rounds@.len(),
            old(self).rounds@.len() == 0 ==> r is None,
            old(self).rounds@.len() > 0 ==> {
                let n = old(self).rounds@.len() - 1;
                let before = old(self).rounds@[n].peers;
                let after = final(self).rounds@[n].peers;
                &&& forall|k: int| 0 <= k < n ==> final(self).rounds@[k] == old(self).rounds@[k]
                &&& final(self).rounds@[n] == (Round { peers: after, ..old(self).rounds@[n] })
                &&& partner_drawn(before, r, after)
            },
    {
        let n = self.rounds.len();
        if n == 0 {
            return None;
        }
        let r = self.rounds[n - 1].peers.get_random();
        proof {
            crate::fame::lemma_same_peers_wf(old(self).rounds@, self.rounds@);
        }
        r
    }

    /// Merges what a pull from the peer `peer_id` brought, at the time
    /// `timestamp`, as the node that the last round names; the answer is
    /// the diff to push back, or none where the merge led to none.
    pub fn gossip_merge(&mut self, peer_id: u64, pulled: EventsDiff, timestamp: u64) -> (r: Option<
        EventsDiff,
    >)
        requires
            old(self).wf(),
        ensures
            final(self).wf(),
            old(self).rounds@.len() == 0 ==> r is None && *final(self) == *old(self),
            old(self).rounds@.len() > 0 ==> exists|merge: Result<EventsDiff, MergeError>|
                #[trigger] crate::author::merge_done(
                    *old(self),
                    old(self).rounds@.last().peers.self_id,
                    peer_id,
                    pulled,
                    timestamp,
                    merge,
                    *final(self),
                ) && match merge {
                    Ok(diff) => r == Some(diff),
                    Err(_) => r is None,
                },
    {
        if self.rounds.len() == 0 {
            return None;
        }
        let self_id = self.self_id();
        let merge = self.merge_events_at(self_id, peer_id, pulled, timestamp);
        match merge {
            Ok(diff) => Some(diff),
            Err(_) => None,
        }
    }
}

} // verus!
