//! Dynamic membership: a decided membership transaction changes the peer
//! set of every round from the third after the round that received it.

use vstd::prelude::*;

use crate::hashgraph::{rounds_wf, Hashgraph};
use crate::internal_txs::{peer_tx_views, PeerTx, PeerTxType, PeerTxView};
use crate::peer::Peer;
use crate::round::Round;

verus! {

/// Whether the peer `id` is a member once the transactions `txs` have been
/// applied in order, having been one or not before: the last transaction
/// that names it decides.
pub open spec fn member_after(txs: Seq<PeerTxView>, id: u64, was: bool) -> bool
    decreases txs.len(),
{
    if txs.len() == 0 {
        was
    } else if txs.last().peer.id == id {
        txs.last().tx_type == PeerTxType::Join
    } else {
        member_after(txs.drop_last(), id, was)
    }
}

/// How many rounds there are once the rounds up to `target` are
/// materialized.
pub open spec fn rounds_through(rounds: Seq<Round>, target: int) -> int {
    if rounds.len() > 0 && rounds.last().id < target <= u64::MAX {
        target - rounds[0].id + 1
    } else {
        rounds.len() as int
    }
}

/// `post` is the round `pre`, or a new empty round that follows on the
/// last round `pre`, with the membership that holds in the round `id`: below
/// `target` that of `pre`, from `target` on that of `pre` changed by `txs`.
pub open spec fn round_with_members(
    pre: Round,
    is_new: bool,
    id: int,
    txs: Seq<PeerTxView>,
    target: int,
    post: Round,
) -> bool {
    &&& post.id == id
    &&& post.peers.wf()
    &&& post.peers.self_id == pre.peers.self_id
    &&& if is_new {
        &&& post.events@.len() == 0
        &&& post.witnesses@.len() == 0
        &&& !post.decided
        &&& !post.purged
    } else {
        post == (Round { peers: post.peers, ..pre })
    }
    &&& if id < target {
        forall|p: u64| #[trigger] post.peers.contains(p) == pre.peers.contains(p)
    } else {
        forall|p: u64| #[trigger]
            post.peers.contains(p) == member_after(txs, p, pre.peers.contains(p))
    }
    &&& (id < target && !is_new) ==> post.peers == pre.peers
    &&& (id < target && is_new) ==> post.peers@ == pre.peers@
    &&& forall|i: int|
        0 <= i < post.peers.list().len() ==> known_peer(
            pre.peers.list(),
            txs,
            #[trigger] post.peers.list()[i],
        )
}

/// The peer `p` is one of the peers `base`, or one that a join of `txs`
/// brought.
pub open spec fn known_peer(base: Seq<Peer>, txs: Seq<PeerTxView>, p: Peer) -> bool {
    (exists|j: int| 0 <= j < base.len() && (#[trigger] base[j])@ == p@) || (exists|j: int|
        0 <= j < txs.len() && (#[trigger] txs[j]).tx_type == PeerTxType::Join && txs[j].peer
            == p@)
}

/// `post` is what the rounds `pre` become when the membership
/// transactions `txs` of an event received in round `received` take
/// effect: the rounds up to the third after `received` are materialized,
/// each new one after the last round before it, and from that third round
/// on every round has its peer set changed by `txs`. Without
/// transactions, or without rounds, nothing changes.
pub open spec fn membership_applied(
    pre: Seq<Round>,
    txs: Seq<PeerTxView>,
    received: u64,
    post: Seq<Round>,
) -> bool {
    if txs.len() == 0 || pre.len() == 0 {
        post == pre
    } else {
        &&& post.len() == rounds_through(pre, received + 3)
        &&& post.len() >= pre.len()
        &&& forall|k: int|
            0 <= k < post.len() ==> round_with_members(
                if k < pre.len() {
                    pre[k]
                } else {
                    pre.last()
                },
                k >= pre.len(),
                pre[0].id + k,
                txs,
                received + 3,
                #[trigger] post[k],
            )
    }
}

proof fn lemma_member_after_step(txs: Seq<PeerTxView>, n: int, id: u64, was: bool)
    requires
        0 <= n < txs.len(),
    ensures
        member_after(txs.take(n + 1), id, was) == if txs[n].peer.id == id {
            txs[n].tx_type == PeerTxType::Join
        } else {
            member_after(txs.take(n), id, was)
        },
{
    assert(txs.take(n + 1).drop_last() =~= txs.take(n));
    assert(txs.take(n + 1).last() == txs[n]);
}

/// A peer known by one list of peers is known by a list of the same value.
proof fn lemma_known_peer_same_views(a: Seq<Peer>, b: Seq<Peer>, txs: Seq<PeerTxView>, q: Peer)
    requires
        crate::peers::peer_views(a) == crate::peers::peer_views(b),
        known_peer(a, txs, q),
    ensures
        known_peer(b, txs, q),
{
    let va = crate::peers::peer_views(a);
    let vb = crate::peers::peer_views(b);
    assert(va.len() == a.len());
    assert(vb.len() == b.len());
    if exists|j: int| 0 <= j < a.len() && (#[trigger] a[j])@ == q@ {
        let j = choose|j: int| 0 <= j < a.len() && (#[trigger] a[j])@ == q@;
        assert(va[j] == a[j]@);
        assert(vb[j] == b[j]@);
        assert(b[j]@ == q@);
    }
}

/// An entry of a peer set that was not there before the peer `peer` was
/// added or removed is `peer`.
proof fn lemma_changed_list(
    before: crate::peers::Peers,
    after: crate::peers::Peers,
    peer: Peer,
    a: int,
)
    requires
        0 <= a < after.list().len(),
        after.list() == before.list() || (exists|p: int|
            0 <= p <= before.list().len() && after.list() == before.list().insert(p, peer))
            || (exists|p: int|
            crate::peers::first_with_id(before.list(), peer.id, p) && after.list()
                == before.list().remove(p)),
        !(exists|b: int| 0 <= b < before.list().len() && before.list()[b] == after.list()[a]),
    ensures
        after.list()[a] == peer,
        exists|p: int|
            0 <= p <= before.list().len() && after.list() == before.list().insert(p, peer),
{
    let was = before.list();
    let now = after.list();
    if now == was {
        assert(was[a] == now[a]);
    } else if exists|p: int| 0 <= p <= was.len() && now == was.insert(p, peer) {
        let p = choose|p: int| 0 <= p <= was.len() && now == was.insert(p, peer);
        if a < p {
            assert(was[a] == now[a]);
        } else if a > p {
            assert(was[a - 1] == now[a]);
        }
    } else {
        let p = choose|p: int|
            crate::peers::first_with_id(was, peer.id, p) && now == was.remove(p);
        if a < p {
            assert(was[a] == now[a]);
        } else {
            assert(was[a + 1] == now[a]);
        }
    }
}

impl Hashgraph {
    /// Materializes the rounds up to `target`, each with the peer set of
    /// the round before it.
    pub fn materialize_through(&mut self, target: u64)
        requires
            old(self).wf(),
            old(self).rounds@.len() > 0,
        ensures
            final(self).wf(),
            *final(self) == (Hashgraph { rounds: final(self).rounds, ..*old(self) }),
            final(self).rounds@.len() == rounds_through(old(self).rounds@, target as int),
            final(self).rounds@.take(old(self).rounds@.len() as int) == old(self).rounds@,
            forall|k: int|
                old(self).rounds@.len() <= k < final(self).rounds@.len() ==> {
                    let r = #[trigger] final(self).rounds@[k];
                    &&& r.peers@ == old(self).rounds@.last().peers@
                    &&& r.events@.len() == 0
                    &&& r.witnesses@.len() == 0
                    &&& !r.decided
                    &&& !r.purged
                },
    {
        let ghost pre = self.rounds@;
        proof {
            assert(pre.last().id == pre[0].id + pre.len() - 1);
            assert(self.rounds@.take(pre.len() as int) =~= pre);
        }
        while self.rounds[self.rounds.len() - 1].id < target
            invariant
                self.wf(),
                pre.len() > 0,
                rounds_wf(pre),
                *self == (Hashgraph { rounds: self.rounds, ..*old(self) }),
                self.rounds@.len() >= pre.len(),
                self.rounds@.take(pre.len() as int) == pre,
                self.rounds@.last().id == pre[0].id + self.rounds@.len() - 1,
                self.rounds@.len() > pre.len() ==> self.rounds@.last().id <= target
                    && pre.last().id < target,
                forall|k: int|
                    pre.len() <= k < self.rounds@.len() ==> {
                        let r = #[trigger] self.rounds@[k];
                        &&& r.peers@ == pre.last().peers@
                        &&& r.events@.len() == 0
                        &&& r.witnesses@.len() == 0
                        &&& !r.decided
                        &&& !r.purged
                    },
            decreases target - self.rounds@.last().id,
        {
            let n = self.rounds.len();
            let last = &self.rounds[n - 1];
            let mut round = Round::new(last.id + 1);
            round.peers = last.peers.clone();
            let ghost before = self.rounds@;
            proof {
                assert(before[n - 1].peers.wf());
                if n > pre.len() {
                    assert(before[n - 1].peers@ == pre.last().peers@);
                } else {
                    assert(before[n - 1] == before.take(pre.len() as int)[n - 1]);
                }
            }
            self.rounds.push(round);
            proof {
                assert(self.rounds@.take(pre.len() as int) =~= before.take(pre.len() as int));
                assert forall|j: int| 0 <= j < self.rounds@.len() implies (
                #[trigger] self.rounds@[j]).id == self.rounds@[0].id + j by {
                    if j < n {
                        assert(before[j].id == before[0].id + j);
                    }
                    assert(before[0] == before.take(pre.len() as int)[0]);
                }
                assert forall|j: int| 0 <= j < self.rounds@.len() implies (
                #[trigger] self.rounds@[j]).peers.wf() by {
                    if j < n {
                        assert(before[j].peers.wf());
                    }
                }
            }
        }
    }

    /// Lets the membership transactions `txs` of an event received in
    /// round `received` take effect.
    pub fn apply_membership(&mut self, txs: &Vec<PeerTx>, received: u64)
        requires
            old(self).wf(),
        ensures
            final(self).wf(),
            *final(self) == (Hashgraph { rounds: final(self).rounds, ..*old(self) }),
            membership_applied(
                old(self).rounds@,
                peer_tx_views(txs@),
                received,
                final(self).rounds@,
            ),
    {
        if txs.len() == 0 || self.rounds.len() == 0 {
            return ;
        }
        let ghost pre = self.rounds@;
        let ghost views = peer_tx_views(txs@);
        proof {
            assert(pre.last().id == pre[0].id + pre.len() - 1);
        }
        if received > u64::MAX - 3 {
            proof {
                assert forall|k: int| 0 <= k < pre.len() implies round_with_members(
                    pre[k],
                    false,
                    pre[0].id + k,
                    views,
                    received + 3,
                    #[trigger] pre[k],
                ) by {
                    assert(pre[k].id == pre[0].id + k);
                    assert(pre[k].peers.wf());
                    assert forall|i: int| 0 <= i < pre[k].peers.list().len() implies known_peer(
                        pre[k].peers.list(),
                        views,
                        #[trigger] pre[k].peers.list()[i],
                    ) by {
                        assert(pre[k].peers.list()[i]@ == pre[k].peers.list()[i]@);
                    }
                }
            }
            return ;
        }
        let target = received + 3;
        self.materialize_through(target);
        let ghost mid = self.rounds@;
        proof {
            assert(mid[0] == mid.take(pre.len() as int)[0]);
        }
        let mut k: usize = 0;
        while k < self.rounds.len()
            invariant
                self.wf(),
                rounds_wf(mid),
                rounds_wf(pre),
                pre.len() > 0,
                target == received + 3,
                views == peer_tx_views(txs@),
                *self == (Hashgraph { rounds: self.rounds, ..*old(self) }),
                mid.len() == rounds_through(pre, target as int),
                mid.take(pre.len() as int) == pre,
                mid.len() >= pre.len(),
                self.rounds@.len() == mid.len(),
                k <= mid.len(),
                forall|j: int| k <= j < mid.len() ==> #[trigger] self.rounds@[j] == mid[j],
                forall|j: int|
                    pre.len() <= j < mid.len() ==> {
                        let r = #[trigger] mid[j];
                        &&& r.peers@ == pre.last().peers@
                        &&& r.events@.len() == 0
                        &&& r.witnesses@.len() == 0
                        &&& !r.decided
                        &&& !r.purged
                    },
                forall|j: int|
                    0 <= j < k ==> round_with_members(
                        if j < pre.len() {
                            pre[j]
                        } else {
                            pre.last()
                        },
                        j >= pre.len(),
                        pre[0].id + j,
                        views,
                        target as int,
                        #[trigger] self.rounds@[j],
                    ),
            decreases mid.len() - k,
        {
            let ghost base = mid[k as int];
            let ghost snap = self.rounds@;
            proof {
                assert(self.rounds@[k as int] == mid[k as int]);
                assert(mid[k as int].id == mid[0].id + k);
                assert(mid[0] == mid.take(pre.len() as int)[0]);
                assert(mid[k as int].peers.wf());
                if k < pre.len() {
                    assert(mid[k as int] == mid.take(pre.len() as int)[k as int]);
                }
                assert(views.take(0) =~= Seq::<PeerTxView>::empty());
            }
            proof {
                assert forall|a: int| 0 <= a < base.peers.list().len() implies known_peer(
                    base.peers.list(),
                    views,
                    #[trigger] base.peers.list()[a],
                ) by {
                    assert(base.peers.list()[a]@ == base.peers.list()[a]@);
                }
            }
            if self.rounds[k].id >= target {
                let mut i: usize = 0;
                while i < txs.len()
                    invariant
                        i <= txs@.len(),
                        views == peer_tx_views(txs@),
                        k < self.rounds@.len(),
                        self.rounds@.len() == mid.len(),
                        rounds_wf(mid),
                        *self == (Hashgraph { rounds: self.rounds, ..*old(self) }),
                        snap.len() == mid.len(),
                        forall|j: int|
                            0 <= j < mid.len() && j != k ==> #[trigger] self.rounds@[j] == snap[j],
                        self.events.wf(),
                        self.rounds@[k as int] == (Round {
                            peers: self.rounds@[k as int].peers,
                            ..base
                        }),
                        self.rounds@[k as int].peers.wf(),
                        self.rounds@[k as int].peers.self_id == base.peers.self_id,
                        forall|p: u64| #[trigger]
                            self.rounds@[k as int].peers.contains(p) == member_after(
                                views.take(i as int),
                                p,
                                base.peers.contains(p),
                            ),
                        forall|a: int|
                            0 <= a < self.rounds@[k as int].peers.list().len() ==> known_peer(
                                base.peers.list(),
                                views,
                                #[trigger] self.rounds@[k as int].peers.list()[a],
                            ),
                    decreases txs@.len() - i,
                {
                    let tx = &txs[i];
                    let peer = tx.peer.clone();
                    let ghost before = self.rounds@[k as int].peers;
                    match tx.tx_type {
                        PeerTxType::Join => {
                            self.rounds[k].peers.add(peer);
                        },
                        PeerTxType::Leave => {
                            self.rounds[k].peers.remove(peer);
                        },
                    }
                    proof {
                        assert(peer.id == tx.peer.id);
                        let now = self.rounds@[k as int].peers.list();
                        assert forall|a: int| 0 <= a < now.len() implies known_peer(
                            base.peers.list(),
                            views,
                            #[trigger] now[a],
                        ) by {
                            let was = before.list();
                            if exists|b: int| 0 <= b < was.len() && was[b] == now[a] {
                                let b = choose|b: int| 0 <= b < was.len() && was[b] == now[a];
                                assert(known_peer(base.peers.list(), views, was[b]));
                            } else {
                                lemma_changed_list(before, self.rounds@[k as int].peers, peer, a);
                                assert(now[a] == peer);
                                assert(tx.tx_type == PeerTxType::Join);
                                assert(views[i as int].tx_type == PeerTxType::Join && views[i as int].peer
                                    == peer@);
                            }
                        }
                        assert forall|p: u64| #[trigger]
                            self.rounds@[k as int].peers.contains(p) == member_after(
                                views.take(i + 1),
                                p,
                                base.peers.contains(p),
                            ) by {
                            lemma_member_after_step(views, i as int, p, base.peers.contains(p));
                            assert(views[i as int] == txs@[i as int]@);
                            assert(before.contains(p) == member_after(
                                views.take(i as int),
                                p,
                                base.peers.contains(p),
                            ));
                        }
                    }
                    i += 1;
                }
                proof {
                    assert(views.take(txs@.len() as int) =~= views);
                }
            }
            proof {
                let r = self.rounds@[k as int];
                assert forall|j: int| 0 <= j < self.rounds@.len() implies self.rounds@[j].id
                    == snap[j].id && self.rounds@[j].peers.wf() by {
                    if j != k {
                        assert(self.rounds@[j] == snap[j]);
                    }
                    assert(snap[j].peers.wf());
                }
                assert forall|j: int| 0 <= j < self.rounds@.len() implies (
                #[trigger] self.rounds@[j]).id == self.rounds@[0].id + j by {
                    assert(snap[j].id == snap[0].id + j);
                }
                assert forall|j: int| k < j < mid.len() implies #[trigger] self.rounds@[j]
                    == mid[j] by {
                    assert(self.rounds@[j] == snap[j]);
                }
                assert forall|j: int| 0 <= j < k implies round_with_members(
                    if j < pre.len() {
                        pre[j]
                    } else {
                        pre.last()
                    },
                    j >= pre.len(),
                    pre[0].id + j,
                    views,
                    target as int,
                    #[trigger] self.rounds@[j],
                ) by {
                    assert(self.rounds@[j] == snap[j]);
                }
                if k >= pre.len() {
                    assert forall|a: int| 0 <= a < r.peers.list().len() implies known_peer(
                        pre.last().peers.list(),
                        views,
                        #[trigger] r.peers.list()[a],
                    ) by {
                        lemma_known_peer_same_views(
                            base.peers.list(),
                            pre.last().peers.list(),
                            views,
                            r.peers.list()[a],
                        );
                    }
                    assert(base.peers@ == pre.last().peers@);
                    assert forall|p: u64| base.peers.contains(p) == pre.last().peers.contains(p) by {
                        crate::peers::lemma_same_views_same_ids(base.peers, pre.last().peers, p);
                    }
                    assert(base.peers.self_id == pre.last().peers.self_id);
                }
            }
            k += 1;
        }
        proof {
            assert(self.rounds@.len() == rounds_through(pre, received + 3));
        }
    }
}

} // verus!
