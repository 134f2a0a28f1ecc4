use vstd::prelude::*;
use rand::rngs::OsRng;
use rand::RngCore;

use crate::peer::{Peer, PeerView};

verus! {

/// Smallest number of peers, out of `n`, that is more than two thirds of them.
pub open spec fn super_majority_of(n: nat) -> nat {
    2 * n / 3 + 1
}

/// The ids of a list of peers, in order.
pub open spec fn ids_of(s: Seq<Peer>) -> Seq<u64> {
    Seq::new(s.len(), |i: int| s[i].id)
}

/// The values of a list of peers, in order.
pub open spec fn peer_views(s: Seq<Peer>) -> Seq<PeerView> {
    Seq::new(s.len(), |i: int| s[i]@)
}

/// Ids grow strictly along the list, so no id occurs twice.
pub open spec fn strictly_sorted(s: Seq<Peer>) -> bool {
    forall|i: int, j: int| 0 <= i < j < s.len() ==> s[i].id < s[j].id
}

/// Whether a peer with this id is in the list.
pub open spec fn has_id(s: Seq<Peer>, id: u64) -> bool {
    exists|i: int| 0 <= i < s.len() && s[i].id == id
}

/// `i` is the first place of `s` that holds a peer with this id.
pub open spec fn first_with_id(s: Seq<Peer>, id: u64, i: int) -> bool {
    &&& 0 <= i < s.len()
    &&& s[i].id == id
    &&& forall|j: int| 0 <= j < i ==> s[j].id != id
}

/// `p` is a copy of the first peer of `s` that has its id.
pub open spec fn is_entry(s: Seq<Peer>, p: Peer) -> bool {
    exists|i: int| first_with_id(s, p.id, i) && p@ == s[i]@
}

/// `i` is the first place of `s` that holds a peer with this address.
pub open spec fn first_with_address(s: Seq<Peer>, address: Seq<char>, i: int) -> bool {
    &&& 0 <= i < s.len()
    &&& s[i].address@ == address
    &&& forall|j: int| 0 <= j < i ==> s[j].address@ != address
}

/// `ids` without every occurrence of `id`, order kept.
pub open spec fn without_id(ids: Seq<u64>, id: u64) -> Seq<u64>
    decreases ids.len(),
{
    if ids.len() == 0 {
        Seq::empty()
    } else if ids.last() == id {
        without_id(ids.drop_last(), id)
    } else {
        without_id(ids.drop_last(), id).push(ids.last())
    }
}

/// The ids a gossip partner is drawn from: every peer but oneself and, where
/// three or more peers are known and that leaves anyone, but the peer drawn
/// last time (`last_peer`, 0 for none).
pub open spec fn candidates(ids: Seq<u64>, self_id: u64, last_peer: u64) -> Seq<u64> {
    let others = without_id(ids, self_id);
    let fresh = without_id(others, last_peer);
    if ids.len() > 2 && last_peer != 0 && fresh.len() > 0 {
        fresh
    } else {
        others
    }
}

/// What is left without `id` are the other numbers of the list, all of them.
pub proof fn lemma_without_id_members(ids: Seq<u64>, id: u64)
    ensures
        without_id(ids, id).len() <= ids.len(),
        forall|k: int| 0 <= k < without_id(ids, id).len() ==> #[trigger] without_id(ids, id)[k] != id
            && ids.contains(without_id(ids, id)[k]),
        forall|k: int| 0 <= k < ids.len() && ids[k] != id ==> without_id(ids, id).contains(#[trigger] ids[k]),
    decreases ids.len(),
{
    if ids.len() > 0 {
        let front = ids.drop_last();
        lemma_without_id_members(front, id);
        let w = without_id(ids, id);
        let wf = without_id(front, id);
        assert forall|k: int| 0 <= k < w.len() implies #[trigger] w[k] != id && ids.contains(w[k]) by {
            if k < wf.len() {
                assert(w[k] == wf[k]);
                let m = choose|m: int| 0 <= m < front.len() && front[m] == wf[k];
                assert(ids[m] == wf[k]);
            } else {
                assert(w[k] == ids.last());
                assert(ids[ids.len() - 1] == w[k]);
            }
        }
        assert forall|k: int| 0 <= k < ids.len() && ids[k] != id implies w.contains(#[trigger] ids[k]) by {
            if k < front.len() {
                assert(front[k] == ids[k]);
                let m = choose|m: int| 0 <= m < wf.len() && wf[m] == front[k];
                assert(w[m] == ids[k]);
            } else {
                assert(w[w.len() - 1] == ids[k]);
            }
        }
    }
}

/// The peers of one epoch, ordered by id, with the id of the local node.
#[derive(Debug)]
pub struct Peers {
    pub self_id: u64,
    pub super_majority: u64,
    pub peers: Vec<Peer>,
    pub last_peer: u64,
}

/// Mathematical value of a [`Peers`].
pub struct PeersView {
    pub self_id: u64,
    pub super_majority: u64,
    pub members: Seq<PeerView>,
    pub last_peer: u64,
}

impl View for Peers {
    type V = PeersView;

    open spec fn view(&self) -> PeersView {
        PeersView {
            self_id: self.self_id,
            super_majority: self.super_majority,
            members: peer_views(self.peers@),
            last_peer: self.last_peer,
        }
    }
}

impl Clone for Peers {
    fn clone(&self) -> (r: Self)
        ensures
            r@ == self@,
            r.wf() == self.wf(),
            r.ids() == self.ids(),
    {
        let mut peers: Vec<Peer> = Vec::new();
        let mut i: usize = 0;
        while i < self.peers.len()
            invariant
                i <= self.peers.len(),
                peers.len() == i,
                forall|k: int| 0 <= k < i ==> peers[k]@ == self.peers[k]@,
            decreases self.peers.len() - i,
        {
            peers.push(self.peers[i].clone());
            i += 1;
        }
        let r = Peers {
            self_id: self.self_id,
            super_majority: self.super_majority,
            peers,
            last_peer: self.last_peer,
        };
        proof {
            assert(peer_views(r.peers@) =~= peer_views(self.peers@));
            assert forall|k: int| 0 <= k < r.peers.len() implies r.peers[k].id == self.peers[k].id by {
                assert(r.peers[k]@ == self.peers[k]@);
            }
            assert(r.ids() =~= self.ids());
            if self.wf() {
                assert forall|a: int, b: int| 0 <= a < b < r.peers@.len() implies r.peers@[a].id
                    < r.peers@[b].id by {
                    assert(self.peers@[a].id < self.peers@[b].id);
                }
            }
            if r.wf() {
                assert forall|a: int, b: int| 0 <= a < b < self.peers@.len() implies self.peers@[a].id
                    < self.peers@[b].id by {
                    assert(r.peers@[a].id < r.peers@[b].id);
                }
            }
        }
        r
    }
}

impl Default for Peers {
    /// A peer set without peers.
    fn default() -> (r: Peers)
        ensures
            r.wf(),
            r.list().len() == 0,
            r.self_id == 0,
            r.last_picked() == 0,
    {
        Peers::new()
    }
}

/// `2 * n / 3 + 1`, computed without leaving the machine's range.
fn super_majority_for(n: usize) -> (r: u64)
    ensures
        r == super_majority_of(n as nat),
{
    let q: u64 = (n / 3) as u64;
    let m: u64 = (n % 3) as u64;
    2 * q + (2 * m) / 3 + 1
}

impl Peers {
    /// The peers in order of id.
    pub open spec fn list(&self) -> Seq<Peer> {
        self.peers@
    }

    /// The ids of the peers, in order.
    pub open spec fn ids(&self) -> Seq<u64> {
        ids_of(self.peers@)
    }

    /// The id of the peer that was last drawn as gossip partner, 0 for none.
    pub open spec fn last_picked(&self) -> u64 {
        self.last_peer
    }

    /// Whether a peer with this id is present.
    pub open spec fn contains(&self, id: u64) -> bool {
        has_id(self.peers@, id)
    }

    /// Ordered by id without repetition, and the stored threshold is the
    /// super-majority of the current size.
    pub open spec fn wf(&self) -> bool {
        &&& strictly_sorted(self.peers@)
        &&& self.super_majority == super_majority_of(self.peers@.len())
    }

    /// A peer set without peers.
    pub fn new() -> (r: Peers)
        ensures
            r.wf(),
            r.list().len() == 0,
            r.self_id == 0,
            r.last_picked() == 0,
    {
        Peers { self_id: 0, super_majority: 1, peers: Vec::new(), last_peer: 0 }
    }

    /// Makes `peer` the local node and adds it.
    pub fn add_self(&mut self, peer: Peer)
        requires
            old(self).wf(),
        ensures
            final(self).wf(),
            final(self).self_id == peer.id,
            final(self).last_picked() == old(self).last_picked(),
            old(self).contains(peer.id) ==> final(self).list() == old(self).list(),
            !old(self).contains(peer.id) ==> exists|p: int|
                0 <= p <= old(self).list().len() && final(self).list() == old(self).list().insert(
                    p,
                    peer,
                ),
    {
        self.self_id = peer.id;
        let ghost before = self.peers@;
        self.add(peer);
        proof {
            if !has_id(before, peer.id) {
                let p = choose|p: int| 0 <= p <= before.len() && self.list() == before.insert(p, peer);
                assert(0 <= p <= old(self).list().len() && self.list() == old(self).list().insert(
                    p,
                    peer,
                ));
            }
        }
    }

    /// Adds `peer` unless a peer with its id is present; the order by id
    /// decides its place.
    pub fn add(&mut self, peer: Peer)
        requires
            old(self).wf(),
        ensures
            final(self).wf(),
            final(self).self_id == old(self).self_id,
            final(self).last_picked() == old(self).last_picked(),
            forall|id: u64|
                #[trigger] final(self).contains(id) == (old(self).contains(id) || id == peer.id),
            old(self).contains(peer.id) ==> final(self).list() == old(self).list(),
            !old(self).contains(peer.id) ==> exists|p: int|
                0 <= p <= old(self).list().len() && final(self).list() == old(self).list().insert(
                    p,
                    peer,
                ),
    {
        let mut i: usize = 0;
        while i < self.peers.len() && self.peers[i].id < peer.id
            invariant
                i <= self.peers.len(),
                *self == *old(self),
                forall|k: int| 0 <= k < i ==> self.peers[k].id < peer.id,
            decreases self.peers.len() - i,
        {
            i += 1;
        }
        if i < self.peers.len() && self.peers[i].id == peer.id {
            return ;
        }
        let ghost before = self.peers@;
        proof {
            assert forall|k: int| 0 <= k < self.peers.len() implies self.peers[k].id != peer.id by {
                if k >= i {
                    assert(self.peers[i as int].id <= self.peers[k].id);
                }
            }
        }
        self.peers.insert(i, peer);
        self.super_majority = super_majority_for(self.peers.len());
        proof {
            assert(self.peers@ == before.insert(i as int, peer));
            assert forall|a: int, b: int| 0 <= a < b < self.peers@.len() implies self.peers@[a].id
                < self.peers@[b].id by {
                let a0 = if a < i { a } else { a - 1 };
                let b0 = if b < i { b } else { b - 1 };
                if a != i && b != i {
                    assert(before[a0].id < before[b0].id);
                } else if a == i {
                    assert(before[i as int].id <= before[b0].id);
                }
            }
            assert(0 <= i <= old(self).list().len() && self.list() == old(self).list().insert(
                i as int,
                peer,
            ));
            assert forall|id: u64|
                #[trigger] self.contains(id) == (old(self).contains(id) || id == peer.id) by {
                lemma_has_id_insert(before, i as int, peer, id);
            }
        }
    }

    /// Removes the peer with the id of `peer`, if it is present.
    pub fn remove(&mut self, peer: Peer)
        requires
            old(self).wf(),
        ensures
            final(self).wf(),
            final(self).self_id == old(self).self_id,
            final(self).last_picked() == old(self).last_picked(),
            forall|id: u64|
                #[trigger] final(self).contains(id) == (old(self).contains(id) && id != peer.id),
            !old(self).contains(peer.id) ==> final(self).list() == old(self).list(),
            old(self).contains(peer.id) ==> exists|p: int|
                first_with_id(old(self).list(), peer.id, p) && final(self).list() == old(
                    self,
                ).list().remove(p),
    {
        let found = self.position(peer.id);
        match found {
            None => {},
            Some(p) => {
                let ghost before = self.peers@;
                self.peers.remove(p);
                self.super_majority = super_majority_for(self.peers.len());
                proof {
                    assert(self.peers@ == before.remove(p as int));
                    assert forall|a: int, b: int|
                        0 <= a < b < self.peers@.len() implies self.peers@[a].id
                        < self.peers@[b].id by {
                        let a0 = if a < p { a } else { a + 1 };
                        let b0 = if b < p { b } else { b + 1 };
                        assert(before[a0].id < before[b0].id);
                    }
                    assert forall|id: u64|
                        #[trigger] self.contains(id) == (has_id(before, id) && id != peer.id) by {
                        let t = self.peers@;
                        if has_id(t, id) {
                            let k = choose|k: int| 0 <= k < t.len() && t[k].id == id;
                            let k0 = if k < p { k } else { k + 1 };
                            assert(before[k0].id == id);
                            if k0 < p {
                                assert(before[k0].id < before[p as int].id);
                            } else {
                                assert(before[p as int].id < before[k0].id);
                            }
                        }
                        if has_id(before, id) && id != peer.id {
                            let k = choose|k: int| 0 <= k < before.len() && before[k].id == id;
                            if k < p {
                                assert(t[k].id == id);
                            } else {
                                assert(t[k - 1].id == id);
                            }
                        }
                    }
                }
            },
        }
    }

    /// The first place that holds a peer with this id.
    pub fn position(&self, id: u64) -> (r: Option<usize>)
        ensures
            r.is_some() == self.contains(id),
            r.is_some() ==> first_with_id(self.list(), id, r.unwrap() as int),
    {
        let mut i: usize = 0;
        while i < self.peers.len()
            invariant
                i <= self.peers.len(),
                forall|k: int| 0 <= k < i ==> self.peers[k].id != id,
            decreases self.peers.len() - i,
        {
            if self.peers[i].id == id {
                return Some(i);
            }
            i += 1;
        }
        None
    }

    /// Whether a peer with this id is present.
    pub fn has(&self, id: u64) -> (r: bool)
        ensures
            r == self.contains(id),
    {
        self.position(id).is_some()
    }

    /// A copy of the peer with this id.
    pub fn get_by_id(self, id: u64) -> (r: Option<Peer>)
        ensures
            r.is_some() == self.contains(id),
            r.is_some() ==> exists|i: int|
                first_with_id(self.list(), id, i) && r.unwrap()@ == self.list()[i]@,
    {
        match self.position(id) {
            Some(i) => Some(self.peers[i].clone()),
            None => None,
        }
    }

    /// The first peer, in order of id, that listens on `addr`.
    pub fn get_by_socket_addr(&self, addr: &String) -> (r: Option<Peer>)
        ensures
            r.is_some() == (exists|i: int| 0 <= i < self.list().len() && self.list()[i].address@ == addr@),
            r.is_some() ==> exists|i: int|
                first_with_address(self.list(), addr@, i) && r.unwrap()@ == self.list()[i]@,
    {
        let mut i: usize = 0;
        while i < self.peers.len()
            invariant
                i <= self.peers.len(),
                forall|k: int| 0 <= k < i ==> self.peers[k].address@ != addr@,
            decreases self.peers.len() - i,
        {
            if self.peers[i].address == *addr {
                assert(first_with_address(self.list(), addr@, i as int));
                return Some(self.peers[i].clone());
            }
            i += 1;
        }
        None
    }

    /// A copy of the local node's peer.
    pub fn get_self(self) -> (r: Option<Peer>)
        ensures
            r.is_some() == self.contains(self.self_id),
            r.is_some() ==> exists|i: int|
                first_with_id(self.list(), self.self_id, i) && r.unwrap()@ == self.list()[i]@,
    {
        let id = self.self_id;
        self.get_by_id(id)
    }

    /// The ids a gossip partner is drawn from.
    pub open spec fn pool(&self) -> Seq<u64> {
        candidates(self.ids(), self.self_id, self.last_picked())
    }

    /// A gossip partner can be drawn: more than one peer is known, and one
    /// of them is a candidate.
    pub open spec fn can_draw(&self) -> bool {
        self.list().len() > 1 && self.pool().len() > 0
    }

    /// The ids of the peers other than `id`, in order.
    fn peers_without(&self, id: u64) -> (r: Vec<u64>)
        ensures
            r@ == without_id(self.ids(), id),
    {
        let mut r: Vec<u64> = Vec::new();
        let mut i: usize = 0;
        while i < self.peers.len()
            invariant
                i <= self.peers.len(),
                r@ == without_id(self.ids().take(i as int), id),
            decreases self.peers.len() - i,
        {
            proof {
                assert(self.ids().take(i + 1).drop_last() =~= self.ids().take(i as int));
            }
            if self.peers[i].id != id {
                r.push(self.peers[i].id);
            }
            i += 1;
        }
        proof {
            assert(self.ids().take(self.peers.len() as int) =~= self.ids());
        }
        r
    }

    /// The ids a gossip partner is drawn from.
    fn candidate_ids(&self) -> (pool: Vec<u64>)
        ensures
            pool@ == candidates(self.ids(), self.self_id, self.last_picked()),
    {
        let others = self.peers_without(self.self_id);
        if self.peers.len() > 2 && self.last_peer != 0 {
            let mut fresh: Vec<u64> = Vec::new();
            let mut i: usize = 0;
            while i < others.len()
                invariant
                    i <= others.len(),
                    fresh@ == without_id(others@.take(i as int), self.last_peer),
                decreases others.len() - i,
            {
                proof {
                    assert(others@.take(i + 1).drop_last() =~= others@.take(i as int));
                }
                if others[i] != self.last_peer {
                    fresh.push(others[i]);
                }
                i += 1;
            }
            proof {
                assert(others@.take(others.len() as int) =~= others@);
            }
            if fresh.len() > 0 {
                return fresh;
            }
        }
        others
    }

    /// Draws the gossip partner that the number `draw` selects among the
    /// candidates, and remembers it as the peer drawn last.
    pub fn choose_peer(&mut self, draw: u64) -> (r: Option<Peer>)
        ensures
            final(self).list() == old(self).list(),
            final(self).self_id == old(self).self_id,
            final(self).super_majority == old(self).super_majority,
            r.is_some() == old(self).can_draw(),
            r.is_none() ==> final(self).last_picked() == old(self).last_picked(),
            r.is_some() ==> r.unwrap().id == old(self).pool()[(draw as int) % (old(self).pool().len() as int)],
            r.is_some() ==> final(self).last_picked() == r.unwrap().id,
            r.is_some() ==> is_entry(old(self).list(), r.unwrap()),
    {
        if self.peers.len() <= 1 {
            return None;
        }
        let pool = self.candidate_ids();
        if pool.len() == 0 {
            return None;
        }
        let n: u64 = pool.len() as u64;
        let id = pool[(draw % n) as usize];
        proof {
            let ids = self.ids();
            lemma_without_id_members(ids, self.self_id);
            lemma_without_id_members(without_id(ids, self.self_id), self.last_peer);
            assert(ids.contains(id));
            let m = choose|m: int| 0 <= m < ids.len() && ids[m] == id;
            assert(self.peers@[m].id == id);
        }
        let found = self.position(id);
        let peer = self.peers[found.unwrap()].clone();
        self.last_peer = id;
        proof {
            assert((draw % n) as int == (draw as int) % (pool@.len() as int));
            assert(peer@ == old(self).list()[found.unwrap() as int]@);
            assert(first_with_id(old(self).list(), peer.id, found.unwrap() as int));
            assert(is_entry(old(self).list(), peer));
        }
        Some(peer)
    }

    /// Draws a gossip partner at random: none while nobody can be drawn,
    /// or where the random source fails; else the candidate that
    /// [`Peers::choose_peer`] picks for the number drawn.
    pub fn get_random(&mut self) -> (r: Option<Peer>)
        ensures
            final(self).list() == old(self).list(),
            final(self).self_id == old(self).self_id,
            final(self).super_majority == old(self).super_majority,
            !old(self).can_draw() ==> r.is_none(),
            r.is_none() ==> final(self).last_picked() == old(self).last_picked(),
            r.is_some() ==> old(self).pool().contains(r.unwrap().id),
            r.is_some() ==> final(self).last_picked() == r.unwrap().id,
            r.is_some() ==> is_entry(old(self).list(), r.unwrap()),
    {
        let draw = match random_u64() {
            Some(draw) => draw,
            None => {
                return None;
            },
        };
        let ghost c = self.pool();
        proof {
            if c.len() > 0 {
                assert(0 <= (draw as int) % (c.len() as int) < c.len()) by (nonlinear_arith)
                    requires
                        c.len() > 0,
                        draw >= 0,
                ;
            }
        }
        self.choose_peer(draw)
    }

    /// How many peers there are.
    pub fn len(&self) -> (n: usize)
        ensures
            n == self.list().len(),
    {
        self.peers.len()
    }

    /// Adds every peer of `peers` that is not present yet.
    pub fn merge(&mut self, peers: Peers)
        requires
            old(self).wf(),
            peers.wf(),
        ensures
            final(self).wf(),
            final(self).self_id == old(self).self_id,
            final(self).last_picked() == old(self).last_picked(),
            forall|id: u64|
                final(self).contains(id) == (old(self).contains(id) || peers.contains(id)),
            forall|i: int|
                0 <= i < old(self).list().len() ==> final(self).list().contains(
                    #[trigger] old(self).list()[i],
                ),
            forall|i: int|
                0 <= i < final(self).list().len() ==> old(self).list().contains(
                    #[trigger] final(self).list()[i],
                ) || peers.list().contains(final(self).list()[i]),
    {
        let Peers { self_id: _, super_majority: _, peers: mut incoming, last_peer: _ } = peers;
        let ghost source = incoming@;
        // The incoming peers are taken from the back, so each is moved
        // rather than copied.
        while incoming.len() > 0
            invariant
                self.wf(),
                self.self_id == old(self).self_id,
                self.last_picked() == old(self).last_picked(),
                incoming@ == source.take(incoming.len() as int),
                incoming.len() <= source.len(),
                forall|id: u64| #[trigger]
                    has_id(self.peers@, id) == (has_id(old(self).peers@, id) || has_id(
                        source.skip(incoming.len() as int),
                        id,
                    )),
                forall|i: int|
                    0 <= i < old(self).list().len() ==> self.list().contains(
                        #[trigger] old(self).list()[i],
                    ),
                forall|i: int|
                    0 <= i < self.list().len() ==> old(self).list().contains(
                        #[trigger] self.list()[i],
                    ) || exists|k: int|
                        incoming.len() <= k < source.len() && source[k] == self.list()[i],
            decreases incoming.len(),
        {
            let ghost n = incoming.len() as int;
            let ghost before = self.peers@;
            let peer = incoming.pop().unwrap();
            assert(peer == source[n - 1]);
            let ghost was = self.contains(peer.id);
            self.add(peer);
            proof {
                let tail = source.skip(n - 1);
                assert forall|id: u64| #[trigger]
                    has_id(self.peers@, id) == (has_id(old(self).peers@, id) || has_id(tail, id)) by {
                    assert(has_id(before, id) == (has_id(old(self).peers@, id) || has_id(
                        source.skip(n),
                        id,
                    )));
                    lemma_has_id_skip(source, n, id);
                    if !was {
                        let p = choose|p: int|
                            0 <= p <= before.len() && self.peers@ == before.insert(p, peer);
                        lemma_has_id_insert(before, p, peer, id);
                    }
                }
                if !was {
                    let p = choose|p: int|
                        0 <= p <= before.len() && self.peers@ == before.insert(p, peer);
                    assert forall|i: int| 0 <= i < before.len() implies self.peers@.contains(
                        #[trigger] before[i],
                    ) by {
                        if i < p {
                            assert(self.peers@[i] == before[i]);
                        } else {
                            assert(self.peers@[i + 1] == before[i]);
                        }
                    }
                    assert forall|i: int| 0 <= i < self.peers@.len() implies before.contains(
                        #[trigger] self.peers@[i],
                    ) || self.peers@[i] == peer by {
                        if i < p {
                            assert(self.peers@[i] == before[i]);
                        } else if i > p {
                            assert(self.peers@[i] == before[i - 1]);
                        }
                    }
                }
                assert forall|i: int| 0 <= i < old(self).list().len() implies self.list().contains(
                    #[trigger] old(self).list()[i],
                ) by {
                    assert(before.contains(old(self).list()[i]));
                    let k = choose|k: int| 0 <= k < before.len() && before[k] == old(self).list()[i];
                    assert(self.peers@.contains(before[k]));
                }
                assert forall|i: int| 0 <= i < self.list().len() implies old(self).list().contains(
                    #[trigger] self.list()[i],
                ) || exists|k: int| n - 1 <= k < source.len() && source[k] == self.list()[i] by {
                    let x = self.list()[i];
                    if before.contains(x) {
                        let k = choose|k: int| 0 <= k < before.len() && before[k] == x;
                        assert(before[k] == x);
                    } else {
                        assert(x == peer);
                        assert(source[n - 1] == x);
                    }
                }
            }
        }
        proof {
            assert(source.skip(0) =~= source);
        }
    }

    /// The peers in order of id.
    pub fn get_peers(self) -> (r: Vec<Peer>)
        ensures
            r@ == self.list(),
    {
        self.peers
    }
}

/// Peer sets with the same value hold the same ids.
pub proof fn lemma_same_views_same_ids(a: Peers, b: Peers, id: u64)
    requires
        a@ == b@,
    ensures
        a.contains(id) == b.contains(id),
{
    let va = peer_views(a.peers@);
    let vb = peer_views(b.peers@);
    assert(va == vb);
    assert(va.len() == a.peers@.len());
    assert(vb.len() == b.peers@.len());
    if a.contains(id) {
        let i = choose|i: int| 0 <= i < a.peers@.len() && a.peers@[i].id == id;
        assert(va[i] == a.peers@[i]@);
        assert(vb[i] == b.peers@[i]@);
        assert(b.peers@[i].id == id);
    }
    if b.contains(id) {
        let i = choose|i: int| 0 <= i < b.peers@.len() && b.peers@[i].id == id;
        assert(va[i] == a.peers@[i]@);
        assert(vb[i] == b.peers@[i]@);
        assert(a.peers@[i].id == id);
    }
}

/// A list with one more peer holds the ids that it held, and that peer's.
pub proof fn lemma_has_id_insert(s: Seq<Peer>, p: int, x: Peer, id: u64)
    requires
        0 <= p <= s.len(),
    ensures
        has_id(s.insert(p, x), id) == (has_id(s, id) || x.id == id),
{
    let t = s.insert(p, x);
    if has_id(s, id) {
        let k = choose|k: int| 0 <= k < s.len() && s[k].id == id;
        if k < p {
            assert(t[k].id == id);
        } else {
            assert(t[k + 1].id == id);
        }
    }
    if x.id == id {
        assert(t[p].id == id);
    }
    if has_id(t, id) {
        let k = choose|k: int| 0 <= k < t.len() && t[k].id == id;
        if k < p {
            assert(s[k].id == id);
        } else if k > p {
            assert(s[k - 1].id == id);
        }
    }
}

/// The ids from a place on are the id at that place and the ids after it.
pub proof fn lemma_has_id_skip(s: Seq<Peer>, n: int, id: u64)
    requires
        0 < n <= s.len(),
    ensures
        has_id(s.skip(n - 1), id) == (s[n - 1].id == id || has_id(s.skip(n), id)),
{
    let t = s.skip(n - 1);
    let u = s.skip(n);
    if has_id(u, id) {
        let k = choose|k: int| 0 <= k < u.len() && u[k].id == id;
        assert(t[k + 1].id == id);
    }
    if s[n - 1].id == id {
        assert(t[0].id == id);
    }
    if has_id(t, id) {
        let k = choose|k: int| 0 <= k < t.len() && t[k].id == id;
        if k > 0 {
            assert(u[k - 1].id == id);
        }
    }
}

/// `OsRng::try_fill_bytes` on eight bytes, read as a number: a number
/// from the operating system's random source, or none where the source
/// fails; nothing is known of the number.
#[verifier::external_body]
fn random_u64() -> (r: Option<u64>) {
    let mut bytes = [0u8; 8];
    match OsRng.try_fill_bytes(&mut bytes) {
        Ok(()) => Some(u64::from_le_bytes(bytes)),
        Err(_) => None,
    }
}

} // verus!
