use vstd::prelude::*;

use crate::peer::{Peer, PeerView};

verus! {

/// What a membership transaction asks for.
#[derive(Debug, Clone, Copy, PartialEq, Eq, Structural, Hash)]
pub enum PeerTxType {
    Join,
    Leave,
}

/// A membership transaction: it rides inside an event and changes the peer
/// set once the event is ordered.
#[derive(Debug, PartialEq, Eq, Hash)]
pub struct PeerTx {
    pub tx_type: PeerTxType,
    pub peer: Peer,
}

/// Mathematical value of a [`PeerTx`].
pub struct PeerTxView {
    pub tx_type: PeerTxType,
    pub peer: PeerView,
}

impl View for PeerTx {
    type V = PeerTxView;

    open spec fn view(&self) -> PeerTxView {
        PeerTxView { tx_type: self.tx_type, peer: self.peer@ }
    }
}

impl Clone for PeerTx {
    fn clone(&self) -> (r: Self)
        ensures
            r@ == self@,
    {
        PeerTx { tx_type: self.tx_type, peer: self.peer.clone() }
    }
}

impl PeerTx {
    /// A membership transaction of the kind `tx_type` for `peer`.
    pub fn new(tx_type: PeerTxType, peer: Peer) -> (tx: PeerTx)
        ensures
            tx.tx_type == tx_type,
            tx.peer == peer,
    {
        PeerTx { tx_type, peer }
    }

    /// The transaction by which `peer` joins.
    pub fn new_join(peer: Peer) -> (tx: PeerTx)
        ensures
            tx.tx_type == PeerTxType::Join,
            tx.peer == peer,
    {
        PeerTx { tx_type: PeerTxType::Join, peer }
    }

    /// The transaction by which `peer` leaves.
    pub fn new_leave(peer: Peer) -> (tx: PeerTx)
        ensures
            tx.tx_type == PeerTxType::Leave,
            tx.peer == peer,
    {
        PeerTx { tx_type: PeerTxType::Leave, peer }
    }
}

/// The values of a list of membership transactions, in order.
pub open spec fn peer_tx_views(txs: Seq<PeerTx>) -> Seq<PeerTxView> {
    Seq::new(txs.len(), |i: int| txs[i]@)
}

/// Copies a list of membership transactions.
pub fn clone_peer_txs(txs: &Vec<PeerTx>) -> (r: Vec<PeerTx>)
    ensures
        peer_tx_views(r@) == peer_tx_views(txs@),
{
    let mut r: Vec<PeerTx> = Vec::new();
    let mut i: usize = 0;
    while i < txs.len()
        invariant
            i <= txs.len(),
            r.len() == i,
            forall|k: int| 0 <= k < i ==> r[k]@ == txs[k]@,
        decreases txs.len() - i,
    {
        r.push(txs[i].clone());
        i += 1;
    }
    assert(peer_tx_views(r@) =~= peer_tx_views(txs@));
    r
}

} // verus!
