use vstd::prelude::*;

use crate::key::Key;

verus! {

/// A participant of the network, addressed by the digest of its public key.
#[derive(Debug, PartialEq, Eq, Hash)]
pub struct Peer {
    pub id: u64,
    pub address: String,
    pub pub_key: Vec<u8>,
}

/// Mathematical value of a [`Peer`].
pub struct PeerView {
    pub id: u64,
    pub address: Seq<char>,
    pub pub_key: Seq<u8>,
}

impl View for Peer {
    type V = PeerView;

    open spec fn view(&self) -> PeerView {
        PeerView { id: self.id, address: self.address@, pub_key: self.pub_key@ }
    }
}

impl Clone for Peer {
    fn clone(&self) -> (r: Self)
        ensures
            r@ == self@,
    {
        Peer { id: self.id, address: self.address.clone(), pub_key: self.pub_key.clone() }
    }
}

impl Peer {
    /// Builds the peer that listens on `address` and owns `pub_key`; its id
    /// is the digest of the key.
    pub fn new(address: String, pub_key: Vec<u8>) -> (p: Peer)
        ensures
            p.id == crate::key::key_digest(pub_key@),
            p.address@ == address@,
            p.pub_key@ == pub_key@,
    {
        let id = Key::pub_to_int(pub_key.clone());
        Peer { id, address, pub_key }
    }
}

} // verus!
