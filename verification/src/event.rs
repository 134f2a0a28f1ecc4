use vstd::prelude::*;
use std::collections::hash_map::DefaultHasher;
use std::hash::Hasher;
use std::time::{Duration, SystemTime, SystemTimeError, UNIX_EPOCH};
use vstd::bytes::{spec_u64_to_le_bytes, u64_to_le_bytes};
use vstd::std_specs::hash::DefaultHasherAdditionalSpecFns;
use vstd::string::StringSliceAdditionalSpecFns;

use crate::internal_txs::{clone_peer_txs, peer_tx_views, PeerTx, PeerTxType, PeerTxView};

verus! {

pub type EventCreator = u64;

pub type EventHash = u64;

/// A signed record of the DAG. `hash` 0 in a parent field means "no parent".
#[derive(Debug, PartialEq, Eq, Hash)]
pub struct Event {
    pub id: u64,
    pub hash: EventHash,
    pub timestamp: u64,
    pub creator: EventCreator,
    pub self_parent: EventHash,
    pub other_parent: EventHash,
    pub round: u64,
    pub transactions: Vec<Vec<u8>>,
    pub internal_transactions: Vec<PeerTx>,
}

/// Mathematical value of an [`Event`].
pub struct EventView {
    pub id: u64,
    pub hash: EventHash,
    pub timestamp: u64,
    pub creator: EventCreator,
    pub self_parent: EventHash,
    pub other_parent: EventHash,
    pub round: u64,
    pub transactions: Seq<Seq<u8>>,
    pub internal_transactions: Seq<PeerTxView>,
}

/// The contents of a list of payloads, in order.
pub open spec fn payload_views(txs: Seq<Vec<u8>>) -> Seq<Seq<u8>> {
    Seq::new(txs.len(), |i: int| txs[i]@)
}

impl View for Event {
    type V = EventView;

    open spec fn view(&self) -> EventView {
        EventView {
            id: self.id,
            hash: self.hash,
            timestamp: self.timestamp,
            creator: self.creator,
            self_parent: self.self_parent,
            other_parent: self.other_parent,
            round: self.round,
            transactions: payload_views(self.transactions@),
            internal_transactions: peer_tx_views(self.internal_transactions@),
        }
    }
}

/// Copies a list of payloads.
pub fn clone_payloads(txs: &Vec<Vec<u8>>) -> (r: Vec<Vec<u8>>)
    ensures
        payload_views(r@) == payload_views(txs@),
{
    let mut r: Vec<Vec<u8>> = Vec::new();
    let mut i: usize = 0;
    while i < txs.len()
        invariant
            i <= txs.len(),
            r.len() == i,
            forall|k: int| 0 <= k < i ==> r[k]@ == txs[k]@,
        decreases txs.len() - i,
    {
        r.push(txs[i].clone());
        i += 1;
    }
    assert(payload_views(r@) =~= payload_views(txs@));
    r
}

impl Clone for Event {
    fn clone(&self) -> (r: Self)
        ensures
            r@ == self@,
    {
        Event {
            id: self.id,
            hash: self.hash,
            timestamp: self.timestamp,
            creator: self.creator,
            self_parent: self.self_parent,
            other_parent: self.other_parent,
            round: self.round,
            transactions: clone_payloads(&self.transactions),
            internal_transactions: clone_peer_txs(&self.internal_transactions),
        }
    }
}

/// The number that stands for a kind of membership transaction in a digest.
pub open spec fn kind_code(kind: PeerTxType) -> u64 {
    match kind {
        PeerTxType::Join => 1,
        PeerTxType::Leave => 2,
    }
}

/// What one membership transaction feeds the hasher: its kind, then the
/// peer's id, address and public key.
pub open spec fn peer_tx_writes(tx: PeerTxView) -> Seq<Seq<u8>> {
    seq![
        spec_u64_to_le_bytes(kind_code(tx.tx_type)),
        spec_u64_to_le_bytes(tx.peer.id),
        vstd::utf8::encode_utf8(tx.peer.address),
        tx.peer.pub_key,
    ]
}

/// What a list of membership transactions feeds the hasher, one after the other.
pub open spec fn membership_writes(txs: Seq<PeerTxView>) -> Seq<Seq<u8>>
    decreases txs.len(),
{
    if txs.len() == 0 {
        Seq::empty()
    } else {
        membership_writes(txs.drop_last()) + peer_tx_writes(txs.last())
    }
}

/// What an event feeds the hasher: every field but `hash` and `round`, the
/// two lists each behind its length.
pub open spec fn event_writes(e: EventView) -> Seq<Seq<u8>> {
    seq![
        spec_u64_to_le_bytes(e.id),
        spec_u64_to_le_bytes(e.timestamp),
        spec_u64_to_le_bytes(e.creator),
        spec_u64_to_le_bytes(e.self_parent),
        spec_u64_to_le_bytes(e.other_parent),
        spec_u64_to_le_bytes(e.transactions.len() as u64),
    ] + e.transactions + seq![spec_u64_to_le_bytes(e.internal_transactions.len() as u64)]
        + membership_writes(e.internal_transactions)
}

/// The digest of an event: the standard hasher's result on [`event_writes`].
pub open spec fn event_digest(e: EventView) -> u64 {
    DefaultHasher::spec_finish(event_writes(e))
}

fn write_u64(hasher: &mut DefaultHasher, x: u64)
    ensures
        final(hasher)@ == old(hasher)@.push(spec_u64_to_le_bytes(x)),
{
    let bytes = u64_to_le_bytes(x);
    hasher.write(bytes.as_slice());
}

fn write_peer_tx(hasher: &mut DefaultHasher, tx: &PeerTx)
    ensures
        final(hasher)@ == old(hasher)@ + peer_tx_writes(tx@),
{
    let code: u64 = match tx.tx_type {
        PeerTxType::Join => 1,
        PeerTxType::Leave => 2,
    };
    write_u64(hasher, code);
    write_u64(hasher, tx.peer.id);
    hasher.write(tx.peer.address.as_str().as_bytes());
    hasher.write(tx.peer.pub_key.as_slice());
    assert(hasher@ =~= old(hasher)@ + peer_tx_writes(tx@));
}

impl Event {
    /// Builds an event stamped with the current time in microseconds and
    /// gives it its digest as hash.
    pub fn new(
        id: u64,
        creator: EventCreator,
        self_parent: EventHash,
        other_parent: EventHash,
        transactions: Vec<Vec<u8>>,
        internal_transactions: Vec<PeerTx>,
    ) -> (ev: Event)
        ensures
            ev.id == id,
            ev.creator == creator,
            ev.self_parent == self_parent,
            ev.other_parent == other_parent,
            ev.round == 0,
            ev.transactions == transactions,
            ev.internal_transactions == internal_transactions,
            ev.hash == event_digest(ev@),
    {
        let timestamp = current_micros();
        Event::with_timestamp(
            id,
            creator,
            self_parent,
            other_parent,
            transactions,
            internal_transactions,
            timestamp,
        )
    }

    /// Builds an event created at `timestamp` and gives it its digest as hash.
    pub fn with_timestamp(
        id: u64,
        creator: EventCreator,
        self_parent: EventHash,
        other_parent: EventHash,
        transactions: Vec<Vec<u8>>,
        internal_transactions: Vec<PeerTx>,
        timestamp: u64,
    ) -> (ev: Event)
        ensures
            ev.id == id,
            ev.timestamp == timestamp,
            ev.creator == creator,
            ev.self_parent == self_parent,
            ev.other_parent == other_parent,
            ev.round == 0,
            ev.transactions == transactions,
            ev.internal_transactions == internal_transactions,
            ev.hash == event_digest(ev@),
    {
        let mut ev = Event {
            id,
            hash: 0,
            timestamp,
            creator,
            self_parent,
            other_parent,
            round: 0,
            transactions,
            internal_transactions,
        };
        ev.calc_hash();
        ev
    }

    /// Sets the hash to the event's digest, unless a hash is set already.
    pub fn calc_hash(&mut self)
        ensures
            final(self).hash == if old(self).hash != 0 {
                old(self).hash
            } else {
                event_digest(old(self)@)
            },
            final(self).id == old(self).id,
            final(self).timestamp == old(self).timestamp,
            final(self).creator == old(self).creator,
            final(self).self_parent == old(self).self_parent,
            final(self).other_parent == old(self).other_parent,
            final(self).round == old(self).round,
            final(self).transactions == old(self).transactions,
            final(self).internal_transactions == old(self).internal_transactions,
            event_digest(final(self)@) == event_digest(old(self)@),
    {
        if self.hash != 0 {
            return ;
        }
        let mut hasher = DefaultHasher::new();
        write_u64(&mut hasher, self.id);
        write_u64(&mut hasher, self.timestamp);
        write_u64(&mut hasher, self.creator);
        write_u64(&mut hasher, self.self_parent);
        write_u64(&mut hasher, self.other_parent);
        write_u64(&mut hasher, self.transactions.len() as u64);
        let ghost head = hasher@;
        let ghost txs = payload_views(self.transactions@);
        let mut i: usize = 0;
        while i < self.transactions.len()
            invariant
                i <= self.transactions.len(),
                txs == payload_views(self.transactions@),
                hasher@ == head + txs.take(i as int),
            decreases self.transactions.len() - i,
        {
            hasher.write(self.transactions[i].as_slice());
            assert(hasher@ =~= head + txs.take(i + 1));
            i += 1;
        }
        assert(txs.take(self.transactions.len() as int) =~= txs);
        write_u64(&mut hasher, self.internal_transactions.len() as u64);
        let ghost middle = hasher@;
        let ghost ptxs = peer_tx_views(self.internal_transactions@);
        let mut j: usize = 0;
        while j < self.internal_transactions.len()
            invariant
                j <= self.internal_transactions.len(),
                ptxs == peer_tx_views(self.internal_transactions@),
                hasher@ == middle + membership_writes(ptxs.take(j as int)),
            decreases self.internal_transactions.len() - j,
        {
            write_peer_tx(&mut hasher, &self.internal_transactions[j]);
            proof {
                assert(ptxs.take(j + 1).drop_last() =~= ptxs.take(j as int));
                assert(ptxs.take(j + 1).last() == self.internal_transactions[j as int]@);
                assert(hasher@ =~= middle + membership_writes(ptxs.take(j + 1)));
            }
            j += 1;
        }
        proof {
            assert(ptxs.take(self.internal_transactions.len() as int) =~= ptxs);
            assert(hasher@ =~= event_writes(self@));
        }
        self.hash = hasher.finish();
    }

    /// An event is a root when it has no self-parent.
    pub fn is_root(&self) -> (r: bool)
        ensures
            r == (self.self_parent == 0),
    {
        self.self_parent == 0
    }
}

#[verifier::external_type_specification]
#[verifier::external_body]
pub struct ExSystemTime(SystemTime);

#[verifier::external_type_specification]
#[verifier::external_body]
pub struct ExSystemTimeError(SystemTimeError);

/// `SystemTime::now`: the wall clock's reading; nothing is known of it.
#[verifier::external_body]
fn clock_now() -> (now: SystemTime) {
    SystemTime::now()
}

/// `SystemTime::duration_since` the Unix epoch: how long after the epoch
/// `now` lies, or an error where it lies before.
#[verifier::external_body]
fn since_epoch(now: &SystemTime) -> (elapsed: Result<Duration, SystemTimeError>) {
    now.duration_since(UNIX_EPOCH)
}

/// `Duration::as_micros`: the whole microseconds of a duration.
#[verifier::external_body]
fn whole_micros(elapsed: &Duration) -> (micros: u128) {
    elapsed.as_micros()
}

/// The timestamp for a clock that stands `elapsed` microseconds after the
/// Unix epoch, or before it (none): the microseconds cut to their lower 64
/// bits, and 0 for a clock before the epoch.
pub open spec fn stamp_of(elapsed: Option<u128>) -> u64 {
    match elapsed {
        Some(micros) => (micros % 0x1_0000_0000_0000_0000) as u64,
        None => 0,
    }
}

/// The timestamp for a clock that stands `elapsed` microseconds after the
/// Unix epoch, or before it.
pub fn stamp(elapsed: Option<u128>) -> (r: u64)
    ensures
        r == stamp_of(elapsed),
{
    match elapsed {
        Some(micros) => (micros % 0x1_0000_0000_0000_0000) as u64,
        None => 0,
    }
}

/// The timestamp of the wall clock, in microseconds since the Unix epoch:
/// what [`stamp`] makes of the clock's reading.
pub fn current_micros() -> u64 {
    let now = clock_now();
    let elapsed = match since_epoch(&now) {
        Ok(elapsed) => Some(whole_micros(&elapsed)),
        Err(_) => None,
    };
    stamp(elapsed)
}

} // verus!
