use std::collections::HashMap;

use hashgraph::author::MergeError;
use hashgraph::event::Event;
use hashgraph::events::EventsDiff;
use hashgraph::hashgraph::Hashgraph;
use hashgraph::internal_txs::{PeerTx, PeerTxType};
use hashgraph::node::{JoinReply, NodeConfig, JOIN_PUSHES, PULL_LIMIT};
use hashgraph::peer::Peer;
use hashgraph::peers::Peers;
use hashgraph::round::{FamousType, Round};

/// A graph under construction: events go by names, creators by letters.
struct Net {
    hg: Hashgraph,
    peers: Vec<Peer>,
    events: HashMap<String, Event>,
    last: HashMap<char, String>,
    clock: u64,
}

fn peer(letter: char) -> Peer {
    let k = u8::try_from(u32::from(letter) - 97).unwrap();
    Peer::new(format!("127.0.0.1:{}", k + 1), vec![k])
}

impl Net {
    fn new(letters: &str) -> Net {
        let mut set = Peers::new();
        let peers: Vec<Peer> = letters.chars().map(peer).collect();
        for p in peers.iter() {
            set.add(p.clone());
        }
        set.self_id = peers[0].id;
        let mut hg = Hashgraph::new();
        hg.bootstrap(set);
        Net {
            hg,
            peers,
            events: HashMap::new(),
            last: HashMap::new(),
            clock: 0,
        }
    }

    fn id_of(&self, letter: char) -> u64 {
        peer(letter).id
    }

    /// Builds the next event of `creator`, named `name`.
    fn make(&mut self, name: &str, other: &str, payload: &str, txs: Vec<PeerTx>) -> Event {
        let creator = name.chars().next().unwrap();
        let id: u64 = name[1..].parse().unwrap();
        let self_parent = self.last.get(&creator).map_or(0, |n| self.events[n].hash);
        let other_parent = self.events.get(other).map_or(0, |e| e.hash);
        self.clock += 10;
        let payloads = if payload.is_empty() {
            vec![]
        } else {
            vec![payload.as_bytes().to_vec()]
        };
        Event::with_timestamp(
            id,
            self.id_of(creator),
            self_parent,
            other_parent,
            payloads,
            txs,
            self.clock,
        )
    }

    fn add_with(&mut self, name: &str, other: &str, payload: &str, txs: Vec<PeerTx>) -> bool {
        let e = self.make(name, other, payload, txs);
        if !self.hg.insert_event(e.clone()) {
            return false;
        }
        let stored = self.hg.events.get_event(&e.hash).unwrap_or(e);
        self.last.insert(name.chars().next().unwrap(), name.to_string());
        self.events.insert(name.to_string(), stored);
        true
    }

    fn add(&mut self, name: &str, other: &str, payload: &str) -> bool {
        self.add_with(name, other, payload, vec![])
    }

    fn e(&self, name: &str) -> Event {
        self.events[name].clone()
    }

    fn round_of(&self, name: &str) -> u64 {
        self.hg.events.get_event(&self.events[name].hash).unwrap().round
    }

    fn fame(&self, round: u64, name: &str) -> FamousType {
        self.hg.round(round).unwrap().get(self.events[name].hash).unwrap().famous
    }

    fn received(&self, round: u64, name: &str) -> u64 {
        self.hg.round(round).unwrap().get(self.events[name].hash).unwrap().received
    }

    fn stamp(&self, round: u64, name: &str) -> u64 {
        self.hg.round(round).unwrap().get(self.events[name].hash).unwrap().timestamp
    }

    fn output(&self) -> Vec<String> {
        self.hg
            .transactions
            .iter()
            .map(|t| String::from_utf8(t.clone()).unwrap())
            .collect()
    }
}

/// Two peers that answer each other: every second event opens a round.
fn ping_pong(net: &mut Net, turns: u64) {
    assert!(net.add("a0", "", "a0"));
    assert!(net.add("b0", "", "b0"));
    for k in 1..=turns {
        let b = format!("b{}", k);
        let a = format!("a{}", k);
        let a_before = format!("a{}", k - 1);
        assert!(net.add(&b, &a_before, &b));
        assert!(net.add(&a, &b, &a));
    }
}

#[test]
fn empty_engine_takes_nothing() {
    let mut hg = Hashgraph::new();
    let root = Event::with_timestamp(0, 1, 0, 0, vec![], vec![], 1);
    assert!(!hg.insert_event(root));
    assert!(!hg.add_self_event(vec![1], vec![]));
    assert_eq!(hg.events.store.len(), 0);
    assert_eq!(hg.rounds.len(), 0);
    assert!(hg.round(1).is_none());
    assert!(hg.gossip_partner().is_none());
    assert_eq!(hg.get_last_frame(1).events.len(), 0);
}

#[test]
fn bootstrap_sets_up_round_one() {
    let net = Net::new("ab");
    assert_eq!(net.hg.rounds.len(), 1);
    let round = net.hg.round(1).unwrap();
    assert_eq!(round.id, 1);
    assert_eq!(round.peers.len(), 2);
    assert_eq!(round.peers.super_majority, 2);
    assert_eq!(round.events.len(), 0);
    assert!(net.hg.round(0).is_none());
    assert!(net.hg.round(2).is_none());
    assert_eq!(net.hg.find_round(1), Some(0));
    assert_eq!(net.hg.self_id(), peer('a').id);
}

#[test]
fn inserting_twice_is_refused_and_changes_nothing() {
    let mut net = Net::new("ab");
    assert!(net.add("a0", "", "x"));
    assert!(net.add("b0", "", ""));
    assert!(net.add("a1", "b0", ""));
    let before = format!("{:?}", net.hg);
    assert!(!net.hg.insert_event(net.e("a1")));
    assert!(!net.hg.insert_event(net.e("a0")));
    assert_eq!(format!("{:?}", net.hg), before);
}

#[test]
fn refused_events_change_nothing() {
    let mut net = Net::new("ab");
    assert!(net.add("a0", "", ""));
    let before = format!("{:?}", net.hg);
    // a stranger
    let stranger = Event::with_timestamp(0, 4242, 0, 0, vec![], vec![], 5);
    assert!(!net.hg.insert_event(stranger));
    // a gap in the ids
    let a0 = net.e("a0").hash;
    let gap = Event::with_timestamp(2, peer('a').id, a0, 0, vec![], vec![], 5);
    assert!(!net.hg.insert_event(gap));
    // an unknown self-parent
    let orphan = Event::with_timestamp(1, peer('a').id, 777, 0, vec![], vec![], 5);
    assert!(!net.hg.insert_event(orphan));
    // a self-parent of another creator
    let thief = Event::with_timestamp(0, peer('b').id, a0, 0, vec![], vec![], 5);
    assert!(!net.hg.insert_event(thief));
    assert_eq!(format!("{:?}", net.hg), before);
}

#[test]
fn the_round_given_by_the_sender_does_not_count() {
    let mut net = Net::new("ab");
    let mut e = net.make("a0", "", "", vec![]);
    e.round = 55;
    assert!(net.hg.insert_event(e.clone()));
    assert_eq!(net.hg.events.get_event(&e.hash).unwrap().round, 1);
}

#[test]
fn a_single_peer_decides_alone() {
    let mut net = Net::new("a");
    assert_eq!(net.hg.round(1).unwrap().peers.super_majority, 1);
    for k in 0..6 {
        let name = format!("a{}", k);
        assert!(net.add(&name, "", &name));
    }
    // every event opens a round and is its witness
    for k in 0..6u64 {
        let name = format!("a{}", k);
        assert_eq!(net.round_of(&name), k + 1);
        assert!(net.hg.is_witness(net.e(&name)));
        assert!(net.hg.round(k + 1).unwrap().get(net.e(&name).hash).unwrap().witness);
    }
    // a witness is famous two events later, and received one event after that
    for k in 0..4u64 {
        assert_eq!(net.fame(k + 1, &format!("a{}", k)), FamousType::True);
    }
    assert_eq!(net.fame(5, "a4"), FamousType::Undefined);
    assert_eq!(net.fame(6, "a5"), FamousType::Undefined);
    assert_eq!(net.received(1, "a0"), 2);
    assert_eq!(net.received(2, "a1"), 3);
    assert_eq!(net.received(3, "a2"), 4);
    assert_eq!(net.received(4, "a3"), 0);
    assert_eq!(net.output(), vec!["a0", "a1", "a2"]);
    assert_eq!(net.hg.events.undecided.len(), 3);
    // the consensus timestamp of a0 is the creation time of a1, its first
    // descendant on the way back from the famous witness a1
    assert_eq!(net.stamp(1, "a0"), 20);
    assert_eq!(net.stamp(2, "a1"), 30);
}

#[test]
fn one_of_two_peers_decides_nothing() {
    let mut net = Net::new("ab");
    assert_eq!(net.hg.round(1).unwrap().peers.super_majority, 2);
    for k in 0..6 {
        let name = format!("a{}", k);
        assert!(net.add(&name, "", &name));
    }
    for k in 0..6 {
        assert_eq!(net.round_of(&format!("a{}", k)), 1);
    }
    assert!(net.hg.is_witness(net.e("a0")));
    assert!(!net.hg.is_witness(net.e("a1")));
    assert!(!net.hg.strongly_see(net.e("a5"), net.e("a0")));
    assert!(net.hg.see(net.e("a5"), net.e("a0")));
    assert_eq!(net.hg.rounds.len(), 1);
    assert_eq!(net.fame(1, "a0"), FamousType::Undefined);
    assert_eq!(net.output(), Vec::<String>::new());
    assert_eq!(net.hg.events.undecided.len(), 6);
}

#[test]
fn two_peers_decide_together() {
    let mut net = Net::new("ab");
    ping_pong(&mut net, 4);
    // a0 b0 b1 | a1 b2 | a2 b3 | a3 b4 | a4
    assert_eq!(net.round_of("b1"), 1);
    assert_eq!(net.round_of("a1"), 2);
    assert_eq!(net.round_of("b2"), 2);
    assert_eq!(net.round_of("a2"), 3);
    assert_eq!(net.round_of("a4"), 5);
    assert_eq!(net.fame(1, "a0"), FamousType::True);
    assert_eq!(net.fame(1, "b0"), FamousType::True);
    assert_eq!(net.fame(2, "a1"), FamousType::True);
    assert_eq!(net.fame(2, "b2"), FamousType::True);
    assert_eq!(net.fame(3, "a2"), FamousType::True);
    assert_eq!(net.fame(4, "a3"), FamousType::Undefined);
    // b1 is no witness and gets no verdict
    assert_eq!(net.fame(1, "b1"), FamousType::Undefined);
    assert_eq!(net.received(1, "a0"), 2);
    assert_eq!(net.received(1, "b1"), 2);
    assert_eq!(net.received(2, "a1"), 3);
    assert_eq!(net.output(), vec!["a0", "b0", "b1", "a1", "b2"]);
}

#[test]
fn strongly_seeing_counts_the_creators_between() {
    let mut net = Net::new("abc");
    assert!(net.add("a0", "", ""));
    assert!(net.add("b0", "", ""));
    assert!(net.add("c0", "", ""));
    assert!(net.add("b1", "a0", ""));
    assert!(net.add("c1", "b1", ""));
    let (seen, path) = net.hg.strongly_see_with_path(net.e("c1"), net.e("a0"));
    assert!(seen);
    let mut want = vec![net.id_of('a'), net.id_of('b'), net.id_of('c')];
    want.sort();
    let mut got = path.clone();
    got.sort();
    assert_eq!(got, want);
    assert!(net.hg.strongly_see(net.e("c1"), net.e("a0")));
    // b1 reaches a0 through two creators only
    let (seen, path) = net.hg.strongly_see_with_path(net.e("b1"), net.e("a0"));
    assert!(seen);
    assert_eq!(path.len(), 2);
    assert!(!net.hg.strongly_see(net.e("b1"), net.e("a0")));
    // nothing leads from a0 to b0
    let (seen, path) = net.hg.strongly_see_with_path(net.e("a0"), net.e("b0"));
    assert!(!seen);
    assert!(path.is_empty());
    // an event is on the way to itself, alone
    let (seen, path) = net.hg.strongly_see_with_path(net.e("a0"), net.e("a0"));
    assert!(seen);
    assert_eq!(path, vec![net.id_of('a')]);
}

#[test]
fn ancestry_is_reflexive_and_follows_both_parents() {
    let mut net = Net::new("ab");
    ping_pong(&mut net, 2);
    assert!(net.hg.is_ancestor(net.e("a0"), net.e("a0")));
    assert!(net.hg.is_self_ancestor(net.e("a0"), net.e("a0")));
    assert!(net.hg.is_ancestor(net.e("b0"), net.e("a2")));
    assert!(net.hg.is_ancestor(net.e("a0"), net.e("b1")));
    assert!(!net.hg.is_self_ancestor(net.e("a0"), net.e("b1")));
    assert!(net.hg.is_self_ancestor(net.e("a0"), net.e("a2")));
    assert!(!net.hg.is_ancestor(net.e("a2"), net.e("a1")));
    // an event that the store does not hold has the ancestors that its
    // parent fields name
    let a2 = net.e("a2").hash;
    let fresh = Event::with_timestamp(3, net.id_of('a'), a2, 0, vec![], vec![], 1);
    assert!(net.hg.is_ancestor(net.e("b0"), fresh.clone()));
    assert!(!net.hg.is_ancestor(fresh, net.e("a2")));
    assert!(net.hg.get_first_decendant(net.e("a2"), net.e("a0")).is_none());
}

#[test]
fn parent_rounds_and_round_ids() {
    let mut net = Net::new("ab");
    ping_pong(&mut net, 2);
    assert_eq!(net.hg.get_parent_round_id(net.e("a1")), 1);
    assert_eq!(net.hg.get_round_id(net.e("a1")), 2);
    assert_eq!(net.hg.get_round_id(net.e("b1")), 1);
    assert_eq!(net.hg.get_parent_round(net.e("a2")).unwrap().id, 2);
    assert_eq!(net.hg.get_last_populated_round(&net.e("a0")).id, 3);
    assert_eq!(net.hg.get_decided_peers(&net.e("a1")).len(), 2);
    assert_eq!(net.hg.get_last_decided_peers().self_id, net.id_of('a'));
    assert_eq!(net.hg.count_strongly_seen(&net.e("a1"), 0), 2);
    assert_eq!(net.hg.count_strongly_seen(&net.e("b1"), 0), 1);
}

#[test]
fn add_to_round_needs_a_round() {
    let mut net = Net::new("ab");
    assert!(net.add("a0", "", ""));
    let mut loose = net.make("b0", "", "", vec![]);
    assert!(!net.hg.add_to_round(loose.clone()));
    loose.round = 3;
    assert!(!net.hg.add_to_round(loose.clone()));
    loose.round = 1;
    assert!(net.hg.add_to_round(loose.clone()));
    let record = net.hg.round(1).unwrap().get(loose.hash).unwrap().clone();
    assert!(record.witness);
    assert_eq!(record.famous, FamousType::Undefined);
    assert_eq!(record.received, 0);
    // it is on record now
    assert!(!net.hg.add_to_round(loose));
}

#[test]
fn consensus_timestamp_is_the_smoothed_median() {
    let mut net = Net::new("ab");
    ping_pong(&mut net, 4);
    // events are made at 10, 20, ...: a0 b0 b1 a1 b2 a2 b3 a3 b4 a4
    // b1 (30) is received in round 2, whose famous witnesses are a1 (40)
    // and b2 (50). From a1 the first descendant is a1 itself (b1 is its
    // other parent), from b2 it is b2 (b1 is its self-parent).
    assert_eq!(net.stamp(1, "b1"), (40 + 50 + 50) / 3);
    // a0 (10): from a1 it is a1 (self-parent), from b2 it is b2
    // (a0 lies behind its self-ancestor b1, its own line comes first)
    let round2: Round = net.hg.round(2).unwrap().clone();
    assert_eq!(
        net.hg.get_consensus_timestamp(net.e("a0"), &round2),
        net.stamp(1, "a0")
    );
    assert_eq!(net.hg.get_consensus_timestamp(net.e("b1"), &round2), 46);
    // an event that no famous witness of the round sees gets 0
    assert_eq!(net.hg.get_consensus_timestamp(net.e("a4"), &round2), 0);
}

#[test]
fn self_events_follow_the_own_line() {
    let mut net = Net::new("ab");
    // no root of one's own yet
    assert!(!net.hg.add_self_event(vec![1], vec![]));
    assert!(net.add("a0", "", ""));
    assert!(net.hg.add_self_event_at(vec![7], vec![], 123));
    let own = net.hg.events.get_last_event_of(net.id_of('a')).unwrap();
    assert_eq!(own.id, 1);
    assert_eq!(own.self_parent, net.e("a0").hash);
    assert_eq!(own.other_parent, 0);
    assert_eq!(own.timestamp, 123);
    assert_eq!(own.transactions, vec![vec![7]]);
    assert_eq!(
        own.hash,
        Event::with_timestamp(1, own.creator, own.self_parent, 0, vec![vec![7]], vec![], 123).hash
    );
    assert!(net.hg.add_self_event(vec![], vec![]));
    assert_eq!(net.hg.events.get_last_event_of(net.id_of('a')).unwrap().id, 2);
    assert!(net.hg.author(net.id_of('a'), 5, vec![], vec![], 9));
    assert!(!net.hg.author(net.id_of('b'), 5, vec![], vec![], 9));
}

#[test]
fn empty_payloads_are_not_emitted() {
    let mut net = Net::new("a");
    assert!(net.add("a0", "", "first"));
    for _ in 0..3 {
        assert!(net.hg.add_self_event_at(vec![], vec![], 5));
    }
    assert!(net.hg.add_self_event_at(b"second".to_vec(), vec![], 5));
    for _ in 0..3 {
        assert!(net.hg.add_self_event_at(vec![], vec![], 5));
    }
    assert_eq!(net.output(), vec!["first", "second"]);
}

#[test]
fn join_takes_effect_three_rounds_after_it_is_received() {
    let mut net = Net::new("ab");
    assert!(net.add("a0", "", ""));
    assert!(net.add("b0", "", ""));
    assert!(net.add("b1", "a0", ""));
    assert!(net.add("a1", "b1", ""));
    assert!(net.add_with("b2", "a1", "", vec![PeerTx::new_join(peer('c'))]));
    let c = net.id_of('c');
    let mut k = 2;
    while net.received(2, "b2") == 0 {
        let b = format!("b{}", k + 1);
        let a = format!("a{}", k);
        assert!(net.add(&a, &format!("b{}", k), ""));
        assert!(net.add(&b, &a, ""));
        k += 1;
        assert!(k < 10);
    }
    let received = net.received(2, "b2");
    assert_eq!(received, 3);
    assert_eq!(net.hg.rounds.len(), 6);
    for id in 1..=received + 2 {
        let peers = &net.hg.round(id).unwrap().peers;
        assert!(!peers.has(c));
        assert_eq!(peers.len(), 2);
        assert_eq!(peers.super_majority, 2);
    }
    let joined = &net.hg.round(received + 3).unwrap().peers;
    assert!(joined.has(c));
    assert_eq!(joined.len(), 3);
    assert_eq!(joined.super_majority, 3);
    assert_eq!(net.hg.internal_transactions.len(), 1);
    assert_eq!(net.hg.internal_transactions[0].tx_type, PeerTxType::Join);
    assert_eq!(net.hg.internal_transactions[0].peer.id, c);
    // the new peer is refused before its round and admitted in it
    assert!(net.hg.get_last_decided_peers().has(c));
    assert!(net.add("c0", "", "hello"));
    assert_eq!(net.round_of("c0"), received + 3);
}

#[test]
fn leave_takes_effect_three_rounds_after_it_is_received() {
    let mut net = Net::new("a");
    assert!(net.add("a0", "", ""));
    assert!(net.add_with("a1", "", "", vec![PeerTx::new_join(peer('b'))]));
    assert!(net.add_with("a2", "", "", vec![PeerTx::new_leave(peer('b'))]));
    for k in 3..8 {
        assert!(net.add(&format!("a{}", k), "", ""));
    }
    // a1 is received in round 3, a2 in round 4
    assert_eq!(net.received(2, "a1"), 3);
    assert_eq!(net.received(3, "a2"), 4);
    let b = net.id_of('b');
    assert!(!net.hg.round(5).unwrap().peers.has(b));
    assert!(net.hg.round(6).unwrap().peers.has(b));
    assert_eq!(net.hg.round(6).unwrap().peers.super_majority, 2);
    assert!(!net.hg.round(7).unwrap().peers.has(b));
    assert_eq!(net.hg.round(7).unwrap().peers.super_majority, 1);
}

#[test]
fn membership_is_applied_from_the_third_round_on() {
    let mut net = Net::new("ab");
    ping_pong(&mut net, 1);
    let d = peer('d');
    net.hg.apply_membership(&vec![PeerTx::new_join(d.clone())], 2);
    assert_eq!(net.hg.rounds.len(), 5);
    for id in 1..5 {
        assert!(!net.hg.round(id).unwrap().peers.has(d.id));
    }
    assert!(net.hg.round(5).unwrap().peers.has(d.id));
    assert_eq!(net.hg.round(5).unwrap().events.len(), 0);
    assert_eq!(net.hg.round(5).unwrap().peers.self_id, net.id_of('a'));
    net.hg.apply_membership(&vec![PeerTx::new_leave(d.clone())], 1);
    assert_eq!(net.hg.rounds.len(), 5);
    assert!(!net.hg.round(4).unwrap().peers.has(d.id));
    assert!(!net.hg.round(5).unwrap().peers.has(d.id));
    // nothing to apply: nothing happens
    net.hg.apply_membership(&vec![], 40);
    assert_eq!(net.hg.rounds.len(), 5);
    net.hg.materialize_through(7);
    assert_eq!(net.hg.rounds.len(), 7);
}

#[test]
fn purge_drops_what_lies_five_rounds_behind() {
    let mut net = Net::new("ab");
    let mut outputs: Vec<Vec<String>> = vec![];
    assert!(net.add("a0", "", "a0"));
    assert!(net.add("b0", "", "b0"));
    for k in 1..=14u64 {
        let b = format!("b{}", k);
        let a = format!("a{}", k);
        assert!(net.add(&b, &format!("a{}", k - 1), &b));
        outputs.push(net.output());
        assert!(net.add(&a, &b, &a));
        outputs.push(net.output());
    }
    // the output only ever grows at its end
    for pair in outputs.windows(2) {
        assert!(pair[1].len() >= pair[0].len());
        assert_eq!(pair[1][..pair[0].len()], pair[0][..]);
    }
    assert_eq!(net.round_of("a14"), 15);
    // the last decided events lie in round 12: rounds up to 7 are purged
    let decided_rounds = net.hg.rounds.iter().filter(|r| r.purged).count();
    assert_eq!(decided_rounds, 7);
    for id in 1..=7 {
        let round = net.hg.round(id).unwrap();
        assert!(round.purged);
        assert_eq!(round.events.len(), 0);
        assert_eq!(round.witnesses.len(), 0);
        assert_eq!(round.peers.len(), 2);
    }
    assert!(!net.hg.round(8).unwrap().purged);
    for name in ["a0", "b0", "b1", "a1", "a5", "b6", "b7"] {
        assert!(net.hg.events.get_event(&net.e(name).hash).is_none());
    }
    for name in ["a7", "b8", "a14"] {
        assert!(net.hg.events.get_event(&net.e(name).hash).is_some());
    }
    // what is gone is nobody's ancestor any more
    assert!(!net.hg.is_ancestor(net.e("a0"), net.e("a14")));
    assert!(net.hg.is_ancestor(net.e("a7"), net.e("a14")));
    // and the order that was decided stands
    let out = net.output();
    assert_eq!(out[..5], ["a0", "b0", "b1", "a1", "b2"]);
    assert_eq!(out.len(), 25);
    // the graph goes on
    assert!(net.add("b15", "a14", ""));
}

#[test]
fn purge_by_hand() {
    let mut net = Net::new("a");
    for k in 0..8 {
        assert!(net.add(&format!("a{}", k), "", ""));
    }
    let out = net.output();
    let stored = net.hg.events.store.len();
    net.hg.purge(5);
    assert_eq!(net.hg.events.store.len(), stored);
    net.hg.purge(7);
    assert!(net.hg.round(1).unwrap().purged);
    assert!(net.hg.round(2).unwrap().purged);
    assert!(!net.hg.round(3).unwrap().purged);
    assert_eq!(net.hg.events.store.len(), stored - 2);
    assert_eq!(net.output(), out);
    assert_eq!(net.hg.rounds.len(), 8);
    assert_eq!(net.received(3, "a2"), 4);
}

#[test]
fn frame_is_empty_for_a_stranger() {
    let mut net = Net::new("ab");
    ping_pong(&mut net, 2);
    assert_eq!(net.hg.get_last_frame(4242).events.len(), 0);
    assert_eq!(net.hg.fast_sync(4242).events.len(), 0);
}

#[test]
fn frame_holds_the_last_rounds() {
    let mut net = Net::new("ab");
    ping_pong(&mut net, 3);
    assert_eq!(net.hg.rounds.len(), 4);
    let frame = net.hg.get_last_frame(net.id_of('b'));
    let ids: Vec<u64> = frame.events.iter().map(|r| r.id).collect();
    assert_eq!(ids, vec![1, 2, 3, 4]);
    // round 1: a0 | b0 b1, every first event a root
    let first = &frame.events[0];
    assert_eq!(first.peers.len(), 2);
    assert_eq!(first.events.len(), 2);
    assert_eq!(first.events[0].creator, net.id_of('a'));
    let a: Vec<u64> = first.events[0].events.iter().map(|e| e.id).collect();
    let b: Vec<u64> = first.events[1].events.iter().map(|e| e.id).collect();
    assert_eq!(a, vec![0]);
    assert_eq!(b, vec![0, 1]);
    assert_eq!(first.events[1].events[1].self_parent, net.e("b0").hash);
    // round 2: b2 | a1, their self-parents kept
    let second = &frame.events[1];
    assert_eq!(second.events[0].events[0].hash, net.e("a1").hash);
    assert_eq!(second.events[0].events[0].self_parent, net.e("a0").hash);
}

#[test]
fn frame_starts_four_rounds_before_the_last() {
    let mut net = Net::new("a");
    for k in 0..8 {
        assert!(net.add(&format!("a{}", k), "", ""));
    }
    let frame = net.hg.get_last_frame(net.id_of('a'));
    let ids: Vec<u64> = frame.events.iter().map(|r| r.id).collect();
    assert_eq!(ids, vec![4, 5, 6, 7, 8]);
    let first = &frame.events[0].events[0].events[0];
    assert_eq!(first.hash, net.e("a3").hash);
    assert_eq!(first.id, 3);
    assert_eq!(first.self_parent, 0);
    let second = &frame.events[1].events[0].events[0];
    assert_eq!(second.self_parent, net.e("a3").hash);
}

#[test]
fn first_node_lets_a_second_join() {
    let me = peer('a');
    let newcomer = peer('d');
    let mut hg = Hashgraph::new();
    assert!(hg.found(me.clone(), 5));
    assert_eq!(hg.rounds.len(), 1);
    assert_eq!(hg.self_id(), me.id);
    assert_eq!(hg.events.store.len(), 1);
    assert_eq!(hg.events.store[0].internal_transactions.len(), 1);
    // not a member yet: no frame
    assert_eq!(hg.fast_sync(newcomer.id).events.len(), 0);
    match hg.ask_join(newcomer.clone()) {
        JoinReply::Handled => {}
        JoinReply::Enqueue(_) => panic!("the first node handles the join itself"),
    }
    assert_eq!(hg.events.store.len(), 2 + JOIN_PUSHES);
    // the join was received in round 3 and holds from round 6 on
    assert!(!hg.round(5).unwrap().peers.has(newcomer.id));
    assert!(hg.round(6).unwrap().peers.has(newcomer.id));
    assert_eq!(hg.rounds.len(), 6);

    let frame = hg.fast_sync(newcomer.id);
    let ids: Vec<u64> = frame.events.iter().map(|r| r.id).collect();
    assert_eq!(ids, vec![2, 3, 4, 5, 6]);

    let mut joiner = Hashgraph::new();
    assert!(joiner.join(&frame, newcomer.id, b"hi".to_vec(), 99));
    assert_eq!(joiner.self_id(), newcomer.id);
    assert_eq!(joiner.known_of(me.id), hg.known_of(me.id));
    assert_eq!(joiner.known_of(me.id), Some(7));
    assert_eq!(joiner.known_of(newcomer.id), Some(0));
    assert_eq!(hg.known_of(newcomer.id), None);
    assert_eq!(joiner.events.known_events().len(), 2);

    // a node that is not alone queues the join
    match joiner.ask_join(peer('e')) {
        JoinReply::Enqueue(tx) => {
            assert_eq!(tx.tx_type, PeerTxType::Join);
            assert_eq!(tx.peer.id, peer('e').id);
        }
        JoinReply::Handled => panic!("two peers are known"),
    }
}

#[test]
fn pull_hands_out_at_most_sixteen_events_of_a_creator() {
    // one of two peers alone decides nothing, so nothing is purged
    let mut net = Net::new("ab");
    for k in 0..30 {
        assert!(net.add(&format!("a{}", k), "", ""));
    }
    assert_eq!(PULL_LIMIT, 16);
    let known = net.hg.events.known_events();
    let first = known[&net.id_of('a')] - 20;
    let diff = net.hg.pull(HashMap::from([(net.id_of('a'), first)]));
    assert!(diff.has_more);
    assert_eq!(diff.diff[0].events.len(), 16);
    assert_eq!(diff.diff[0].events[0].id, first + 1);
    let diff = net.hg.pull(HashMap::from([(net.id_of('a'), first + 4)]));
    assert!(!diff.has_more);
    assert_eq!(diff.diff[0].events.len(), 16);
    assert_eq!(diff.known, known);
}

fn two_nodes() -> (Net, Net) {
    let mut left = Net::new("ab");
    let mut right = Net::new("ab");
    right.hg.rounds[0].peers.self_id = peer('b').id;
    assert!(left.add("a0", "", "a0"));
    assert!(right.add("b0", "", "b0"));
    (left, right)
}

#[test]
fn merge_takes_the_events_and_records_the_sync() {
    let (mut left, right) = two_nodes();
    let a = left.id_of('a');
    let b = left.id_of('b');
    let pulled = right.hg.pull(left.hg.events.known_events());
    assert_eq!(pulled.diff.len(), 1);
    let answer = left.hg.merge_events_at(a, b, pulled, 500).unwrap();
    assert_eq!(left.hg.events.store.len(), 3);
    let sync = left.hg.events.get_last_event_of(a).unwrap();
    assert_eq!(sync.id, 1);
    assert_eq!(sync.self_parent, left.e("a0").hash);
    assert_eq!(sync.other_parent, right.e("b0").hash);
    assert_eq!(sync.timestamp, 500);
    assert_eq!(sync.transactions.len(), 0);
    // the answer holds what the peer lacks
    assert_eq!(answer.sender_id, a);
    assert_eq!(answer.known, HashMap::from([(a, 1), (b, 0)]));
    assert_eq!(answer.has_more, false);
    assert_eq!(answer.diff.len(), 1);
    assert_eq!(answer.diff[0].creator, a);
    assert_eq!(answer.diff[0].events.len(), 2);
}

#[test]
fn push_is_merged_for_a_known_sender() {
    let (mut left, mut right) = two_nodes();
    let a = left.id_of('a');
    let b = left.id_of('b');
    let pulled = right.hg.pull(left.hg.events.known_events());
    let answer = left.hg.gossip_merge(b, pulled, 500).unwrap();
    assert!(right.hg.push(answer));
    assert_eq!(right.hg.events.known_list(), vec![(b, 1), (a, 1)]);
    let sync = right.hg.events.get_last_event_of(b).unwrap();
    assert_eq!(sync.other_parent, left.hg.events.get_last_event_of(a).unwrap().hash);
    assert_eq!(right.hg.events.store.len(), 4);
    // a push of an unknown sender is refused: none of its events is taken
    let more = left.hg.pull(HashMap::new());
    assert!(!more.diff.is_empty());
    let odd = EventsDiff {
        known: HashMap::new(),
        diff: more.diff.clone(),
        sender_id: 4242,
        has_more: false,
    };
    let before = format!("{:?}", right.hg);
    assert!(!right.hg.push(odd.clone()));
    assert_eq!(format!("{:?}", right.hg), before);
    // and an engine without rounds refuses every push
    let mut empty = Hashgraph::new();
    assert!(!empty.push(odd.clone()));
    assert_eq!(empty.push_at(odd.clone(), 1).err(), Some(MergeError::UnknownPeer));
    assert_eq!(empty.events.store.len(), 0);
    assert_eq!(
        right.hg.push_at(odd, 600).err(),
        Some(MergeError::UnknownPeer)
    );
    assert_eq!(right.hg.events.known_list(), vec![(b, 1), (a, 1)]);
}

#[test]
fn merge_errors() {
    let (mut left, right) = two_nodes();
    let a = left.id_of('a');
    let b = left.id_of('b');
    let mut pulled = right.hg.pull(left.hg.events.known_events());
    pulled.has_more = true;
    assert_eq!(
        left.hg.merge_events_at(a, b, pulled, 1).err(),
        Some(MergeError::HasMore)
    );
    // the events were taken all the same
    assert_eq!(left.hg.events.store.len(), 2);
    let nothing = EventsDiff {
        known: HashMap::new(),
        diff: vec![],
        sender_id: b,
        has_more: false,
    };
    assert_eq!(
        left.hg.merge_events_at(4242, b, nothing.clone(), 1).err(),
        Some(MergeError::NoOwnEvent)
    );
    assert_eq!(
        left.hg.merge_events_at(a, 4242, nothing.clone(), 1).err(),
        Some(MergeError::UnknownPeer)
    );
    assert_eq!(left.hg.events.store.len(), 2);
    assert!(left.hg.merge_events(a, b, nothing.clone()).is_ok());
    assert_eq!(left.hg.events.store.len(), 3);
    assert!(left.hg.gossip_merge(4242, nothing, 1).is_none());
}

#[test]
fn gossip_partner_is_another_peer() {
    let mut net = Net::new("abc");
    assert!(net.add("a0", "", ""));
    for _ in 0..20 {
        let p = net.hg.gossip_partner().unwrap();
        assert_ne!(p.id, net.id_of('a'));
        assert!(p.id == net.id_of('b') || p.id == net.id_of('c'));
    }
    assert!(Net::new("a").hg.gossip_partner().is_none());
}

#[test]
fn gossip_partner_is_not_the_one_before() {
    let mut net = Net::new("abcd");
    assert!(net.add("a0", "", ""));
    let mut last = 0;
    for _ in 0..40 {
        let p = net.hg.gossip_partner().unwrap();
        assert_ne!(p.id, net.id_of('a'));
        assert_ne!(p.id, last);
        // the engine remembers the pick, and nothing else changes
        assert_eq!(net.hg.rounds.len(), 1);
        assert_eq!(net.hg.round(1).unwrap().peers.len(), 4);
        last = p.id;
    }
}

#[test]
fn purge_clears_a_purged_round_that_took_a_record() {
    let mut peers = Peers::new();
    peers.add_self(peer('a'));
    let mut hg = Hashgraph::new();
    hg.bootstrap(peers);
    hg.purge(6);
    assert!(hg.round(1).unwrap().purged);
    let mut root = Event::with_timestamp(0, peer('a').id, 0, 0, vec![], vec![], 1);
    root.round = 1;
    assert!(hg.add_to_round(root.clone()));
    assert_eq!(hg.round(1).unwrap().events.len(), 1);
    assert_eq!(hg.round(1).unwrap().witnesses.len(), 1);
    hg.purge(6);
    let round = hg.round(1).unwrap();
    assert!(round.purged);
    assert_eq!(round.events.len(), 0);
    assert_eq!(round.witnesses.len(), 0);
    assert_eq!(round.peers.len(), 1);
}

#[test]
fn purge_forgets_an_event_that_a_purged_round_took() {
    let mut net = Net::new("a");
    assert!(net.add("a0", "", ""));
    net.hg.purge(6);
    assert!(net.hg.events.get_event(&net.e("a0").hash).is_none());
    // a root of the peer is taken anew, in the round that was purged
    assert!(net.hg.insert_event(net.e("a0")));
    assert_eq!(net.hg.round(1).unwrap().events.len(), 1);
    assert!(net.hg.events.get_event(&net.e("a0").hash).is_some());
    net.hg.purge(6);
    assert_eq!(net.hg.round(1).unwrap().events.len(), 0);
    assert_eq!(net.hg.round(1).unwrap().witnesses.len(), 0);
    assert!(net.hg.events.get_event(&net.e("a0").hash).is_none());
    assert_eq!(net.hg.events.store.len(), 0);
    assert_eq!(net.hg.events.reach.len(), 0);
    assert_eq!(net.hg.events.undecided.len(), 0);
}

#[test]
fn same_events_in_another_order_give_the_same_decisions() {
    let script = [
        ("a0", ""),
        ("b0", ""),
        ("c0", ""),
        ("b1", "a0"),
        ("c1", "b1"),
        ("a1", "c1"),
        ("b2", "a1"),
        ("c2", "b2"),
        ("a2", "c2"),
        ("b3", "a2"),
        ("c3", "b3"),
        ("a3", "c3"),
        ("b4", "a3"),
        ("c4", "b4"),
        ("a4", "c4"),
    ];
    let mut first = Net::new("abc");
    for (name, other) in script.iter() {
        assert!(first.add(name, other, name));
    }
    // the roots arrive in another order; parents still come before children
    let mut second = Net::new("abc");
    let mut events: Vec<Event> = script.iter().map(|(n, _)| first.e(n)).collect();
    events.swap(0, 2);
    for e in events.iter() {
        assert!(second.hg.insert_event(e.clone()));
    }
    for (name, _) in script.iter() {
        let h = first.e(name).hash;
        let left = first.hg.events.get_event(&h).unwrap();
        let right = second.hg.events.get_event(&h).unwrap();
        assert_eq!(left.round, right.round);
        let l = first.hg.round(left.round).unwrap().get(h).unwrap().clone();
        let r = second.hg.round(right.round).unwrap().get(h).unwrap().clone();
        assert_eq!(l.witness, r.witness);
        assert_eq!(l.famous, r.famous);
        assert_eq!(l.received, r.received);
        assert_eq!(l.timestamp, r.timestamp);
    }
    assert!(!first.hg.transactions.is_empty());
    assert_eq!(first.hg.transactions, second.hg.transactions);
}

#[test]
fn default_config() {
    let config = NodeConfig::default();
    assert_eq!(config.verbose, 2);
    assert_eq!(config.listen_addr, "127.0.0.1:3000");
    assert_eq!(config.connect_addr, None);
}

/// What must hold of the store and the rounds after every insertion.
fn check_invariants(hg: &Hashgraph) {
    let store = &hg.events.store;
    let mut last: HashMap<u64, usize> = HashMap::new();
    let mut seen: HashMap<u64, usize> = HashMap::new();
    for (i, e) in store.iter().enumerate() {
        // no hash twice
        assert!(seen.insert(e.hash, i).is_none());
        // ids without gaps, self-parents in place
        if let Some(p) = last.get(&e.creator) {
            assert_eq!(store[*p].id + 1, e.id);
            assert_eq!(store[*p].hash, e.self_parent);
        }
        if e.self_parent != 0 {
            if let Some(p) = seen.get(&e.self_parent) {
                assert_eq!(store[*p].creator, e.creator);
                assert_eq!(store[*p].id + 1, e.id);
                // rounds do not fall
                assert!(store[*p].round <= e.round);
                assert!(e.round <= store[*p].round + 1);
            }
        }
        last.insert(e.creator, i);
        // every stored event is on record in its round
        let record = hg.round(e.round).unwrap().get(e.hash).unwrap();
        if e.self_parent == 0 {
            assert!(record.witness);
        }
    }
    // rounds follow each other
    for pair in hg.rounds.windows(2) {
        assert_eq!(pair[0].id + 1, pair[1].id);
    }
    for round in hg.rounds.iter() {
        let n = u64::try_from(round.peers.len()).unwrap();
        assert_eq!(round.peers.super_majority, 2 * n / 3 + 1);
    }
}

/// The verdicts and received rounds on record, by round and hash.
fn verdicts(hg: &Hashgraph) -> HashMap<(u64, u64), (FamousType, u64)> {
    let mut all = HashMap::new();
    for round in hg.rounds.iter() {
        for record in round.events.iter() {
            all.insert((round.id, record.hash), (record.famous, record.received));
        }
    }
    all
}

#[test]
fn invariants_hold_after_every_insertion() {
    let script = [
        ("a0", ""),
        ("b0", ""),
        ("c0", ""),
        ("b1", "a0"),
        ("c1", "b1"),
        ("c2", ""),
        ("a1", "c2"),
        ("b2", "a1"),
        ("b3", ""),
        ("c3", "b3"),
        ("a2", "b3"),
        ("b4", "a2"),
        ("c4", "b4"),
        ("a3", "c1"),
        ("a4", "c4"),
        ("a5", ""),
        ("b5", "a5"),
        ("a6", "b5"),
        ("c5", "b5"),
        ("b6", "a6"),
        ("c6", "b6"),
        ("a7", "c6"),
        ("b7", "a7"),
        ("c7", "b7"),
        ("a8", "b7"),
        ("b8", "a8"),
        ("c8", "b8"),
        ("a9", "c8"),
        ("b9", "a9"),
        ("c9", "b9"),
    ];
    let mut net = Net::new("abc");
    let mut before = verdicts(&net.hg);
    let mut output = net.output();
    for (name, other) in script.iter() {
        assert!(net.add(name, other, name));
        check_invariants(&net.hg);
        // a verdict once given stands, a received round once decided too
        let after = verdicts(&net.hg);
        for (key, (fame, received)) in before.iter() {
            if *fame != FamousType::Undefined {
                assert_eq!(after[key].0, *fame);
            }
            if *received != 0 {
                assert_eq!(after[key].1, *received);
            }
        }
        before = after;
        // what was emitted keeps its place
        let now = net.output();
        assert_eq!(now[..output.len()], output[..]);
        output = now;
    }
    assert_eq!(output.len(), 16);
}

#[test]
fn invariants_hold_across_purges() {
    let mut net = Net::new("ab");
    assert!(net.add("a0", "", ""));
    assert!(net.add("b0", "", ""));
    for k in 1..=12u64 {
        assert!(net.add(&format!("b{}", k), &format!("a{}", k - 1), ""));
        check_invariants(&net.hg);
        assert!(net.add(&format!("a{}", k), &format!("b{}", k), ""));
        check_invariants(&net.hg);
    }
    assert!(net.hg.rounds.iter().any(|r| r.purged));
    assert!(net.hg.events.store[0].id > 0);
}

/// The memo of ancestry says of every pair of stored events what a
/// question of ancestry says.
fn check_memo(hg: &Hashgraph) {
    let store = &hg.events.store;
    assert_eq!(hg.events.reach.len(), store.len());
    // the index by hash holds the place of every stored event, and no more
    assert_eq!(hg.events.by_hash.len(), store.len());
    for i in 0..store.len() {
        assert_eq!(hg.events.by_hash[&store[i].hash], i);
        assert_eq!(hg.events.find(store[i].hash), Some(i));
        assert_eq!(hg.events.reach[i].len(), i);
        for k in 0..i {
            assert_eq!(
                hg.events.reach[i][k],
                hg.is_ancestor(store[k].clone(), store[i].clone())
            );
            assert!(!hg.is_ancestor(store[i].clone(), store[k].clone()));
        }
    }
}

#[test]
fn memo_of_ancestry_follows_the_store() {
    let mut net = Net::new("ab");
    assert!(net.add("a0", "", ""));
    assert!(net.add("b0", "", ""));
    assert!(net.add("a1", "b0", ""));
    assert!(net.add("b1", "a1", ""));
    assert_eq!(
        net.hg.events.reach,
        vec![
            vec![],
            vec![false],
            vec![true, true],
            vec![true, true, true],
        ]
    );
    for k in 2..=12u64 {
        assert!(net.add(&format!("b{}", k), &format!("a{}", k - 1), ""));
        check_memo(&net.hg);
        assert!(net.add(&format!("a{}", k), &format!("b{}", k), ""));
        check_memo(&net.hg);
    }
    // rounds were purged on the way: the memo holds what is left, no more
    assert!(net.hg.rounds.iter().any(|r| r.purged));
    assert!(net.hg.events.store.len() < 26);
    // a refused event leaves no trace in the memo
    let rows = net.hg.events.reach.len();
    assert!(!net.hg.insert_event(net.e("a12")));
    assert_eq!(net.hg.events.reach.len(), rows);
}
