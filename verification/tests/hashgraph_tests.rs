use std::collections::HashMap;

use hashgraph::event::Event;
use hashgraph::hashgraph::Hashgraph;
use hashgraph::internal_txs::PeerTx;
use hashgraph::peer::Peer;
use hashgraph::peers::Peers;
use hashgraph::round::FamousType;

// (name, other parent, payload, membership transactions)
type EventInsert = (String, String, String, Vec<PeerTx>);

fn peers_by_key(peers: &Peers) -> Vec<Peer> {
    let mut list = peers.clone().get_peers();
    list.sort_by_key(|p| p.pub_key.clone());
    list
}

fn build_event(
    peers: &[Peer],
    indexes: &HashMap<String, Event>,
    event: &EventInsert,
) -> Option<Event> {
    let event_hash_bytes = event.0.as_bytes();
    let peers_txs = event.3.clone();

    let peer = event_hash_bytes[0];
    let idx = event_hash_bytes[1];

    let self_hash: &[u8] = &(if idx == 0 { [peer, 0] } else { [peer, idx - 1] });

    let self_p = indexes
        .get(&String::from_utf8(self_hash.to_vec()).unwrap())
        .map_or(0, |ev: &Event| ev.hash);

    let other_p = indexes.get(&event.1).map_or(0, |ev: &Event| ev.hash);

    let tx = event.2.clone().into_bytes();
    let mut txs = vec![];

    if tx.len() > 0 {
        txs = vec![tx];
    }

    let creator = peers.get(usize::from(peer - 97))?;

    Some(Event::new(
        u64::from(idx - 48),
        creator.id,
        self_p,
        other_p,
        txs,
        peers_txs,
    ))
}

fn insert_events(
    hg: &mut Hashgraph,
    indexes: &mut HashMap<String, Event>,
    to_insert: Vec<EventInsert>,
) -> bool {
    for event in to_insert.iter() {
        let peers = peers_by_key(&hg.get_last_decided_peers());

        let e = match build_event(&peers, indexes, event) {
            Some(e) => e,
            None => return false,
        };

        if !hg.insert_event(e.clone()) {
            return false;
        }

        indexes.insert(event.0.clone(), hg.events.get_event(&e.hash).unwrap());
    }

    true
}

fn insert_events_create(
    to_insert: Vec<EventInsert>,
    peers: Peers,
) -> (Hashgraph, HashMap<String, Event>) {
    let mut peers = peers.clone();
    let mut indexes = HashMap::new();

    let mut hg = Hashgraph::new();

    let vpeers = peers_by_key(&peers);

    peers.self_id = vpeers[0].id;

    hg.bootstrap(peers.clone());

    for event in to_insert.iter() {
        let e = build_event(&vpeers, &indexes, event).unwrap();

        if !hg.insert_event(e.clone()) {
            panic!("Cannot insert event");
        }

        indexes.insert(event.0.clone(), hg.events.get_event(&e.hash).unwrap());
    }

    (hg, indexes)
}

fn plain(name: &str, other: &str, payload: &str) -> EventInsert {
    (name.to_string(), other.to_string(), payload.to_string(), vec![])
}

fn assert_round(hg: &Hashgraph, indexes: &HashMap<String, Event>, hash: &str, res: u64) {
    assert_eq!(
        hg.events
            .get_event(&indexes.get(hash).unwrap().hash)
            .unwrap()
            .round,
        res
    );
}

fn assert_ancestor(hg: &Hashgraph, ix: &HashMap<String, Event>, h1: &str, h2: &str, res: bool) {
    assert_eq!(
        hg.clone()
            .is_ancestor(ix.get(h1).unwrap().clone(), ix.get(h2).unwrap().clone()),
        res
    );
}

fn assert_self_ancestor(hg: &Hashgraph, ix: &HashMap<String, Event>, h1: &str, h2: &str, res: bool) {
    assert_eq!(
        hg.clone()
            .is_self_ancestor(ix.get(h1).unwrap().clone(), ix.get(h2).unwrap().clone()),
        res
    );
}

fn assert_see(hg: &Hashgraph, ix: &HashMap<String, Event>, h1: &str, h2: &str, res: bool) {
    assert_eq!(
        hg.clone()
            .see(ix.get(h1).unwrap().clone(), ix.get(h2).unwrap().clone()),
        res
    );
}

fn assert_strongly_see(hg: &Hashgraph, ix: &HashMap<String, Event>, h1: &str, h2: &str, res: bool) {
    assert_eq!(
        hg.clone()
            .strongly_see(ix.get(h1).unwrap().clone(), ix.get(h2).unwrap().clone()),
        res
    );
}

fn assert_witness(hg: &Hashgraph, ix: &HashMap<String, Event>, hash: &str, res: bool) {
    println!("WITNESS {}", hash);
    assert_eq!(hg.clone().is_witness(ix.get(hash).unwrap().clone()), res);
}

fn assert_first_decendant(hg: &Hashgraph, ix: &HashMap<String, Event>, h1: &str, h2: &str, res: &str) {
    let ev1 = hg.events.get_event(&ix.get(h1).unwrap().hash).unwrap();
    let ev2 = hg.events.get_event(&ix.get(h2).unwrap().hash).unwrap();
    let ev_res = hg.events.get_event(&ix.get(res).unwrap().hash).unwrap();

    assert_eq!(
        hg.clone().get_first_decendant(ev1, ev2).unwrap().hash,
        ev_res.hash
    );
}

/*
    b1
   /|
  / |
a1  |
| \ |
|  \|
a0  b0
*/

#[test]
fn simple_test() {
    let mut peers = Peers::new();

    let peer1 = Peer::new("127.0.0.1:1".to_string(), vec![0]);
    let peer2 = Peer::new("127.0.0.1:2".to_string(), vec![1]);

    peers.add(peer1.clone());
    peers.add(peer2.clone());

    let to_insert = vec![
        plain("a0", "", ""),
        plain("b0", "", ""),
        plain("a1", "b0", ""),
        plain("b1", "a1", ""),
    ];

    let (hg, indexes) = insert_events_create(to_insert, peers);

    assert_ancestor(&hg, &indexes, "a0", "a1", true);
    assert_ancestor(&hg, &indexes, "b0", "a1", true);
    assert_ancestor(&hg, &indexes, "a0", "b1", true);
    assert_ancestor(&hg, &indexes, "b0", "b1", true);
    assert_ancestor(&hg, &indexes, "a1", "b1", true);

    assert_ancestor(&hg, &indexes, "b0", "a0", false);
    assert_ancestor(&hg, &indexes, "b1", "a0", false);

    // self ancestor

    assert_self_ancestor(&hg, &indexes, "a0", "a1", true);
    assert_self_ancestor(&hg, &indexes, "b0", "b1", true);

    assert_self_ancestor(&hg, &indexes, "a0", "b1", false);
    assert_self_ancestor(&hg, &indexes, "b0", "a1", false);

    // see

    assert_see(&hg, &indexes, "a1", "a0", true);
    assert_see(&hg, &indexes, "a1", "b0", true);
    assert_see(&hg, &indexes, "b1", "a0", true);
    assert_see(&hg, &indexes, "b1", "b0", true);
    assert_see(&hg, &indexes, "b1", "a1", true);

    assert_see(&hg, &indexes, "a0", "b0", false);
    assert_see(&hg, &indexes, "a0", "b1", false);

    assert_see(&hg, &indexes, "b0", "a0", false);
    assert_see(&hg, &indexes, "b0", "a1", false);
    assert_see(&hg, &indexes, "b0", "b1", false);

    assert_see(&hg, &indexes, "a0", "b0", false);
    assert_see(&hg, &indexes, "a0", "a1", false);
    assert_see(&hg, &indexes, "a0", "b1", false);

    // strongly see

    assert_strongly_see(&hg, &indexes, "a1", "b0", true);
    assert_strongly_see(&hg, &indexes, "b1", "a0", true);
    assert_strongly_see(&hg, &indexes, "b1", "a1", true);
    assert_strongly_see(&hg, &indexes, "b1", "b0", true);

    assert_strongly_see(&hg, &indexes, "a1", "a0", false);

    // witness

    assert_witness(&hg, &indexes, "a0", true);
    assert_witness(&hg, &indexes, "b0", true);
    assert_witness(&hg, &indexes, "a1", false);
    assert_witness(&hg, &indexes, "b1", true);

    // rounds

    assert_round(&hg, &indexes, "a0", 1);
    assert_round(&hg, &indexes, "b0", 1);
    assert_round(&hg, &indexes, "a1", 1);
    assert_round(&hg, &indexes, "b1", 2);

    assert_first_decendant(&hg, &indexes, "a0", "b1", "a1");
    assert_first_decendant(&hg, &indexes, "a1", "b1", "b1");
    assert_first_decendant(&hg, &indexes, "b1", "b1", "b1");
    assert_first_decendant(&hg, &indexes, "b0", "b1", "b1");
}

/*
|   b4  |
|   |   |
|   b3  |
|  /|   | ---- r1
| / b2  |
|/  |   |
a2  |   |
| \ |   |
|   \   |
|   | \ |
a1  |   c2
|   | / |
|   b1  c1
| / |   |
a0  b0  c0
0   1    2
*/

#[test]
fn complex_test() {
    let mut peers = Peers::new();

    let peer1 = Peer::new("127.0.0.1:1".to_string(), vec![0]);
    let peer2 = Peer::new("127.0.0.1:2".to_string(), vec![1]);
    let peer3 = Peer::new("127.0.0.1:3".to_string(), vec![2]);

    peers.add(peer1.clone());
    peers.add(peer2.clone());
    peers.add(peer3.clone());

    let to_insert = vec![
        plain("a0", "", ""),
        plain("b0", "", ""),
        plain("c0", "", ""),
        plain("b1", "a0", ""),
        plain("c1", "", ""),
        plain("c2", "b1", ""),
        plain("a1", "", ""),
        plain("a2", "c2", ""),
        plain("b2", "", ""),
        plain("b3", "a2", ""),
        plain("b4", "", ""),
    ];

    let (hg, indexes) = insert_events_create(to_insert, peers);

    // witness

    assert_witness(&hg, &indexes, "a0", true);
    assert_witness(&hg, &indexes, "b0", true);
    assert_witness(&hg, &indexes, "c0", true);
    assert_witness(&hg, &indexes, "a1", false);
    assert_witness(&hg, &indexes, "b1", false);
    assert_witness(&hg, &indexes, "c1", false);
    assert_witness(&hg, &indexes, "b3", true);

    // strongly see

    assert_strongly_see(&hg, &indexes, "b3", "a0", true);
    assert_strongly_see(&hg, &indexes, "b3", "b0", true);
    assert_strongly_see(&hg, &indexes, "b3", "c0", true);

    // rounds

    assert_round(&hg, &indexes, "a0", 1);
    assert_round(&hg, &indexes, "b0", 1);
    assert_round(&hg, &indexes, "c0", 1);
    assert_round(&hg, &indexes, "a1", 1);
    assert_round(&hg, &indexes, "b1", 1);
    assert_round(&hg, &indexes, "c1", 1);
    assert_round(&hg, &indexes, "b3", 2);
    assert_round(&hg, &indexes, "b4", 2);

    assert_first_decendant(&hg, &indexes, "a1", "b3", "a2");
}

fn create_consensus_hashgraph() -> (Hashgraph, HashMap<String, Event>, Peers) {
    let mut peers = Peers::new();

    let peer1 = Peer::new("127.0.0.1:1".to_string(), vec![0]);
    let peer2 = Peer::new("127.0.0.1:2".to_string(), vec![1]);
    let peer3 = Peer::new("127.0.0.1:3".to_string(), vec![2]);

    peers.add(peer1.clone());
    peers.add(peer2.clone());
    peers.add(peer3.clone());

    let to_insert = vec![
        plain("a0", "", ""),
        plain("b0", "", ""),
        plain("c0", "", ""),
        plain("b1", "a0", ""),
        plain("c1", "b1", "c1"),
        plain("c2", "", ""),
        plain("a1", "c2", ""),
        plain("b2", "a1", ""),
        plain("b3", "", "b3"),
        plain("c3", "b3", ""),
        plain("a2", "b3", ""),
        plain("b4", "a2", ""),
        plain("c4", "b4", ""),
        plain("a3", "c1", ""),
        plain("a4", "c4", ""),
        plain("a5", "", "a5"),
        plain("b5", "a5", ""),
        plain("a6", "b5", "b6"),
        plain("c5", "b5", ""),
        plain("b6", "a6", ""),
        plain("c6", "b6", ""),
        plain("a7", "c6", "a7"),
        plain("b7", "a7", ""),
        plain("c7", "b7", ""),
        plain("a8", "b7", ""),
        plain("b8", "a8", ""),
        plain("c8", "b8", ""),
        plain("a9", "c8", ""),
        plain("b9", "a9", ""),
        plain("c9", "b9", ""),
    ];

    let (hg, indexes) = insert_events_create(to_insert, peers.clone());

    (hg, indexes, peers)
}

#[test]
fn consensus_test() {
    let (hg, indexes, _peers) = create_consensus_hashgraph();

    let assert_famous = |r: u64, hash: &str, res: FamousType| {
        let round = hg.round(r).unwrap().clone();

        assert_eq!(
            round.get(indexes.get(hash).unwrap().hash).unwrap().famous,
            res
        );
    };

    // Rounds

    assert_witness(&hg, &indexes, "a0", true);
    assert_witness(&hg, &indexes, "b0", true);
    assert_witness(&hg, &indexes, "c0", true);

    assert_strongly_see(&hg, &indexes, "a2", "a0", true);
    assert_strongly_see(&hg, &indexes, "a2", "b0", true);
    assert_strongly_see(&hg, &indexes, "a2", "c0", true);

    assert_strongly_see(&hg, &indexes, "b2", "a0", true);
    assert_strongly_see(&hg, &indexes, "b2", "b0", true);
    assert_strongly_see(&hg, &indexes, "b2", "c0", true);

    assert_strongly_see(&hg, &indexes, "c3", "a0", true);
    assert_strongly_see(&hg, &indexes, "c3", "b0", true);
    assert_strongly_see(&hg, &indexes, "c3", "c0", true);

    assert_strongly_see(&hg, &indexes, "b5", "a2", true);
    assert_strongly_see(&hg, &indexes, "b5", "b2", true);
    assert_strongly_see(&hg, &indexes, "b5", "c3", true);

    assert_witness(&hg, &indexes, "a2", true);
    assert_witness(&hg, &indexes, "b2", true);
    assert_witness(&hg, &indexes, "c3", true);
    assert_witness(&hg, &indexes, "b5", true);

    let rounds: Vec<(&str, u64)> = vec![
        ("a0", 1),
        ("b0", 1),
        ("c0", 1),
        ("b1", 1),
        ("c1", 1),
        ("c2", 1),
        ("a1", 1),
        ("b2", 2),
        ("b3", 2),
        ("a2", 2),
        ("c3", 2),
        ("b4", 2),
        ("a3", 2),
        ("c4", 2),
        ("a4", 2),
        ("a5", 2),
        ("b5", 3),
        ("a6", 3),
        ("c5", 3),
        ("b6", 3),
        ("c6", 3),
        ("a7", 3),
        ("b7", 4),
        ("a8", 4),
        ("c7", 4),
        ("b8", 4),
        ("c8", 4),
        ("a9", 4),
        ("b9", 5),
        ("c9", 5),
    ];

    for (hash, round) in rounds.iter() {
        println!("LOLOLOL {} {}", hash, round);
        assert_round(&hg, &indexes, hash, round.clone());
    }

    // Fame

    assert_see(&hg, &indexes, "b2", "a0", true);
    assert_see(&hg, &indexes, "b2", "b0", true);
    assert_see(&hg, &indexes, "b2", "c0", true);

    assert_see(&hg, &indexes, "a2", "a0", true);
    assert_see(&hg, &indexes, "a2", "b0", true);
    assert_see(&hg, &indexes, "a2", "c0", true);

    assert_see(&hg, &indexes, "c3", "a0", true);
    assert_see(&hg, &indexes, "c3", "b0", true);
    assert_see(&hg, &indexes, "c3", "c0", true);

    assert_see(&hg, &indexes, "b5", "b2", true);
    assert_see(&hg, &indexes, "b5", "b2", true);
    assert_see(&hg, &indexes, "b5", "b2", true);
    assert_see(&hg, &indexes, "a6", "b2", true);
    assert_see(&hg, &indexes, "a6", "b2", true);
    assert_see(&hg, &indexes, "a6", "b2", true);
    assert_see(&hg, &indexes, "c5", "b2", true);
    assert_see(&hg, &indexes, "c5", "b2", true);
    assert_see(&hg, &indexes, "c5", "b2", true);

    assert_see(&hg, &indexes, "c0", "b6", false);

    let famous: Vec<(&str, u64, FamousType)> = vec![
        ("a0", 1, FamousType::True),
        ("b0", 1, FamousType::True),
        ("c0", 1, FamousType::True),
        ("b2", 2, FamousType::True),
        ("a2", 2, FamousType::True),
        ("c3", 2, FamousType::True),
        ("b5", 3, FamousType::True),
        ("a6", 3, FamousType::True),
        ("c5", 3, FamousType::True),
    ];

    for (hash, r, val) in famous {
        assert_famous(r, hash, val);
    }

    let undecideds = vec![
        "b5", "b6", "b7", "b8", "b9", "a6", "a7", "a8", "a9", "c5", "c6", "c7", "c8", "c9",
    ];

    assert_eq!(hg.events.undecided.len(), undecideds.len());

    let decided = vec![7, 9, 0, 0, 0];

    let mut round: u64 = 0;

    for &count in decided.iter() {
        round += 1;

        assert_eq!(
            hg.round(round)
                .unwrap()
                .events
                .iter()
                .filter(|val| val.received > 0)
                .count(),
            count,
        );
    }

    assert_eq!(hg.transactions[0], "c1".to_string().into_bytes());
    assert_eq!(hg.transactions[1], "b3".to_string().into_bytes());
    assert_eq!(hg.transactions[2], "a5".to_string().into_bytes());
}

fn create_simple_dyn_hashgraph() -> (Hashgraph, HashMap<String, Event>, Peers) {
    let mut peers = Peers::new();

    let peer1 = Peer::new("127.0.0.1:1".to_string(), vec![0]);
    let peer2 = Peer::new("127.0.0.1:2".to_string(), vec![1]);

    peers.add(peer1.clone());
    peers.add(peer2.clone());

    let peer3 = Peer::new("127.0.0.1:3".to_string(), vec![2]);

    let to_insert = vec![
        plain("a0", "", ""),
        plain("b0", "", ""),
        plain("b1", "a0", "b1"),
        plain("a1", "b1", "a1"),
        (
            "b2".to_string(),
            "a1".to_string(),
            "b2".to_string(),
            vec![PeerTx::new_join(peer3)],
        ),
        plain("a2", "b2", "a2"),
        plain("b3", "a2", "b3"),
        plain("a3", "b3", "a3"),
    ];

    let (hg, indexes) = insert_events_create(to_insert, peers.clone());

    (hg, indexes, peers)
}

#[test]
fn test_simple_dyn_hashgraph() {
    let (mut hg, mut indexes, _peers) = create_simple_dyn_hashgraph();

    println!("A3 HASH {:?}", indexes.get("a3").unwrap().hash);

    let rounds: Vec<(&str, u64)> = vec![
        ("a0", 1),
        ("b0", 1),
        ("b1", 1),
        ("a1", 2),
        ("b2", 2),
        ("a2", 3),
        ("b3", 3),
        ("a3", 4),
    ];

    for (hash, round) in rounds.iter() {
        println!("LOL {}, {}", hash, round);
        assert_round(&hg, &indexes, hash, round.clone());
    }

    assert_eq!(hg.rounds.len(), 4);

    assert_eq!(hg.get_last_decided_peers().len(), 2);

    let mut i: u64 = 1;

    while i < 4 {
        assert_eq!(hg.round(i).unwrap().peers.len(), 2);
        i += 1;
    }

    insert_events(
        &mut hg,
        &mut indexes,
        vec![plain("b4", "a3", "b4"), plain("a4", "b4", "a4")],
    );

    println!("LOL {:?}", hg.rounds);

    assert_eq!(hg.rounds.len(), 6);

    assert_eq!(hg.get_last_decided_peers().len(), 3);

    assert_witness(&hg, &indexes, "a0", true);
    assert_witness(&hg, &indexes, "b0", true);

    assert_witness(&hg, &indexes, "a1", true);
    assert_witness(&hg, &indexes, "b2", true);

    assert_witness(&hg, &indexes, "a2", true);
    assert_witness(&hg, &indexes, "b3", true);

    assert_witness(&hg, &indexes, "a3", true);
    assert_witness(&hg, &indexes, "b4", true);

    assert_witness(&hg, &indexes, "a4", true);

    let rounds: Vec<(&str, u64)> = vec![("b4", 4), ("a4", 5)];

    for (hash, round) in rounds.iter() {
        println!("LOL2 {}, {}", hash, round);
        assert_round(&hg, &indexes, hash, round.clone());
    }

    assert_eq!(hg.get_decided_peers(indexes.get("a4").unwrap()).len(), 2);

    assert_eq!(
        insert_events(
            &mut hg,
            &mut indexes,
            vec![
                plain("b5", "a4", "b5"),
                plain("a5", "b5", "a5"),
                plain("c0", "a5", "c0"),
            ],
        ),
        true
    );

    assert_eq!(hg.rounds.len(), 6);

    let rounds: Vec<(&str, u64)> = vec![("b5", 5), ("a5", 6)];

    for (hash, round) in rounds.iter() {
        println!("LOL3 {}, {}", hash, round);
        assert_round(&hg, &indexes, hash, round.clone());
    }
}

fn create_dyn_hashgraph() -> (Hashgraph, HashMap<String, Event>, Peers) {
    let mut peers = Peers::new();

    let peer1 = Peer::new("127.0.0.1:1".to_string(), vec![0]);
    let peer2 = Peer::new("127.0.0.1:2".to_string(), vec![1]);
    let peer3 = Peer::new("127.0.0.1:3".to_string(), vec![2]);

    peers.add(peer1.clone());
    peers.add(peer2.clone());
    peers.add(peer3.clone());

    let to_insert = vec![
        plain("a0", "", ""),
        plain("b0", "", ""),
        plain("c0", "", ""),
        plain("b1", "a0", "b1"),
        plain("c1", "b1", "c1"),
        plain("a1", "c1", "a1"),
        plain("b2", "a1", "b2"),
        plain("c2", "b2", "c2"),
        plain("a2", "c2", "a2"),
        plain("b3", "a2", "b3"),
        plain("c3", "b3", "c3"),
        plain("a3", "c3", "a3"),
        plain("b4", "a3", "b4"),
        plain("c4", "b4", "c4"),
    ];

    let (hg, indexes) = insert_events_create(to_insert, peers.clone());

    (hg, indexes, peers)
}

#[test]
fn test_dyn_hashgraph() {
    let (mut hg, mut indexes, _peers) = create_dyn_hashgraph();

    let peer4 = Peer::new("127.0.0.1:4".to_string(), vec![3]);
    // add peer
    hg.add_self_event(vec![], vec![PeerTx::new_join(peer4)]);

    let to_insert = vec![
        plain("w33", "g21", "w33"),
        plain("w30", "w33", "w30"),
        plain("w31", "w30", "w31"),
        plain("w32", "w31", "w32"),
        plain("w43", "w32", "w43"),
        plain("w40", "w43", "w40"),
        plain("w41", "w40", "w41"),
        plain("w42", "w41", "w42"),
    ];

    insert_events(&mut hg, &mut indexes, to_insert);
}
