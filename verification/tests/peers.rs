use hashgraph::key::Key;
use hashgraph::peer::Peer;
use hashgraph::peers::Peers;

fn peer(port: u8, key: u8) -> Peer {
    Peer::new(format!("127.0.0.1:{}", port), vec![key])
}

fn ids(peers: &Peers) -> Vec<u64> {
    peers.clone().get_peers().iter().map(|p| p.id).collect()
}

#[test]
fn peer_id_is_the_digest_of_its_key() {
    let p = Peer::new("127.0.0.1:1".to_string(), vec![1, 2, 3]);
    assert_eq!(p.id, Key::pub_to_int(vec![1, 2, 3]));
    assert_eq!(p.address, "127.0.0.1:1");
    assert_eq!(p.pub_key, vec![1, 2, 3]);
}

#[test]
fn key_digest_is_stable_and_tells_keys_apart() {
    assert_eq!(Key::pub_to_int(vec![7, 7]), Key::pub_to_int(vec![7, 7]));
    assert_ne!(Key::pub_to_int(vec![0]), Key::pub_to_int(vec![1]));
    assert_ne!(Key::pub_to_int(vec![]), Key::pub_to_int(vec![0]));
}

#[test]
fn new_peer_set_is_empty() {
    let peers = Peers::new();
    assert_eq!(peers.len(), 0);
    assert_eq!(peers.self_id, 0);
    assert_eq!(peers.super_majority, 1);
    assert!(peers.clone().get_self().is_none());
}

#[test]
fn super_majority_follows_the_size() {
    let mut peers = Peers::new();
    let expected = [1u64, 2, 3, 3, 4, 5, 5, 6, 7, 7];
    for (k, want) in expected.iter().enumerate() {
        peers.add(peer(1, u8::try_from(k).unwrap()));
        assert_eq!(peers.len(), k + 1);
        assert_eq!(peers.super_majority, *want);
    }
}

#[test]
fn peers_are_kept_in_order_of_id() {
    let mut peers = Peers::new();
    for k in 0..8u8 {
        peers.add(peer(k, k));
    }
    let list = ids(&peers);
    let mut sorted = list.clone();
    sorted.sort();
    sorted.dedup();
    assert_eq!(list, sorted);
    assert_eq!(list.len(), 8);
}

#[test]
fn adding_a_known_peer_changes_nothing() {
    let mut peers = Peers::new();
    peers.add(peer(1, 1));
    peers.add(peer(2, 2));
    let before = ids(&peers);
    peers.add(Peer::new("10.0.0.1:9".to_string(), vec![1]));
    assert_eq!(ids(&peers), before);
    assert_eq!(peers.super_majority, 2);
    let kept = peers.clone().get_by_id(peer(1, 1).id).unwrap();
    assert_eq!(kept.address, "127.0.0.1:1");
}

#[test]
fn add_self_names_the_local_node() {
    let mut peers = Peers::new();
    let me = peer(1, 1);
    peers.add(peer(2, 2));
    peers.add_self(me.clone());
    assert_eq!(peers.self_id, me.id);
    assert_eq!(peers.clone().get_self().unwrap().id, me.id);
    assert_eq!(peers.len(), 2);
}

#[test]
fn removing_a_peer_lowers_the_threshold() {
    let mut peers = Peers::new();
    for k in 0..4u8 {
        peers.add(peer(k, k));
    }
    assert_eq!(peers.super_majority, 3);
    peers.remove(peer(0, 2));
    assert_eq!(peers.len(), 3);
    assert_eq!(peers.super_majority, 3);
    assert!(peers.clone().get_by_id(peer(0, 2).id).is_none());
    peers.remove(peer(0, 2));
    assert_eq!(peers.len(), 3);
    peers.remove(peer(0, 0));
    assert_eq!(peers.super_majority, 2);
    assert!(peers.has(peer(0, 1).id));
    assert!(!peers.has(peer(0, 0).id));
}

#[test]
fn lookup_by_id_and_by_address() {
    let mut peers = Peers::new();
    peers.add(peer(1, 1));
    peers.add(peer(2, 2));
    assert_eq!(
        peers.clone().get_by_id(peer(2, 2).id).unwrap().pub_key,
        vec![2]
    );
    assert!(peers.clone().get_by_id(12345).is_none());
    assert_eq!(
        peers
            .get_by_socket_addr(&"127.0.0.1:2".to_string())
            .unwrap()
            .id,
        peer(2, 2).id
    );
    assert!(peers.get_by_socket_addr(&"127.0.0.1:3".to_string()).is_none());
    assert_eq!(peers.position(peer(1, 1).id).is_some(), true);
    assert_eq!(peers.position(7), None);
}

#[test]
fn merge_adds_what_is_missing() {
    let mut left = Peers::new();
    left.add_self(peer(1, 1));
    left.add(peer(2, 2));
    let mut right = Peers::new();
    right.add(Peer::new("10.0.0.2:2".to_string(), vec![2]));
    right.add(peer(3, 3));
    left.merge(right);
    assert_eq!(left.len(), 3);
    assert_eq!(left.self_id, peer(1, 1).id);
    assert_eq!(left.super_majority, 3);
    assert_eq!(
        left.clone().get_by_id(peer(2, 2).id).unwrap().address,
        "127.0.0.1:2"
    );
    assert!(left.has(peer(3, 3).id));
}

#[test]
fn nobody_to_draw_while_alone() {
    let mut peers = Peers::new();
    assert!(peers.choose_peer(5).is_none());
    assert!(peers.get_random().is_none());
    peers.add_self(peer(1, 1));
    assert!(peers.choose_peer(5).is_none());
    assert!(peers.get_random().is_none());
}

#[test]
fn draw_never_picks_oneself() {
    let mut peers = Peers::new();
    let me = peer(1, 1);
    let other = peer(2, 2);
    peers.add_self(me.clone());
    peers.add(other.clone());
    for draw in 0..6u64 {
        assert_eq!(peers.choose_peer(draw).unwrap().id, other.id);
    }
    for _ in 0..20 {
        assert_eq!(peers.get_random().unwrap().id, other.id);
    }
}

#[test]
fn draw_goes_by_the_number_and_avoids_the_last_pick() {
    let mut peers = Peers::new();
    let me = peer(1, 1);
    peers.add_self(me.clone());
    peers.add(peer(2, 2));
    peers.add(peer(3, 3));
    peers.add(peer(4, 4));
    let others: Vec<u64> = ids(&peers).into_iter().filter(|id| *id != me.id).collect();
    assert_eq!(others.len(), 3);

    // Nobody was picked yet: the number selects among all others.
    let first = peers.choose_peer(4).unwrap();
    assert_eq!(first.id, others[1]);

    // The last pick is left out: two candidates remain.
    let rest: Vec<u64> = others.iter().cloned().filter(|id| *id != first.id).collect();
    let second = peers.choose_peer(3).unwrap();
    assert_eq!(second.id, rest[1]);
    let rest: Vec<u64> = others.iter().cloned().filter(|id| *id != second.id).collect();
    let third = peers.choose_peer(0).unwrap();
    assert_eq!(third.id, rest[0]);
}

#[test]
fn random_draw_stays_among_the_others() {
    let mut peers = Peers::new();
    let me = peer(1, 1);
    peers.add_self(me.clone());
    for k in 2..7u8 {
        peers.add(peer(k, k));
    }
    let mut last = 0;
    for _ in 0..50 {
        let p = peers.get_random().unwrap();
        assert_ne!(p.id, me.id);
        assert_ne!(p.id, last);
        assert!(peers.has(p.id));
        last = p.id;
    }
}
