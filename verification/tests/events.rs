use std::collections::HashMap;

use hashgraph::event::Event;
use hashgraph::events::{Events, EventsDiff, Frame};
use hashgraph::hashgraph::Hashgraph;
use hashgraph::internal_txs::{PeerTx, PeerTxType};
use hashgraph::peer::Peer;
use hashgraph::peers::Peers;
use hashgraph::round::Round;

fn known(pairs: &[(u64, u64)]) -> HashMap<u64, u64> {
    pairs.iter().cloned().collect()
}

fn ev(id: u64, creator: u64, self_parent: u64, other_parent: u64, ts: u64) -> Event {
    Event::with_timestamp(id, creator, self_parent, other_parent, vec![], vec![], ts)
}

/// A store with the events 0..=last of each of the creators, each chained
/// to the one before.
fn chains(creators: &[u64], last: u64) -> (Events, Vec<Vec<Event>>) {
    let mut store = Events::new();
    let mut all = vec![];
    for c in creators {
        let mut chain: Vec<Event> = vec![];
        for id in 0..=last {
            let parent = chain.last().map_or(0, |e: &Event| e.hash);
            let e = ev(id, *c, parent, 0, 1000 * c + id);
            assert!(store.insert_event(e.clone()));
            chain.push(e);
        }
        all.push(chain);
    }
    (store, all)
}

#[test]
fn hash_is_a_function_of_the_fields() {
    let a = ev(1, 2, 3, 4, 5);
    let b = ev(1, 2, 3, 4, 5);
    assert_eq!(a.hash, b.hash);
    assert_ne!(a.hash, 0);
    assert_ne!(a.hash, ev(2, 2, 3, 4, 5).hash);
    assert_ne!(a.hash, ev(1, 3, 3, 4, 5).hash);
    assert_ne!(a.hash, ev(1, 2, 4, 4, 5).hash);
    assert_ne!(a.hash, ev(1, 2, 3, 5, 5).hash);
    assert_ne!(a.hash, ev(1, 2, 3, 4, 6).hash);
    let with_tx = Event::with_timestamp(1, 2, 3, 4, vec![vec![9]], vec![], 5);
    assert_ne!(a.hash, with_tx.hash);
    let with_empty_tx = Event::with_timestamp(1, 2, 3, 4, vec![vec![]], vec![], 5);
    assert_ne!(a.hash, with_empty_tx.hash);
    assert_ne!(with_tx.hash, with_empty_tx.hash);
}

#[test]
fn hash_covers_the_membership_transactions() {
    let p = Peer::new("127.0.0.1:1".to_string(), vec![1]);
    let q = Peer::new("127.0.0.1:2".to_string(), vec![1]);
    let join = Event::with_timestamp(0, 1, 0, 0, vec![], vec![PeerTx::new_join(p.clone())], 5);
    let leave = Event::with_timestamp(0, 1, 0, 0, vec![], vec![PeerTx::new_leave(p.clone())], 5);
    let other = Event::with_timestamp(0, 1, 0, 0, vec![], vec![PeerTx::new_join(q)], 5);
    let none = Event::with_timestamp(0, 1, 0, 0, vec![], vec![], 5);
    assert_ne!(join.hash, leave.hash);
    assert_ne!(join.hash, other.hash);
    assert_ne!(join.hash, none.hash);
    assert_eq!(
        join.hash,
        Event::with_timestamp(0, 1, 0, 0, vec![], vec![PeerTx::new(PeerTxType::Join, p)], 5).hash
    );
}

#[test]
fn hash_does_not_cover_the_round() {
    let a = ev(1, 2, 3, 4, 5);
    let mut b = ev(1, 2, 3, 4, 5);
    b.round = 9;
    b.hash = 0;
    b.calc_hash();
    assert_eq!(a.hash, b.hash);
}

#[test]
fn a_set_hash_is_kept() {
    let mut e = ev(1, 2, 3, 4, 5);
    e.hash = 77;
    e.calc_hash();
    assert_eq!(e.hash, 77);
}

#[test]
fn new_event_is_stamped_and_hashed() {
    let a = Event::new(3, 4, 5, 6, vec![vec![1]], vec![]);
    assert_eq!((a.id, a.creator, a.self_parent, a.other_parent), (3, 4, 5, 6));
    assert_eq!(a.round, 0);
    assert_eq!(a.transactions, vec![vec![1]]);
    // later than 2020-01-01 in microseconds
    assert!(a.timestamp > 1_577_836_800_000_000);
    let b = Event::new(3, 4, 5, 6, vec![vec![1]], vec![]);
    assert!(b.timestamp >= a.timestamp);
    let same = Event::with_timestamp(3, 4, 5, 6, vec![vec![1]], vec![], a.timestamp);
    assert_eq!(a.hash, same.hash);
}

#[test]
fn root_has_no_self_parent() {
    assert!(ev(0, 1, 0, 0, 1).is_root());
    assert!(ev(0, 1, 0, 9, 1).is_root());
    assert!(!ev(1, 1, 8, 0, 1).is_root());
}

#[test]
fn store_takes_a_chain() {
    let (store, all) = chains(&[1], 3);
    assert_eq!(store.store.len(), 4);
    assert_eq!(store.undecided.len(), 4);
    assert_eq!(store.get_last_event_of(1).unwrap().hash, all[0][3].hash);
    assert_eq!(store.get_event(&all[0][2].hash).unwrap().id, 2);
    assert!(store.get_event(&12345).is_none());
    assert!(store.get_last_event_of(2).is_none());
}

#[test]
fn store_rejects_a_known_hash() {
    let (mut store, all) = chains(&[1], 1);
    assert!(!store.check_event(&all[0][1]));
    assert!(!store.insert_event(all[0][1].clone()));
    assert_eq!(store.store.len(), 2);
    assert_eq!(store.undecided.len(), 2);
}

#[test]
fn store_rejects_a_wrong_id() {
    let (store, all) = chains(&[1], 1);
    let last = all[0][1].hash;
    assert!(store.check_event(&ev(2, 1, last, 0, 9)));
    assert!(!store.check_event(&ev(3, 1, last, 0, 9)));
    assert!(!store.check_event(&ev(1, 1, last, 0, 9)));
    assert!(!store.check_event(&ev(0, 1, last, 0, 9)));
}

#[test]
fn store_rejects_a_bad_self_parent() {
    let (store, all) = chains(&[1, 2], 1);
    // unknown self-parent
    assert!(!store.check_event(&ev(2, 1, 424242, 0, 9)));
    // self-parent of another creator
    assert!(!store.check_event(&ev(2, 1, all[1][1].hash, 0, 9)));
    // self-parent that is not the creator's last event
    assert!(!store.check_event(&ev(2, 1, all[0][0].hash, 0, 9)));
    // a second root
    assert!(!store.check_event(&ev(2, 1, 0, 0, 9)));
    // a new creator must start with a root ...
    assert!(!store.check_event(&ev(0, 3, all[0][1].hash, 0, 9)));
    assert!(!store.check_event(&ev(0, 3, 515151, 0, 9)));
    // ... whatever its id
    assert!(store.check_event(&ev(0, 3, 0, 0, 9)));
    assert!(store.check_event(&ev(7, 3, 0, 0, 9)));
}

#[test]
fn known_events_lists_the_last_ids() {
    let (mut store, all) = chains(&[5, 3], 2);
    assert_eq!(store.known_events(), known(&[(5, 2), (3, 2)]));
    assert_eq!(store.known_list(), vec![(5, 2), (3, 2)]);
    assert!(store.insert_event(ev(3, 5, all[0][2].hash, 0, 1)));
    assert_eq!(store.known_events(), known(&[(5, 3), (3, 2)]));
    assert_eq!(store.known_list(), vec![(5, 3), (3, 2)]);
    assert_eq!(Events::new().known_events(), known(&[]));
}

#[test]
fn stale_pull_gets_what_it_lacks() {
    let (store, _) = chains(&[1, 2], 10);
    let diff = store.events_diff(known(&[(1, 7), (2, 10)]), 16);
    assert_eq!(diff.has_more, false);
    assert_eq!(diff.sender_id, 0);
    assert_eq!(diff.known, known(&[(1, 10), (2, 10)]));
    assert_eq!(diff.diff.len(), 1);
    assert_eq!(diff.diff[0].creator, 1);
    let ids: Vec<u64> = diff.diff[0].events.iter().map(|e| e.id).collect();
    assert_eq!(ids, vec![8, 9, 10]);
}

#[test]
fn diff_is_cut_at_the_limit() {
    let (store, _) = chains(&[1, 2], 10);
    let diff = store.events_diff(known(&[(1, 2), (2, 8)]), 3);
    assert_eq!(diff.has_more, true);
    assert_eq!(diff.known, known(&[(1, 10), (2, 10)]));
    assert_eq!(diff.diff.len(), 2);
    let a: Vec<u64> = diff.diff[0].events.iter().map(|e| e.id).collect();
    let b: Vec<u64> = diff.diff[1].events.iter().map(|e| e.id).collect();
    assert_eq!(a, vec![3, 4, 5]);
    assert_eq!(b, vec![9, 10]);
    // a gap of exactly the limit is not cut
    let exact = store.events_diff(known(&[(1, 7), (2, 10)]), 3);
    assert_eq!(exact.has_more, false);
    let a: Vec<u64> = exact.diff[0].events.iter().map(|e| e.id).collect();
    assert_eq!(a, vec![8, 9, 10]);
}

#[test]
fn diff_without_limit_sends_everything_above() {
    let (store, _) = chains(&[1, 2], 10);
    let diff = store.events_diff(known(&[(1, 2), (2, 10)]), 0);
    assert_eq!(diff.has_more, false);
    assert_eq!(diff.diff.len(), 1);
    assert_eq!(diff.diff[0].events.len(), 8);
    assert_eq!(diff.diff[0].events[0].id, 3);
}

#[test]
fn unknown_creator_is_sent_in_full() {
    let (store, _) = chains(&[1, 2], 10);
    let diff = store.events_diff(known(&[(2, 10)]), 3);
    assert_eq!(diff.has_more, false);
    assert_eq!(diff.diff.len(), 1);
    assert_eq!(diff.diff[0].creator, 1);
    assert_eq!(diff.diff[0].events.len(), 11);
    let all = store.events_diff(known(&[]), 1);
    assert_eq!(all.diff.len(), 2);
    assert_eq!(all.diff[1].events.len(), 11);
}

#[test]
fn remote_that_is_ahead_gets_nothing() {
    let (store, _) = chains(&[1], 3);
    let diff = store.events_diff(known(&[(1, 9)]), 16);
    assert_eq!(diff.diff.len(), 0);
    assert_eq!(diff.has_more, false);
}

#[test]
fn full_diff_rebuilds_what_is_known() {
    let (store, _) = chains(&[4, 2, 9], 6);
    let diff = store.events_diff(known(&[]), 0);
    let mut copy = Events::new();
    for entry in diff.diff.iter() {
        for e in entry.events.iter() {
            assert!(copy.insert_event(e.clone()));
        }
    }
    assert_eq!(copy.known_events(), store.known_events());
    assert_eq!(copy.known_events(), diff.known);
}

#[test]
fn select_picks_a_range_of_one_creator() {
    let (store, _) = chains(&[1, 2], 5);
    let ids: Vec<u64> = store.select(2, Some(1), 3).iter().map(|e| e.id).collect();
    assert_eq!(ids, vec![2, 3]);
    let ids: Vec<u64> = store.select(2, None, 1).iter().map(|e| e.id).collect();
    assert_eq!(ids, vec![0, 1]);
    assert!(store.select(3, None, 9).is_empty());
}

#[test]
fn purge_forgets_listed_events_and_what_lies_before() {
    let (mut store, all) = chains(&[1, 2], 4);
    store.purge(vec![all[0][2].hash, all[1][0].hash, 999]);
    let ids: Vec<(u64, u64)> = store.store.iter().map(|e| (e.creator, e.id)).collect();
    assert_eq!(ids, vec![(1, 3), (1, 4), (2, 1), (2, 2), (2, 3), (2, 4)]);
    assert!(store.get_event(&all[0][0].hash).is_none());
    assert!(store.get_event(&all[0][2].hash).is_none());
    assert!(store.get_event(&all[0][3].hash).is_some());
    assert_eq!(store.undecided.len(), 6);
    assert_eq!(store.known_events(), known(&[(1, 4), (2, 4)]));
    assert_eq!(store.known_list(), vec![(1, 4), (2, 4)]);
    // the chain goes on after the purge
    assert!(store.insert_event(ev(5, 1, all[0][4].hash, 0, 1)));
    assert!(!store.insert_event(ev(6, 1, all[0][4].hash, 0, 1)));
}

#[test]
fn purge_of_nothing_changes_nothing() {
    let (mut store, _) = chains(&[1], 2);
    store.purge(vec![]);
    assert_eq!(store.store.len(), 3);
    store.purge(vec![4, 5, 6]);
    assert_eq!(store.store.len(), 3);
    assert_eq!(store.undecided.len(), 3);
}

#[test]
fn new_frame_is_empty() {
    assert_eq!(Frame::new().events.len(), 0);
}

#[test]
fn defaults_are_empty() {
    assert_eq!(Events::default().store.len(), 0);
    assert_eq!(Frame::default().events.len(), 0);
    let diff = EventsDiff::default();
    assert_eq!((diff.known.len(), diff.diff.len(), diff.sender_id, diff.has_more), (0, 0, 0, false));
    assert_eq!(Peers::default().len(), 0);
    assert_eq!(Peers::default().super_majority, 1);
    assert_eq!(Round::default().id, 0);
    assert_eq!(Hashgraph::default().rounds.len(), 0);
}

#[test]
fn stamp_cuts_the_microseconds_to_64_bits() {
    use_stamp(None, 0);
    use_stamp(Some(0), 0);
    use_stamp(Some(1_700_000_000_000_000), 1_700_000_000_000_000);
    use_stamp(Some(u128::from(u64::MAX)), u64::MAX);
    use_stamp(Some(u128::from(u64::MAX) + 1), 0);
    use_stamp(Some(u128::from(u64::MAX) + 8), 7);
    use_stamp(Some(u128::MAX), u64::MAX);
}

fn use_stamp(elapsed: Option<u128>, want: u64) {
    assert_eq!(hashgraph::event::stamp(elapsed), want);
}

#[test]
fn clock_reads_the_present() {
    let first = hashgraph::event::current_micros();
    // later than 2020-01-01 and earlier than 2100-01-01, in microseconds
    assert!(first > 1_577_836_800_000_000);
    assert!(first < 4_102_444_800_000_000);
}
