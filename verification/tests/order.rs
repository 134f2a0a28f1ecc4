use hashgraph::order::{comes_not_after, insert_into_sorted, median_of, order_decided, sort, Decided};

fn d(received: u64, timestamp: u64, hash: u64) -> Decided {
    Decided { received, timestamp, created: 0, hash }
}

#[test]
fn sort_orders_ascending() {
    assert_eq!(sort(&vec![]), Vec::<u64>::new());
    assert_eq!(sort(&vec![3, 1, 2]), vec![1, 2, 3]);
    assert_eq!(sort(&vec![5, 5, 1, 9, 0, 5]), vec![0, 1, 5, 5, 5, 9]);
    assert_eq!(sort(&vec![u64::MAX, 0]), vec![0, u64::MAX]);
}

#[test]
fn insert_keeps_a_sorted_list_sorted() {
    let mut v = vec![1, 4, 4, 9];
    insert_into_sorted(&mut v, 4);
    assert_eq!(v, vec![1, 4, 4, 4, 9]);
    insert_into_sorted(&mut v, 0);
    assert_eq!(v, vec![0, 1, 4, 4, 4, 9]);
    insert_into_sorted(&mut v, 10);
    assert_eq!(v, vec![0, 1, 4, 4, 4, 9, 10]);
}

#[test]
fn median_is_the_mean_of_the_middle_three() {
    assert_eq!(median_of(&vec![]), 0);
    assert_eq!(median_of(&vec![7]), 7);
    // two elements: the middle is the second, there is no third
    assert_eq!(median_of(&vec![10, 20]), (10 + 20 + 20) / 3);
    assert_eq!(median_of(&vec![10, 20, 60]), 30);
    assert_eq!(median_of(&vec![1, 2, 3, 100]), (2 + 3 + 100) / 3);
    assert_eq!(median_of(&vec![1, 2, 3, 4, 5]), 3);
    assert_eq!(median_of(&vec![0, 0, 1]), 0);
}

#[test]
fn median_does_not_overflow() {
    assert_eq!(median_of(&vec![u64::MAX, u64::MAX, u64::MAX]), u64::MAX);
    assert_eq!(median_of(&vec![u64::MAX - 3, u64::MAX, u64::MAX]), u64::MAX - 1);
}

#[test]
fn final_order_goes_by_round_then_timestamp() {
    let input = vec![d(3, 10, 1), d(2, 50, 2), d(2, 40, 3), d(3, 5, 4)];
    let out = order_decided(&input);
    let hashes: Vec<u64> = out.iter().map(|x| x.hash).collect();
    assert_eq!(hashes, vec![3, 2, 4, 1]);
}

#[test]
fn ties_are_broken_by_time_of_making_then_by_hash() {
    let mut late = d(2, 7, 1);
    late.created = 9;
    let mut early = d(2, 7, 50);
    early.created = 3;
    let input = vec![d(2, 7, 13), late, d(2, 7, 11), d(1, 9, 12), early, d(2, 7, 10)];
    let out = order_decided(&input);
    let hashes: Vec<u64> = out.iter().map(|x| x.hash).collect();
    assert_eq!(hashes, vec![12, 10, 11, 13, 50, 1]);
    // the order does not depend on the order of the input
    let mut turned = input.clone();
    turned.reverse();
    assert_eq!(order_decided(&turned), out);
}

#[test]
fn comparison_of_decided_events() {
    assert!(comes_not_after(&d(1, 100, 0), &d(2, 0, 0)));
    assert!(!comes_not_after(&d(2, 0, 0), &d(1, 100, 0)));
    assert!(comes_not_after(&d(2, 5, 0), &d(2, 5, 1)));
    assert!(!comes_not_after(&d(2, 5, 1), &d(2, 5, 0)));
    assert!(comes_not_after(&d(2, 5, 1), &d(2, 5, 1)));
    assert!(!comes_not_after(&d(2, 6, 0), &d(2, 5, 1)));
}
