use std::collections::BTreeSet;
use triplet_search::distributor::{first_pair, next_pair, WorkQueue};
use triplet_search::engine::TripletSearch;

#[test]
fn pairs_come_in_row_major_order() {
    assert_eq!(first_pair(0), None);
    assert_eq!(first_pair(3), Some((0, 0)));
    assert_eq!(next_pair(3, 0, 0), Some((0, 1)));
    assert_eq!(next_pair(3, 0, 1), Some((0, 2)));
    assert_eq!(next_pair(3, 0, 2), Some((1, 1)));
    assert_eq!(next_pair(3, 1, 1), Some((1, 2)));
    assert_eq!(next_pair(3, 1, 2), Some((2, 2)));
    assert_eq!(next_pair(3, 2, 2), None);
    assert_eq!(next_pair(1, 0, 0), None);
}

#[test]
fn queue_has_room_for_one_more_than_the_workers() {
    let mut q = WorkQueue::new(10, 2);
    assert!(q.is_empty());
    assert!(!q.is_full());
    assert_eq!(q.produce(), Some((0, 0)));
    assert_eq!(q.produce(), Some((0, 1)));
    assert!(!q.is_full());
    assert_eq!(q.produce(), Some((0, 2)));
    assert!(q.is_full());
    assert_eq!(q.len(), 3);
    assert_eq!(q.produce(), None);
    assert_eq!(q.len(), 3);
    assert_eq!(q.claim(), Some((0, 0)));
    assert_eq!(q.len(), 2);
    assert_eq!(q.produce(), Some((0, 3)));
    assert_eq!(q.produce(), None);
}

#[test]
fn queue_with_no_worker_holds_one_item() {
    let mut q = WorkQueue::new(2, 0);
    assert_eq!(q.produce(), Some((0, 0)));
    assert!(q.is_full());
    assert_eq!(q.produce(), None);
    assert_eq!(q.claim(), Some((0, 0)));
    assert_eq!(q.claim(), None);
}

#[test]
fn every_item_is_claimed_once_and_in_order() {
    let mut q = WorkQueue::new(3, 1);
    let mut claimed = Vec::new();
    let mut turn = 0;
    while !q.is_finished() {
        // Two producer steps for each worker step: the producer runs ahead
        // and is held back by the full queue.
        if turn % 3 != 2 {
            q.produce();
        } else if let Some(item) = q.claim() {
            claimed.push(item);
        }
        assert!(q.len() <= 2);
        turn += 1;
    }
    assert_eq!(
        claimed,
        vec![(0, 0), (0, 1), (0, 2), (1, 1), (1, 2), (2, 2)]
    );
    assert!(q.is_exhausted());
    assert!(q.is_empty());
    assert_eq!(q.claim(), None);
    assert_eq!(q.produce(), None);
}

#[test]
fn queue_over_no_primes_is_finished_at_once() {
    let mut q = WorkQueue::new(0, 4);
    assert!(q.is_exhausted());
    assert!(q.is_finished());
    assert_eq!(q.produce(), None);
    assert_eq!(q.claim(), None);
}

#[test]
fn claim_on_an_empty_queue_changes_nothing() {
    let mut q = WorkQueue::new(5, 2);
    assert_eq!(q.claim(), None);
    assert!(!q.is_exhausted());
    assert!(!q.is_finished());
    assert_eq!(q.produce(), Some((0, 0)));
}

#[test]
fn number_of_items_is_triangular() {
    let mut q = WorkQueue::new(20, 3);
    let mut count = 0;
    while !q.is_finished() {
        q.produce();
        if q.claim().is_some() {
            count += 1;
        }
    }
    assert_eq!(count, 20 * 21 / 2);
}

#[test]
fn pool_order_does_not_change_the_match_set() {
    let search = TripletSearch::new(1000, false).unwrap();
    let serial: BTreeSet<usize> = search.all_matches().into_iter().collect();

    // Two workers that take turns unevenly, and results gathered per worker.
    let mut q = WorkQueue::new(search.prime_count(), 2);
    let mut first_worker = Vec::new();
    let mut second_worker = Vec::new();
    let mut turn = 0usize;
    while !q.is_finished() {
        while q.produce().is_some() {}
        let claims = if turn % 2 == 0 { 1 } else { 2 };
        for _ in 0..claims {
            if let Some((i, k)) = q.claim() {
                let found = search.scan_pair(i, k);
                if turn % 2 == 0 {
                    first_worker.extend(found);
                } else {
                    second_worker.extend(found);
                }
            }
        }
        turn += 1;
    }
    // The second worker's results arrive first.
    let pooled: BTreeSet<usize> = second_worker
        .into_iter()
        .chain(first_worker.into_iter())
        .collect();
    assert_eq!(pooled, serial);
    let expected: BTreeSet<usize> = [163797, 1049397, 1353669].into_iter().collect();
    assert_eq!(pooled, expected);
}

#[test]
fn first_match_is_among_all_matches() {
    let search = TripletSearch::new(1000, false).unwrap();
    let all = search.all_matches();
    let first = search.first_match().unwrap();
    assert!(all.contains(&first));
    assert_eq!(all[0], first);
}
