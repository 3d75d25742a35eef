use triplet_search::engine::TripletSearch;
use triplet_search::{
    build_digit_table, digits, find_matching_digits, find_matching_filtered,
    sieve_of_eratosthenes,
};

#[test]
fn digit_table_is_parallel_to_the_primes() {
    let primes = sieve_of_eratosthenes(1000);
    let table = build_digit_table(&primes);
    let mapped: Vec<[u8; 10]> = primes.iter().map(|p| digits(*p)).collect();
    assert_eq!(table, mapped);
    assert_eq!(table.len(), 168);
    assert_eq!(table[0], [0, 0, 1, 0, 0, 0, 0, 0, 0, 0]);
    assert_eq!(table[167], [0, 0, 0, 0, 0, 0, 0, 1, 0, 2]);
    assert_eq!(build_digit_table(&Vec::new()), Vec::<[u8; 10]>::new());
}

#[test]
fn golden_product_of_3_653_691() {
    let primes = sieve_of_eratosthenes(1000);
    let table = build_digit_table(&primes);
    assert_eq!(primes[1], 3);
    assert_eq!(primes[118], 653);
    assert_eq!(primes[124], 691);
    assert_eq!(find_matching_digits(1, 118, &primes, &table), Some(1353669));
    assert_eq!(3 * 653 * 691, 1353669);
}

#[test]
fn pair_of_2_and_3_has_no_match_below_1000() {
    let primes = sieve_of_eratosthenes(1000);
    let table = build_digit_table(&primes);
    assert_eq!(find_matching_digits(0, 1, &primes, &table), None);
}

#[test]
fn scan_starts_at_the_larger_index() {
    let primes = sieve_of_eratosthenes(1000);
    let table = build_digit_table(&primes);
    // 3 * 71 * 769 = 163797: found from (1, 19), and from (19, 1) as well.
    assert_eq!(primes[19], 71);
    assert_eq!(primes[135], 769);
    assert_eq!(find_matching_digits(1, 19, &primes, &table), Some(163797));
    assert_eq!(find_matching_digits(19, 1, &primes, &table), Some(163797));
    // From (1, 135) the scan starts at 769 itself: 3 * 769 * 769 is no match.
    assert_eq!(find_matching_digits(1, 135, &primes, &table), None);
    // The scan for (19, 135) starts at 135 and so never sees the prime 3.
    assert_eq!(find_matching_digits(19, 135, &primes, &table), None);
}

#[test]
fn filter_passes_over_triples_with_three() {
    let primes = sieve_of_eratosthenes(1000);
    let table = build_digit_table(&primes);
    assert_eq!(
        find_matching_filtered(1, 118, &primes, &table, false),
        Some(1353669)
    );
    assert_eq!(find_matching_filtered(1, 118, &primes, &table, true), None);
    assert_eq!(find_matching_filtered(1, 19, &primes, &table, true), None);
    assert_eq!(find_matching_filtered(0, 0, &primes, &table, true), None);
    assert_eq!(find_matching_filtered(0, 0, &primes, &table, false), None);
}

#[test]
fn engine_rejects_a_bound_whose_products_overflow() {
    assert!(TripletSearch::new(usize::MAX, false).is_none());
    assert!(TripletSearch::new(1 << 22, false).is_none());
    assert!(TripletSearch::new(0, false).is_some());
    assert!(TripletSearch::new(1, true).is_some());
    assert!(TripletSearch::new(1000, false).is_some());
}

#[test]
fn engine_holds_the_primes_below_its_bound() {
    let search = TripletSearch::new(1000, false).unwrap();
    assert_eq!(search.prime_count(), 168);
    assert_eq!(search.prime(0), 2);
    assert_eq!(search.prime(1), 3);
    assert_eq!(search.prime(167), 997);
    assert_eq!(TripletSearch::new(2, false).unwrap().prime_count(), 0);
}

#[test]
fn engine_scans_a_pair() {
    let search = TripletSearch::new(1000, false).unwrap();
    assert_eq!(search.scan_pair(1, 118), Some(1353669));
    assert_eq!(search.scan_pair(1, 94), Some(1049397));
    assert_eq!(search.scan_pair(0, 1), None);
    let filtered = TripletSearch::new(1000, true).unwrap();
    assert_eq!(filtered.scan_pair(1, 118), None);
}

#[test]
fn serial_search_stops_at_the_first_match() {
    let search = TripletSearch::new(1000, false).unwrap();
    assert_eq!(search.first_match(), Some(163797));
    assert_eq!(TripletSearch::new(100, false).unwrap().first_match(), None);
    assert_eq!(TripletSearch::new(0, false).unwrap().first_match(), None);
}

#[test]
fn exhaustive_search_finds_every_match() {
    let search = TripletSearch::new(1000, false).unwrap();
    assert_eq!(search.all_matches(), vec![163797, 1049397, 1353669]);
    assert_eq!(
        TripletSearch::new(100, false).unwrap().all_matches(),
        Vec::<usize>::new()
    );
}

#[test]
fn no_match_without_three_below_1000() {
    let search = TripletSearch::new(1000, true).unwrap();
    assert_eq!(search.first_match(), None);
    assert_eq!(search.all_matches(), Vec::<usize>::new());
}
