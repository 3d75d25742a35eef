use triplet_search::sieve_of_eratosthenes;

fn is_prime(n: usize) -> bool {
    n >= 2 && (2..n).all(|d| n % d != 0)
}

#[test]
fn sieve_below_three_is_empty() {
    assert_eq!(sieve_of_eratosthenes(0), Vec::<usize>::new());
    assert_eq!(sieve_of_eratosthenes(1), Vec::<usize>::new());
    assert_eq!(sieve_of_eratosthenes(2), Vec::<usize>::new());
}

#[test]
fn sieve_small_bounds() {
    assert_eq!(sieve_of_eratosthenes(3), vec![2]);
    assert_eq!(sieve_of_eratosthenes(4), vec![2, 3]);
    assert_eq!(sieve_of_eratosthenes(5), vec![2, 3]);
    assert_eq!(sieve_of_eratosthenes(6), vec![2, 3, 5]);
    assert_eq!(sieve_of_eratosthenes(9), vec![2, 3, 5, 7]);
    assert_eq!(sieve_of_eratosthenes(10), vec![2, 3, 5, 7]);
    assert_eq!(sieve_of_eratosthenes(11), vec![2, 3, 5, 7]);
}

#[test]
fn sieve_bound_is_exclusive() {
    assert_eq!(sieve_of_eratosthenes(13), vec![2, 3, 5, 7, 11]);
    assert_eq!(sieve_of_eratosthenes(14), vec![2, 3, 5, 7, 11, 13]);
    assert_eq!(sieve_of_eratosthenes(26), vec![2, 3, 5, 7, 11, 13, 17, 19, 23]);
}

#[test]
fn sieve_agrees_with_trial_division() {
    for bound in 0..400usize {
        let expected: Vec<usize> = (0..bound).filter(|n| is_prime(*n)).collect();
        assert_eq!(sieve_of_eratosthenes(bound), expected);
    }
}

#[test]
fn sieve_counts() {
    assert_eq!(sieve_of_eratosthenes(1000).len(), 168);
    assert_eq!(sieve_of_eratosthenes(1 << 16).len(), 6542);
    assert_eq!(sieve_of_eratosthenes(1 << 16).last(), Some(&65521));
}
