use triplet_search::{add_u8_10, digits, find_matching_digits, sieve_of_eratosthenes};

#[test]
fn matching_test() {
    let primes = sieve_of_eratosthenes(1 << 16);
    let digits = primes.iter().map(|p| digits(*p)).collect();

    assert_eq!(Some(1061583), find_matching_digits(1, 17, &primes, &digits));
}

#[test]
fn add_test() {
    assert_eq!(add_u8_10(&[0; 10], &[0; 10]), [0; 10]);
    assert_eq!(add_u8_10(&[1; 10], &[3; 10]), [4; 10]);
    assert_eq!(
        add_u8_10(&[0, 1, 2, 3, 4, 5, 6, 7, 8, 9], &[0; 10]),
        [0, 1, 2, 3, 4, 5, 6, 7, 8, 9]
    );
    assert_eq!(
        add_u8_10(
            &[0, 0, 0, 1, 2, 3, 0, 0, 0, 133],
            &[1, 2, 0, 0, 2, 0, 0, 0, 12, 22]
        ),
        [1, 2, 0, 1, 4, 3, 0, 0, 12, 155]
    );

    // testing both add and digits
    assert_eq!(
        add_u8_10(&add_u8_10(&digits(3), &digits(653)), &digits(691)),
        digits(1353669)
    );
}

#[test]
fn digits_test() {
    assert_eq!(digits(0), [0; 10]);
    assert_eq!(digits(111111), [0, 6, 0, 0, 0, 0, 0, 0, 0, 0]);
    assert_eq!(digits(1234567890), [1, 1, 1, 1, 1, 1, 1, 1, 1, 1]);
}

#[test]
fn sieve_test() {
    assert_eq!(sieve_of_eratosthenes(12), vec![2, 3, 5, 7, 11]);
    assert_eq!(
        sieve_of_eratosthenes(25),
        vec![2, 3, 5, 7, 11, 13, 17, 19, 23]
    );

    assert_eq!(
        sieve_of_eratosthenes(1000),
        vec![
            2, 3, 5, 7, 11, 13, 17, 19, 23, 29, 31, 37, 41, 43, 47, 53, 59, 61, 67, 71, 73, 79,
            83, 89, 97, 101, 103, 107, 109, 113, 127, 131, 137, 139, 149, 151, 157, 163, 167,
            173, 179, 181, 191, 193, 197, 199, 211, 223, 227, 229, 233, 239, 241, 251, 257, 263,
            269, 271, 277, 281, 283, 293, 307, 311, 313, 317, 331, 337, 347, 349, 353, 359, 367,
            373, 379, 383, 389, 397, 401, 409, 419, 421, 431, 433, 439, 443, 449, 457, 461, 463,
            467, 479, 487, 491, 499, 503, 509, 521, 523, 541, 547, 557, 563, 569, 571, 577, 587,
            593, 599, 601, 607, 613, 617, 619, 631, 641, 643, 647, 653, 659, 661, 673, 677, 683,
            691, 701, 709, 719, 727, 733, 739, 743, 751, 757, 761, 769, 773, 787, 797, 809, 811,
            821, 823, 827, 829, 839, 853, 857, 859, 863, 877, 881, 883, 887, 907, 911, 919, 929,
            937, 941, 947, 953, 967, 971, 977, 983, 991, 997
        ]
    );
}
