//! Search for prime triples whose product has the same decimal digit
//! histogram as the three factors taken together.

pub mod distributor;
pub mod engine;
pub mod histogram;
pub mod primes;
pub mod search;

pub use histogram::{add_u8_10, digits};
pub use primes::sieve_of_eratosthenes;
pub use search::{build_digit_table, find_matching_digits, find_matching_filtered};
