//! The search itself: for two fixed primes, the scan for a third whose
//! product with them has the digits of all three.

use crate::histogram::{
    add_u8_10, bins, digits, hist_add, histogram, lemma_hist_add_commutative,
    lemma_word_histogram_bounded, same_histogram,
};
use vstd::prelude::*;

verus! {

/// The digits of `p`, `q` and `r` together are, digit for digit, those of
/// their product.
pub open spec fn digits_match(p: nat, q: nat, r: nat) -> bool {
    hist_add(hist_add(histogram(p), histogram(q)), histogram(r)) == histogram(p * q * r)
}

/// `digs` is the histogram table of `primes`: as long, and at each index the
/// histogram of the prime at that index.
pub open spec fn is_digit_table(primes: Seq<usize>, digs: Seq<[u8; 10]>) -> bool {
    &&& digs.len() == primes.len()
    &&& forall|j: int|
        0 <= j < primes.len() ==> bins(#[trigger] digs[j]) == histogram(primes[j] as nat)
}

/// Where the scan for the third prime starts: at the larger of the two fixed
/// indices, so that no triple is looked at twice.
pub open spec fn scan_start(i: int, k: int) -> int {
    if k >= i {
        k
    } else {
        i
    }
}

/// Whether the triple of the primes at `i`, `k` and `m` is looked at at all.
/// With `skip_three` set, a triple that holds the prime 3 is passed over.
pub open spec fn admitted(primes: Seq<usize>, skip_three: bool, i: int, k: int, m: int) -> bool {
    skip_three ==> primes[i] != 3 && primes[k] != 3 && primes[m] != 3
}

/// The scan for `i` and `k` reaches `m`, looks at the triple, and its digits
/// match.
pub open spec fn is_hit(primes: Seq<usize>, skip_three: bool, i: int, k: int, m: int) -> bool {
    &&& scan_start(i, k) <= m < primes.len()
    &&& admitted(primes, skip_three, i, k, m)
    &&& digits_match(primes[i] as nat, primes[k] as nat, primes[m] as nat)
}

/// `m` is the first index at which the scan for `i` and `k` hits.
pub open spec fn is_first_hit(primes: Seq<usize>, skip_three: bool, i: int, k: int, m: int) -> bool {
    &&& is_hit(primes, skip_three, i, k, m)
    &&& forall|m2: int| scan_start(i, k) <= m2 < m ==> !#[trigger] is_hit(primes, skip_three, i, k, m2)
}

/// What the scan for `i` and `k` yields: the product of the first triple that
/// hits, or nothing where none does.
pub open spec fn pair_result(primes: Seq<usize>, skip_three: bool, i: int, k: int) -> Option<nat> {
    if exists|m: int| is_first_hit(primes, skip_three, i, k, m) {
        let m = choose|m: int| is_first_hit(primes, skip_three, i, k, m);
        Some((primes[i] * primes[k] * primes[m]) as nat)
    } else {
        None
    }
}

/// Every product that the scan for `i` and `k` can form fits in a machine
/// word.
pub open spec fn products_fit(primes: Seq<usize>, i: int, k: int) -> bool {
    &&& primes[i] * primes[k] <= usize::MAX
    &&& forall|m: int|
        scan_start(i, k) <= m < primes.len() ==> primes[i] * primes[k] * #[trigger] primes[m]
            <= usize::MAX
}

/// The scan has one first hit at most, so what it yields is the product at
/// any index known to be the first hit.
pub proof fn lemma_first_hit_is_result(primes: Seq<usize>, skip_three: bool, i: int, k: int, m: int)
    requires
        is_first_hit(primes, skip_three, i, k, m),
    ensures
        pair_result(primes, skip_three, i, k) == Some((primes[i] * primes[k] * primes[m]) as nat),
{
    let m2 = choose|m2: int| is_first_hit(primes, skip_three, i, k, m2);
    assert(is_hit(primes, skip_three, i, k, m));
    assert(is_hit(primes, skip_three, i, k, m2));
    assert(m2 == m);
}

/// Scans the primes from the larger of `i` and `k` on for the first one whose
/// product with the primes at `i` and `k` has exactly the digits of the three
/// factors, and returns that product. With `skip_three` set, triples that
/// hold the prime 3 are passed over.
pub fn find_matching_filtered(
    i: usize,
    k: usize,
    primes: &Vec<usize>,
    digs: &Vec<[u8; 10]>,
    skip_three: bool,
) -> (found: Option<usize>)
    requires
        i < primes.len(),
        k < primes.len(),
        is_digit_table(primes@, digs@),
        products_fit(primes@, i as int, k as int),
    ensures
        match found {
            Some(prod) => pair_result(primes@, skip_three, i as int, k as int) == Some(prod as nat),
            None => pair_result(primes@, skip_three, i as int, k as int) is None,
        },
{
    let prelim_prod: usize = primes[i] * primes[k];
    proof {
        assert forall|d: int| 0 <= d < 10 implies #[trigger] bins(digs[i as int])[d] + bins(
            digs[k as int],
        )[d] <= 40 by {
            lemma_word_histogram_bounded(primes[i as int], d as nat);
            lemma_word_histogram_bounded(primes[k as int], d as nat);
        }
    }
    let prelim_digs = add_u8_10(&digs[i], &digs[k]);
    let pair_has_three = primes[i] == 3 || primes[k] == 3;

    let start: usize = if k >= i {
        k
    } else {
        i
    };
    for m in start..primes.len()
        invariant
            start == scan_start(i as int, k as int),
            i < primes.len(),
            k < primes.len(),
            products_fit(primes@, i as int, k as int),
            prelim_prod == primes[i as int] * primes[k as int],
            pair_has_three == (primes[i as int] == 3 || primes[k as int] == 3),
            bins(prelim_digs) == hist_add(
                histogram(primes[i as int] as nat),
                histogram(primes[k as int] as nat),
            ),
            forall|m2: int|
                start <= m2 < m ==> !#[trigger] is_hit(primes@, skip_three, i as int, k as int, m2),
    {
        if !(skip_three && (pair_has_three || primes[m] == 3)) {
            assert(primes[i as int] * primes[k as int] * primes[m as int] <= usize::MAX);
            let prod: usize = primes[m] * prelim_prod;
            assert(prod == primes[i as int] * primes[k as int] * primes[m as int])
                by (nonlinear_arith)
                requires
                    prod == primes[m as int] * prelim_prod,
                    prelim_prod == primes[i as int] * primes[k as int],
            ;
            let prod_digs = digits(prod);
            let third = digits(primes[m]);
            proof {
                assert forall|d: int| 0 <= d < 10 implies #[trigger] bins(third)[d] + bins(
                    prelim_digs,
                )[d] <= 60 by {
                    lemma_word_histogram_bounded(primes[i as int], d as nat);
                    lemma_word_histogram_bounded(primes[k as int], d as nat);
                    lemma_word_histogram_bounded(primes[m as int], d as nat);
                }
            }
            let d = add_u8_10(&third, &prelim_digs);
            proof {
                lemma_hist_add_commutative(bins(third), bins(prelim_digs));
            }
            if same_histogram(&d, &prod_digs) {
                proof {
                    lemma_first_hit_is_result(primes@, skip_three, i as int, k as int, m as int);
                }
                return Some(prod);
            }
        }
    }

    None
}

/// Scans the primes from the larger of `i` and `k` on for the first one whose
/// product with the primes at `i` and `k` has exactly the digits of the three
/// factors, and returns that product. No triple is passed over.
pub fn find_matching_digits(i: usize, k: usize, primes: &Vec<usize>, digs: &Vec<[u8; 10]>) -> (found:
    Option<usize>)
    requires
        i < primes.len(),
        k < primes.len(),
        is_digit_table(primes@, digs@),
        products_fit(primes@, i as int, k as int),
    ensures
        match found {
            Some(prod) => pair_result(primes@, false, i as int, k as int) == Some(prod as nat),
            None => pair_result(primes@, false, i as int, k as int) is None,
        },
{
    find_matching_filtered(i, k, primes, digs, false)
}

/// Builds the histogram table of a list of primes: one histogram for each,
/// in the order of the list.
pub fn build_digit_table(primes: &Vec<usize>) -> (digs: Vec<[u8; 10]>)
    ensures
        is_digit_table(primes@, digs@),
{
    let mut digs: Vec<[u8; 10]> = Vec::new();
    for j in 0..primes.len()
        invariant
            digs.len() == j,
            forall|j2: int| 0 <= j2 < j ==> bins(#[trigger] digs[j2]) == histogram(primes[j2] as nat),
    {
        digs.push(digits(primes[j]));
    }
    digs
}

} // verus!
