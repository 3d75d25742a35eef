//! Decimal digit histograms: ten counters, one for each digit.

use vstd::prelude::*;

verus! {

/// How often the digit `d` occurs in the decimal form of `n`. The number 0 has
/// no digits.
pub open spec fn digit_count(n: nat, d: nat) -> nat
    decreases n,
{
    if n == 0 {
        0
    } else {
        digit_count(n / 10, d) + if n % 10 == d {
            1nat
        } else {
            0nat
        }
    }
}

/// The number of decimal digits of `n`; 0 for the number 0.
pub open spec fn num_digits(n: nat) -> nat
    decreases n,
{
    if n == 0 {
        0
    } else {
        1 + num_digits(n / 10)
    }
}

/// The digit histogram of `n`: at index `d`, how often digit `d` occurs in `n`.
pub open spec fn histogram(n: nat) -> Seq<nat> {
    Seq::new(10, |d: int| digit_count(n, d as nat))
}

/// The sum of the ten buckets of a histogram.
pub open spec fn total(h: Seq<nat>) -> nat {
    h[0] + h[1] + h[2] + h[3] + h[4] + h[5] + h[6] + h[7] + h[8] + h[9]
}

/// Ten to the power `k`.
pub open spec fn pow10(k: nat) -> nat
    decreases k,
{
    if k == 0 {
        1
    } else {
        10 * pow10((k - 1) as nat)
    }
}

/// The ten counters of a histogram as mathematical numbers.
pub open spec fn bins(h: [u8; 10]) -> Seq<nat> {
    Seq::new(10, |d: int| h@[d] as nat)
}

/// Bucket by bucket sum of two histograms.
pub open spec fn hist_add(a: Seq<nat>, b: Seq<nat>) -> Seq<nat> {
    Seq::new(10, |d: int| a[d] + b[d])
}

/// True when every bucket of the sum of `a` and `b` fits in a counter.
pub open spec fn sum_fits(a: Seq<nat>, b: Seq<nat>) -> bool {
    forall|d: int| 0 <= d < 10 ==> #[trigger] a[d] + b[d] <= u8::MAX
}

/// Adds two histograms bucket by bucket.
pub fn add_u8_10(lhs: &[u8; 10], rhs: &[u8; 10]) -> (res: [u8; 10])
    requires
        sum_fits(bins(*lhs), bins(*rhs)),
    ensures
        bins(res) == hist_add(bins(*lhs), bins(*rhs)),
{
    let mut res: [u8; 10] = [0; 10];
    for i in 0..10usize
        invariant
            sum_fits(bins(*lhs), bins(*rhs)),
            forall|d: int| 0 <= d < i ==> res@[d] == lhs@[d] + rhs@[d],
    {
        assert(bins(*lhs)[i as int] + bins(*rhs)[i as int] <= u8::MAX);
        res[i] = lhs[i] + rhs[i];
    }
    assert(bins(res) =~= hist_add(bins(*lhs), bins(*rhs)));
    res
}

/// Adding histograms does not depend on the order of the two.
pub proof fn lemma_hist_add_commutative(a: Seq<nat>, b: Seq<nat>)
    ensures
        hist_add(a, b) == hist_add(b, a),
{
    assert(hist_add(a, b) =~= hist_add(b, a));
}

/// Adding three histograms does not depend on which two are added first.
pub proof fn lemma_hist_add_associative(a: Seq<nat>, b: Seq<nat>, c: Seq<nat>)
    ensures
        hist_add(hist_add(a, b), c) == hist_add(a, hist_add(b, c)),
{
    assert(hist_add(hist_add(a, b), c) =~= hist_add(a, hist_add(b, c)));
}

/// No digit occurs more often than there are digits.
pub proof fn lemma_digit_count_bounded(n: nat, d: nat)
    ensures
        digit_count(n, d) <= num_digits(n),
    decreases n,
{
    if n != 0 {
        lemma_digit_count_bounded(n / 10, d);
    }
}

/// A number below ten to the `k` has at most `k` digits.
pub proof fn lemma_num_digits_bounded(n: nat, k: nat)
    requires
        n < pow10(k),
    ensures
        num_digits(n) <= k,
    decreases k,
{
    if n != 0 {
        lemma_num_digits_bounded(n / 10, (k - 1) as nat);
    }
}

/// A machine word has at most twenty digits, so none of its digits occurs more
/// than twenty times.
pub proof fn lemma_word_histogram_bounded(n: usize, d: nat)
    ensures
        digit_count(n as nat, d) <= 20,
{
    assert(pow10(20) == 100_000_000_000_000_000_000) by {
        reveal_with_fuel(pow10, 21);
    }
    lemma_num_digits_bounded(n as nat, 20);
    lemma_digit_count_bounded(n as nat, d);
}

/// The buckets of a number's histogram add up to its number of digits.
pub proof fn lemma_histogram_total(n: nat)
    ensures
        total(histogram(n)) == num_digits(n),
    decreases n,
{
    if n != 0 {
        lemma_histogram_total(n / 10);
    }
}

/// Counts the decimal digits of `num`, one bucket for each digit. The number 0
/// has an empty histogram.
pub fn digits(num: usize) -> (array: [u8; 10])
    ensures
        bins(array) == histogram(num as nat),
        total(bins(array)) == num_digits(num as nat),
{
    let mut array: [u8; 10] = [0; 10];
    let mut rest: usize = num;
    while rest > 0
        invariant
            forall|d: int|
                0 <= d < 10 ==> #[trigger] array@[d] + digit_count(rest as nat, d as nat)
                    == digit_count(num as nat, d as nat),
        decreases rest,
    {
        let rem: usize = rest % 10;
        proof {
            lemma_word_histogram_bounded(num, rem as nat);
        }
        array[rem] += 1;
        rest = rest / 10;
    }
    proof {
        assert(bins(array) =~= histogram(num as nat));
        lemma_histogram_total(num as nat);
    }
    array
}

/// Whether two histograms agree in every bucket.
pub fn same_histogram(lhs: &[u8; 10], rhs: &[u8; 10]) -> (same: bool)
    ensures
        same == (bins(*lhs) == bins(*rhs)),
{
    for i in 0..10usize
        invariant
            forall|d: int| 0 <= d < i ==> lhs@[d] == rhs@[d],
    {
        if lhs[i] != rhs[i] {
            assert(bins(*lhs)[i as int] != bins(*rhs)[i as int]);
            return false;
        }
    }
    assert(bins(*lhs) =~= bins(*rhs));
    true
}

} // verus!
