//! Primes, and the odd-only sieve of Eratosthenes that lists them.

use vstd::arithmetic::div_mod::{lemma_fundamental_div_mod, lemma_mod_multiples_basic};
use vstd::prelude::*;

verus! {

/// `d` is positive and `n` is a multiple of it.
pub open spec fn divides(d: nat, n: nat) -> bool {
    d > 0 && n % d == 0
}

/// `n` is at least 2 and nothing strictly between 1 and `n` divides it.
pub open spec fn is_prime(n: nat) -> bool {
    n >= 2 && forall|d: nat| 2 <= d < n ==> !#[trigger] divides(d, n)
}

/// `s` holds exactly the primes below `bound`, each once, in ascending order.
pub open spec fn lists_primes_below(s: Seq<usize>, bound: nat) -> bool {
    &&& forall|a: int, b: int| 0 <= a < b < s.len() ==> s[a] < s[b]
    &&& forall|a: int| 0 <= a < s.len() ==> is_prime(#[trigger] s[a] as nat) && s[a] < bound
    &&& forall|p: nat| #[trigger] is_prime(p) && p < bound ==> exists|a: int| 0 <= a < s.len() && s[a] == p
}

/// The sieve keeps odd numbers only: slot `j` stands for `2 * j + 1`. This is
/// the slot of the product of the numbers in slots `t` and `s`.
spec fn product_slot(t: int, s: int) -> int {
    t + s * (2 * t + 1)
}

proof fn lemma_product_slot_value(t: int, s: int)
    ensures
        2 * product_slot(t, s) + 1 == (2 * t + 1) * (2 * s + 1),
        product_slot(t, s) == product_slot(s, t),
{
    assert(2 * (t + s * (2 * t + 1)) + 1 == (2 * t + 1) * (2 * s + 1)) by (nonlinear_arith);
    assert(t + s * (2 * t + 1) == s + t * (2 * s + 1)) by (nonlinear_arith);
}

proof fn lemma_product_slot_grows(t: int, s: int, s2: int)
    requires
        1 <= t,
        1 <= s <= s2,
    ensures
        t < product_slot(t, s) <= product_slot(t, s2),
        s < product_slot(t, s),
{
    assert(t < t + s * (2 * t + 1) <= t + s2 * (2 * t + 1)) by (nonlinear_arith)
        requires
            1 <= t,
            1 <= s <= s2,
    ;
    assert(s < t + s * (2 * t + 1)) by (nonlinear_arith)
        requires
            1 <= t,
            1 <= s,
    ;
}

proof fn lemma_product_slot_assoc(t: int, u: int, s: int)
    ensures
        product_slot(product_slot(t, u), s) == product_slot(t, product_slot(u, s)),
{
    assert((t + u * (2 * t + 1)) + s * (2 * (t + u * (2 * t + 1)) + 1) == t + (u + s * (2 * u + 1))
        * (2 * t + 1)) by (nonlinear_arith);
}

/// The product of two odd numbers above 1 is not prime.
proof fn lemma_product_slot_composite(t: int, s: int)
    requires
        1 <= t,
        1 <= s,
    ensures
        1 <= product_slot(t, s),
        !is_prime((2 * product_slot(t, s) + 1) as nat),
{
    lemma_product_slot_value(t, s);
    lemma_product_slot_grows(t, s, s);
    let v = 2 * product_slot(t, s) + 1;
    let d = 2 * t + 1;
    lemma_mod_multiples_basic(2 * s + 1, d);
    assert(v == (2 * s + 1) * d) by (nonlinear_arith)
        requires
            v == (2 * t + 1) * (2 * s + 1),
            d == 2 * t + 1,
    ;
    assert(divides(d as nat, v as nat));
}

/// An odd number above 1 that is not prime is the product of two odd numbers
/// above 1, the first of them no larger than the second.
proof fn lemma_composite_is_product(j: int) -> (ts: (int, int))
    requires
        1 <= j,
        !is_prime((2 * j + 1) as nat),
    ensures
        1 <= ts.0 <= ts.1,
        j == product_slot(ts.0, ts.1),
        (2 * ts.0 + 1) * (2 * ts.0 + 1) <= 2 * j + 1,
{
    let v = 2 * j + 1;
    let vn = v as nat;
    let dn = choose|d: nat| 2 <= d < vn && #[trigger] divides(d, vn);
    let d = dn as int;
    let q = v / d;
    lemma_fundamental_div_mod(v, d);
    assert(v == d * q);
    assert(1 < q < v) by (nonlinear_arith)
        requires
            v == d * q,
            2 <= d < v,
    ;
    assert(d % 2 == 1 && q % 2 == 1) by {
        if d % 2 == 0 {
            let e = d / 2;
            assert(d * q == 2 * (e * q)) by (nonlinear_arith)
                requires
                    d == 2 * e,
            ;
        }
        if q % 2 == 0 {
            let e = q / 2;
            assert(d * q == 2 * (d * e)) by (nonlinear_arith)
                requires
                    q == 2 * e,
            ;
        }
    }
    let t = d / 2;
    let s = q / 2;
    lemma_product_slot_value(t, s);
    lemma_product_slot_value(s, t);
    if t <= s {
        assert((2 * t + 1) * (2 * t + 1) <= (2 * t + 1) * (2 * s + 1)) by (nonlinear_arith)
            requires
                1 <= t <= s,
        ;
        (t, s)
    } else {
        assert((2 * s + 1) * (2 * s + 1) <= (2 * s + 1) * (2 * t + 1)) by (nonlinear_arith)
            requires
                1 <= s <= t,
        ;
        (s, t)
    }
}

/// A smaller square has the smaller root.
proof fn lemma_square_order(t: int, i: int)
    requires
        0 <= t,
        0 <= i,
        (2 * t + 1) * (2 * t + 1) < (2 * i + 1) * (2 * i + 1),
    ensures
        t < i,
{
    if t >= i {
        assert((2 * i + 1) * (2 * i + 1) <= (2 * t + 1) * (2 * t + 1)) by (nonlinear_arith)
            requires
                0 <= i <= t,
        ;
    }
}

/// The sieve's state while it strikes: slot 0 (the number 1) is struck, every
/// struck slot holds a composite, and the products of each slot below `done`
/// are struck.
spec fn struck_up_to(a: Seq<bool>, done: int) -> bool {
    &&& a.len() >= 1
    &&& !a[0]
    &&& forall|j: int| 1 <= j < a.len() && !#[trigger] a[j] ==> !is_prime((2 * j + 1) as nat)
    &&& forall|t: int, s: int|
        1 <= t < done && 1 <= s && product_slot(t, s) < a.len() ==> !a[#[trigger] product_slot(
            t,
            s,
        )]
}

/// The slot of a composite has, among the products that strike it, one whose
/// first factor is composite's smallest: once the products of that factor's
/// own factors are struck, so are its own.
proof fn lemma_struck_slot_needs_no_pass(a: Seq<bool>, i: int)
    requires
        struck_up_to(a, i),
        1 <= i < a.len(),
        !a[i],
    ensures
        struck_up_to(a, i + 1),
{
    let (t0, s0) = lemma_composite_is_product(i);
    lemma_product_slot_grows(t0, s0, s0);
    assert forall|t: int, s: int|
        1 <= t < i + 1 && 1 <= s && product_slot(t, s) < a.len() implies !a[#[trigger] product_slot(
        t,
        s,
    )] by {
        if t == i {
            lemma_product_slot_assoc(t0, s0, s);
            lemma_product_slot_grows(s0, s, s);
            assert(!a[product_slot(t0, product_slot(s0, s))]);
        }
    }
}

/// When no slot below `done` is left to pass over and the square of the number
/// in slot `done` reaches `bound`, the slots still standing are the odd primes.
proof fn lemma_struck_means_composite(a: Seq<bool>, done: int, bound: int, j: int)
    requires
        struck_up_to(a, done),
        1 <= done,
        (2 * done + 1) * (2 * done + 1) >= bound,
        2 * a.len() <= bound,
        1 <= j < a.len(),
    ensures
        a[j] <==> is_prime((2 * j + 1) as nat),
{
    if a[j] && !is_prime((2 * j + 1) as nat) {
        let (t, s) = lemma_composite_is_product(j);
        lemma_square_order(t, done);
        assert(!a[product_slot(t, s)]);
    }
}

/// Whether the square of `x` is below `bound`.
fn square_is_below(x: usize, bound: usize) -> (below: bool)
    ensures
        below == (x * x < bound),
{
    match x.checked_mul(x) {
        Some(square) => square < bound,
        None => false,
    }
}

/// Lists the primes below `end` in ascending order.
///
/// Only odd numbers are sieved, slot `j` standing for `2 * j + 1`; 2 is put
/// in front of what the sieve leaves. Below 3 there is nothing to list.
pub fn sieve_of_eratosthenes(end: usize) -> (primes: Vec<usize>)
    ensures
        lists_primes_below(primes@, end as nat),
{
    if end < 3 {
        return Vec::new();
    }
    let half: usize = end / 2;
    let mut a: Vec<bool> = vec![true; half];
    a[0] = false;

    assert(struck_up_to(a@, 1));
    let mut i: usize = 1;
    while i < half && square_is_below(2 * i + 1, end)
        invariant
            3 <= end,
            half == end / 2,
            a.len() == half,
            1 <= i <= half,
            struck_up_to(a@, i as int),
        decreases half - i,
    {
        if a[i] {
            let stride: usize = 2 * i + 1;
            assert(3 * stride <= stride * stride) by (nonlinear_arith)
                requires
                    3 <= stride,
            ;
            let mut k: usize = i + stride;
            let ghost mut s: int = 1;
            while k < half
                invariant
                    half == end / 2,
                    a.len() == half,
                    1 <= i < half,
                    stride == 2 * i + 1,
                    3 * stride < end,
                    1 <= s,
                    k == product_slot(i as int, s),
                    struck_up_to(a@, i as int),
                    forall|s2: int|
                        1 <= s2 < s && product_slot(i as int, s2) < half ==> !a[#[trigger] product_slot(
                            i as int,
                            s2,
                        )],
                decreases half + stride - k,
            {
                proof {
                    lemma_product_slot_composite(i as int, s);
                    lemma_product_slot_grows(i as int, s, s + 1);
                    assert(product_slot(i as int, s + 1) == k + stride) by (nonlinear_arith)
                        requires
                            k == i + s * (2 * i + 1),
                            stride == 2 * i + 1,
                            product_slot(i as int, s + 1) == i + (s + 1) * (2 * i + 1),
                    ;
                }
                a[k] = false;
                k = k + stride;
                proof {
                    s = s + 1;
                }
            }
            proof {
                assert forall|t: int, s2: int|
                    1 <= t < i + 1 && 1 <= s2 && product_slot(t, s2) < a.len() implies !a[#[trigger] product_slot(
                    t,
                    s2,
                )] by {
                    if t == i && s2 >= s {
                        lemma_product_slot_grows(i as int, s, s2);
                    }
                }
            }
        } else {
            proof {
                lemma_struck_slot_needs_no_pass(a@, i as int);
            }
        }
        i += 1;
    }

    proof {
        assert((2 * i + 1) * (2 * i + 1) >= end) by (nonlinear_arith)
            requires
                i >= half || (2 * i + 1) * (2 * i + 1) >= end,
                half == end / 2,
                1 <= i,
        ;
        assert forall|j: int| 1 <= j < half implies (a[j] <==> is_prime((2 * j + 1) as nat)) by {
            lemma_struck_means_composite(a@, i as int, end as int, j);
        }
    }

    let mut res: Vec<usize> = Vec::new();
    res.push(2);
    assert(is_prime(2));
    assert forall|p: nat| #[trigger] is_prime(p) && p < 3 implies exists|x: int|
        0 <= x < res.len() && res[x] == p by {
        assert(res[0] == p);
    }
    for j in 1..half
        invariant
            3 <= end,
            half == end / 2,
            a.len() == half,
            forall|j2: int| 1 <= j2 < half ==> (a[j2] <==> is_prime((2 * j2 + 1) as nat)),
            forall|x: int, y: int| 0 <= x < y < res.len() ==> res[x] < res[y],
            forall|x: int|
                0 <= x < res.len() ==> is_prime(#[trigger] res[x] as nat) && res[x] < 2 * j + 1
                    && res[x] < end,
            forall|p: nat| #[trigger]
                is_prime(p) && p < 2 * j + 1 ==> exists|x: int| 0 <= x < res.len() && res[x] == p,
    {
        let ghost before = res@;
        if a[j] {
            res.push(2 * j + 1);
        }
        proof {
            assert forall|p: nat| #[trigger] is_prime(p) && p < 2 * (j + 1) + 1 implies exists|x: int|
                0 <= x < res.len() && res[x] == p by {
                if p < 2 * j + 1 {
                    let x = choose|x: int| 0 <= x < before.len() && before[x] == p;
                    assert(res[x] == p);
                } else if p == 2 * j + 1 {
                    assert(res[res.len() - 1] == p);
                } else {
                    assert(divides(2, p));
                }
            }
        }
    }
    res
}

} // verus!
