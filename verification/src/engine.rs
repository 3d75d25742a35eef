//! The search engine: the primes below a bound with their histogram table,
//! and the search over all work items, either up to the first match or to
//! the end.

use crate::distributor::{all_pairs, first_pair, next_pair, pairs_after};
use crate::primes::{lists_primes_below, sieve_of_eratosthenes};
use crate::search::{
    build_digit_table, find_matching_filtered, is_digit_table, pair_result, products_fit,
    scan_start,
};
use vstd::prelude::*;

verus! {

/// The largest number below `bound`; 0 where there is none.
pub open spec fn top_below(bound: nat) -> nat {
    if bound == 0 {
        0
    } else {
        (bound - 1) as nat
    }
}

/// The product of any three numbers below `bound` fits in a machine word.
pub open spec fn cube_fits(bound: nat) -> bool {
    top_below(bound) * top_below(bound) * top_below(bound) <= usize::MAX
}

/// What the scan for a work item yields.
pub open spec fn item_result(primes: Seq<usize>, skip_three: bool, item: (usize, usize)) -> Option<
    nat,
> {
    pair_result(primes, skip_three, item.0 as int, item.1 as int)
}

/// The matches that the work items `items` yield, one after the other in the
/// order of the items.
pub open spec fn results_of(primes: Seq<usize>, skip_three: bool, items: Seq<(usize, usize)>) -> Seq<
    nat,
>
    decreases items.len(),
{
    if items.len() == 0 {
        Seq::empty()
    } else {
        let before = results_of(primes, skip_three, items.drop_last());
        match item_result(primes, skip_three, items.last()) {
            Some(p) => before.push(p),
            None => before,
        }
    }
}

/// The matches that the work items `items` yield, as a set: what a pool of
/// workers has gathered once each of the items was scanned, in whatever
/// order.
pub open spec fn match_set(primes: Seq<usize>, skip_three: bool, items: Seq<(usize, usize)>) -> Set<
    nat,
> {
    Set::new(
        |p: nat|
            exists|x: int|
                0 <= x < items.len() && #[trigger] item_result(primes, skip_three, items[x])
                    == Some(p),
    )
}

/// None of the work items `items` yields a match.
pub open spec fn yields_nothing(
    primes: Seq<usize>,
    skip_three: bool,
    items: Seq<(usize, usize)>,
) -> bool {
    forall|x: int| 0 <= x < items.len() ==> #[trigger] item_result(primes, skip_three, items[x]) is None
}

/// The numbers of a list of machine words.
pub open spec fn as_nats(s: Seq<usize>) -> Seq<nat> {
    s.map_values(|p: usize| p as nat)
}

/// Scanning the items one after the other gathers the same matches as a pool
/// of workers does.
pub proof fn lemma_results_are_match_set(
    primes: Seq<usize>,
    skip_three: bool,
    items: Seq<(usize, usize)>,
)
    ensures
        results_of(primes, skip_three, items).to_set() == match_set(primes, skip_three, items),
    decreases items.len(),
{
    let all = results_of(primes, skip_three, items);
    if items.len() == 0 {
        assert(all.to_set() =~= match_set(primes, skip_three, items));
    } else {
        let front = items.drop_last();
        let before = results_of(primes, skip_three, front);
        lemma_results_are_match_set(primes, skip_three, front);
        assert forall|p: nat| all.to_set().contains(p) <==> match_set(
            primes,
            skip_three,
            items,
        ).contains(p) by {
            if all.contains(p) {
                let y = choose|y: int| 0 <= y < all.len() && all[y] == p;
                if y < before.len() {
                    assert(before[y] == p);
                    assert(before.to_set().contains(p));
                    let x = choose|x: int|
                        0 <= x < front.len() && #[trigger] item_result(primes, skip_three, front[x])
                            == Some(p);
                    assert(items[x] == front[x]);
                } else {
                    assert(item_result(primes, skip_three, items[items.len() - 1]) == Some(p));
                }
            }
            if match_set(primes, skip_three, items).contains(p) {
                let x = choose|x: int|
                    0 <= x < items.len() && #[trigger] item_result(primes, skip_three, items[x])
                        == Some(p);
                if x < front.len() {
                    assert(front[x] == items[x]);
                    assert(match_set(primes, skip_three, front).contains(p));
                    assert(before.to_set().contains(p));
                    let y = choose|y: int| 0 <= y < before.len() && before[y] == p;
                    assert(all[y] == p);
                } else {
                    assert(all[all.len() - 1] == p);
                }
            }
        }
        assert(all.to_set() =~= match_set(primes, skip_three, items));
    }
}

/// The matches gathered do not depend on the order in which the work items
/// are scanned, nor on how often one is: two lists that hold the same items
/// yield the same set of matches.
pub proof fn lemma_match_set_order_free(
    primes: Seq<usize>,
    skip_three: bool,
    items: Seq<(usize, usize)>,
    other: Seq<(usize, usize)>,
)
    requires
        items.to_set() == other.to_set(),
    ensures
        match_set(primes, skip_three, items) == match_set(primes, skip_three, other),
{
    assert forall|p: nat|
        match_set(primes, skip_three, items).contains(p) implies match_set(
        primes,
        skip_three,
        other,
    ).contains(p) by {
        let x = choose|x: int|
            0 <= x < items.len() && #[trigger] item_result(primes, skip_three, items[x]) == Some(p);
        assert(items.to_set().contains(items[x]));
        assert(other.contains(items[x]));
        let y = choose|y: int| 0 <= y < other.len() && other[y] == items[x];
        assert(item_result(primes, skip_three, other[y]) == Some(p));
    }
    assert forall|p: nat|
        match_set(primes, skip_three, other).contains(p) implies match_set(
        primes,
        skip_three,
        items,
    ).contains(p) by {
        let x = choose|x: int|
            0 <= x < other.len() && #[trigger] item_result(primes, skip_three, other[x]) == Some(p);
        assert(other.to_set().contains(other[x]));
        assert(items.contains(other[x]));
        let y = choose|y: int| 0 <= y < items.len() && items[y] == other[x];
        assert(item_result(primes, skip_three, items[y]) == Some(p));
    }
    assert(match_set(primes, skip_three, items) =~= match_set(primes, skip_three, other));
}

/// Products of numbers up to `top` stay within the cube of `top`.
proof fn lemma_products_within_cube(a: nat, b: nat, c: nat, top: nat)
    requires
        a <= top,
        b <= top,
        c <= top,
    ensures
        a * b <= top * top * top,
        a * b * c <= top * top * top,
{
    assert(a * b * c <= top * top * top) by (nonlinear_arith)
        requires
            a <= top,
            b <= top,
            c <= top,
    ;
    if top == 0 {
        assert(a * b == 0) by (nonlinear_arith)
            requires
                a == 0,
        ;
    } else {
        assert(a * b <= top * top * top) by (nonlinear_arith)
            requires
                a <= top,
                b <= top,
                1 <= top,
        ;
    }
}

/// A search set up for one bound: the primes below it, their histogram
/// table, and whether triples with the prime 3 are passed over.
pub struct TripletSearch {
    bound: usize,
    skip_three: bool,
    primes: Vec<usize>,
    digs: Vec<[u8; 10]>,
}

impl TripletSearch {
    /// The bound below which the primes are taken.
    pub closed spec fn bound(&self) -> usize {
        self.bound
    }

    /// Whether triples that hold the prime 3 are passed over.
    pub closed spec fn skip_three(&self) -> bool {
        self.skip_three
    }

    /// The primes of the search, ascending.
    pub closed spec fn primes(&self) -> Seq<usize> {
        self.primes@
    }

    /// The search holds the primes below its bound with their histogram
    /// table, and the bound is small enough for every product to fit.
    pub closed spec fn wf(&self) -> bool {
        &&& lists_primes_below(self.primes@, self.bound as nat)
        &&& is_digit_table(self.primes@, self.digs@)
        &&& cube_fits(self.bound as nat)
    }

    /// Every valid search holds exactly the primes below its bound, and no
    /// product of three of them overflows.
    pub proof fn lemma_wf_primes(&self)
        requires
            self.wf(),
        ensures
            lists_primes_below(self.primes(), self.bound() as nat),
            forall|i: int, k: int|
                0 <= i < self.primes().len() && 0 <= k < self.primes().len() ==> products_fit(
                    self.primes(),
                    i,
                    k,
                ),
    {
        let top = top_below(self.bound as nat);
        assert forall|i: int, k: int|
            0 <= i < self.primes().len() && 0 <= k < self.primes().len() implies products_fit(
            self.primes(),
            i,
            k,
        ) by {
            let s = self.primes@;
            assert(s[i] < self.bound && s[k] < self.bound);
            lemma_products_within_cube(s[i] as nat, s[k] as nat, 0, top);
            assert forall|m: int| scan_start(i, k) <= m < s.len() implies s[i] * s[k] * #[trigger] s[m]
                <= usize::MAX by {
                assert(s[m] < self.bound);
                lemma_products_within_cube(s[i] as nat, s[k] as nat, s[m] as nat, top);
            }
        }
    }

    /// Sets up the search over the primes below `bound`. There is none where
    /// a product of three numbers below `bound` could overflow a machine
    /// word.
    pub fn new(bound: usize, skip_three: bool) -> (made: Option<Self>)
        ensures
            made is Some <==> cube_fits(bound as nat),
            made matches Some(search) ==> {
                &&& search.wf()
                &&& search.bound() == bound
                &&& search.skip_three() == skip_three
                &&& lists_primes_below(search.primes(), bound as nat)
            },
    {
        let top: usize = if bound == 0 {
            0
        } else {
            bound - 1
        };
        let square = match top.checked_mul(top) {
            Some(square) => square,
            None => {
                proof {
                    assert(top * top <= top * top * top) by (nonlinear_arith)
                        requires
                            top * top > usize::MAX,
                    ;
                }
                return None;
            },
        };
        if square.checked_mul(top).is_none() {
            return None;
        }
        let primes = sieve_of_eratosthenes(bound);
        let digs = build_digit_table(&primes);
        Some(TripletSearch { bound, skip_three, primes, digs })
    }

    /// The number of primes below the bound.
    pub fn prime_count(&self) -> (count: usize)
        ensures
            count == self.primes().len(),
    {
        self.primes.len()
    }

    /// The prime at index `j`.
    pub fn prime(&self, j: usize) -> (p: usize)
        requires
            j < self.primes().len(),
        ensures
            p == self.primes()[j as int],
    {
        self.primes[j]
    }

    /// What a worker does with the work item `(i, k)`: the scan for the first
    /// third prime that matches, under the filter of this search.
    pub fn scan_pair(&self, i: usize, k: usize) -> (found: Option<usize>)
        requires
            self.wf(),
            i < self.primes().len(),
            k < self.primes().len(),
        ensures
            match found {
                Some(prod) => item_result(self.primes(), self.skip_three(), (i, k)) == Some(
                    prod as nat,
                ),
                None => item_result(self.primes(), self.skip_three(), (i, k)) is None,
            },
    {
        proof {
            self.lemma_wf_primes();
        }
        find_matching_filtered(i, k, &self.primes, &self.digs, self.skip_three)
    }

    /// The serial search: scans the work items in row-major order and stops
    /// at the first that yields a match.
    pub fn first_match(&self) -> (found: Option<usize>)
        requires
            self.wf(),
        ensures
            match found {
                Some(prod) => exists|x: int|
                    {
                        &&& 0 <= x < all_pairs(self.primes().len() as usize).len()
                        &&& #[trigger] item_result(
                            self.primes(),
                            self.skip_three(),
                            all_pairs(self.primes().len() as usize)[x],
                        ) == Some(prod as nat)
                        &&& yields_nothing(
                            self.primes(),
                            self.skip_three(),
                            all_pairs(self.primes().len() as usize).take(x),
                        )
                    },
                None => yields_nothing(
                    self.primes(),
                    self.skip_three(),
                    all_pairs(self.primes().len() as usize),
                ),
            },
            found is None <==> match_set(
                self.primes(),
                self.skip_three(),
                all_pairs(self.primes().len() as usize),
            ) == Set::<nat>::empty(),
    {
        let n = self.primes.len();
        let ghost all = all_pairs(n);
        let ghost mut done: Seq<(usize, usize)> = Seq::empty();
        let mut cursor = first_pair(n);
        proof {
            assert(done + pairs_after(n, cursor) =~= all);
        }
        while cursor.is_some()
            invariant
                self.wf(),
                n == self.primes().len(),
                all == all_pairs(n),
                done + pairs_after(n, cursor) == all,
                cursor matches Some((a, b)) ==> a <= b < n,
                yields_nothing(self.primes(), self.skip_three(), done),
            decreases pairs_after(n, cursor).len(),
        {
            let (i, k) = cursor.unwrap();
            let following = next_pair(n, i, k);
            proof {
                assert(all[done.len() as int] == (i, k));
                assert(all.take(done.len() as int) =~= done);
                assert(done.push((i, k)).drop_last() =~= done);
                assert(done.push((i, k)) + pairs_after(n, following) =~= all);
            }
            match self.scan_pair(i, k) {
                Some(prod) => {
                    proof {
                        let x = done.len() as int;
                        assert(all == all_pairs(self.primes().len() as usize));
                        assert(item_result(self.primes(), self.skip_three(), all[x]) == Some(
                            prod as nat,
                        ));
                        assert(all.take(x) == done);
                        assert(match_set(self.primes(), self.skip_three(), all).contains(
                            prod as nat,
                        ));
                    }
                    return Some(prod);
                },
                None => {},
            }
            proof {
                done = done.push((i, k));
            }
            cursor = following;
        }
        proof {
            assert(done =~= all);
            assert(match_set(self.primes(), self.skip_three(), all) =~= Set::<nat>::empty());
        }
        None
    }

    /// The search to the end: scans every work item in row-major order and
    /// gathers what each yields. As a set, this is what a pool of workers
    /// gathers from the same items.
    pub fn all_matches(&self) -> (found: Vec<usize>)
        requires
            self.wf(),
        ensures
            as_nats(found@) == results_of(
                self.primes(),
                self.skip_three(),
                all_pairs(self.primes().len() as usize),
            ),
            as_nats(found@).to_set() == match_set(
                self.primes(),
                self.skip_three(),
                all_pairs(self.primes().len() as usize),
            ),
    {
        let n = self.primes.len();
        let ghost all = all_pairs(n);
        let ghost mut done: Seq<(usize, usize)> = Seq::empty();
        let mut found: Vec<usize> = Vec::new();
        let mut cursor = first_pair(n);
        proof {
            assert(done + pairs_after(n, cursor) =~= all);
            assert(as_nats(found@) =~= results_of(self.primes(), self.skip_three(), done));
        }
        while cursor.is_some()
            invariant
                self.wf(),
                n == self.primes().len(),
                all == all_pairs(n),
                done + pairs_after(n, cursor) == all,
                cursor matches Some((a, b)) ==> a <= b < n,
                as_nats(found@) == results_of(self.primes(), self.skip_three(), done),
            decreases pairs_after(n, cursor).len(),
        {
            let (i, k) = cursor.unwrap();
            let following = next_pair(n, i, k);
            proof {
                assert(done.push((i, k)).drop_last() =~= done);
                assert(done.push((i, k)) + pairs_after(n, following) =~= all);
            }
            let ghost before = found@;
            match self.scan_pair(i, k) {
                Some(prod) => {
                    found.push(prod);
                    proof {
                        assert(as_nats(found@) =~= as_nats(before).push(prod as nat));
                    }
                },
                None => {},
            }
            proof {
                done = done.push((i, k));
            }
            cursor = following;
        }
        proof {
            assert(done =~= all);
            lemma_results_are_match_set(self.primes(), self.skip_three(), all);
        }
        found
    }
}

} // verus!
