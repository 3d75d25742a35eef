//! Work items and the bounded queue that hands them from the one producer to
//! the workers.
//!
//! A work item is a pair of indices `(i, k)` into the prime list, `i` no
//! larger than `k`. The producer makes them in row-major order. The queue
//! holds the decisions only: whether the producer may put an item, which item
//! that is, and which item a worker gets. Whoever runs the threads does the
//! waiting.

use std::collections::VecDeque;
use vstd::prelude::*;

verus! {

/// The work items from `(i, k)` on, in row-major order over `n` primes: `k`
/// runs from `i` up to `n`, then `i` goes up by one and `k` starts at it.
pub open spec fn pairs_from(n: usize, i: usize, k: usize) -> Seq<(usize, usize)>
    decreases n - i, n - k,
{
    if i <= k < n {
        if k + 1 < n {
            seq![(i, k)] + pairs_from(n, i, (k + 1) as usize)
        } else {
            seq![(i, k)] + pairs_from(n, (i + 1) as usize, (i + 1) as usize)
        }
    } else {
        Seq::empty()
    }
}

/// All work items over `n` primes, in the order in which they are produced.
pub open spec fn all_pairs(n: usize) -> Seq<(usize, usize)> {
    pairs_from(n, 0, 0)
}

/// What follows `(i, k)` holds exactly the items at or after it, each once.
pub proof fn lemma_pairs_from_exact(n: usize, i: usize, k: usize)
    requires
        i <= k < n,
    ensures
        pairs_from(n, i, k).no_duplicates(),
        forall|a: usize, b: usize|
            pairs_from(n, i, k).contains((a, b)) <==> (a == i && k <= b < n) || (i < a <= b < n),
    decreases n - i, n - k,
{
    let rest = if k + 1 < n {
        pairs_from(n, i, (k + 1) as usize)
    } else {
        pairs_from(n, (i + 1) as usize, (i + 1) as usize)
    };
    let here = seq![(i, k)];
    assert(pairs_from(n, i, k) == here + rest);
    if k + 1 < n {
        lemma_pairs_from_exact(n, i, (k + 1) as usize);
    } else if i + 1 < n {
        lemma_pairs_from_exact(n, (i + 1) as usize, (i + 1) as usize);
    }
    assert forall|a: usize, b: usize|
        rest.contains((a, b)) <==> (a == i && k < b < n) || (i < a <= b < n) by {
        if !(k + 1 < n) && !(i + 1 < n) {
            assert(rest =~= Seq::empty());
        }
    }
    assert(here.contains((i, k))) by {
        assert(here[0] == (i, k));
    }
    assert forall|a: usize, b: usize|
        (here + rest).contains((a, b)) <==> (a == i && k <= b < n) || (i < a <= b < n) by {
        if (here + rest).contains((a, b)) {
            let x = choose|x: int| 0 <= x < (here + rest).len() && (here + rest)[x] == (a, b);
            if x >= 1 {
                assert(rest[x - 1] == (a, b));
            }
        }
        if here.contains((a, b)) {
            let x = choose|x: int| 0 <= x < here.len() && here[x] == (a, b);
            assert((here + rest)[x] == (a, b));
        }
        if rest.contains((a, b)) {
            let x = choose|x: int| 0 <= x < rest.len() && rest[x] == (a, b);
            assert((here + rest)[x + 1] == (a, b));
        }
    }
    assert((here + rest).no_duplicates()) by {
        assert forall|x: int, y: int|
            0 <= x < (here + rest).len() && 0 <= y < (here + rest).len() && x != y implies (here
            + rest)[x] != (here + rest)[y] by {
            if x == 0 {
                assert(rest[y - 1] == (here + rest)[y]);
                assert(rest.contains((here + rest)[y]));
            } else if y == 0 {
                assert(rest[x - 1] == (here + rest)[x]);
                assert(rest.contains((here + rest)[x]));
            } else {
                assert(rest[x - 1] == (here + rest)[x]);
                assert(rest[y - 1] == (here + rest)[y]);
            }
        }
    }
}

/// The work items over `n` primes are exactly the pairs `(a, b)` of indices
/// with `a` no larger than `b`, and none of them comes twice.
pub proof fn lemma_all_pairs_exact(n: usize)
    ensures
        all_pairs(n).no_duplicates(),
        forall|a: usize, b: usize| all_pairs(n).contains((a, b)) <==> a <= b < n,
{
    if n > 0 {
        lemma_pairs_from_exact(n, 0, 0);
    } else {
        assert(all_pairs(n) =~= Seq::empty());
    }
}

/// What is left of the work after `(i, k)`: the items from `next` on, or
/// nothing where `(i, k)` is the last item.
pub open spec fn pairs_after(n: usize, next: Option<(usize, usize)>) -> Seq<(usize, usize)> {
    match next {
        Some((i, k)) => pairs_from(n, i, k),
        None => Seq::empty(),
    }
}

/// The work item that follows `(i, k)` in row-major order over `n` primes:
/// the next `k` in the row of `i`, or the start of the next row, or nothing
/// where `(i, k)` is the last item.
pub open spec fn pair_after(n: usize, i: usize, k: usize) -> Option<(usize, usize)> {
    if k + 1 < n {
        Some((i, (k + 1) as usize))
    } else if i + 1 < n {
        Some(((i + 1) as usize, (i + 1) as usize))
    } else {
        None
    }
}

/// The first work item over `n` primes, or nothing where there is no prime.
pub open spec fn first_of_pairs(n: usize) -> Option<(usize, usize)> {
    if n > 0 {
        Some((0, 0))
    } else {
        None
    }
}

/// The work item that follows `(i, k)` in row-major order over `n` primes,
/// or nothing where `(i, k)` is the last.
pub fn next_pair(n: usize, i: usize, k: usize) -> (next: Option<(usize, usize)>)
    requires
        i <= k < n,
    ensures
        next == pair_after(n, i, k),
        pairs_from(n, i, k) == seq![(i, k)] + pairs_after(n, next),
        next matches Some((a, b)) ==> a <= b < n,
{
    if k + 1 < n {
        Some((i, k + 1))
    } else if i + 1 < n {
        Some((i + 1, i + 1))
    } else {
        proof {
            assert(pairs_from(n, (i + 1) as usize, (i + 1) as usize) =~= Seq::empty());
        }
        None
    }
}

/// The first work item over `n` primes, or nothing where there is no prime.
pub fn first_pair(n: usize) -> (first: Option<(usize, usize)>)
    ensures
        first == first_of_pairs(n),
        all_pairs(n) == pairs_after(n, first),
        first matches Some((a, b)) ==> a <= b < n,
{
    if n > 0 {
        Some((0, 0))
    } else {
        None
    }
}

/// The bounded queue between the producer and the workers, together with the
/// producer's place in the row-major order.
pub struct WorkQueue {
    n: usize,
    capacity: usize,
    next: Option<(usize, usize)>,
    pending: VecDeque<(usize, usize)>,
    claimed: Ghost<Seq<(usize, usize)>>,
}

impl WorkQueue {
    /// The number of primes that the work items range over.
    pub closed spec fn prime_count(&self) -> usize {
        self.n
    }

    /// The most items that may wait in the queue at one time.
    pub closed spec fn capacity(&self) -> usize {
        self.capacity
    }

    /// The items that were produced and not yet claimed, oldest first.
    pub closed spec fn pending(&self) -> Seq<(usize, usize)> {
        self.pending@
    }

    /// The items that workers have claimed so far, in the order of the claims.
    pub closed spec fn claimed(&self) -> Seq<(usize, usize)> {
        self.claimed@
    }

    /// The items that the producer has yet to put, in the order in which it
    /// will.
    pub closed spec fn unproduced(&self) -> Seq<(usize, usize)> {
        pairs_after(self.n, self.next)
    }

    /// Never more items wait than the queue has room for, and the claimed
    /// items, the waiting items and the items to come are together, in this
    /// order, all the work there is.
    pub open spec fn conserved(&self) -> bool {
        &&& 1 <= self.capacity()
        &&& self.pending().len() <= self.capacity()
        &&& self.claimed() + self.pending() + self.unproduced() == all_pairs(self.prime_count())
    }

    /// The producer can put an item: the queue has room and work is left.
    pub open spec fn may_produce(&self) -> bool {
        self.pending().len() < self.capacity() && self.unproduced().len() > 0
    }

    /// The queue is in a state that `new` and the steps can bring about.
    pub closed spec fn wf(&self) -> bool {
        &&& self.conserved()
        &&& match self.next {
            Some((i, k)) => i <= k < self.n,
            None => true,
        }
    }

    /// In every state of the queue no more items wait than it has room for,
    /// and no item is lost or comes twice: what was claimed, what waits and
    /// what is to come are together all the work, in the order of production.
    pub proof fn lemma_wf_conserved(&self)
        requires
            self.wf(),
        ensures
            self.conserved(),
    {
    }

    /// An empty queue for `workers` workers over `prime_count` primes, with
    /// room for one item more than there are workers, and nothing produced
    /// yet.
    pub fn new(prime_count: usize, workers: usize) -> (q: Self)
        requires
            workers < usize::MAX,
        ensures
            q.wf(),
            q.conserved(),
            q.prime_count() == prime_count,
            q.capacity() == workers + 1,
            q.pending() == Seq::<(usize, usize)>::empty(),
            q.claimed() == Seq::<(usize, usize)>::empty(),
            q.unproduced() == all_pairs(prime_count),
    {
        let q = WorkQueue {
            n: prime_count,
            capacity: workers + 1,
            next: first_pair(prime_count),
            pending: VecDeque::new(),
            claimed: Ghost(Seq::empty()),
        };
        assert(q.claimed() + q.pending() + q.unproduced() =~= all_pairs(prime_count));
        q
    }

    /// How many items wait in the queue.
    pub fn len(&self) -> (len: usize)
        requires
            self.wf(),
        ensures
            self.conserved(),
            len == self.pending().len(),
            len <= self.capacity(),
    {
        self.pending.len()
    }

    /// Whether no item waits: a worker that comes now has to wait, or to stop
    /// if the producer is done.
    pub fn is_empty(&self) -> (empty: bool)
        requires
            self.wf(),
        ensures
            empty == (self.pending().len() == 0),
    {
        self.pending.len() == 0
    }

    /// Whether the queue has no room: the producer has to wait.
    pub fn is_full(&self) -> (full: bool)
        requires
            self.wf(),
        ensures
            self.conserved(),
            full == (self.pending().len() == self.capacity()),
    {
        self.pending.len() >= self.capacity
    }

    /// Whether the producer has put its last item.
    pub fn is_exhausted(&self) -> (exhausted: bool)
        requires
            self.wf(),
        ensures
            exhausted == (self.unproduced().len() == 0),
    {
        self.next.is_none()
    }

    /// Whether all work is handed out: the producer is done and nothing
    /// waits. Then the workers have claimed every item, once, in the order of
    /// production.
    pub fn is_finished(&self) -> (finished: bool)
        requires
            self.wf(),
        ensures
            finished == (self.unproduced().len() == 0 && self.pending().len() == 0),
            finished ==> self.claimed() == all_pairs(self.prime_count()),
    {
        proof {
            if self.unproduced().len() == 0 && self.pending().len() == 0 {
                assert(self.claimed() + self.pending() + self.unproduced() =~= self.claimed());
            }
        }
        self.next.is_none() && self.pending.len() == 0
    }

    /// The producer's step. Where the queue has room and work is left, the
    /// next item in row-major order joins the end of the queue and is
    /// returned. Where not, nothing changes and nothing is returned: the
    /// producer is done, or has to wait for a claim.
    pub fn produce(&mut self) -> (item: Option<(usize, usize)>)
        requires
            old(self).wf(),
        ensures
            final(self).wf(),
            final(self).conserved(),
            final(self).prime_count() == old(self).prime_count(),
            final(self).capacity() == old(self).capacity(),
            final(self).claimed() == old(self).claimed(),
            old(self).may_produce() ==> {
                &&& item == Some(old(self).unproduced()[0])
                &&& final(self).pending() == old(self).pending().push(old(self).unproduced()[0])
                &&& final(self).unproduced() == old(self).unproduced().skip(1)
            },
            !old(self).may_produce() ==> {
                &&& item is None
                &&& final(self).pending() == old(self).pending()
                &&& final(self).unproduced() == old(self).unproduced()
            },
    {
        if self.pending.len() >= self.capacity {
            return None;
        }
        match self.next {
            None => None,
            Some((i, k)) => {
                let ghost rest_before = self.unproduced();
                self.pending.push_back((i, k));
                self.next = next_pair(self.n, i, k);
                proof {
                    assert(self.unproduced() =~= rest_before.skip(1));
                    assert(self.claimed() + self.pending() + self.unproduced() =~= old(self).claimed() + old(self).pending() + rest_before);
                }
                Some((i, k))
            },
        }
    }

    /// A worker's step. Where an item waits, the oldest leaves the queue, is
    /// counted as claimed and is returned. Where none waits, nothing changes
    /// and nothing is returned: the worker has to wait, or to stop if the
    /// producer is done.
    pub fn claim(&mut self) -> (item: Option<(usize, usize)>)
        requires
            old(self).wf(),
        ensures
            final(self).wf(),
            final(self).conserved(),
            final(self).prime_count() == old(self).prime_count(),
            final(self).capacity() == old(self).capacity(),
            final(self).unproduced() == old(self).unproduced(),
            old(self).pending().len() > 0 ==> {
                &&& item == Some(old(self).pending()[0])
                &&& final(self).pending() == old(self).pending().skip(1)
                &&& final(self).claimed() == old(self).claimed().push(old(self).pending()[0])
            },
            old(self).pending().len() == 0 ==> {
                &&& item is None
                &&& final(self).pending() == old(self).pending()
                &&& final(self).claimed() == old(self).claimed()
            },
    {
        let item = self.pending.pop_front();
        proof {
            match item {
                Some(x) => {
                    self.claimed@ = self.claimed@.push(x);
                    assert(self.pending() =~= old(self).pending().skip(1));
                    assert(self.claimed() + self.pending() + self.unproduced() =~= old(self).claimed() + old(self).pending() + old(self).unproduced());
                },
                None => {},
            }
        }
        item
    }
}

} // verus!
