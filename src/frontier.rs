use vstd::prelude::*;

verus! {

/// A min-priority queue of node indices, one bucket per priority value.
pub struct Frontier {
    buckets: Vec<Vec<usize>>,
    len: usize,
}

/// Total number of entries in the first `n` buckets.
pub open spec fn total(b: Seq<Vec<usize>>, n: int) -> int
    decreases n,
{
    if n <= 0 {
        0
    } else {
        total(b, n - 1) + b[n - 1]@.len()
    }
}

proof fn lemma_total_update(b: Seq<Vec<usize>>, i: int, v: Vec<usize>, n: int)
    requires
        0 <= i < b.len(),
        0 <= n <= b.len(),
    ensures
        total(b.update(i, v), n) == total(b, n) + (if i < n {
            v@.len() - b[i]@.len()
        } else {
            0
        }),
    decreases n,
{
    if n > 0 {
        lemma_total_update(b, i, v, n - 1);
    }
}

proof fn lemma_total_nonneg(b: Seq<Vec<usize>>, n: int)
    ensures
        total(b, n) >= 0,
    decreases n,
{
    if n > 0 {
        lemma_total_nonneg(b, n - 1);
    }
}

proof fn lemma_total_push(b: Seq<Vec<usize>>, e: Vec<usize>, n: int)
    requires
        0 <= n <= b.len(),
    ensures
        total(b.push(e), n) == total(b, n),
    decreases n,
{
    if n > 0 {
        lemma_total_push(b, e, n - 1);
    }
}

proof fn lemma_total_empty(b: Seq<Vec<usize>>, n: int)
    requires
        0 <= n <= b.len(),
        forall|j: int| 0 <= j < n ==> (#[trigger] b[j])@.len() == 0,
    ensures
        total(b, n) == 0,
    decreases n,
{
    if n > 0 {
        lemma_total_empty(b, n - 1);
    }
}

proof fn lemma_total_ge(b: Seq<Vec<usize>>, n: int, i: int)
    requires
        0 <= i < n <= b.len(),
    ensures
        total(b, n) >= b[i]@.len(),
    decreases n,
{
    lemma_total_nonneg(b, n - 1);
    if i < n - 1 {
        lemma_total_ge(b, n - 1, i);
    }
}

impl Frontier {
    /// Index `x` waits in the queue with priority `p`.
    pub closed spec fn has(&self, p: int, x: usize) -> bool {
        0 <= p < self.buckets@.len() && self.buckets@[p]@.contains(x)
    }

    /// Number of waiting entries.
    pub closed spec fn size(&self) -> nat {
        self.len as nat
    }

    pub closed spec fn wf(&self) -> bool {
        self.len == total(self.buckets@, self.buckets@.len() as int)
    }

    /// A queue of size zero holds no entry.
    pub proof fn lemma_empty(&self)
        requires
            self.wf(),
            self.size() == 0,
        ensures
            forall|p: int, x: usize| !self.has(p, x),
    {
        assert forall|p: int, x: usize| !self.has(p, x) by {
            if self.has(p, x) {
                lemma_total_ge(self.buckets@, self.buckets@.len() as int, p);
            }
        }
    }

    /// An empty queue.
    pub fn new() -> (r: Frontier)
        ensures
            r.wf(),
            r.size() == 0,
            forall|p: int, x: usize| !r.has(p, x),
    {
        Frontier { buckets: Vec::new(), len: 0 }
    }

    /// Whether no entry waits.
    pub fn is_empty(&self) -> (r: bool)
        ensures
            r == (self.size() == 0),
    {
        self.len == 0
    }

    /// Adds index `x` with priority `p`.
    pub fn push(&mut self, p: usize, x: usize)
        requires
            old(self).wf(),
            old(self).size() < usize::MAX,
        ensures
            final(self).wf(),
            final(self).size() == old(self).size() + 1,
            forall|q: int, y: usize|
                #[trigger] final(self).has(q, y) <==> (old(self).has(q, y) || (q == p && y == x)),
    {
        while self.buckets.len() <= p
            invariant
                self.wf(),
                self.size() == old(self).size(),
                old(self).buckets@.len() <= self.buckets@.len(),
                forall|j: int|
                    0 <= j < old(self).buckets@.len() ==> #[trigger] self.buckets@[j]
                        == old(self).buckets@[j],
                forall|j: int|
                    old(self).buckets@.len() <= j < self.buckets@.len() ==> (
                    #[trigger] self.buckets@[j])@.len() == 0,
            decreases p + 1 - self.buckets.len(),
        {
            let empty: Vec<usize> = Vec::new();
            proof {
                lemma_total_push(self.buckets@, empty, self.buckets@.len() as int);
            }
            self.buckets.push(empty);
        }
        let ghost before = self.buckets@;
        self.buckets[p].push(x);
        let ghost bucket_v = self.buckets@[p as int];
        proof {
            assert(self.buckets@ == before.update(p as int, bucket_v));
            lemma_total_update(before, p as int, bucket_v, before.len() as int);
        }
        self.len = self.len + 1;
        assert forall|q: int, y: usize| #[trigger]
            self.has(q, y) <==> (old(self).has(q, y) || (q == p && y == x)) by {
            if 0 <= q < old(self).buckets@.len() {
                assert(before[q] == old(self).buckets@[q]);
            }
            if q == p {
                assert(bucket_v@ == before[q]@.push(x));
                assert(bucket_v@[bucket_v@.len() - 1] == x);
                if before[q]@.contains(y) {
                    let k = choose|k: int| 0 <= k < before[q]@.len() && before[q]@[k] == y;
                    assert(bucket_v@[k] == y);
                }
            }
        }
    }

    /// Removes and returns an entry of least priority, as `(priority, index)`.
    pub fn pop_min(&mut self) -> (r: Option<(usize, usize)>)
        requires
            old(self).wf(),
        ensures
            final(self).wf(),
            r is None <==> old(self).size() == 0,
            r is None ==> final(self).size() == 0,
            r is None ==> forall|q: int, y: usize| !(#[trigger] old(self).has(q, y)),
            r matches Some((p, x)) ==> {
                &&& old(self).has(p as int, x)
                &&& final(self).size() == old(self).size() - 1
                &&& forall|q: int, y: usize| #[trigger] old(self).has(q, y) ==> p <= q
                &&& forall|q: int, y: usize| #[trigger]
                    final(self).has(q, y) ==> old(self).has(q, y)
                &&& forall|q: int, y: usize|
                    old(self).has(q, y) && !(q == p && y == x) ==> #[trigger] final(self).has(q, y)
            },
    {
        let mut i: usize = 0;
        while i < self.buckets.len()
            invariant
                *self == *old(self),
                self.wf(),
                i <= self.buckets@.len(),
                forall|j: int| 0 <= j < i ==> (#[trigger] self.buckets@[j])@.len() == 0,
            decreases self.buckets.len() - i,
        {
            if self.buckets[i].len() > 0 {
                let ghost before = self.buckets@;
                let x = self.buckets[i].pop().unwrap();
                let ghost bucket_v = self.buckets@[i as int];
                proof {
                    assert(self.buckets@ == before.update(i as int, bucket_v));
                    lemma_total_update(before, i as int, bucket_v, before.len() as int);
                    lemma_total_nonneg(self.buckets@, before.len() as int);
                    assert(before[i as int]@ == bucket_v@.push(x));
                }
                self.len = self.len - 1;
                proof {
                    let old_b = before[i as int]@;
                    assert(old_b[old_b.len() - 1] == x);
                    assert(old(self).has(i as int, x));
                    assert forall|q: int, y: usize| #[trigger] old(self).has(q, y) implies i
                        <= q by {
                        if q < i {
                            assert(before[q]@.len() == 0);
                        }
                    }
                    assert forall|q: int, y: usize| #[trigger]
                        self.has(q, y) implies old(self).has(q, y) by {
                        if q == i {
                            let k = choose|k: int| 0 <= k < bucket_v@.len() && bucket_v@[k] == y;
                            assert(old_b[k] == y);
                        }
                    }
                    assert forall|q: int, y: usize|
                        old(self).has(q, y) && !(q == i && y == x) implies #[trigger] self.has(
                        q,
                        y,
                    ) by {
                        if q == i {
                            let k = choose|k: int| 0 <= k < old_b.len() && old_b[k] == y;
                            assert(k != old_b.len() - 1);
                            assert(bucket_v@[k] == y);
                        }
                    }
                }
                return Some((i, x));
            }
            i = i + 1;
        }
        proof {
            lemma_total_empty(self.buckets@, self.buckets@.len() as int);
        }
        None
    }
}

} // verus!
