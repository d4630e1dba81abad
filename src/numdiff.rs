//! Numeric differentiator: integer polynomial-prediction encoder.
use vstd::prelude::*;

verus! {

/// Largest prediction order a kernel accepts.
pub const MAX_COMPRESSION_ORDER: usize = 5;

/// Largest magnitude of a sample the kernel accepts.
pub const SAMPLE_BOUND: i64 = 100_000_000_000_000_000;

/// The `k`-th backward finite difference of `s`, taken at its last element.
pub open spec fn delta(s: Seq<int>, k: nat) -> int
    decreases k,
{
    if k == 0 {
        s.last()
    } else {
        delta(s, (k - 1) as nat) - delta(s.drop_last(), (k - 1) as nat)
    }
}

/// `SAMPLE_BOUND * 2^k`: a bound on the magnitude of a `k`-th difference.
pub open spec fn level_bound(k: nat) -> int
    decreases k,
{
    if k == 0 {
        SAMPLE_BOUND as int
    } else {
        2 * level_bound((k - 1) as nat)
    }
}

/// The samples as mathematical integers.
pub open spec fn ints(s: Seq<i64>) -> Seq<int> {
    s.map_values(|x: i64| x as int)
}

/// The samples a kernel keeps after receiving `x`: the last `order` of them.
pub open spec fn shift_in(hist: Seq<int>, x: int, order: nat) -> Seq<int> {
    let h = hist.push(x);
    if h.len() > order {
        h.subrange(h.len() - order, h.len() as int)
    } else {
        h
    }
}

/// Numeric differentiator of configurable order. After a seed, the first
/// samples are encoded at a progressively growing order, up to the kernel's.
pub struct NumDiff {
    order: usize,
    /// the most recent samples, oldest first
    hist: Vec<i64>,
}

impl NumDiff {
    /// Samples currently kept, oldest first.
    pub closed spec fn history(&self) -> Seq<int> {
        ints(self.hist@)
    }

    pub closed spec fn spec_order(&self) -> nat {
        self.order as nat
    }

    pub closed spec fn wf(&self) -> bool {
        &&& 1 <= self.order <= MAX_COMPRESSION_ORDER
        &&& 1 <= self.hist@.len() <= self.order
        &&& forall|i: int|
            0 <= i < self.hist@.len() ==> -SAMPLE_BOUND <= #[trigger] self.hist@[i] <= SAMPLE_BOUND
    }

    /// Creates a kernel of the given order, seeded with zero.
    pub fn new(order: usize) -> (r: Result<NumDiff, crate::error::Error>)
        ensures
            (1 <= order <= MAX_COMPRESSION_ORDER) <==> r is Ok,
            r is Err ==> r == Err::<NumDiff, _>(crate::error::Error::KernelInit),
            r matches Ok(k) ==> k.wf() && k.spec_order() == order && k.history() == seq![0int],
    {
        if order < 1 || order > MAX_COMPRESSION_ORDER {
            return Err(crate::error::Error::KernelInit);
        }
        let r = NumDiff { order, hist: vec![0i64] };
        proof {
            assert(r.history() =~= seq![0int]);
        }
        Ok(r)
    }

    /// Re-arms the kernel at the given order, with `seed` as its only sample.
    pub fn init(&mut self, order: usize, seed: i64) -> (r: Result<(), crate::error::Error>)
        requires
            -SAMPLE_BOUND <= seed <= SAMPLE_BOUND,
        ensures
            (1 <= order <= MAX_COMPRESSION_ORDER) <==> r is Ok,
            r is Err ==> r == Err::<(), _>(crate::error::Error::KernelInit) && *final(self) == *old(self),
            r is Ok ==> final(self).wf() && final(self).spec_order() == order
                && final(self).history() == seq![seed as int],
    {
        if order < 1 || order > MAX_COMPRESSION_ORDER {
            return Err(crate::error::Error::KernelInit);
        }
        self.order = order;
        self.hist = vec![seed];
        proof {
            assert(self.history() =~= seq![seed as int]);
        }
        Ok(())
    }

    /// Encodes `x`: the difference of the kept samples followed by `x`, at the
    /// order given by the kernel's order or, while warming up, by the number
    /// of kept samples.
    pub fn compress(&mut self, x: i64) -> (r: i64)
        requires
            old(self).wf(),
            -SAMPLE_BOUND <= x <= SAMPLE_BOUND,
        ensures
            final(self).wf(),
            final(self).spec_order() == old(self).spec_order(),
            r == delta(old(self).history().push(x as int), old(self).history().len()),
            final(self).history() == shift_in(old(self).history(), x as int, old(self).spec_order()),
    {
        let k: usize = self.hist.len();
        let mut t: Vec<i64> = self.hist.clone();
        t.push(x);
        let ghost w = ints(t@);
        assert(w == self.history().push(x as int)) by {
            assert(w =~= self.history().push(x as int));
        }
        let mut j: usize = 0;
        while j < k
            invariant
                k == old(self).hist@.len(),
                1 <= k <= MAX_COMPRESSION_ORDER,
                j <= k,
                w.len() == k + 1,
                t@.len() == k + 1 - j,
                forall|i: int|
                    0 <= i < t@.len() ==> #[trigger] t@[i] as int == delta(w.subrange(0, i + j + 1), j as nat),
                forall|i: int|
                    0 <= i < t@.len() ==> -level_bound(j as nat) <= #[trigger] t@[i] <= level_bound(j as nat),
                level_bound(j as nat) <= SAMPLE_BOUND * 32,
            decreases k - j,
        {
            let n: usize = t.len() - 1;
            let mut u: Vec<i64> = Vec::new();
            let mut i: usize = 0;
            proof {
                assert(level_bound((j + 1) as nat) == 2 * level_bound(j as nat));
            }
            while i < n
                invariant
                    n + 1 == t@.len(),
                    w.len() == k + 1,
                    j < k,
                    t@.len() == k + 1 - j,
                    i <= n,
                    u@.len() == i,
                    forall|m: int|
                        0 <= m < t@.len() ==> #[trigger] t@[m] as int == delta(w.subrange(0, m + j + 1), j as nat),
                    forall|m: int|
                        0 <= m < t@.len() ==> -level_bound(j as nat) <= #[trigger] t@[m] <= level_bound(j as nat),
                    level_bound(j as nat) <= SAMPLE_BOUND * 32,
                    forall|m: int|
                        0 <= m < i ==> #[trigger] u@[m] as int == delta(w.subrange(0, m + j + 2), (j + 1) as nat),
                    forall|m: int|
                        0 <= m < i ==> -level_bound((j + 1) as nat) <= #[trigger] u@[m] <= level_bound((j + 1) as nat),
                    level_bound((j + 1) as nat) == 2 * level_bound(j as nat),
                decreases n - i,
            {
                let d: i64 = t[i + 1] - t[i];
                proof {
                    let s = w.subrange(0, i + j + 2);
                    assert(s.drop_last() =~= w.subrange(0, i + j + 1));
                    assert(w.subrange(0, (i + 1) + j + 1) =~= s);
                }
                u.push(d);
                i = i + 1;
            }
            t = u;
            j = j + 1;
            proof {
                assert(level_bound(j as nat) == 2 * level_bound((j - 1) as nat));
                lemma_level_bound_mono(j as nat);
            }
        }
        let r: i64 = t[0];
        proof {
            assert(w.subrange(0, 0 + k + 1) =~= w);
        }
        // keep the last `order` samples
        let mut h: Vec<i64> = self.hist.clone();
        h.push(x);
        if h.len() > self.order {
            h.remove(0);
        }
        proof {
            let hh = old(self).history().push(x as int);
            if hh.len() > self.order {
                assert(ints(h@) =~= hh.subrange(hh.len() - self.order, hh.len() as int));
            } else {
                assert(ints(h@) =~= hh);
            }
        }
        self.hist = h;
        r
    }
}

proof fn lemma_level_bound_mono(k: nat)
    requires
        k <= MAX_COMPRESSION_ORDER,
    ensures
        level_bound(k) <= SAMPLE_BOUND * 32,
        level_bound(k) >= SAMPLE_BOUND,
{
    reveal_with_fuel(level_bound, 6);
}

} // verus!
