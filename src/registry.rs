//! Per-satellite, per-observable kernels, and the pending re-seeds.
use vstd::prelude::*;
use crate::numdiff::NumDiff;
use crate::textdiff::TextDiff;
use crate::sv::Sv;

verus! {

/// The three kernels of one observable of one satellite: its data, and its
/// two flags.
pub struct Kernel {
    pub num: NumDiff,
    pub lli: TextDiff,
    pub ssi: TextDiff,
}

pub struct Slot {
    pub sv: Sv,
    pub index: usize,
    pub kernel: Kernel,
}

/// Position of the first slot of `slots` for observable `i` of `sv`.
pub open spec fn find_slot(slots: Seq<Slot>, sv: Sv, i: nat) -> Option<nat>
    decreases slots.len(),
{
    if slots.len() == 0 {
        None
    } else {
        match find_slot(slots.drop_last(), sv, i) {
            Some(k) => Some(k),
            None => if slots.last().sv == sv && slots.last().index == i {
                Some((slots.len() - 1) as nat)
            } else {
                None
            },
        }
    }
}

pub open spec fn same_keys(a: Seq<Slot>, b: Seq<Slot>) -> bool {
    a.len() == b.len() && forall|k: int| 0 <= k < a.len() ==> (#[trigger] a[k]).sv == b[k].sv && a[k].index == b[k].index
}

pub proof fn lemma_find_in_bounds(slots: Seq<Slot>, sv: Sv, i: nat)
    ensures
        find_slot(slots, sv, i) matches Some(k) ==> k < slots.len() && slots[k as int].sv == sv
            && slots[k as int].index == i,
    decreases slots.len(),
{
    if slots.len() > 0 {
        lemma_find_in_bounds(slots.drop_last(), sv, i);
    }
}

pub proof fn lemma_find_same_keys(a: Seq<Slot>, b: Seq<Slot>, sv: Sv, i: nat)
    requires
        same_keys(a, b),
    ensures
        find_slot(a, sv, i) == find_slot(b, sv, i),
    decreases a.len(),
{
    if a.len() > 0 {
        assert(same_keys(a.drop_last(), b.drop_last())) by {
            assert forall|k: int| 0 <= k < a.len() - 1 implies (#[trigger] a.drop_last()[k]).sv == b.drop_last()[k].sv
                && a.drop_last()[k].index == b.drop_last()[k].index by {
                assert(a[k].sv == b[k].sv);
            }
        }
        lemma_find_same_keys(a.drop_last(), b.drop_last(), sv, i);
        assert(a.last().sv == b.last().sv);
    }
}

proof fn lemma_find_prefix(s: Seq<Slot>, n: int, sv: Sv, i: nat)
    requires
        0 <= n <= s.len(),
        find_slot(s.subrange(0, n), sv, i) is Some,
    ensures
        find_slot(s, sv, i) == find_slot(s.subrange(0, n), sv, i),
    decreases s.len() - n,
{
    if n < s.len() {
        assert(s.subrange(0, n + 1).drop_last() =~= s.subrange(0, n));
        lemma_find_prefix(s, n + 1, sv, i);
    } else {
        assert(s.subrange(0, n) =~= s);
    }
}

/// Position of the slot for observable `i` of `sv`, if there is one.
pub fn lookup(slots: &Vec<Slot>, sv: Sv, i: usize) -> (r: Option<usize>)
    ensures
        match r {
            Some(k) => find_slot(slots@, sv, i as nat) == Some(k as nat) && k < slots@.len(),
            None => find_slot(slots@, sv, i as nat) is None,
        },
{
    let mut j: usize = 0;
    proof {
        assert(slots@.subrange(0, 0) =~= Seq::<Slot>::empty());
    }
    while j < slots.len()
        invariant
            j <= slots@.len(),
            find_slot(slots@.subrange(0, j as int), sv, i as nat) is None,
        decreases slots@.len() - j,
    {
        proof {
            assert(slots@.subrange(0, j + 1).drop_last() =~= slots@.subrange(0, j as int));
        }
        if slots[j].sv == sv && slots[j].index == i {
            proof {
                lemma_find_prefix(slots@, j + 1, sv, i as nat);
            }
            return Some(j);
        }
        j = j + 1;
    }
    proof {
        assert(slots@.subrange(0, j as int) =~= slots@);
    }
    None
}

pub open spec fn sv_known(slots: Seq<Slot>, sv: Sv) -> bool {
    exists|k: int| 0 <= k < slots.len() && (#[trigger] slots[k]).sv == sv
}

/// Whether some slot belongs to `sv`.
pub fn knows_sv(slots: &Vec<Slot>, sv: Sv) -> (r: bool)
    ensures
        r == sv_known(slots@, sv),
{
    let mut j: usize = 0;
    while j < slots.len()
        invariant
            j <= slots@.len(),
            forall|k: int| 0 <= k < j ==> (#[trigger] slots@[k]).sv != sv,
        decreases slots@.len() - j,
    {
        if slots[j].sv == sv {
            return true;
        }
        j = j + 1;
    }
    false
}

/// Whether `(sv, i)` is among the pending re-seeds.
pub fn is_pending(pending: &Vec<(Sv, usize)>, sv: Sv, i: usize) -> (r: bool)
    ensures
        r == pending@.contains((sv, i)),
{
    let mut j: usize = 0;
    while j < pending.len()
        invariant
            j <= pending@.len(),
            forall|k: int| 0 <= k < j ==> #[trigger] pending@[k] != (sv, i),
        decreases pending@.len() - j,
    {
        let (s, k) = pending[j];
        if s == sv && k == i {
            assert(pending@[j as int] == (sv, i));
            return true;
        }
        j = j + 1;
    }
    false
}

/// Adds `(sv, i)` to the pending re-seeds.
pub fn schedule(pending: &mut Vec<(Sv, usize)>, sv: Sv, i: usize)
    ensures
        forall|e: (Sv, usize)| #[trigger] final(pending)@.contains(e) <==> (old(pending)@.contains(e) || e == (sv, i)),
{
    if !is_pending(pending, sv, i) {
        pending.push((sv, i));
        proof {
            assert forall|e: (Sv, usize)| #[trigger] final(pending)@.contains(e) <==> (old(pending)@.contains(e) || e == (sv, i)) by {
                if old(pending)@.contains(e) {
                    let k = choose|k: int| 0 <= k < old(pending)@.len() && old(pending)@[k] == e;
                    assert(final(pending)@[k] == e);
                }
                if final(pending)@.contains(e) && e != (sv, i) {
                    let k = choose|k: int| 0 <= k < final(pending)@.len() && final(pending)@[k] == e;
                    assert(k < old(pending)@.len());
                    assert(old(pending)@[k] == e);
                }
                if e == (sv, i) {
                    assert(final(pending)@[old(pending)@.len() as int] == e);
                }
            }
        }
    }
}

/// Removes `(sv, i)` from the pending re-seeds.
pub fn consume(pending: &mut Vec<(Sv, usize)>, sv: Sv, i: usize)
    ensures
        forall|e: (Sv, usize)| #[trigger] final(pending)@.contains(e) <==> (old(pending)@.contains(e) && e != (sv, i)),
{
    let mut kept: Vec<(Sv, usize)> = Vec::new();
    let mut j: usize = 0;
    while j < pending.len()
        invariant
            j <= pending@.len(),
            pending@ == old(pending)@,
            forall|e: (Sv, usize)| #[trigger] kept@.contains(e) <==> (pending@.subrange(0, j as int).contains(e) && e != (sv, i)),
        decreases pending@.len() - j,
    {
        let (s, k) = pending[j];
        let ghost before = kept@;
        if !(s == sv && k == i) {
            kept.push((s, k));
        }
        proof {
            let p0 = pending@.subrange(0, j as int);
            let p1 = pending@.subrange(0, j + 1);
            assert(p1 =~= p0.push(pending@[j as int]));
            assert forall|e: (Sv, usize)| #[trigger] kept@.contains(e) <==> (p1.contains(e) && e != (sv, i)) by {
                if kept@.contains(e) {
                    let m = choose|m: int| 0 <= m < kept@.len() && kept@[m] == e;
                    if m < before.len() {
                        assert(before[m] == e);
                        assert(before.contains(e));
                        let q = choose|q: int| 0 <= q < p0.len() && p0[q] == e;
                        assert(p1[q] == e);
                    } else {
                        assert(p1[j as int] == e);
                    }
                }
                if p1.contains(e) && e != (sv, i) {
                    let q = choose|q: int| 0 <= q < p1.len() && p1[q] == e;
                    if q < j {
                        assert(p0[q] == e);
                        assert(before.contains(e));
                        let m = choose|m: int| 0 <= m < before.len() && before[m] == e;
                        assert(kept@[m] == e);
                    } else {
                        assert(kept@[kept@.len() - 1] == e);
                    }
                }
            }
        }
        j = j + 1;
    }
    proof {
        assert(pending@.subrange(0, j as int) =~= pending@);
    }
    *pending = kept;
}

} // verus!
