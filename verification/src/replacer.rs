//! Victim selection over frame slots by LRU-K.
//!
//! The replacer keeps, per slot, the last `k` access stamps from its own
//! monotone counter, and an evictable bit. The victim is the evictable
//! slot with the largest K-distance: a slot with fewer than `k` recorded
//! accesses counts as infinitely distant; among those, the smallest
//! oldest stamp wins; among slots with `k` stamps, the smallest `k`-th
//! most recent stamp wins (it is the furthest back).

use vstd::prelude::*;

verus! {

use vstd::pervasive::VecAdditionalExecFns;

/// A slot's history has fewer than `k` stamps, so its K-distance is
/// unbounded.
pub open spec fn unbounded(h: Seq<u64>, k: nat) -> bool {
    h.len() < k
}

/// The oldest retained stamp, or 0 for an empty history.
pub open spec fn oldest(h: Seq<u64>) -> u64 {
    if h.len() == 0 {
        0u64
    } else {
        h[0]
    }
}

/// The `k`-th most recent stamp of a history with at least `k` stamps.
pub open spec fn kth_recent(h: Seq<u64>, k: nat) -> u64
    recommends
        k <= h.len(),
{
    h[h.len() - k]
}

/// Slot history `a` is at least as good a victim as `b`: unbounded
/// K-distance beats bounded; within each group the smaller deciding
/// stamp (the further back) wins.
pub open spec fn prefer(a: Seq<u64>, b: Seq<u64>, k: nat) -> bool {
    if unbounded(a, k) && !unbounded(b, k) {
        true
    } else if !unbounded(a, k) && unbounded(b, k) {
        false
    } else if unbounded(a, k) {
        oldest(a) <= oldest(b)
    } else {
        kth_recent(a, k) <= kth_recent(b, k)
    }
}

/// Tracks access history and evictability per frame slot.
pub struct LrukReplacer {
    pub k: usize,
    pub now: u64,
    pub hist: Vec<Vec<u64>>,
    pub evictable: Vec<bool>,
}

impl LrukReplacer {
    /// Number of slots tracked.
    pub open spec fn slots(self) -> int {
        self.hist@.len() as int
    }

    pub open spec fn wf(self) -> bool {
        &&& 1 <= self.k
        &&& self.evictable@.len() == self.hist@.len()
        &&& forall|i: int| 0 <= i < self.hist@.len() ==> (#[trigger] self.hist@[i])@.len()
            <= self.k
    }

    /// A replacer over `slots` slots with parameter `k`, no recorded
    /// accesses, and nothing evictable.
    pub fn new(k: usize, slots: usize) -> (r: Self)
        requires
            1 <= k,
        ensures
            r.wf(),
            r.k == k,
            r.now == 0,
            r.slots() == slots,
            forall|i: int| 0 <= i < slots ==> (#[trigger] r.hist@[i])@.len() == 0,
            forall|i: int| 0 <= i < slots ==> !(#[trigger] r.evictable@[i]),
    {
        let mut hist: Vec<Vec<u64>> = Vec::new();
        let mut evictable: Vec<bool> = Vec::new();
        let mut i: usize = 0;
        while i < slots
            invariant
                i <= slots,
                hist@.len() == i,
                evictable@.len() == i,
                forall|j: int| 0 <= j < i ==> (#[trigger] hist@[j])@.len() == 0,
                forall|j: int| 0 <= j < i ==> !(#[trigger] evictable@[j]),
            decreases slots - i,
        {
            hist.push(Vec::new());
            evictable.push(false);
            i = i + 1;
        }
        LrukReplacer { k, now: 0, hist, evictable }
    }

    /// Appends the current stamp to slot `i`'s history, retaining only
    /// the last `k` stamps, and advances the counter (which saturates).
    pub fn record_access(&mut self, i: usize)
        requires
            old(self).wf(),
            i < old(self).slots(),
        ensures
            final(self).wf(),
            final(self).k == old(self).k,
            final(self).slots() == old(self).slots(),
            final(self).evictable@ == old(self).evictable@,
            (final(self).hist@[i as int])@ == (if (old(self).hist@[i as int])@.len()
                == old(self).k {
                (old(self).hist@[i as int])@.drop_first()
            } else {
                (old(self).hist@[i as int])@
            }).push(old(self).now),
            forall|j: int| 0 <= j < old(self).slots() && j != i ==> final(self).hist@[j] == old(
                self,
            ).hist@[j],
            final(self).now == if old(self).now < u64::MAX {
                (old(self).now + 1) as u64
            } else {
                old(self).now
            },
    {
        let stamp = self.now;
        let mut h = self.hist.remove(i);
        if h.len() == self.k {
            h.remove(0);
        }
        h.push(stamp);
        proof {
            assert(h@ =~= (if (old(self).hist@[i as int])@.len() == old(self).k {
                (old(self).hist@[i as int])@.drop_first()
            } else {
                (old(self).hist@[i as int])@
            }).push(stamp));
        }
        self.hist.insert(i, h);
        if self.now < u64::MAX {
            self.now = self.now + 1;
        }
        proof {
            assert(self.hist@ =~= old(self).hist@.update(i as int, h));
        }
    }

    /// Sets slot `i`'s evictable bit.
    pub fn set_evictable(&mut self, i: usize, b: bool)
        requires
            old(self).wf(),
            i < old(self).slots(),
        ensures
            final(self).wf(),
            final(self).k == old(self).k,
            final(self).now == old(self).now,
            final(self).slots() == old(self).slots(),
            final(self).hist@ == old(self).hist@,
            final(self).evictable@ == old(self).evictable@.update(i as int, b),
    {
        self.evictable.set(i, b);
    }

    /// Chooses the victim: `None` exactly when no slot is evictable;
    /// otherwise an evictable slot at least as good a victim as every
    /// evictable slot, whose history and evictable bit are cleared.
    pub fn evict(&mut self) -> (r: Option<usize>)
        requires
            old(self).wf(),
        ensures
            final(self).wf(),
            final(self).k == old(self).k,
            final(self).now == old(self).now,
            final(self).slots() == old(self).slots(),
            match r {
                None => {
                    &&& *final(self) == *old(self)
                    &&& forall|j: int|
                        0 <= j < old(self).slots() ==> !(#[trigger] old(self).evictable@[j])
                },
                Some(i) => {
                    &&& i < old(self).slots()
                    &&& old(self).evictable@[i as int]
                    &&& forall|j: int|
                        0 <= j < old(self).slots() && #[trigger] old(self).evictable@[j]
                            ==> prefer(
                            (old(self).hist@[i as int])@,
                            (old(self).hist@[j])@,
                            old(self).k as nat,
                        )
                    &&& (final(self).hist@[i as int])@ == Seq::<u64>::empty()
                    &&& forall|j: int| 0 <= j < old(self).slots() && j != i
                        ==> final(self).hist@[j] == old(self).hist@[j]
                    &&& final(self).evictable@ == old(self).evictable@.update(i as int, false)
                },
            },
    {
        let n = self.hist.len();
        let mut best: Option<usize> = None;
        let mut j: usize = 0;
        while j < n
            invariant
                self.wf(),
                n == self.slots(),
                j <= n,
                match best {
                    None => forall|t: int| 0 <= t < j ==> !(#[trigger] self.evictable@[t]),
                    Some(b) => {
                        &&& b < j
                        &&& self.evictable@[b as int]
                        &&& forall|t: int| 0 <= t < j && #[trigger] self.evictable@[t] ==> prefer(
                            (self.hist@[b as int])@,
                            (self.hist@[t])@,
                            self.k as nat,
                        )
                    },
                },
            decreases n - j,
        {
            if self.evictable[j] {
                match best {
                    None => {
                        best = Some(j);
                    },
                    Some(b) => {
                        if self.strictly_better(j, b) {
                            best = Some(j);
                        }
                    },
                }
            }
            j = j + 1;
        }
        match best {
            None => None,
            Some(i) => {
                let ghost pre = self.hist@;
                let _ = self.hist.remove(i);
                self.hist.insert(i, Vec::new());
                self.evictable.set(i, false);
                proof {
                    assert(self.hist@ =~= pre.update(i as int, self.hist@[i as int]));
                }
                Some(i)
            },
        }
    }

    /// Whether any slot is evictable.
    pub fn has_victim(&self) -> (b: bool)
        requires
            self.wf(),
        ensures
            b == exists|j: int| 0 <= j < self.slots() && self.evictable@[j],
    {
        let n = self.evictable.len();
        let mut j: usize = 0;
        while j < n
            invariant
                self.wf(),
                j <= n,
                n == self.evictable@.len(),
                n == self.slots(),
                forall|t: int| 0 <= t < j ==> !self.evictable@[t],
            decreases n - j,
        {
            if self.evictable[j] {
                proof {
                    assert(0 <= (j as int) && (j as int) < self.slots() && self.evictable@[j as int]);
                    assert(exists|t: int| 0 <= t < self.slots() && self.evictable@[t]);
                }
                return true;
            }
            j = j + 1;
        }
        false
    }

    /// Whether slot `a`'s history makes it a strictly better victim
    /// than slot `b`'s.
    fn strictly_better(&self, a: usize, b: usize) -> (r: bool)
        requires
            self.wf(),
            a < self.slots(),
            b < self.slots(),
        ensures
            r == (prefer((self.hist@[a as int])@, (self.hist@[b as int])@, self.k as nat)
                && !prefer((self.hist@[b as int])@, (self.hist@[a as int])@, self.k as nat)),
    {
        let ha = &self.hist[a];
        let hb = &self.hist[b];
        let ia = ha.len() < self.k;
        let ib = hb.len() < self.k;
        if ia && !ib {
            true
        } else if !ia && ib {
            false
        } else if ia {
            let oa = if ha.len() == 0 {
                0u64
            } else {
                ha[0]
            };
            let ob = if hb.len() == 0 {
                0u64
            } else {
                hb[0]
            };
            oa < ob
        } else {
            ha[ha.len() - self.k] < hb[hb.len() - self.k]
        }
    }
}

} // verus!
