//! When an adaptive scan ends: after looks that find nothing better, and as soon as there are enough of
//! them.

use crate::adaptive::Pace;
use crate::compress::{Compressor, QueryCtx};
use crate::index::Index;
use crate::order::{ahead, ascending, lemma_ahead_ascending, lemma_ahead_sorted, lemma_ascending, smallest};
use crate::router::Router;
use vstd::prelude::*;

verus! {

/// How many scores of a pool are lower than `v`.
pub open spec fn lower(pool: Seq<(i32, u32)>, v: int) -> nat
    decreases pool.len(),
{
    if pool.len() == 0 {
        0
    } else {
        lower(pool.drop_last(), v) + if pool.last().0 < v {
            1nat
        } else {
            0nat
        }
    }
}

/// `v` is the `k`-th best score of a pool: fewer than `k` scores are lower, and at least `k` are no higher.
pub open spec fn is_kth(pool: Seq<(i32, u32)>, k: nat, v: int) -> bool {
    lower(pool, v) < k <= lower(pool, v + 1)
}

/// The `k`-th best score of a pool.
pub open spec fn kth_best(pool: Seq<(i32, u32)>, k: nat) -> int {
    choose|v: int| is_kth(pool, k, v)
}

proof fn lemma_lower_grows(pool: Seq<(i32, u32)>, v: int, w: int)
    requires
        v <= w,
    ensures
        lower(pool, v) <= lower(pool, w),
    decreases pool.len(),
{
    if pool.len() > 0 {
        lemma_lower_grows(pool.drop_last(), v, w);
    }
}

proof fn lemma_lower_ahead(pool: Seq<(i32, u32)>, v: int)
    requires
        i32::MIN <= v <= i32::MAX + 1,
    ensures
        v <= i32::MAX ==> lower(pool, v) == ahead(pool, (v as i32, 0)),
        v > i32::MAX ==> lower(pool, v) == pool.len(),
    decreases pool.len(),
{
    if pool.len() > 0 {
        lemma_lower_ahead(pool.drop_last(), v);
    }
}

/// The last of the `k` smallest has the `k`-th best score.
proof fn lemma_kth(pool: Seq<(i32, u32)>, k: nat)
    requires
        1 <= k <= pool.len(),
    ensures
        is_kth(pool, k, smallest(pool, k)[k - 1].0 as int),
        kth_best(pool, k) == smallest(pool, k)[k - 1].0,
{
    let a = ascending(pool);
    lemma_ascending(pool);
    let v = smallest(pool, k)[k - 1].0 as int;
    assert(a[k - 1].0 == v);
    lemma_lower_ahead(pool, v);
    lemma_lower_ahead(pool, v + 1);
    lemma_ahead_ascending(pool, (v as i32, 0));
    lemma_ahead_sorted(a, (v as i32, 0));
    if v < i32::MAX {
        lemma_ahead_ascending(pool, ((v + 1) as i32, 0));
        lemma_ahead_sorted(a, ((v + 1) as i32, 0));
    }
    let w = kth_best(pool, k);
    assert(is_kth(pool, k, v));
    assert(is_kth(pool, k, w));
    if v < w {
        lemma_lower_grows(pool, v + 1, w);
    }
    if w < v {
        lemma_lower_grows(pool, w + 1, v);
    }
}

/// A scan of cells, one after the other, looked at every `win` cells.
pub struct Scan<'a, R: Router, C: Compressor> {
    pub ix: &'a Index<R, C>,
    pub ctx: QueryCtx,
    pub q: Seq<i8>,
    pub data: Seq<i8>,
    pub cells: Seq<u32>,
    pub k: nat,
    pub win: nat,
}

impl<'a, R: Router, C: Compressor> Scan<'a, R, C> {
    /// Candidates after `n` cells.
    pub open spec fn found(&self, n: nat) -> Seq<(i32, u32)> {
        self.ix.points_of(self.ctx, self.q, self.data, self.cells.take(n as int))
    }

    /// The scan is looked at after `n` cells: `n` is a multiple of `win`, and there are `k` candidates.
    pub open spec fn looked(&self, n: nat) -> bool {
        0 < n <= self.cells.len() && n % self.win == 0 && self.found(n).len() >= self.k
    }

    /// The `k`-th best score after `n` cells.
    pub open spec fn best(&self, n: nat) -> int {
        kth_best(self.found(n), self.k)
    }

    /// The last look before `n` cells; 0 where there is none.
    pub open spec fn before(&self, n: nat) -> nat
        decreases n,
    {
        if n <= 1 {
            0
        } else if self.looked((n - 1) as nat) {
            (n - 1) as nat
        } else {
            self.before((n - 1) as nat)
        }
    }

    /// The look after `n` cells finds nothing better than the look before it. The first look is held
    /// against the largest score there is.
    pub open spec fn idle(&self, n: nat) -> bool {
        &&& self.looked(n)
        &&& self.best(n) >= if self.before(n) == 0 {
            i32::MAX as int
        } else {
            self.best(self.before(n))
        }
    }

    /// The look after `n` cells and those before it, `p` in a row, find nothing better.
    pub open spec fn stalled(&self, n: nat, p: nat) -> bool
        decreases p,
    {
        p == 0 || (self.idle(n) && self.stalled(self.before(n), (p - 1) as nat))
    }

    /// Cells that are scanned with a given patience.
    pub open spec fn used(&self, patience: nat) -> nat {
        self.ix.paced(self.ctx, self.q, self.data, self.cells, self.k, self.win, patience, self.cells.len()).used
    }

    spec fn pace(&self, patience: nat, n: nat) -> Pace {
        self.ix.paced(self.ctx, self.q, self.data, self.cells, self.k, self.win, patience, n)
    }

    /// Looks in a row without an improvement, up to that after `n` cells.
    spec fn run(&self, n: nat) -> nat
        decreases n,
    {
        if n > 0 && self.idle(n) && self.before(n) < n {
            self.run(self.before(n)) + 1
        } else {
            0
        }
    }
}

proof fn lemma_before<R: Router, C: Compressor>(s: Scan<R, C>, n: nat)
    requires
        n >= 1,
    ensures
        s.before(n) < n,
        s.before(n) == 0 || s.looked(s.before(n)),
        forall|m: nat| s.before(n) < m < n ==> !#[trigger] s.looked(m),
    decreases n,
{
    if n > 1 && !s.looked((n - 1) as nat) {
        lemma_before(s, (n - 1) as nat);
    }
}

proof fn lemma_run<R: Router, C: Compressor>(s: Scan<R, C>, n: nat, p: nat)
    ensures
        s.stalled(n, p) <==> p <= s.run(n),
    decreases p,
{
    if n > 0 {
        lemma_before(s, n);
    }
    if p > 0 && n > 0 {
        lemma_run(s, s.before(n), (p - 1) as nat);
    }
}

/// What the scan knows after `n` cells.
proof fn lemma_pace<R: Router, C: Compressor>(s: Scan<R, C>, patience: nat, n: nat)
    requires
        s.k >= 1,
        s.win >= 1,
        n <= s.cells.len(),
    ensures
        ({
            let e = s.pace(patience, n);
            &&& e.used <= n
            &&& e.stop ==> e.used >= 1 && s.looked(e.used) && s.stalled(e.used, patience)
            &&& !e.stop ==> e.used == n && e.stall == s.run(s.before(n + 1)) && e.prev == (if s.before(n + 1) == 0 {
                i32::MAX as int
            } else {
                s.best(s.before(n + 1))
            })
            &&& forall|m: nat| #![trigger s.looked(m)] m < e.used && s.looked(m) ==> !s.stalled(m, patience)
            &&& !e.stop && s.looked(n) ==> !s.stalled(n, patience)
        }),
    decreases n,
{
    let e = s.pace(patience, n);
    if n > 0 {
        let k = (n - 1) as nat;
        lemma_pace(s, patience, k);
        let o = s.pace(patience, k);
        lemma_before(s, n);
        lemma_before(s, n + 1);
        lemma_run(s, n, patience);
        if !o.stop {
            if s.looked(n) {
                lemma_kth(s.found(n), s.k);
                assert(s.before(n + 1) == n);
                assert(s.before(n) == s.before(k + 1));
                assert(e.stall == s.run(n));
                assert(e.prev == s.best(n));
                assert(e.stop == (e.stall >= patience));
            } else {
                assert(s.before(n + 1) == s.before(n));
            }
            assert forall|m: nat| #![trigger s.looked(m)] m < e.used && s.looked(m) implies !s.stalled(m, patience) by {
                if m == k {
                    assert(s.looked(k));
                }
            }
        }
    }
}

/// The scan ends before the last cell only at a look, where that look and those before it, as many as
/// the patience says, found nothing better than the look before them.
pub proof fn law_scan_ends_only_after_idle_looks<R: Router, C: Compressor>(s: Scan<R, C>, patience: nat)
    requires
        s.k >= 1,
        s.win >= 1,
    ensures
        s.used(patience) <= s.cells.len(),
        s.used(patience) < s.cells.len() ==> s.looked(s.used(patience)) && s.stalled(s.used(patience), patience),
{
    lemma_pace(s, patience, s.cells.len());
}

/// The scan ends as soon as there are that many idle looks in a row.
pub proof fn law_scan_ends_once_looks_are_idle<R: Router, C: Compressor>(s: Scan<R, C>, patience: nat, n: nat)
    requires
        s.k >= 1,
        s.win >= 1,
        s.looked(n),
        s.stalled(n, patience),
    ensures
        s.used(patience) <= n,
{
    lemma_pace(s, patience, s.cells.len());
    if s.used(patience) > n {
        assert(s.looked(n));
    }
}

/// A scan whose `k`-th best score falls at every look scans every cell.
pub proof fn law_improving_scan_reads_every_cell<R: Router, C: Compressor>(s: Scan<R, C>, patience: nat)
    requires
        s.k >= 1,
        s.win >= 1,
        patience >= 1,
        forall|n: nat| #[trigger] s.looked(n) ==> s.best(n) < i32::MAX,
        forall|m: nat, n: nat| m < n && #[trigger] s.looked(m) && #[trigger] s.looked(n) ==> s.best(n) < s.best(m),
    ensures
        s.used(patience) == s.cells.len(),
{
    law_scan_ends_only_after_idle_looks(s, patience);
    let n = s.used(patience);
    if n < s.cells.len() {
        assert(s.idle(n));
        lemma_before(s, n);
    }
}

} // verus!
