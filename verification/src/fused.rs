//! Fused top-`t` collection: keep a running threshold while blocks are scanned, so that only
//! candidates that can still be among the `t` best are stored.
use vstd::prelude::*;
use crate::order::{smallest, Ranked};
use crate::order::{lemma_smallest, lemma_smallest_push, lemma_smallest_drop, lemma_ascending_of_sorted};
use crate::rerank::NO_POINT;

verus! {

/// Candidates `(score, slot)` of the first `n` lanes of a block whose lane 0 is slot `base`; lanes
/// whose slot holds no point drop out.
pub open spec fn lane_pool(out: Seq<i32>, base: nat, slot_orig: Seq<u32>, n: nat) -> Seq<(i32, u32)>
    decreases n,
{
    if n == 0 {
        Seq::empty()
    } else {
        let prev = lane_pool(out, base, slot_orig, (n - 1) as nat);
        if slot_orig[base + n - 1] != NO_POINT {
            prev.push((out[n - 1], (base + n - 1) as u32))
        } else {
            prev
        }
    }
}

/// Bit `j` of a mask.
pub open spec fn bit(mask: u64, j: u64) -> bool {
    (mask >> j) & 1u64 == 1u64
}

proof fn lemma_set_bit(mask: u64, j: u64, i: u64)
    requires
        j < 64,
        i < 64,
    ensures
        bit(mask | (1u64 << j), i) == (bit(mask, i) || i == j),
{
    assert((((mask | (1u64 << j)) >> i) & 1u64 == 1u64) == (((mask >> i) & 1u64 == 1u64) || i == j)) by (bit_vector)
        requires
            j < 64,
            i < 64,
    ;
}

/// Mask of the lanes with `out[j] <= thr`.
pub fn survivor_mask_leq(out: &[i32], thr: i32) -> (mask: u64)
    requires
        out@.len() <= 64,
    ensures
        forall|j: u64| j < 64 ==> #[trigger] bit(mask, j) == (j < out@.len() && out@[j as int] <= thr),
{
    let n: usize = out.len();
    let mut mask: u64 = 0;
    let mut j: usize = 0;
    assert forall|i: u64| i < 64 implies !#[trigger] bit(0u64, i) by {
        assert((0u64 >> i) & 1u64 != 1u64) by (bit_vector);
    }
    while j < n
        invariant
            j <= n,
            n == out@.len(),
            n <= 64,
            forall|i: u64| i < 64 ==> #[trigger] bit(mask, i) == (i < j && out@[i as int] <= thr),
        decreases n - j,
    {
        if out[j] <= thr {
            proof {
                assert forall|i: u64| i < 64 implies #[trigger] bit(mask | (1u64 << (j as u64)), i) == (i < j + 1 && out@[i as int] <= thr) by {
                    lemma_set_bit(mask, j as u64, i);
                }
            }
            mask = mask | (1u64 << (j as u64));
        }
        j = j + 1;
    }
    mask
}

/// Running state of the fused collection.
pub struct FusedTopT {
    buf: Vec<(i32, u32)>,
    thr: i32,
    t: usize,
    prune_cap: usize,
    filled: bool,
    seen: Ghost<Seq<(i32, u32)>>,
}

impl FusedTopT {
    /// Every candidate that was offered so far.
    pub closed spec fn view(&self) -> Seq<(i32, u32)> {
        self.seen@
    }

    /// How many candidates are wanted.
    pub closed spec fn cap(&self) -> nat {
        self.t as nat
    }

    pub closed spec fn wf(&self) -> bool {
        &&& 1 <= self.t < self.prune_cap
        &&& self.prune_cap <= usize::MAX - 64
        &&& self.buf@.len() < self.prune_cap
        &&& smallest(self.buf@, self.t as nat) == smallest(self.seen@, self.t as nat)
        &&& self.filled ==> self.seen@.len() >= self.t && forall|i: int| 0 <= i < self.t ==> (#[trigger] smallest(self.seen@, self.t as nat)[i]).0 <= self.thr
    }

    /// Collect the `t` best candidates.
    pub fn new(t: usize) -> (r: Self)
        requires
            1 <= t <= usize::MAX / 2 - 64,
        ensures
            r.wf(),
            r@ == Seq::<(i32, u32)>::empty(),
            r.cap() == t,
    {
        let prune_cap: usize = if 2 * t > t + 64 { 2 * t } else { t + 64 };
        FusedTopT { buf: Vec::new(), thr: i32::MAX, t, prune_cap, filled: false, seen: Ghost(Seq::empty()) }
    }

    /// Cut the buffer back to its `t` best once it is full, and tighten the threshold.
    fn maybe_prune(&mut self)
        requires
            1 <= old(self).t < old(self).prune_cap,
            old(self).prune_cap <= usize::MAX - 64,
            smallest(old(self).buf@, old(self).t as nat) == smallest(old(self).seen@, old(self).t as nat),
            old(self).filled ==> old(self).seen@.len() >= old(self).t && forall|i: int| 0 <= i < old(self).t ==> (#[trigger] smallest(old(self).seen@, old(self).t as nat)[i]).0 <= old(self).thr,
        ensures
            final(self).wf(),
            final(self)@ == old(self)@,
            final(self).cap() == old(self).cap(),
            final(self).prune_cap == old(self).prune_cap,
    {
        if self.buf.len() >= self.prune_cap {
            let ghost b0 = self.buf@;
            let ghost n = self.t as nat;
            proof {
                lemma_smallest(b0, n);
                lemma_smallest(self.seen@, n);
                lemma_ascending_of_sorted(smallest(b0, n));
            }
            crate::order::keep_smallest(&mut self.buf, self.t);
            self.thr = self.buf[self.t - 1].0;
            self.filled = true;
            proof {
                assert(self.buf@ == smallest(self.seen@, n));
                assert forall|i: int| 0 <= i < self.t implies (#[trigger] smallest(self.seen@, n)[i]).0 <= self.thr by {
                    assert(smallest(self.seen@, n)[i].le(smallest(self.seen@, n)[n - 1]));
                }
            }
        }
    }

    /// Offer the lanes of one block: `out[j]` is the score of slot `base + j`.
    pub fn emit(&mut self, out: &[i32], base: usize, slot_orig: &[u32])
        requires
            old(self).wf(),
            out@.len() <= 64,
            base + out@.len() <= slot_orig@.len(),
            slot_orig@.len() <= u32::MAX,
        ensures
            final(self).wf(),
            final(self)@ == old(self)@ + lane_pool(out@, base as nat, slot_orig@, out@.len()),
            final(self).cap() == old(self).cap(),
    {
        let n: usize = out.len();
        let filled = self.filled;
        let mask: u64 = if filled { survivor_mask_leq(out, self.thr) } else { 0xffff_ffff_ffff_ffff };
        let ghost t = self.t as nat;
        let ghost s0 = self.seen@;
        let mut j: usize = 0;
        assert(s0 + lane_pool(out@, base as nat, slot_orig@, 0) =~= s0);
        let ghost thr = self.thr;
        let ghost pc = self.prune_cap;
        while j < n
            invariant
                j <= n,
                n == out@.len(),
                n <= 64,
                base + n <= slot_orig@.len(),
                slot_orig@.len() <= u32::MAX,
                filled == self.filled,
                self.thr == thr,
                self.prune_cap == pc,
                filled ==> forall|i: u64| i < 64 ==> #[trigger] bit(mask, i) == (i < out@.len() && out@[i as int] <= thr),
                self.t == t,
                1 <= t < pc,
                pc <= usize::MAX - 64,
                self.seen@ == s0 + lane_pool(out@, base as nat, slot_orig@, j as nat),
                smallest(self.buf@, t) == smallest(self.seen@, t),
                filled ==> self.seen@.len() >= t && forall|i: int| 0 <= i < t ==> (#[trigger] smallest(self.seen@, t)[i]).0 <= thr,
            decreases n - j,
        {
            let slot: usize = base + j;
            let d: i32 = out[j];
            let keep = if filled { (mask >> (j as u64)) & 1u64 == 1u64 } else { true };
            assert(filled ==> keep == bit(mask, j as u64));
            if slot_orig[slot] != NO_POINT {
                let ghost c = (d, slot as u32);
                proof {
                    lemma_smallest_push(self.seen@, c, t);
                    lemma_smallest_push(self.buf@, c, t);
                    lemma_smallest(self.seen@, t);
                    if filled && !keep {
                        assert forall|i: int| 0 <= i < t implies (#[trigger] smallest(self.seen@, t)[i]).le(c) by {
                        }
                        lemma_smallest_drop(self.seen@, c, t);
                    }
                    if filled && keep {
                        lemma_still_below(self.seen@, c, t, thr);
                    }
                    assert((s0 + lane_pool(out@, base as nat, slot_orig@, j as nat)).push(c) =~= s0 + lane_pool(out@, base as nat, slot_orig@, (j + 1) as nat));
                }
                if keep {
                    self.buf.push((d, slot as u32));
                }
                self.seen = Ghost(self.seen@.push(c));
            }
            j = j + 1;
        }
        self.maybe_prune();
    }

    /// The `t` best of everything that was offered, best first.
    pub fn finish(self) -> (r: Vec<(i32, u32)>)
        requires
            self.wf(),
        ensures
            r@ == smallest(self@, self.cap()),
    {
        let mut buf = self.buf;
        crate::order::keep_smallest(&mut buf, self.t);
        buf
    }
}

/// Placing one more candidate keeps the `t` best at or below a bound that they and it respect.
proof fn lemma_still_below(s: Seq<(i32, u32)>, c: (i32, u32), t: nat, thr: i32)
    requires
        s.len() >= t,
        c.0 <= thr,
        forall|i: int| 0 <= i < t ==> (#[trigger] smallest(s, t)[i]).0 <= thr,
    ensures
        forall|i: int| 0 <= i < t ==> (#[trigger] smallest(s.push(c), t)[i]).0 <= thr,
{
    broadcast use vstd::seq_lib::group_to_multiset_ensures;

    lemma_smallest(s, t);
    lemma_smallest(s.push(c), t);
    lemma_smallest_push(s, c, t);
    let a = smallest(s, t);
    let p = crate::order::place(a, c);
    crate::order::lemma_place(a, c);
    assert forall|i: int| 0 <= i < t implies (#[trigger] smallest(s.push(c), t)[i]).0 <= thr by {
        assert(smallest(s.push(c), t)[i] == p[i]);
        assert(p.contains(p[i]));
        assert(p.to_multiset().contains(p[i]));
        if p[i] != c {
            assert(a.to_multiset().contains(p[i]));
            assert(a.contains(p[i]));
            let k = choose|k: int| 0 <= k < a.len() && a[k] == p[i];
            assert(a[k].0 <= thr);
        }
    }
}

} // verus!
