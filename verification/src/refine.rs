//! Second-stage ranking of survivors: int8 pruning, and ordering by single-precision keys that a
//! caller computed. Keys are bit patterns; they are ordered as the values they stand for.
use vstd::prelude::*;
use vstd::slice::slice_subrange;
use crate::compress::Compressor;
use crate::index::Index;
use crate::order::{ascending, keep_smallest, lemma_smallest, smallest, sort_ascending, lemma_ascending};
use crate::rerank::{dedup_pool_by_orig, deduped, distinct_ids, first_ids, lemma_pool_pass, rerank_contig, reranked, row_index, rows_stored, slots_exist, take_distinct, take_ids, NO_POINT};
use crate::router::Router;
use crate::simd::{inner, negdot_i8, row_of, DOT_DIM};

verus! {

/// Position of a single-precision bit pattern in the total order of such values: negative values
/// first, from the largest magnitude down, then positive values from the smallest magnitude up.
pub open spec fn order_key(bits: u32) -> i32 {
    if bits < 0x8000_0000 {
        bits as i32
    } else {
        (-1 - (bits - 0x8000_0000)) as i32
    }
}

fn key_of(bits: u32) -> (r: i32)
    ensures
        r == order_key(bits),
{
    if bits < 0x8000_0000 {
        bits as i32
    } else {
        -1 - ((bits - 0x8000_0000) as i32)
    }
}

/// Distinct bit patterns have distinct keys; among values of one sign the key grows with the
/// magnitude where the sign is positive and falls with it where it is negative, and every negative
/// value comes before every positive one.
pub proof fn law_order_key_is_a_total_order(a: u32, b: u32)
    ensures
        order_key(a) == order_key(b) ==> a == b,
        a < 0x8000_0000 && b < 0x8000_0000 ==> (order_key(a) <= order_key(b) <==> a <= b),
        a >= 0x8000_0000 && b >= 0x8000_0000 ==> (order_key(a) <= order_key(b) <==> a >= b),
        a >= 0x8000_0000 && b < 0x8000_0000 ==> order_key(a) < order_key(b),
{
}

/// `(key, id)` pairs with the key as its place in the order.
pub open spec fn keyed(scored: Seq<(u32, u32)>) -> Seq<(i32, u32)> {
    Seq::new(scored.len(), |i: int| (order_key(scored[i].0), scored[i].1))
}

fn with_keys(scored: &Vec<(u32, u32)>) -> (r: Vec<(i32, u32)>)
    ensures
        r@ == keyed(scored@),
{
    let n: usize = scored.len();
    let mut v: Vec<(i32, u32)> = Vec::with_capacity(n);
    let mut i: usize = 0;
    while i < n
        invariant
            i <= n,
            n == scored@.len(),
            v@.len() == i,
            forall|j: int| 0 <= j < i ==> #[trigger] v@[j] == keyed(scored@)[j],
        decreases n - i,
    {
        v.push((key_of(scored[i].0), scored[i].1));
        i = i + 1;
    }
    assert(v@ =~= keyed(scored@));
    v
}

/// The `k` best distinct ids by single-precision key.
pub fn top_distinct_by_key(scored: &Vec<(u32, u32)>, k: usize) -> (r: Vec<u32>)
    ensures
        r@ == distinct_ids(ascending(keyed(scored@)), k as nat, scored@.len()),
{
    let mut v = with_keys(scored);
    proof {
        lemma_ascending(v@);
    }
    sort_ascending(&mut v);
    take_distinct(&v, k)
}

/// The ids of the `k` best entries by single-precision key.
pub fn top_by_key(scored: &Vec<(u32, u32)>, k: usize) -> (r: Vec<u32>)
    ensures
        r@ == first_ids(ascending(keyed(scored@)), k as nat),
{
    let mut v = with_keys(scored);
    sort_ascending(&mut v);
    take_ids(&v, k)
}

/// Candidates `(-<q, row>, slot)` of the first `n` entries of a pool, over the first `dd`
/// coordinates; empty slots drop out.
pub open spec fn int8_scored(pool: Seq<(i32, u32)>, slot_orig: Seq<u32>, raw: Seq<i8>, d: nat, dd: nat, q: Seq<i8>, by_orig: bool, n: nat) -> Seq<(i32, u32)>
    decreases n,
{
    if n == 0 {
        Seq::empty()
    } else {
        let prev = int8_scored(pool, slot_orig, raw, d, dd, q, by_orig, (n - 1) as nat);
        let slot = pool[n - 1].1;
        if slot_orig[slot as int] == NO_POINT {
            prev
        } else {
            prev.push((-inner(q, row_of(raw, d, row_index(slot_orig, slot, by_orig)), dd) as i32, slot))
        }
    }
}

/// The pool that enters the single-precision reorder: one candidate per point, rescored by inner
/// product over the first `cdim` coordinates (all of them for 0), cut to the `kk` best (no cut for 0).
pub open spec fn cascaded(pool: Seq<(i32, u32)>, slot_orig: Seq<u32>, raw: Seq<i8>, d: nat, cdim: nat, q: Seq<i8>, by_orig: bool, kk: nat) -> Seq<(i32, u32)> {
    let dd = if cdim == 0 || cdim > d {
        d
    } else {
        cdim
    };
    let one = deduped(pool, slot_orig);
    let scored = int8_scored(one, slot_orig, raw, d, dd, q, by_orig, one.len());
    if kk == 0 || kk >= scored.len() {
        scored
    } else {
        smallest(scored, kk)
    }
}

/// Prune a pool of `(approx, slot)` with an exact int8 pass before the single-precision reorder.
pub fn cascade_prune(raw: &[i8], d: usize, by_orig: bool, slot_orig: &[u32], q: &[i8], pool: Vec<(i32, u32)>, cdim: usize, kk: usize) -> (r: Vec<(i32, u32)>)
    requires
        q@.len() == d,
        d <= DOT_DIM,
        rows_stored(pool@, slot_orig@, raw@.len(), d as nat, by_orig),
        pool@.len() <= usize::MAX / 2,
    ensures
        r@ == cascaded(pool@, slot_orig@, raw@, d as nat, cdim as nat, q@, by_orig, kk as nat),
{
    let mut pool = pool;
    let ghost pool0 = pool@;
    proof {
        assert(slots_exist(pool0, slot_orig@)) by {
            assert forall|i: int| 0 <= i < pool0.len() implies (#[trigger] pool0[i]).1 < slot_orig@.len() by {
            }
        }
        lemma_deduped_rows(pool0, slot_orig@, raw@.len(), d as nat, by_orig);
    }
    dedup_pool_by_orig(&mut pool, slot_orig);
    let n: usize = pool.len();
    let rlen: usize = raw.len();
    let slen: usize = slot_orig.len();
    let dd: usize = if cdim == 0 || cdim > d { d } else { cdim };
    let qd: &[i8] = slice_subrange(q, 0, dd);
    let mut scored: Vec<(i32, u32)> = Vec::new();
    let mut i: usize = 0;
    while i < n
        invariant
            i <= n,
            n == pool@.len(),
            rlen == raw@.len(),
            slen == slot_orig@.len(),
            q@.len() == d,
            d <= DOT_DIM,
            dd <= d,
            qd@ == q@.subrange(0, dd as int),
            rows_stored(pool@, slot_orig@, raw@.len(), d as nat, by_orig),
            scored@ == int8_scored(pool@, slot_orig@, raw@, d as nat, dd as nat, q@, by_orig, i as nat),
        decreases n - i,
    {
        let slot: u32 = pool[i].1;
        assert(pool@[i as int].1 < slot_orig@.len());
        let o: u32 = slot_orig[slot as usize];
        if o != NO_POINT {
            let ri: usize = if by_orig { o as usize } else { slot as usize };
            proof {
                let r = ri as int;
                let di = d as int;
                assert(r == row_index(slot_orig@, slot, by_orig));
                assert((r + 1) * di == r * di + di && 0 <= r * di) by (nonlinear_arith)
                    requires
                        r >= 0,
                        di >= 0,
                ;
            }
            let row: &[i8] = slice_subrange(raw, ri * d, ri * d + dd);
            proof {
                let full = row_of(raw@, d as nat, ri as int);
                crate::simd::lemma_sums_of_prefix(qd@, row@, q@, full, dd as nat);
            }
            let s: i32 = negdot_i8(qd, row);
            scored.push((s, slot));
        }
        i = i + 1;
    }
    if kk > 0 && kk < scored.len() {
        keep_smallest(&mut scored, kk);
    }
    scored
}

proof fn lemma_deduped_rows(pool: Seq<(i32, u32)>, slot_orig: Seq<u32>, raw_len: nat, d: nat, by_orig: bool)
    requires
        rows_stored(pool, slot_orig, raw_len, d, by_orig),
        slots_exist(pool, slot_orig),
    ensures
        rows_stored(deduped(pool, slot_orig), slot_orig, raw_len, d, by_orig),
{
    lemma_pool_pass(pool, slot_orig, pool.len());
    let r = deduped(pool, slot_orig);
    if pool.len() >= 2 {
        assert(pool.take(pool.len() as int) =~= pool);
        assert forall|i: int| 0 <= i < r.len() implies ({
            &&& (#[trigger] r[i]).1 < slot_orig.len()
            &&& slot_orig[r[i].1 as int] != NO_POINT ==> (row_index(slot_orig, r[i].1, by_orig) + 1) * d <= raw_len
        }) by {
            assert(pool.contains(r[i]));
        }
    }
}

/// Slots of a ranked list, each with approximate score 0.
pub open spec fn slots_of(ranked: Seq<(i32, u32)>) -> Seq<(i32, u32)> {
    Seq::new(ranked.len(), |i: int| (0i32, ranked[i].1))
}

impl<R: Router, C: Compressor> Index<R, C> {
    /// The candidates that are read in full: the `depth` best of a pool by key, or by the pool's own
    /// scores where there are no keys; `depth == 0` keeps all.
    pub open spec fn shallow(&self, pool: Seq<(i32, u32)>, keys: Option<Seq<u32>>, depth: nat) -> Seq<(i32, u32)> {
        let ranked = match keys {
            Some(bits) => Seq::new(pool.len(), |i: int| (order_key(bits[i]), pool[i].1)),
            None => pool,
        };
        slots_of(
            if depth == 0 {
                ranked
            } else {
                smallest(ranked, depth)
            },
        )
    }

    /// Exact rerank of the `depth` best survivors of `pool`. With `keys`, survivor `i` is ranked by the
    /// single-precision key `keys[i]` in place of its approximate score.
    pub fn rerank_refined(&self, q: &[i8], pool: &Vec<(i32, u32)>, keys: Option<&Vec<u32>>, depth: usize, k: usize, ip: bool) -> (r: Vec<u32>)
        requires
            self.main_ok(),
            q@.len() == self.d,
            slots_exist(pool@, self.slot_orig@),
            k <= usize::MAX / 4,
            match keys {
                Some(bits) => bits@.len() == pool@.len(),
                None => true,
            },
        ensures
            r@ == reranked(
                self.shallow(pool@, (match keys {
                    Some(bits) => Some(bits@),
                    None => None,
                }), depth as nat),
                self.slot_orig@,
                self.raw@,
                self.d as nat,
                q@,
                self.raw_orig_indexed,
                ip,
                k as nat,
            ),
    {
        let n: usize = pool.len();
        let ghost bits = match keys {
            Some(b) => Some(b@),
            None => None,
        };
        let mut ranked: Vec<(i32, u32)> = Vec::with_capacity(n);
        let mut i: usize = 0;
        while i < n
            invariant
                i <= n,
                n == pool@.len(),
                match keys {
                    Some(b) => b@.len() == pool@.len() && bits == Some(b@),
                    None => bits is None,
                },
                ranked@.len() == i,
                forall|j: int| 0 <= j < i ==> #[trigger] ranked@[j] == (match bits {
                    Some(b) => (order_key(b[j]), pool@[j].1),
                    None => pool@[j],
                }),
            decreases n - i,
        {
            match keys {
                Some(b) => ranked.push((key_of(b[i]), pool[i].1)),
                None => ranked.push(pool[i]),
            }
            i = i + 1;
        }
        let ghost all = ranked@;
        proof {
            match bits {
                Some(b) => {
                    assert(all =~= Seq::new(pool@.len(), |i: int| (order_key(b[i]), pool@[i].1)));
                },
                None => {
                    assert(all =~= pool@);
                },
            }
        }
        if depth > 0 {
            keep_smallest(&mut ranked, depth);
            proof {
                lemma_smallest(all, depth as nat);
            }
        }
        let m: usize = ranked.len();
        let mut chosen: Vec<(i32, u32)> = Vec::with_capacity(m);
        let mut j: usize = 0;
        while j < m
            invariant
                j <= m,
                m == ranked@.len(),
                chosen@.len() == j,
                forall|e: int| 0 <= e < j ==> #[trigger] chosen@[e] == (0i32, ranked@[e].1),
            decreases m - j,
        {
            chosen.push((0, ranked[j].1));
            j = j + 1;
        }
        proof {
            assert(chosen@ =~= slots_of(ranked@));
            assert forall|e: int| 0 <= e < chosen@.len() implies (#[trigger] chosen@[e]).1 < self.slot_orig@.len() by {
                assert(all.contains(ranked@[e])) by {
                    if depth == 0 {
                        assert(all[e] == ranked@[e]);
                    }
                }
                let x = choose|x: int| 0 <= x < all.len() && all[x] == ranked@[e];
                assert(all[x].1 == pool@[x].1);
            }
            self.lemma_rows_stored(chosen@);
        }
        rerank_contig(self.raw.as_slice(), self.d, self.slot_orig.as_slice(), q, &chosen, k, self.raw_orig_indexed, ip)
    }
}

} // verus!
