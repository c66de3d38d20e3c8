//! Insertion into a built index: routing, appending, and encoding of what was appended.
use vstd::prelude::*;
use vstd::slice::slice_subrange;
use crate::compress::{row_views, Compressor};
use crate::index::Index;
use crate::layout::{append_bytes, blocks_for, cell_code, chunk, push_row, rows_of};
use crate::order::{ascending, lemma_ascending};
use crate::rerank::NO_POINT;
use crate::router::Router;
use crate::simd::{lemma_row_in_range, row_of};
use crate::stream::{home_cells, law_home_cells, lemma_live_count_bound, lemma_live_count_push, lemma_without_repeats, sort_distinct};

verus! {

/// Equal rows give equal blocks.
proof fn lemma_code_same<C: Compressor>(comp: &C, raw1: Seq<i8>, raw2: Seq<i8>, d: nat, p1: Seq<u32>, p2: Seq<u32>, n: nat)
    requires
        forall|b: int| 0 <= b < n ==> rows_of(raw1, d, #[trigger] chunk(p1, b)) == rows_of(raw2, d, chunk(p2, b)),
    ensures
        cell_code(comp, raw1, d, p1, Seq::empty(), n) == cell_code(comp, raw2, d, p2, Seq::empty(), n),
    decreases n,
{
    if n > 0 {
        lemma_code_same(comp, raw1, raw2, d, p1, p2, (n - 1) as nat);
        assert(rows_of(raw1, d, chunk(p1, n - 1)) == rows_of(raw2, d, chunk(p2, n - 1)));
    }
}

/// Appending rows leaves the rows of earlier points as they are.
proof fn lemma_rows_kept(raw: Seq<i8>, more: Seq<i8>, d: nat, count: nat, ids: Seq<u32>)
    requires
        raw.len() == count * d,
        forall|i: int| 0 <= i < ids.len() ==> #[trigger] ids[i] < count,
    ensures
        rows_of(raw + more, d, ids) == rows_of(raw, d, ids),
{
    assert forall|i: int| 0 <= i < ids.len() implies row_of(raw + more, d, #[trigger] ids[i] as int) == row_of(raw, d, ids[i] as int) by {
        lemma_row_in_range(ids[i] as int, d as int, count as int, raw.len() as int);
        assert(row_of(raw + more, d, ids[i] as int) =~= row_of(raw, d, ids[i] as int));
    }
    assert(rows_of(raw + more, d, ids) =~= rows_of(raw, d, ids));
}

impl<R: Router, C: Compressor> Index<R, C> {
    /// The index after a point was inserted into `pre`.
    pub open spec fn inserted(&self, pre: &Self, row: Seq<i8>, orig: u32, cells: Seq<u32>) -> bool {
        let g = pre.ins_orig@.len() as u32;
        &&& self.same_built(pre)
        &&& self.slot_orig == pre.slot_orig
        &&& self.main_rev == pre.main_rev
        &&& self.ins_blocks == pre.ins_blocks
        &&& self.ins_full_blocks == pre.ins_full_blocks
        &&& self.ins_raw@ == pre.ins_raw@ + row
        &&& self.ins_orig@ == pre.ins_orig@.push(orig)
        &&& self.ins_loc@ == pre.ins_loc@.insert(orig, g)
        &&& self.ins_count == pre.ins_count + 1
        &&& self.ins_dirty@ == pre.ins_dirty@ + cells
        &&& self.ins_gidx@.len() == pre.ins_gidx@.len()
        &&& forall|c: int| 0 <= c < pre.ins_gidx@.len() ==> (#[trigger] self.ins_gidx@[c])@ == (if cells.contains(c as u32) { pre.ins_gidx@[c]@.push(g) } else { pre.ins_gidx@[c]@ })
    }

    /// Insert a point. `rown` is its normalised form.
    pub fn insert(&mut self, row: &[i8], rown: &[i8], orig: u32, a0: usize)
        requires
            old(self).wf(),
            row@.len() == old(self).d,
            old(self).router.takes(row@, rown@),
            old(self).router.allows(a0 as nat),
            orig != NO_POINT,
            old(self).ins_orig@.len() < u32::MAX,
            old(self).nc() >= 1,
        ensures
            final(self).wf(),
            final(self).inserted(old(self), row@, orig, home_cells(old(self).router.assigned(row@, rown@, a0 as nat))),
    {
        broadcast use vstd::std_specs::hash::group_hash_axioms;

        let ghost pre = *self;
        let mut cells: Vec<u32> = Vec::with_capacity(a0);
        self.router.assign(row, rown, a0, &mut cells);
        let ghost assigned = cells@;
        if cells.len() == 0 {
            cells.push(0);
            assert(cells@ =~= home_cells(assigned));
        } else {
            sort_distinct(&mut cells);
        }
        proof {
            law_home_cells(assigned);
            assert forall|i: int| 0 <= i < cells@.len() implies #[trigger] cells@[i] < self.nc() by {
                assert(cells@.contains(cells@[i]));
                if assigned.len() > 0 {
                    assert(assigned.contains(cells@[i]));
                }
            }
        }
        proof {
            lemma_live_count_bound(self.ins_orig@, self.ins_orig@.len());
        }
        let g: u32 = self.ins_orig.len() as u32;
        push_row(&mut self.ins_raw, row);
        self.ins_orig.push(orig);
        self.ins_loc.insert(orig, g);
        self.ins_count = self.ins_count + 1;
        let n: usize = cells.len();
        let mut i: usize = 0;
        assert(cells@.take(0) =~= Seq::<u32>::empty());
        while i < n
            invariant
                i <= n,
                n == cells@.len(),
                g == pre.ins_orig@.len(),
                cells@.no_duplicates(),
                pre.nc() <= u32::MAX,
                pre.ins_gidx@.len() == pre.nc(),
                forall|k: int| 0 <= k < cells@.len() ==> #[trigger] cells@[k] < pre.nc(),
                self.same_built(&pre),
                self.slot_orig == pre.slot_orig,
                self.main_rev == pre.main_rev,
                self.ins_blocks == pre.ins_blocks,
                self.ins_full_blocks == pre.ins_full_blocks,
                self.ins_raw@ == pre.ins_raw@ + row@,
                self.ins_orig@ == pre.ins_orig@.push(orig),
                self.ins_loc@ == pre.ins_loc@.insert(orig, g),
                self.ins_count == pre.ins_count + 1,
                self.ins_dirty@ =~= pre.ins_dirty@ + cells@.take(i as int),
                self.ins_gidx@.len() == pre.ins_gidx@.len(),
                forall|c: int| 0 <= c < pre.ins_gidx@.len() ==> (#[trigger] self.ins_gidx@[c])@ == (if cells@.take(i as int).contains(c as u32) { pre.ins_gidx@[c]@.push(g) } else { pre.ins_gidx@[c]@ }),
            decreases n - i,
        {
            let c: u32 = cells[i];
            let ghost before = self.ins_gidx@;
            proof {
                assert(!cells@.take(i as int).contains(c)) by {
                    if cells@.take(i as int).contains(c) {
                        let k = choose|k: int| 0 <= k < i && cells@.take(i as int)[k] == c;
                        assert(cells@[k] == cells@[i as int]);
                    }
                }
                assert(before[c as int]@ == pre.ins_gidx@[c as int]@);
            }
            self.ins_gidx[c as usize].push(g);
            self.ins_dirty.push(c);
            proof {
                assert(cells@.take(i + 1) =~= cells@.take(i as int).push(c));
                assert forall|e: int| 0 <= e < pre.ins_gidx@.len() implies (#[trigger] self.ins_gidx@[e])@ == (if cells@.take(i + 1).contains(e as u32) { pre.ins_gidx@[e]@.push(g) } else { pre.ins_gidx@[e]@ }) by {
                    let now = cells@.take(i + 1);
                    let was = cells@.take(i as int);
                    if e == c {
                        assert(now[i as int] == c);
                        assert(now.contains(e as u32));
                    } else {
                        assert(before[e] == self.ins_gidx@[e]);
                        if was.contains(e as u32) {
                            let k = choose|k: int| 0 <= k < was.len() && was[k] == e as u32;
                            assert(now[k] == e as u32);
                        }
                        if now.contains(e as u32) {
                            let k = choose|k: int| 0 <= k < now.len() && now[k] == e as u32;
                            assert(k < i);
                            assert(was[k] == e as u32);
                        }
                    }
                }
            }
            i = i + 1;
        }
        proof {
            assert(cells@.take(n as int) =~= cells@);
            self.lemma_inserted_wf(&pre, row@, orig, cells@);
        }
    }

    proof fn lemma_inserted_wf(&self, pre: &Self, row: Seq<i8>, orig: u32, cells: Seq<u32>)
        requires
            pre.wf(),
            row.len() == pre.d,
            orig != NO_POINT,
            pre.ins_orig@.len() < u32::MAX,
            self.inserted(pre, row, orig, cells),
            forall|k: int| 0 <= k < cells.len() ==> #[trigger] cells[k] < pre.nc(),
        ensures
            self.wf(),
    {
        let g = pre.ins_orig@.len() as u32;
        let n0 = pre.ins_orig@.len();
        let dn = self.d as nat;
        assert(self.main_ok());
        assert((n0 + 1) * dn == n0 * dn + dn) by (nonlinear_arith);
        lemma_live_count_push(pre.ins_orig@, orig, n0);
        assert forall|c: int, k: int| 0 <= c < self.nc() && 0 <= k < self.ins_gidx@[c]@.len() implies #[trigger] self.ins_gidx@[c]@[k] < self.ins_orig@.len() by {
            if k < pre.ins_gidx@[c]@.len() {
                assert(pre.ins_gidx@[c]@[k] < n0);
            }
        }
        assert forall|i: int| 0 <= i < self.ins_dirty@.len() implies #[trigger] self.ins_dirty@[i] < self.nc() by {
            if i < pre.ins_dirty@.len() {
                assert(pre.ins_dirty@[i] < pre.nc());
            } else {
                assert(cells[i - pre.ins_dirty@.len()] < pre.nc());
            }
        }
        assert forall|o: u32| #[trigger] self.ins_loc@.contains_key(o) implies self.ins_loc@[o] < self.ins_orig@.len() && self.ins_orig@[self.ins_loc@[o] as int] == o && o != NO_POINT by {
            if o != orig {
                assert(pre.ins_loc@.contains_key(o));
            }
        }
        assert forall|x: int| 0 <= x < self.ins_orig@.len() && #[trigger] self.ins_orig@[x] != NO_POINT implies self.ins_loc@.contains_key(self.ins_orig@[x]) by {
            if x < n0 {
                assert(pre.ins_orig@[x] != NO_POINT);
            }
        }
        assert(self.ins_lists_ok());
        if self.bb > 0 {
            assert forall|c: int| 0 <= c < self.nc() implies #[trigger] self.sealed(c) by {
                assert(pre.sealed(c));
                let full = pre.ins_full_blocks@[c] as nat;
                self.lemma_code_kept(pre, row, orig, cells, c, full);
            }
            assert forall|c: int| 0 <= c < self.nc() && !self.ins_dirty@.contains(c as u32) implies #[trigger] self.encoded(c) by {
                assert(!pre.ins_dirty@.contains(c as u32)) by {
                    if pre.ins_dirty@.contains(c as u32) {
                        let k = choose|k: int| 0 <= k < pre.ins_dirty@.len() && pre.ins_dirty@[k] == c as u32;
                        assert(self.ins_dirty@[k] == c as u32);
                    }
                }
                assert(!cells.contains(c as u32)) by {
                    if cells.contains(c as u32) {
                        let k = choose|k: int| 0 <= k < cells.len() && cells[k] == c as u32;
                        assert(self.ins_dirty@[pre.ins_dirty@.len() + k] == c as u32);
                    }
                }
                assert(pre.encoded(c));
                self.lemma_code_kept(pre, row, orig, cells, c, blocks_for(pre.ins_gidx@[c]@.len()));
            }
        }
    }

    proof fn lemma_code_kept(&self, pre: &Self, row: Seq<i8>, orig: u32, cells: Seq<u32>, c: int, n: nat)
        requires
            pre.ins_lists_ok(),
            self.inserted(pre, row, orig, cells),
            0 <= c < pre.nc(),
            16 * n <= pre.ins_gidx@[c]@.len() || (self.ins_gidx@[c]@ == pre.ins_gidx@[c]@ && n <= blocks_for(pre.ins_gidx@[c]@.len())),
        ensures
            self.ins_code(c, n) == pre.ins_code(c, n),
    {
        let dn = self.d as nat;
        let p0 = pre.ins_gidx@[c]@;
        let p1 = self.ins_gidx@[c]@;
        assert forall|b: int| 0 <= b < n implies rows_of(pre.ins_raw@, dn, #[trigger] chunk(p0, b)) == rows_of(self.ins_raw@, dn, chunk(p1, b)) by {
            assert(chunk(p0, b) =~= chunk(p1, b));
            let ids = chunk(p0, b);
            assert forall|i: int| 0 <= i < ids.len() implies #[trigger] ids[i] < pre.ins_orig@.len() by {
                assert(ids[i] == pre.ins_gidx@[c]@[16 * b + i]);
            }
            lemma_rows_kept(pre.ins_raw@, row, dn, pre.ins_orig@.len(), ids);
        }
        lemma_code_same(&self.comp, pre.ins_raw@, self.ins_raw@, dn, p0, p1, n);
    }
}

/// Blocks from one on behind the blocks before it are all blocks.
proof fn lemma_code_step<C: Compressor>(comp: &C, raw: Seq<i8>, d: nat, pts: Seq<u32>, n: nat)
    ensures
        cell_code(comp, raw, d, pts, Seq::empty(), n + 1) == cell_code(comp, raw, d, pts, Seq::empty(), n) + comp.encoded(rows_of(raw, d, chunk(pts, n as int)), Seq::empty()),
{
}

impl<R: Router, C: Compressor> Index<R, C> {
    /// The index after the append buffer of `pre` was encoded.
    pub open spec fn finalized(&self, pre: &Self) -> bool {
        &&& self.same_built(pre)
        &&& self.slot_orig == pre.slot_orig
        &&& self.main_rev == pre.main_rev
        &&& self.ins_gidx == pre.ins_gidx
        &&& self.ins_raw == pre.ins_raw
        &&& self.ins_orig == pre.ins_orig
        &&& self.ins_loc == pre.ins_loc
        &&& self.ins_count == pre.ins_count
        &&& self.ins_dirty@.len() == 0
        &&& self.bb > 0 ==> forall|c: int| 0 <= c < self.nc() ==> #[trigger] self.encoded(c)
    }

    /// Encode the blocks `from..` of the appended points of cell `c`.
    fn encode_tail(&self, c: usize, from: usize) -> (r: Vec<u8>)
        requires
            self.main_ok(),
            self.ins_lists_ok(),
            c < self.nc(),
            from <= blocks_for(self.ins_gidx@[c as int]@.len()),
        ensures
            self.ins_code(c as int, from as nat) + r@ == self.ins_code(c as int, blocks_for(self.ins_gidx@[c as int]@.len())),
            r@.len() == (blocks_for(self.ins_gidx@[c as int]@.len()) - from) * self.bb,
            forall|x: nat| from <= x <= blocks_for(self.ins_gidx@[c as int]@.len()) ==> (#[trigger] self.ins_code(c as int, x)).len() == self.ins_code(c as int, from as nat).len() + (x - from) * self.bb,
    {
        let d: usize = self.d;
        let n: usize = self.ins_gidx[c].len();
        let nb: usize = n / 16 + (if n % 16 == 0 { 0 } else { 1 });
        let rlen: usize = self.ins_raw.len();
        let none: [i8; 0] = [];
        let ghost pts = self.ins_gidx@[c as int]@;
        let ghost dn = d as nat;
        let mut code: Vec<u8> = Vec::new();
        let mut b: usize = from;
        assert(code@ =~= Seq::<u8>::empty());
        assert(self.ins_code(c as int, from as nat) + code@ =~= self.ins_code(c as int, from as nat));
        assert(none@ =~= Seq::<i8>::empty());
        assert forall|x: nat| from <= x <= b implies (#[trigger] self.ins_code(c as int, x)).len() == self.ins_code(c as int, from as nat).len() + (x - from) * self.bb by {
            assert((x - from) * self.bb == 0) by (nonlinear_arith)
                requires
                    x == from,
            ;
        }
        while b < nb
            invariant
                from <= b <= nb,
                self.main_ok(),
                self.ins_lists_ok(),
                c < self.nc(),
                d == self.d,
                dn == d,
                n == pts.len(),
                nb == blocks_for(n as nat),
                rlen == self.ins_raw@.len(),
                none@ == Seq::<i8>::empty(),
                pts == self.ins_gidx@[c as int]@,
                self.ins_code(c as int, from as nat) + code@ == self.ins_code(c as int, b as nat),
                code@.len() == (b - from) * self.bb,
                forall|x: nat| from <= x <= b ==> (#[trigger] self.ins_code(c as int, x)).len() == self.ins_code(c as int, from as nat).len() + (x - from) * self.bb,
            decreases nb - b,
        {
            let at: usize = 16 * b;
            let cnt: usize = if n - at < 16 { n - at } else { 16 };
            let ghost part = chunk(pts, b as int);
            let mut rows: Vec<&[i8]> = Vec::with_capacity(cnt);
            let mut j: usize = 0;
            while j < cnt
                invariant
                    j <= cnt,
                    self.ins_lists_ok(),
                    c < self.nc(),
                    d == self.d,
                    dn == d,
                    at == 16 * b,
                    at + cnt <= n,
                    n == pts.len(),
                    cnt == part.len(),
                    part == chunk(pts, b as int),
                    pts == self.ins_gidx@[c as int]@,
                    rlen == self.ins_raw@.len(),
                    rows@.len() == j,
                    forall|i: int| 0 <= i < j ==> (#[trigger] rows@[i])@ == row_of(self.ins_raw@, dn, part[i] as int) && rows@[i]@.len() == dn,
                decreases cnt - j,
            {
                let g: usize = self.ins_gidx[c][at + j] as usize;
                proof {
                    assert(self.ins_gidx@[c as int]@[at + j] < self.ins_orig@.len());
                    lemma_row_in_range(g as int, d as int, self.ins_orig@.len() as int, rlen as int);
                    assert(part[j as int] == g);
                }
                rows.push(slice_subrange(self.ins_raw.as_slice(), g * d, g * d + d));
                j = j + 1;
            }
            assert(row_views(rows@) =~= rows_of(self.ins_raw@, dn, part));
            let ghost code0 = code@;
            self.comp.encode_block(&rows, none.as_slice(), &mut code);
            proof {
                lemma_code_step(&self.comp, self.ins_raw@, dn, pts, b as nat);
                let one = self.comp.encoded(rows_of(self.ins_raw@, dn, part), Seq::empty());
                assert(code@ == code0 + one);
                assert(self.ins_code(c as int, from as nat) + code@ =~= (self.ins_code(c as int, from as nat) + code0) + one);
                let (x, bl) = (b - from, self.bb as int);
                assert((x + 1) * bl == x * bl + bl) by (nonlinear_arith);
            }
            b = b + 1;
        }
        code
    }

    /// Encode the appended points of cell `c` from its last full block on.
    fn encode_cell(&mut self, c: usize)
        requires
            old(self).main_ok(),
            old(self).ins_lists_ok(),
            old(self).bb > 0,
            c < old(self).nc(),
            forall|e: int| 0 <= e < old(self).nc() ==> #[trigger] old(self).sealed(e),
        ensures
            final(self).main_ok(),
            final(self).ins_lists_ok(),
            forall|e: int| 0 <= e < final(self).nc() ==> #[trigger] final(self).sealed(e),
            final(self).encoded(c as int),
            forall|e: int| 0 <= e < final(self).nc() && old(self).encoded(e) ==> #[trigger] final(self).encoded(e),
            final(self).same_built(old(self)),
            final(self).slot_orig == old(self).slot_orig,
            final(self).main_rev == old(self).main_rev,
            final(self).ins_gidx == old(self).ins_gidx,
            final(self).ins_raw == old(self).ins_raw,
            final(self).ins_orig == old(self).ins_orig,
            final(self).ins_loc == old(self).ins_loc,
            final(self).ins_count == old(self).ins_count,
            final(self).ins_dirty == old(self).ins_dirty,
    {
        let ghost pre = *self;
        let n: usize = self.ins_gidx[c].len();
        let full: usize = self.ins_full_blocks[c];
        let blen: usize = self.ins_blocks[c].len();
        let ghost nb = blocks_for(n as nat);
        let ghost bl = self.bb as nat;
        proof {
            assert(pre.sealed(c as int));
        }
        let tail = self.encode_tail(c, full);
        let keep: usize = full * self.bb;
        self.ins_blocks[c].truncate(keep);
        append_bytes(&mut self.ins_blocks[c], tail.as_slice());
        self.ins_full_blocks.set(c, n / 16);
        proof {
            let now = self.ins_blocks@[c as int]@;
            let kept = pre.ins_blocks@[c as int]@.take(keep as int);
            assert(now =~= kept + tail@);
            assert(now == pre.ins_code(c as int, nb));
            assert(full * bl + (nb - full) * bl == nb * bl) by (nonlinear_arith);
            assert(now.len() == nb * bl);
            let whole = (n / 16) as nat;
            assert(whole * bl <= nb * bl) by (nonlinear_arith)
                requires
                    whole <= nb,
            ;
            assert(self.ins_code(c as int, whole).len() == whole * bl && self.ins_code(c as int, nb).take((whole * bl) as int) == self.ins_code(c as int, whole)) by {
                if whole < nb {
                    lemma_code_step(&self.comp, self.ins_raw@, self.d as nat, self.ins_gidx@[c as int]@, whole);
                    assert(self.ins_code(c as int, full as nat).len() == full * bl);
                    assert(pre.ins_code(c as int, whole).len() == pre.ins_code(c as int, full as nat).len() + (whole - full) * bl);
                    assert(full * bl + (whole - full) * bl == whole * bl) by (nonlinear_arith);
                    assert(self.ins_code(c as int, nb).take((whole * bl) as int) =~= self.ins_code(c as int, whole));
                } else {
                    assert(self.ins_code(c as int, nb).take((nb * bl) as int) =~= self.ins_code(c as int, nb));
                }
            }
            assert forall|e: int| 0 <= e < self.nc() implies #[trigger] self.sealed(e) by {
                assert(pre.sealed(e));
            }
            assert forall|e: int| 0 <= e < self.nc() && pre.encoded(e) implies #[trigger] self.encoded(e) by {
            }
        }
    }
}

impl<R: Router, C: Compressor> Index<R, C> {
    /// Encode everything that was appended since the last call. To be called after a batch of
    /// insertions and before a search.
    pub fn finalize_inserts(&mut self)
        requires
            old(self).wf(),
        ensures
            final(self).wf(),
            final(self).finalized(old(self)),
    {
        let ghost pre = *self;
        let mut dirty: Vec<u32> = Vec::new();
        std::mem::swap(&mut dirty, &mut self.ins_dirty);
        let ghost marked = dirty@;
        sort_distinct(&mut dirty);
        proof {
            lemma_ascending(marked);
            lemma_without_repeats(ascending(marked));
            broadcast use vstd::seq_lib::group_to_multiset_ensures;

            assert forall|c: u32| #[trigger] dirty@.contains(c) <==> marked.contains(c) by {
                assert(ascending(marked).contains(c) <==> ascending(marked).to_multiset().count(c) > 0);
                assert(marked.contains(c) <==> marked.to_multiset().count(c) > 0);
            }
            assert forall|i: int| 0 <= i < dirty@.len() implies #[trigger] dirty@[i] < self.nc() by {
                assert(dirty@.contains(dirty@[i]));
            }
            assert(self.main_ok());
            assert(self.ins_lists_ok());
        }
        if self.bb == 0 {
            return;
        }
        proof {
            assert forall|c: int| 0 <= c < self.nc() implies #[trigger] self.sealed(c) by {
                assert(pre.sealed(c));
            }
            assert forall|c: int| 0 <= c < self.nc() && !dirty@.contains(c as u32) implies #[trigger] self.encoded(c) by {
                assert(pre.encoded(c));
            }
        }
        let n: usize = dirty.len();
        let mut i: usize = 0;
        while i < n
            invariant
                i <= n,
                n == dirty@.len(),
                self.main_ok(),
                self.ins_lists_ok(),
                self.bb > 0,
                pre.nc() == self.nc(),
                self.nc() <= u32::MAX,
                forall|k: int| 0 <= k < dirty@.len() ==> #[trigger] dirty@[k] < self.nc(),
                forall|c: int| 0 <= c < self.nc() ==> #[trigger] self.sealed(c),
                forall|c: int| 0 <= c < self.nc() && !dirty@.contains(c as u32) ==> #[trigger] self.encoded(c),
                forall|k: int| 0 <= k < i ==> self.encoded(#[trigger] dirty@[k] as int),
                self.same_built(&pre),
                self.slot_orig == pre.slot_orig,
                self.main_rev == pre.main_rev,
                self.ins_gidx == pre.ins_gidx,
                self.ins_raw == pre.ins_raw,
                self.ins_orig == pre.ins_orig,
                self.ins_loc == pre.ins_loc,
                self.ins_count == pre.ins_count,
                self.ins_dirty@.len() == 0,
            decreases n - i,
        {
            self.encode_cell(dirty[i] as usize);
            i = i + 1;
        }
        proof {
            assert forall|c: int| 0 <= c < self.nc() implies #[trigger] self.encoded(c) by {
                if dirty@.contains(c as u32) {
                    let k = choose|k: int| 0 <= k < dirty@.len() && dirty@[k] == c as u32;
                    assert(self.encoded(dirty@[k] as int));
                }
            }
        }
    }
}

} // verus!
