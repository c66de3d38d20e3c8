//! Cell layout of an index: the points of each cell, side by side, in blocks of 16 slots.
use vstd::prelude::*;
use vstd::slice::slice_subrange;
use crate::compress::{row_views, Compressor};
use crate::ibin::I8Bin;
use crate::pq::{interleave4, interleaves};
use crate::rerank::NO_POINT;
use crate::simd::{lemma_row_in_range, row_of};

verus! {

/// Points of cell `c`, in the order of their first `n` assignments; assignment `i` is one of the
/// `a0` of point `i / a0`.
pub open spec fn members(assign: Seq<u32>, a0: nat, c: int, n: nat) -> Seq<u32>
    decreases n,
{
    if n == 0 {
        Seq::empty()
    } else {
        let prev = members(assign, a0, c, (n - 1) as nat);
        if assign[n - 1] == c {
            prev.push(((n - 1) / a0 as int) as u32)
        } else {
            prev
        }
    }
}

/// Assignments to cells below `c` among the first `n`.
pub open spec fn below(assign: Seq<u32>, a0: nat, c: nat, n: nat) -> nat
    decreases c,
{
    if c == 0 {
        0
    } else {
        below(assign, a0, (c - 1) as nat, n) + members(assign, a0, c - 1, n).len()
    }
}

proof fn lemma_below_step(assign: Seq<u32>, a0: nat, c: nat, n: nat)
    ensures
        below(assign, a0, c, n + 1) == below(assign, a0, c, n) + (if assign[n as int] < c { 1nat } else { 0nat }),
    decreases c,
{
    if c > 0 {
        lemma_below_step(assign, a0, (c - 1) as nat, n);
    }
}

pub proof fn lemma_below_all(assign: Seq<u32>, a0: nat, nc: nat, n: nat)
    requires
        n <= assign.len(),
        forall|i: int| 0 <= i < assign.len() ==> #[trigger] assign[i] < nc,
    ensures
        below(assign, a0, nc, n) == n,
    decreases n,
{
    if n > 0 {
        lemma_below_all(assign, a0, nc, (n - 1) as nat);
        lemma_below_step(assign, a0, nc, (n - 1) as nat);
    } else {
        lemma_below_none(assign, a0, nc);
    }
}

proof fn lemma_below_none(assign: Seq<u32>, a0: nat, c: nat)
    ensures
        below(assign, a0, c, 0) == 0,
    decreases c,
{
    if c > 0 {
        lemma_below_none(assign, a0, (c - 1) as nat);
    }
}

pub proof fn lemma_below_monotone(assign: Seq<u32>, a0: nat, c: nat, e: nat, n: nat)
    requires
        c <= e,
    ensures
        below(assign, a0, c, n) <= below(assign, a0, e, n),
    decreases e,
{
    if c < e {
        lemma_below_monotone(assign, a0, c, (e - 1) as nat, n);
    }
}

proof fn lemma_members_grow(assign: Seq<u32>, a0: nat, c: int, n: nat, e: nat)
    requires
        n <= e,
    ensures
        members(assign, a0, c, n).len() <= members(assign, a0, c, e).len(),
        forall|k: int| 0 <= k < members(assign, a0, c, n).len() ==> #[trigger] members(assign, a0, c, n)[k] == members(assign, a0, c, e)[k],
    decreases e,
{
    if n < e {
        lemma_members_grow(assign, a0, c, n, (e - 1) as nat);
    }
}

pub proof fn lemma_members_are_points(assign: Seq<u32>, a0: nat, c: int, n: nat, points: nat)
    requires
        a0 >= 1,
        n <= points * a0,
        points <= u32::MAX,
    ensures
        forall|k: int| 0 <= k < members(assign, a0, c, n).len() ==> #[trigger] members(assign, a0, c, n)[k] < points,
    decreases n,
{
    if n > 0 {
        lemma_members_are_points(assign, a0, c, (n - 1) as nat, points);
        let i = n - 1;
        let a = a0 as int;
        let p = points as int;
        assert(0 <= i / a < p) by (nonlinear_arith)
            requires
                0 <= i < p * a,
                a >= 1,
        ;
        let prev = members(assign, a0, c, (n - 1) as nat);
        assert forall|k: int| 0 <= k < members(assign, a0, c, n).len() implies #[trigger] members(assign, a0, c, n)[k] < points by {
            if k < prev.len() {
                assert(prev[k] < points);
            }
        }
    }
}

/// Points grouped by cell: those of cell `c` are `ids[start[c]..start[c + 1]]`.
pub struct Buckets {
    pub start: Vec<u32>,
    pub ids: Vec<u32>,
}

impl Buckets {
    /// The points of cell `c`.
    pub open spec fn of(&self, c: int) -> Seq<u32> {
        self.ids@.subrange(self.start@[c] as int, self.start@[c + 1] as int)
    }

    /// The buckets of an assignment.
    pub open spec fn group(&self, assign: Seq<u32>, a0: nat, nc: nat) -> bool {
        &&& self.start@.len() == nc + 1
        &&& self.ids@.len() == assign.len()
        &&& forall|c: int| 0 <= c <= nc ==> #[trigger] self.start@[c] == below(assign, a0, c as nat, assign.len())
        &&& forall|c: int| 0 <= c < nc ==> #[trigger] self.of(c) == members(assign, a0, c, assign.len())
    }
}

/// Group the assignments by cell with a counting sort.
pub fn bucket(assign: &Vec<u32>, a0: usize, nc: usize) -> (r: Buckets)
    requires
        a0 >= 1,
        nc < usize::MAX,
        assign@.len() <= u32::MAX,
        forall|i: int| 0 <= i < assign@.len() ==> #[trigger] assign@[i] < nc,
    ensures
        r.group(assign@, a0 as nat, nc as nat),
{
    let n: usize = assign.len();
    let ghost s = assign@;
    let ghost a = a0 as nat;
    let mut start: Vec<u32> = vec![0u32; nc + 1];
    let mut i: usize = 0;
    while i < n
        invariant
            i <= n,
            s == assign@,
            n == s.len(),
            n <= u32::MAX,
            a == a0,
            start@.len() == nc + 1,
            start@[0] == 0,
            forall|j: int| 0 <= j < s.len() ==> #[trigger] s[j] < nc,
            forall|c: int| 0 <= c < nc ==> #[trigger] start@[c + 1] == members(s, a, c, i as nat).len(),
        decreases n - i,
    {
        let c: usize = assign[i] as usize;
        proof {
            lemma_members_len(s, a, c as int, i as nat);
            assert(start@[c + 1] == members(s, a, c as int, i as nat).len());
        }
        start[c + 1] = start[c + 1] + 1;
        i = i + 1;
    }
    let mut j: usize = 0;
    proof {
        assert forall|c: int| 0 < c <= nc implies #[trigger] start@[c] == members(s, a, c - 1, n as nat).len() by {
            assert(start@[(c - 1) + 1] == members(s, a, c - 1, n as nat).len());
        }
    }
    while j < nc
        invariant
            j <= nc,
            s == assign@,
            n == s.len(),
            n <= u32::MAX,
            start@.len() == nc + 1,
            forall|k: int| 0 <= k < s.len() ==> #[trigger] s[k] < nc,
            forall|c: int| 0 <= c <= j ==> #[trigger] start@[c] == below(s, a, c as nat, n as nat),
            forall|c: int| j < c <= nc ==> #[trigger] start@[c] == members(s, a, c - 1, n as nat).len(),
        decreases nc - j,
    {
        proof {
            lemma_below_all(s, a, nc as nat, n as nat);
            lemma_below_monotone(s, a, (j + 1) as nat, nc as nat, n as nat);
            assert(start@[j as int] == below(s, a, j as nat, n as nat));
            assert(start@[j + 1] == members(s, a, j as int, n as nat).len());
        }
        start[j + 1] = start[j + 1] + start[j];
        j = j + 1;
    }
    proof {
        lemma_below_all(s, a, nc as nat, n as nat);
    }
    let mut ids: Vec<u32> = vec![0u32; n];
    let mut cur: Vec<u32> = start.clone();
    assert(cur@ =~= start@);
    let mut i: usize = 0;
    while i < n
        invariant
            i <= n,
            s == assign@,
            n == s.len(),
            n <= u32::MAX,
            a == a0,
            a0 >= 1,
            start@.len() == nc + 1,
            cur@.len() == nc + 1,
            ids@.len() == n,
            below(s, a, nc as nat, n as nat) == n,
            forall|k: int| 0 <= k < s.len() ==> #[trigger] s[k] < nc,
            forall|c: int| 0 <= c <= nc ==> #[trigger] start@[c] == below(s, a, c as nat, n as nat),
            forall|c: int| 0 <= c < nc ==> #[trigger] cur@[c] == below(s, a, c as nat, n as nat) + members(s, a, c, i as nat).len(),
            forall|c: int, k: int| 0 <= c < nc && 0 <= k < members(s, a, c, i as nat).len() ==> ids@[below(s, a, c as nat, n as nat) + k] == #[trigger] members(s, a, c, i as nat)[k],
        decreases n - i,
    {
        let c: usize = assign[i] as usize;
        let pt: u32 = (i / a0) as u32;
        let ghost ids0 = ids@;
        let ghost at = cur@[c as int] as int;
        proof {
            assert(i as int / a as int <= i) by (nonlinear_arith)
                requires
                    a >= 1,
                    i >= 0,
            ;
            lemma_members_grow(s, a, c as int, (i + 1) as nat, n as nat);
            lemma_below_monotone(s, a, (c + 1) as nat, nc as nat, n as nat);
            assert(cur@[c as int] == below(s, a, c as nat, n as nat) + members(s, a, c as int, i as nat).len());
            assert(at < below(s, a, (c + 1) as nat, n as nat));
        }
        let p: u32 = cur[c];
        ids[p as usize] = pt;
        cur[c] = p + 1;
        proof {
            assert forall|e: int, k: int| 0 <= e < nc && 0 <= k < members(s, a, e, (i + 1) as nat).len() implies ids@[below(s, a, e as nat, n as nat) + k] == #[trigger] members(s, a, e, (i + 1) as nat)[k] by {
                lemma_members_grow(s, a, e, (i + 1) as nat, n as nat);
                if e < c {
                    lemma_below_monotone(s, a, (e + 1) as nat, c as nat, n as nat);
                    assert(members(s, a, e, i as nat)[k] == members(s, a, e, (i + 1) as nat)[k]);
                    assert(below(s, a, e as nat, n as nat) + k < at);
                    assert(ids0[below(s, a, e as nat, n as nat) + k] == members(s, a, e, i as nat)[k]);
                } else if e > c {
                    lemma_below_monotone(s, a, (c + 1) as nat, e as nat, n as nat);
                    lemma_below_monotone(s, a, (e + 1) as nat, nc as nat, n as nat);
                    assert(members(s, a, e, i as nat)[k] == members(s, a, e, (i + 1) as nat)[k]);
                    assert(below(s, a, e as nat, n as nat) + k > at);
                    assert(ids0[below(s, a, e as nat, n as nat) + k] == members(s, a, e, i as nat)[k]);
                } else if k < members(s, a, e, i as nat).len() {
                    assert(members(s, a, e, i as nat)[k] == members(s, a, e, (i + 1) as nat)[k]);
                    assert(below(s, a, e as nat, n as nat) + k < at);
                    assert(ids0[below(s, a, e as nat, n as nat) + k] == members(s, a, e, i as nat)[k]);
                } else {
                    assert(below(s, a, e as nat, n as nat) + k == at);
                    assert(ids@[at] == pt);
                    assert(members(s, a, e, (i + 1) as nat)[k] == pt);
                }
            }
        }
        i = i + 1;
    }
    let r = Buckets { start, ids };
    proof {
        assert forall|c: int| 0 <= c < nc implies #[trigger] r.of(c) == members(s, a, c, n as nat) by {
            lemma_below_monotone(s, a, (c + 1) as nat, nc as nat, n as nat);
            assert(r.start@[c] == below(s, a, c as nat, n as nat));
            assert(r.start@[c + 1] == below(s, a, (c + 1) as nat, n as nat));
            assert(r.of(c) =~= members(s, a, c, n as nat)) by {
                assert forall|k: int| 0 <= k < members(s, a, c, n as nat).len() implies r.of(c)[k] == members(s, a, c, n as nat)[k] by {
                    assert(r.ids@[below(s, a, c as nat, n as nat) + k] == members(s, a, c, n as nat)[k]);
                }
            }
        }
    }
    r
}

proof fn lemma_members_len(assign: Seq<u32>, a0: nat, c: int, n: nat)
    ensures
        members(assign, a0, c, n).len() <= n,
    decreases n,
{
    if n > 0 {
        lemma_members_len(assign, a0, c, (n - 1) as nat);
    }
}

/// Every assignment is stored in its cell, at the place that its rank among the cell's assignments
/// gives it, and the cells hold nothing else.
pub proof fn law_every_assignment_is_stored(assign: Seq<u32>, a0: nat, nc: nat, i: nat)
    requires
        a0 >= 1,
        i < assign.len(),
        forall|k: int| 0 <= k < assign.len() ==> #[trigger] assign[k] < nc,
    ensures
        members(assign, a0, assign[i as int] as int, i).len() < members(assign, a0, assign[i as int] as int, assign.len()).len(),
        members(assign, a0, assign[i as int] as int, assign.len())[members(assign, a0, assign[i as int] as int, i).len() as int] == (i / a0) as u32,
        below(assign, a0, nc, assign.len()) == assign.len(),
{
    let c = assign[i as int] as int;
    lemma_members_grow(assign, a0, c, (i + 1) as nat, assign.len());
    lemma_below_all(assign, a0, nc, assign.len());
    assert(members(assign, a0, c, (i + 1) as nat)[members(assign, a0, c, i).len() as int] == (i / a0) as u32);
}

/// Blocks that `n` points take.
pub open spec fn blocks_for(n: nat) -> nat {
    (n + 15) / 16
}

/// The slots of a cell: its points, then empty slots up to a whole block.
pub open spec fn padded(pts: Seq<u32>) -> Seq<u32> {
    Seq::new(16 * blocks_for(pts.len()), |i: int| if i < pts.len() { pts[i] } else { NO_POINT })
}

/// The points of block `b` of a cell.
pub open spec fn chunk(pts: Seq<u32>, b: int) -> Seq<u32> {
    pts.subrange(16 * b, if 16 * b + 16 < pts.len() { 16 * b + 16 } else { pts.len() as int })
}

/// The rows of some points.
pub open spec fn rows_of(data: Seq<i8>, d: nat, ids: Seq<u32>) -> Seq<Seq<i8>> {
    Seq::new(ids.len(), |i: int| row_of(data, d, ids[i] as int))
}

/// The first `n` blocks of a cell, one after the other.
pub open spec fn cell_code<C: Compressor>(comp: &C, data: Seq<i8>, d: nat, pts: Seq<u32>, cent: Seq<i8>, n: nat) -> Seq<u8>
    decreases n,
{
    if n == 0 {
        Seq::empty()
    } else {
        cell_code(comp, data, d, pts, cent, (n - 1) as nat) + comp.encoded(rows_of(data, d, chunk(pts, n - 1)), cent)
    }
}

/// Append the slots and the blocks of one cell.
fn lay_cell<C: Compressor>(comp: &C, ds: &I8Bin<'_>, pts: &[u32], cent: &[i8], slot_orig: &mut Vec<u32>, blocks: &mut Vec<u8>)
    requires
        comp.ready(),
        ds.wf(),
        ds.d == comp.dim(),
        cent@.len() == 0 || cent@.len() == ds.d,
        forall|i: int| 0 <= i < pts@.len() ==> #[trigger] pts@[i] < ds.nb,
    ensures
        final(slot_orig)@ == old(slot_orig)@ + padded(pts@),
        final(blocks)@ == old(blocks)@ + cell_code(comp, ds.data@, ds.d as nat, pts@, cent@, blocks_for(pts@.len())),
        cell_code(comp, ds.data@, ds.d as nat, pts@, cent@, blocks_for(pts@.len())).len() == blocks_for(pts@.len()) * comp.block_len(),
{
    let n: usize = pts.len();
    let nb: usize = n / 16 + (if n % 16 == 0 { 0 } else { 1 });
    let ghost slots0 = slot_orig@;
    let ghost blocks0 = blocks@;
    let ghost dd = ds.d as nat;
    let ghost want = padded(pts@);
    let mut b: usize = 0;
    while b < nb
        invariant
            b <= nb,
            n == pts@.len(),
            nb == blocks_for(n as nat),
            comp.ready(),
            ds.wf(),
            dd == ds.d,
            ds.d == comp.dim(),
            cent@.len() == 0 || cent@.len() == ds.d,
            forall|i: int| 0 <= i < pts@.len() ==> #[trigger] pts@[i] < ds.nb,
            want == padded(pts@),
            slot_orig@ =~= slots0 + want.take(16 * b as int),
            blocks@ =~= blocks0 + cell_code(comp, ds.data@, dd, pts@, cent@, b as nat),
            cell_code(comp, ds.data@, dd, pts@, cent@, b as nat).len() == b * comp.block_len(),
        decreases nb - b,
    {
        let from: usize = 16 * b;
        let cnt: usize = if n - from < 16 { n - from } else { 16 };
        let ghost part = chunk(pts@, b as int);
        let mut rows: Vec<&[i8]> = Vec::with_capacity(16);
        let mut j: usize = 0;
        while j < 16
            invariant
                j <= 16,
                from == 16 * b,
                b < nb,
                n == pts@.len(),
                nb == blocks_for(n as nat),
                1 <= cnt <= 16,
                cnt == part.len(),
                part == chunk(pts@, b as int),
                from + cnt <= n,
                cnt < 16 ==> from + cnt == n,
                ds.wf(),
                dd == ds.d,
                ds.d == comp.dim(),
                want == padded(pts@),
                forall|i: int| 0 <= i < pts@.len() ==> #[trigger] pts@[i] < ds.nb,
                rows@.len() == (if j < cnt { j } else { cnt }),
                forall|i: int| 0 <= i < rows@.len() ==> (#[trigger] rows@[i])@ == row_of(ds.data@, dd, part[i] as int) && rows@[i]@.len() == dd,
                slot_orig@ =~= slots0 + want.take(16 * b + j),
            decreases 16 - j,
        {
            if j < cnt {
                let pt: u32 = pts[from + j];
                rows.push(ds.row(pt as usize));
                slot_orig.push(pt);
                assert(part[j as int] == pt);
            } else {
                slot_orig.push(NO_POINT);
            }
            j = j + 1;
        }
        assert(row_views(rows@) =~= rows_of(ds.data@, dd, part));
        comp.encode_block(&rows, cent, blocks);
        proof {
            let bl = comp.block_len() as int;
            let bi = b as int;
            assert((bi + 1) * bl == bi * bl + bl) by (nonlinear_arith);
        }
        b = b + 1;
    }
    assert(want.take(16 * nb as int) =~= want);
}

/// Blocks of the cells below `c`.
pub open spec fn first_block(sizes: Seq<nat>, c: nat) -> nat
    decreases c,
{
    if c == 0 {
        0
    } else {
        first_block(sizes, (c - 1) as nat) + blocks_for(sizes[c - 1])
    }
}

/// Number of points of each cell.
pub open spec fn cell_sizes(assign: Seq<u32>, a0: nat, nc: nat) -> Seq<nat> {
    Seq::new(nc, |c: int| members(assign, a0, c, assign.len()).len())
}

pub proof fn lemma_first_block_monotone(sizes: Seq<nat>, c: nat, e: nat)
    requires
        c <= e,
    ensures
        first_block(sizes, c) <= first_block(sizes, e),
    decreases e,
{
    if c < e {
        lemma_first_block_monotone(sizes, c, (e - 1) as nat);
    }
}

/// Centroid row of cell `c`; empty where there are no centroids.
pub open spec fn centroid_of(cents: Seq<i8>, d: nat, c: int) -> Seq<i8> {
    if cents.len() == 0 {
        Seq::empty()
    } else {
        row_of(cents, d, c)
    }
}

/// The laid-out cells: cell `c` owns the blocks `bstart[c]..bstart[c + 1]`.
pub struct Cells {
    pub bstart: Vec<u32>,
    pub slot_orig: Vec<u32>,
    pub blocks: Vec<u8>,
}

/// The slots of cell `c`.
pub open spec fn cell_slots(bstart: Seq<u32>, slot_orig: Seq<u32>, c: int) -> Seq<u32> {
    slot_orig.subrange(16 * bstart[c], 16 * bstart[c + 1])
}

/// The blocks of cell `c`, one after the other.
pub open spec fn cell_blocks(bstart: Seq<u32>, blocks: Seq<u8>, bb: nat, c: int) -> Seq<u8> {
    blocks.subrange(bstart[c] * bb, bstart[c + 1] * bb)
}

impl Cells {
    /// The cells hold the points of an assignment, encoded.
    pub open spec fn hold<C: Compressor>(&self, comp: &C, data: Seq<i8>, d: nat, assign: Seq<u32>, a0: nat, nc: nat, cents: Seq<i8>) -> bool {
        let sizes = cell_sizes(assign, a0, nc);
        let n = assign.len();
        &&& self.bstart@.len() == nc + 1
        &&& forall|c: int| 0 <= c <= nc ==> #[trigger] self.bstart@[c] == first_block(sizes, c as nat)
        &&& self.slot_orig@.len() == 16 * first_block(sizes, nc)
        &&& self.blocks@.len() == first_block(sizes, nc) * comp.block_len()
        &&& forall|c: int| 0 <= c < nc ==> #[trigger] cell_slots(self.bstart@, self.slot_orig@, c) == padded(members(assign, a0, c, n))
        &&& forall|c: int| 0 <= c < nc ==> #[trigger] cell_blocks(self.bstart@, self.blocks@, comp.block_len(), c) == cell_code(comp, data, d, members(assign, a0, c, n), centroid_of(cents, d, c), blocks_for(members(assign, a0, c, n).len()))
    }
}

/// Lay the points of an assignment out, cell by cell.
pub fn lay_out<C: Compressor>(comp: &C, ds: &I8Bin<'_>, assign: &Vec<u32>, a0: usize, nc: usize, cents: &Vec<i8>) -> (r: Cells)
    requires
        comp.ready(),
        ds.wf(),
        ds.d == comp.dim(),
        a0 >= 1,
        nc < usize::MAX,
        assign@.len() == ds.nb * a0,
        assign@.len() <= u32::MAX,
        forall|i: int| 0 <= i < assign@.len() ==> #[trigger] assign@[i] < nc,
        cents@.len() == 0 || cents@.len() == nc * ds.d,
        16 * first_block(cell_sizes(assign@, a0 as nat, nc as nat), nc as nat) <= u32::MAX,
    ensures
        r.hold(comp, ds.data@, ds.d as nat, assign@, a0 as nat, nc as nat, cents@),
{
    let b = bucket(assign, a0, nc);
    let ghost s = assign@;
    let ghost a = a0 as nat;
    let ghost sizes = cell_sizes(s, a, nc as nat);
    let ghost n = s.len();
    let ghost bl = comp.block_len();
    let ghost dd = ds.d as nat;
    let clen: usize = cents.len();
    let ilen: usize = b.ids.len();
    let mut bstart: Vec<u32> = Vec::with_capacity(nc + 1);
    let mut slot_orig: Vec<u32> = Vec::new();
    let mut blocks: Vec<u8> = Vec::new();
    bstart.push(0);
    let no_cent: [i8; 0] = [];
    let mut c: usize = 0;
    proof {
        assert(ds.nb <= u32::MAX) by (nonlinear_arith)
            requires
                ds.nb * a0 <= u32::MAX,
                a0 >= 1,
        ;
    }
    while c < nc
        invariant
            c <= nc,
            nc < usize::MAX,
            comp.ready(),
            ds.wf(),
            ds.d == comp.dim(),
            dd == ds.d,
            bl == comp.block_len(),
            s == assign@,
            n == s.len(),
            n == ds.nb * a0,
            ds.nb <= u32::MAX,
            a == a0,
            a0 >= 1,
            no_cent@.len() == 0,
            clen == cents@.len(),
            clen == 0 || clen == nc * ds.d,
            ilen == b.ids@.len(),
            ilen == n,
            b.group(s, a, nc as nat),
            forall|k: int| 0 <= k < s.len() ==> #[trigger] s[k] < nc,
            sizes == cell_sizes(s, a, nc as nat),
            16 * first_block(sizes, nc as nat) <= u32::MAX,
            bstart@.len() == c + 1,
            forall|e: int| 0 <= e <= c ==> #[trigger] bstart@[e] == first_block(sizes, e as nat),
            slot_orig@.len() == 16 * first_block(sizes, c as nat),
            blocks@.len() == first_block(sizes, c as nat) * bl,
            forall|e: int| 0 <= e < c ==> #[trigger] cell_slots(bstart@, slot_orig@, e) == padded(members(s, a, e, n)),
            forall|e: int| 0 <= e < c ==> #[trigger] cell_blocks(bstart@, blocks@, bl, e) == cell_code(comp, ds.data@, dd, members(s, a, e, n), centroid_of(cents@, dd, e), blocks_for(members(s, a, e, n).len())),
        decreases nc - c,
    {
        let ghost pts = members(s, a, c as int, n);
        let ghost slots0 = slot_orig@;
        let ghost blocks0 = blocks@;
        let ghost bstart0 = bstart@;
        let ghost f0 = first_block(sizes, c as nat);
        let ghost f1 = first_block(sizes, (c + 1) as nat);
        proof {
            assert(b.of(c as int) == pts);
            assert(b.start@[c as int] == below(s, a, c as nat, n));
            assert(b.start@[c + 1] == below(s, a, (c + 1) as nat, n));
            lemma_below_monotone(s, a, (c + 1) as nat, nc as nat, n);
            lemma_below_all(s, a, nc as nat, n);
            lemma_members_are_points(s, a, c as int, n, ds.nb as nat);
            lemma_first_block_monotone(sizes, (c + 1) as nat, nc as nat);
            assert(sizes[c as int] == pts.len());
            if clen != 0 {
                lemma_row_in_range(c as int, ds.d as int, nc as int, clen as int);
            }
        }
        let cell: &[u32] = slice_subrange(b.ids.as_slice(), b.start[c] as usize, b.start[c + 1] as usize);
        assert(cell@ == pts);
        if clen == 0 {
            assert(no_cent@ =~= centroid_of(cents@, dd, c as int));
            lay_cell(comp, ds, cell, no_cent.as_slice(), &mut slot_orig, &mut blocks);
        } else {
            let cent: &[i8] = slice_subrange(cents.as_slice(), c * ds.d, c * ds.d + ds.d);
            lay_cell(comp, ds, cell, cent, &mut slot_orig, &mut blocks);
        }
        let slots: usize = slot_orig.len();
        bstart.push((slots / 16) as u32);
        proof {
            assert(f1 == f0 + blocks_for(pts.len()));
            assert(f1 * bl == f0 * bl + blocks_for(pts.len()) * bl) by (nonlinear_arith)
                requires
                    f1 == f0 + blocks_for(pts.len()),
            ;
            assert forall|e: int| 0 <= e < c + 1 implies #[trigger] cell_slots(bstart@, slot_orig@, e) == padded(members(s, a, e, n)) by {
                assert(bstart@[e] == first_block(sizes, e as nat));
                assert(bstart@[e + 1] == first_block(sizes, (e + 1) as nat));
                lemma_first_block_monotone(sizes, e as nat, (e + 1) as nat);
                if e < c {
                    lemma_first_block_monotone(sizes, (e + 1) as nat, c as nat);
                    assert(bstart0[e + 1] == first_block(sizes, (e + 1) as nat));
                    assert(cell_slots(bstart@, slot_orig@, e) =~= cell_slots(bstart0, slots0, e));
                } else {
                    assert(cell_slots(bstart@, slot_orig@, e) =~= padded(pts));
                }
            }
            assert forall|e: int| 0 <= e < c + 1 implies #[trigger] cell_blocks(bstart@, blocks@, bl, e) == cell_code(comp, ds.data@, dd, members(s, a, e, n), centroid_of(cents@, dd, e), blocks_for(members(s, a, e, n).len())) by {
                assert(bstart@[e] == first_block(sizes, e as nat));
                assert(bstart@[e + 1] == first_block(sizes, (e + 1) as nat));
                lemma_first_block_monotone(sizes, e as nat, (e + 1) as nat);
                let (x, y) = (first_block(sizes, e as nat), first_block(sizes, (e + 1) as nat));
                assert(x * bl <= y * bl) by (nonlinear_arith)
                    requires
                        x <= y,
                ;
                if e < c {
                    lemma_first_block_monotone(sizes, (e + 1) as nat, c as nat);
                    assert(y * bl <= f0 * bl) by (nonlinear_arith)
                        requires
                            y <= f0,
                    ;
                    assert(bstart0[e + 1] == first_block(sizes, (e + 1) as nat));
                    assert(cell_blocks(bstart@, blocks@, bl, e) =~= cell_blocks(bstart0, blocks0, bl, e));
                } else {
                    assert(cell_blocks(bstart@, blocks@, bl, e) =~= cell_code(comp, ds.data@, dd, pts, centroid_of(cents@, dd, e), blocks_for(pts.len())));
                }
            }
        }
        c = c + 1;
    }
    Cells { bstart, slot_orig, blocks }
}

/// The rows of the slots, side by side; an empty slot has a row of zeros.
pub open spec fn slot_row(slot_orig: Seq<u32>, data: Seq<i8>, d: nat, slot: int) -> Seq<i8> {
    if slot_orig[slot] != NO_POINT {
        row_of(data, d, slot_orig[slot] as int)
    } else {
        Seq::new(d, |k: int| 0i8)
    }
}

/// Copy the rows of the points into slot order.
pub fn rows_by_slot(slot_orig: &Vec<u32>, ds: &I8Bin<'_>) -> (raw: Vec<i8>)
    requires
        ds.wf(),
        forall|i: int| 0 <= i < slot_orig@.len() ==> #[trigger] slot_orig@[i] < ds.nb || slot_orig@[i] == NO_POINT,
    ensures
        raw@.len() == slot_orig@.len() * ds.d,
        forall|i: int| 0 <= i < slot_orig@.len() ==> #[trigger] row_of(raw@, ds.d as nat, i) == slot_row(slot_orig@, ds.data@, ds.d as nat, i),
{
    let n: usize = slot_orig.len();
    let ghost d = ds.d as nat;
    let mut raw: Vec<i8> = Vec::new();
    let mut i: usize = 0;
    while i < n
        invariant
            i <= n,
            n == slot_orig@.len(),
            ds.wf(),
            d == ds.d,
            forall|j: int| 0 <= j < slot_orig@.len() ==> #[trigger] slot_orig@[j] < ds.nb || slot_orig@[j] == NO_POINT,
            raw@.len() == i * d,
            forall|j: int| 0 <= j < i ==> #[trigger] row_of(raw@, d, j) == slot_row(slot_orig@, ds.data@, d, j),
        decreases n - i,
    {
        let o: u32 = slot_orig[i];
        let ghost raw0 = raw@;
        let ghost want = slot_row(slot_orig@, ds.data@, d, i as int);
        if o == NO_POINT {
            push_zeros(&mut raw, ds.d);
        } else {
            push_row(&mut raw, ds.row(o as usize));
        }
        proof {
            let di = d as int;
            let ii = i as int;
            assert((ii + 1) * di == ii * di + di) by (nonlinear_arith);
            assert(raw@ =~= raw0 + want);
            assert forall|j: int| 0 <= j < i + 1 implies #[trigger] row_of(raw@, d, j) == slot_row(slot_orig@, ds.data@, d, j) by {
                assert(0 <= j * di && (j < ii ==> j * di + di <= ii * di)) by (nonlinear_arith)
                    requires
                        0 <= j,
                        0 <= di,
                ;
                if j < i {
                    assert(row_of(raw@, d, j) =~= row_of(raw0, d, j));
                } else {
                    assert(row_of(raw@, d, j) =~= want);
                }
            }
        }
        i = i + 1;
    }
    raw
}

/// Append a row.
pub fn push_row(out: &mut Vec<i8>, row: &[i8])
    ensures
        final(out)@ == old(out)@ + row@,
{
    let n: usize = row.len();
    let ghost start = out@;
    let mut i: usize = 0;
    while i < n
        invariant
            i <= n,
            n == row@.len(),
            out@ =~= start + row@.take(i as int),
        decreases n - i,
    {
        out.push(row[i]);
        i = i + 1;
    }
    assert(row@.take(n as int) =~= row@);
}

fn push_zeros(out: &mut Vec<i8>, n: usize)
    ensures
        final(out)@ == old(out)@ + Seq::new(n as nat, |k: int| 0i8),
{
    let ghost start = out@;
    let mut i: usize = 0;
    while i < n
        invariant
            i <= n,
            out@ =~= start + Seq::new(i as nat, |k: int| 0i8),
        decreases n - i,
    {
        out.push(0);
        i = i + 1;
    }
}

/// Code byte `j` of a slot; an empty slot has zeros.
pub open spec fn slot_code(slot_orig: Seq<u32>, codes: Seq<u8>, m: nat, slot: int, j: int) -> u8 {
    if slot_orig[slot] != NO_POINT {
        codes[slot_orig[slot] * m + j]
    } else {
        0
    }
}

/// Copy codes of `m` bytes per point into slot order.
pub fn codes_by_slot(slot_orig: &Vec<u32>, codes: &Vec<u8>, m: usize, points: usize) -> (r: Vec<u8>)
    requires
        codes@.len() == points * m,
        forall|i: int| 0 <= i < slot_orig@.len() ==> #[trigger] slot_orig@[i] < points || slot_orig@[i] == NO_POINT,
    ensures
        r@.len() == slot_orig@.len() * m,
        forall|i: int, j: int| 0 <= i < slot_orig@.len() && 0 <= j < m ==> #[trigger] r@[i * m + j] == slot_code(slot_orig@, codes@, m as nat, i, j),
{
    let n: usize = slot_orig.len();
    let clen: usize = codes.len();
    let mut r: Vec<u8> = Vec::new();
    let mut i: usize = 0;
    while i < n
        invariant
            i <= n,
            n == slot_orig@.len(),
            clen == codes@.len(),
            clen == points * m,
            forall|k: int| 0 <= k < slot_orig@.len() ==> #[trigger] slot_orig@[k] < points || slot_orig@[k] == NO_POINT,
            r@.len() == i * m,
            forall|k: int, j: int| 0 <= k < i && 0 <= j < m ==> #[trigger] r@[k * m + j] == slot_code(slot_orig@, codes@, m as nat, k, j),
        decreases n - i,
    {
        let o: u32 = slot_orig[i];
        let ghost r0 = r@;
        let mut j: usize = 0;
        while j < m
            invariant
                j <= m,
                i < n,
                n == slot_orig@.len(),
                clen == codes@.len(),
                clen == points * m,
                o == slot_orig@[i as int],
                o < points || o == NO_POINT,
                r0.len() == i * m,
                r@.len() == r0.len() + j,
                forall|k: int| 0 <= k < r0.len() ==> #[trigger] r@[k] == r0[k],
                forall|k: int| 0 <= k < j ==> #[trigger] r@[r0.len() + k] == slot_code(slot_orig@, codes@, m as nat, i as int, k),
            decreases m - j,
        {
            if o == NO_POINT {
                r.push(0);
            } else {
                proof {
                    lemma_row_in_range(o as int, m as int, points as int, clen as int);
                }
                r.push(codes[o as usize * m + j]);
            }
            j = j + 1;
        }
        proof {
            let (ii, mi) = (i as int, m as int);
            assert((ii + 1) * mi == ii * mi + mi) by (nonlinear_arith);
            assert forall|k: int, j: int| 0 <= k < i + 1 && 0 <= j < m implies #[trigger] r@[k * m + j] == slot_code(slot_orig@, codes@, m as nat, k, j) by {
                if k < i {
                    assert(0 <= k * mi && k * mi + mi <= ii * mi) by (nonlinear_arith)
                        requires
                            0 <= k < ii,
                            0 <= mi,
                    ;
                    assert(r0[k * m + j] == slot_code(slot_orig@, codes@, m as nat, k, j));
                } else {
                    assert(r@[r0.len() + j] == slot_code(slot_orig@, codes@, m as nat, i as int, j));
                }
            }
        }
        i = i + 1;
    }
    r
}

/// Block `b` of a string of blocks.
pub open spec fn block_at(blocks: Seq<u8>, bb: nat, b: int) -> Seq<u8> {
    blocks.subrange(b * bb, b * bb + bb)
}

/// Full groups of 4 blocks in the cells below `c`.
pub open spec fn first_group(bstart: Seq<u32>, c: nat) -> nat
    decreases c,
{
    if c == 0 {
        0
    } else {
        first_group(bstart, (c - 1) as nat) + ((bstart[c as int] - bstart[c - 1]) / 4) as nat
    }
}

/// Superblock `g` interleaves the blocks `b..b + 4`.
pub open spec fn group_holds(il: Seq<u8>, blocks: Seq<u8>, bb: nat, g: int, b: int) -> bool {
    interleaves(
        block_at(il, 4 * bb, g),
        seq![block_at(blocks, bb, b), block_at(blocks, bb, b + 1), block_at(blocks, bb, b + 2), block_at(blocks, bb, b + 3)],
        bb / 16,
    )
}

/// The interleaved copy of all full groups of 4 blocks, cell by cell.
pub open spec fn il_holds(ilstart: Seq<u32>, il: Seq<u8>, bstart: Seq<u32>, blocks: Seq<u8>, bb: nat, nc: nat) -> bool {
    &&& ilstart.len() == nc + 1
    &&& forall|c: int| 0 <= c <= nc ==> #[trigger] ilstart[c] == first_group(bstart, c as nat)
    &&& il.len() == first_group(bstart, nc) * (4 * bb)
    &&& forall|c: int, s: int| 0 <= c < nc && 0 <= s < (bstart[c + 1] - bstart[c]) / 4 ==> #[trigger] group_holds(il, blocks, bb, ilstart[c] + s, bstart[c] + 4 * s)
}

/// The cells partition the blocks in order.
pub open spec fn starts_ok(bstart: Seq<u32>, nc: nat) -> bool {
    &&& bstart.len() == nc + 1
    &&& bstart[0] == 0
    &&& forall|c: int, e: int| 0 <= c <= e <= nc ==> #[trigger] bstart[c] <= #[trigger] bstart[e]
}

pub proof fn lemma_first_group_bound(bstart: Seq<u32>, nc: nat, c: nat)
    requires
        starts_ok(bstart, nc),
        c <= nc,
    ensures
        4 * first_group(bstart, c) <= bstart[c as int],
    decreases c,
{
    if c > 0 {
        lemma_first_group_bound(bstart, nc, (c - 1) as nat);
        assert(bstart[c - 1] <= bstart[c as int]);
    }
}

pub proof fn lemma_first_group_monotone(bstart: Seq<u32>, nc: nat, c: nat, e: nat)
    requires
        starts_ok(bstart, nc),
        c <= e <= nc,
    ensures
        first_group(bstart, c) <= first_group(bstart, e),
    decreases e,
{
    if c < e {
        lemma_first_group_monotone(bstart, nc, c, (e - 1) as nat);
        assert(bstart[e - 1] <= bstart[e as int]);
    }
}

/// Block `b` lies inside a string of `n` blocks.
pub proof fn lemma_block_in_range(b: int, bb: int, n: int)
    requires
        0 <= b < n,
        0 <= bb,
    ensures
        0 <= b * bb,
        b * bb + bb <= n * bb,
        (b + 1) * bb == b * bb + bb,
{
    assert(0 <= b * bb && b * bb + bb <= n * bb && (b + 1) * bb == b * bb + bb) by (nonlinear_arith)
        requires
            0 <= b < n,
            0 <= bb,
    ;
}

/// Re-pack each cell's full groups of 4 blocks into interleaved superblocks.
pub fn interleave_cells(bstart: &Vec<u32>, blocks: &Vec<u8>, bb: usize, nc: usize) -> (r: (Vec<u32>, Vec<u8>))
    requires
        nc < usize::MAX,
        bb % 16 == 0,
        starts_ok(bstart@, nc as nat),
        blocks@.len() == bstart@[nc as int] * bb,
    ensures
        il_holds(r.0@, r.1@, bstart@, blocks@, bb as nat, nc as nat),
{
    let blen: usize = blocks.len();
    let ghost nb = bstart@[nc as int] as int;
    let m: usize = bb / 8;
    let mut ilstart: Vec<u32> = Vec::with_capacity(nc + 1);
    let mut il: Vec<u8> = Vec::new();
    ilstart.push(0);
    let ghost mut src: Seq<int> = Seq::empty();
    let ghost bbn = bb as nat;
    let mut c: usize = 0;
    while c < nc
        invariant
            c <= nc,
            nc < usize::MAX,
            bb % 16 == 0,
            m == bb / 8,
            bbn == bb,
            starts_ok(bstart@, nc as nat),
            nb == bstart@[nc as int],
            blen == blocks@.len(),
            blen == nb * bb,
            ilstart@.len() == c + 1,
            forall|e: int| 0 <= e <= c ==> #[trigger] ilstart@[e] == first_group(bstart@, e as nat),
            src.len() == first_group(bstart@, c as nat),
            il@.len() == src.len() * (4 * bbn),
            forall|g: int| 0 <= g < src.len() ==> group_holds(il@, blocks@, bbn, g, #[trigger] src[g]),
            forall|e: int, s: int| 0 <= e < c && 0 <= s < (bstart@[e + 1] - bstart@[e]) / 4 ==> #[trigger] src[ilstart@[e] + s] == bstart@[e] + 4 * s,
        decreases nc - c,
    {
        assert(bstart@[c as int] <= bstart@[c + 1] <= bstart@[nc as int]);
        let bs: usize = bstart[c] as usize;
        let full: usize = (bstart[c + 1] as usize - bs) / 4;
        let ghost g0 = first_group(bstart@, c as nat) as int;
        let ghost src0 = src;
        proof {
            lemma_first_group_bound(bstart@, nc as nat, (c + 1) as nat);
        }
        let mut s: usize = 0;
        while s < full
            invariant
                s <= full,
                c < nc,
                bb % 16 == 0,
                m == bb / 8,
                bbn == bb,
                nb == bstart@[nc as int],
                blen == blocks@.len(),
                blen == nb * bb,
                bs + 4 * full <= nb,
                g0 == src0.len(),
                src.len() == g0 + s,
                il@.len() == src.len() * (4 * bbn),
                forall|g: int| 0 <= g < src0.len() ==> #[trigger] src[g] == src0[g],
                forall|g: int| 0 <= g < src.len() ==> group_holds(il@, blocks@, bbn, g, #[trigger] src[g]),
                forall|k: int| 0 <= k < s ==> #[trigger] src[g0 + k] == bs + 4 * k,
            decreases full - s,
        {
            let b: usize = bs + 4 * s;
            let ghost il0 = il@;
            let ghost cnt = src.len() as int;
            proof {
                lemma_block_in_range(b as int, bb as int, nb);
                lemma_block_in_range(b + 1, bb as int, nb);
                lemma_block_in_range(b + 2, bb as int, nb);
                lemma_block_in_range(b + 3, bb as int, nb);
            }
            let at: usize = b * bb;
            let b0: &[u8] = slice_subrange(blocks.as_slice(), at, at + bb);
            let b1: &[u8] = slice_subrange(blocks.as_slice(), at + bb, at + 2 * bb);
            let b2: &[u8] = slice_subrange(blocks.as_slice(), at + 2 * bb, at + 3 * bb);
            let b3: &[u8] = slice_subrange(blocks.as_slice(), at + 3 * bb, at + 4 * bb);
            let mut sb: Vec<u8> = vec![0u8; 4 * bb];
            interleave4(b0, b1, b2, b3, m, sb.as_mut_slice());
            append_bytes(&mut il, sb.as_slice());
            proof {
                src = src.push(b as int);
                let w = 4 * bb as int;
                assert((cnt + 1) * w == cnt * w + w) by (nonlinear_arith);
                assert(b0@ =~= block_at(blocks@, bbn, b as int));
                assert(b1@ =~= block_at(blocks@, bbn, b + 1));
                assert(b2@ =~= block_at(blocks@, bbn, b + 2));
                assert(b3@ =~= block_at(blocks@, bbn, b + 3));
                assert forall|g: int| 0 <= g < src.len() implies group_holds(il@, blocks@, bbn, g, #[trigger] src[g]) by {
                    if g < cnt {
                        lemma_block_in_range(g, w, cnt);
                        assert(block_at(il@, 4 * bbn, g) =~= block_at(il0, 4 * bbn, g));
                    } else {
                        assert(block_at(il@, 4 * bbn, g) =~= sb@);
                    }
                }
            }
            s = s + 1;
        }
        let ghost ilstart0 = ilstart@;
        ilstart.push((ilstart[c] as usize + full) as u32);
        proof {
            assert(first_group(bstart@, (c + 1) as nat) == g0 + full);
            assert forall|e: int, k: int| 0 <= e < c + 1 && 0 <= k < (bstart@[e + 1] - bstart@[e]) / 4 implies #[trigger] src[ilstart@[e] + k] == bstart@[e] + 4 * k by {
                if e < c {
                    lemma_first_group_monotone(bstart@, nc as nat, (e + 1) as nat, c as nat);
                    assert(ilstart0[e] == first_group(bstart@, e as nat));
                    assert(ilstart@[e] == ilstart0[e]);
                    assert(first_group(bstart@, (e + 1) as nat) == ilstart0[e] + (bstart@[e + 1] - bstart@[e]) / 4);
                    assert(src0[ilstart0[e] + k] == bstart@[e] + 4 * k);
                } else {
                    assert(src[g0 + k] == bs + 4 * k);
                }
            }
        }
        c = c + 1;
    }
    proof {
        assert forall|e: int, s: int| 0 <= e < nc && 0 <= s < (bstart@[e + 1] - bstart@[e]) / 4 implies #[trigger] group_holds(il@, blocks@, bbn, ilstart@[e] + s, bstart@[e] + 4 * s) by {
            lemma_first_group_monotone(bstart@, nc as nat, (e + 1) as nat, nc as nat);
            assert(first_group(bstart@, (e + 1) as nat) == ilstart@[e] + (bstart@[e + 1] - bstart@[e]) / 4);
            assert(src[ilstart@[e] + s] == bstart@[e] + 4 * s);
        }
    }
    (ilstart, il)
}

/// Append bytes.
pub fn append_bytes(out: &mut Vec<u8>, b: &[u8])
    ensures
        final(out)@ == old(out)@ + b@,
{
    let n: usize = b.len();
    let ghost start = out@;
    let mut i: usize = 0;
    while i < n
        invariant
            i <= n,
            n == b@.len(),
            out@ =~= start + b@.take(i as int),
        decreases n - i,
    {
        out.push(b[i]);
        i = i + 1;
    }
    assert(b@.take(n as int) =~= b@);
}

/// Sum of coordinate `k` over the first `n` points of a list.
pub open spec fn coord_total(data: Seq<i8>, d: nat, ids: Seq<u32>, k: int, n: nat) -> int
    decreases n,
{
    if n == 0 {
        0
    } else {
        coord_total(data, d, ids, k, (n - 1) as nat) + row_of(data, d, ids[n - 1] as int)[k]
    }
}

/// `s / c` rounded to the nearest integer, halves away from zero.
pub open spec fn rounded(s: int, c: int) -> int {
    if s >= 0 {
        (2 * s + c) / (2 * c)
    } else {
        -((2 * (-s) + c) / (2 * c))
    }
}

/// Coordinate `k` of the mean of some points, rounded and kept within `-127..=127`; 0 for no points.
pub open spec fn mean_coordinate(data: Seq<i8>, d: nat, ids: Seq<u32>, k: int) -> int {
    let r = rounded(coord_total(data, d, ids, k, ids.len()), if ids.len() == 0 { 1 } else { ids.len() as int });
    if r < -127 {
        -127
    } else if r > 127 {
        127
    } else {
        r
    }
}

/// Mean of a coordinate over `c` points with coordinate sum `s`.
fn mean_of(s: i64, c: usize) -> (r: i8)
    requires
        1 <= c <= u32::MAX,
        -128 * c <= s <= 128 * c,
    ensures
        r == (if rounded(s as int, c as int) < -127 { -127 } else if rounded(s as int, c as int) > 127 { 127 } else { rounded(s as int, c as int) }),
{
    let c2: i64 = 2 * (c as i64);
    let v: i64 = if s >= 0 { (2 * s + c as i64) / c2 } else { -((2 * (-s) + c as i64) / c2) };
    if v < -127 {
        -127
    } else if v > 127 {
        127
    } else {
        v as i8
    }
}

/// Mean of the points of each cell, in the coordinates of the rows.
pub fn cell_centroids(ds: &I8Bin<'_>, assign: &Vec<u32>, a0: usize, nc: usize) -> (r: Vec<i8>)
    requires
        ds.wf(),
        a0 >= 1,
        nc < usize::MAX,
        assign@.len() == ds.nb * a0,
        assign@.len() <= u32::MAX,
        forall|i: int| 0 <= i < assign@.len() ==> #[trigger] assign@[i] < nc,
    ensures
        r@.len() == nc * ds.d,
        forall|c: int, k: int| 0 <= c < nc && 0 <= k < ds.d ==> #[trigger] r@[c * ds.d + k] == mean_coordinate(ds.data@, ds.d as nat, members(assign@, a0 as nat, c, assign@.len()), k),
{
    let b = bucket(assign, a0, nc);
    let ghost s = assign@;
    let ghost a = a0 as nat;
    let ghost n = s.len();
    let d: usize = ds.d;
    let ghost dn = d as nat;
    let mut r: Vec<i8> = Vec::new();
    proof {
        assert(ds.nb <= u32::MAX) by (nonlinear_arith)
            requires
                ds.nb * a0 <= u32::MAX,
                a0 >= 1,
        ;
    }
    let mut c: usize = 0;
    while c < nc
        invariant
            c <= nc,
            ds.wf(),
            d == ds.d,
            dn == d,
            s == assign@,
            n == s.len(),
            n == ds.nb * a0,
            n <= u32::MAX,
            ds.nb <= u32::MAX,
            a == a0,
            a0 >= 1,
            b.group(s, a, nc as nat),
            forall|k: int| 0 <= k < s.len() ==> #[trigger] s[k] < nc,
            r@.len() == c * d,
            forall|e: int, k: int| 0 <= e < c && 0 <= k < d ==> #[trigger] r@[e * d + k] == mean_coordinate(ds.data@, dn, members(s, a, e, n), k),
        decreases nc - c,
    {
        let ghost pts = members(s, a, c as int, n);
        let ghost r0 = r@;
        proof {
            assert(b.of(c as int) == pts);
            assert(b.start@[c as int] == below(s, a, c as nat, n));
            assert(b.start@[c + 1] == below(s, a, (c + 1) as nat, n));
            lemma_below_monotone(s, a, (c + 1) as nat, nc as nat, n);
            lemma_below_all(s, a, nc as nat, n);
            lemma_members_are_points(s, a, c as int, n, ds.nb as nat);
            lemma_members_len(s, a, c as int, n);
        }
        let ids: &[u32] = slice_subrange(b.ids.as_slice(), b.start[c] as usize, b.start[c + 1] as usize);
        let cnt: usize = ids.len();
        let mut k: usize = 0;
        while k < d
            invariant
                k <= d,
                c < nc,
                ds.wf(),
                d == ds.d,
                dn == d,
                ids@ == pts,
                cnt == pts.len(),
                cnt <= u32::MAX,
                forall|i: int| 0 <= i < pts.len() ==> #[trigger] pts[i] < ds.nb,
                r@.len() == r0.len() + k,
                forall|i: int| 0 <= i < r0.len() ==> #[trigger] r@[i] == r0[i],
                forall|i: int| 0 <= i < k ==> #[trigger] r@[r0.len() + i] == mean_coordinate(ds.data@, dn, pts, i),
            decreases d - k,
        {
            let mut sum: i64 = 0;
            let mut i: usize = 0;
            while i < cnt
                invariant
                    i <= cnt,
                    k < d,
                    ds.wf(),
                    d == ds.d,
                    dn == d,
                    ids@ == pts,
                    cnt == pts.len(),
                    cnt <= u32::MAX,
                    forall|j: int| 0 <= j < pts.len() ==> #[trigger] pts[j] < ds.nb,
                    sum == coord_total(ds.data@, dn, pts, k as int, i as nat),
                    -128 * i <= sum <= 128 * i,
                decreases cnt - i,
            {
                let row: &[i8] = ds.row(ids[i] as usize);
                sum = sum + row[k] as i64;
                i = i + 1;
            }
            r.push(mean_of(sum, if cnt == 0 { 1 } else { cnt }));
            k = k + 1;
        }
        proof {
            let (ci, di) = (c as int, d as int);
            assert((ci + 1) * di == ci * di + di) by (nonlinear_arith);
            assert forall|e: int, k: int| 0 <= e < c + 1 && 0 <= k < d implies #[trigger] r@[e * d + k] == mean_coordinate(ds.data@, dn, members(s, a, e, n), k) by {
                if e < c {
                    lemma_block_in_range(e, di, ci);
                    assert(r0[e * d + k] == mean_coordinate(ds.data@, dn, members(s, a, e, n), k));
                } else {
                    assert(r@[r0.len() + k] == mean_coordinate(ds.data@, dn, pts, k));
                }
            }
        }
        c = c + 1;
    }
    r
}

} // verus!
