//! A graph of near neighbours that improves itself: each point's row of neighbours is joined, round
//! by round, with the neighbours of its neighbours, in both directions of the edges.
use vstd::prelude::*;
use crate::ibin::I8Bin;
use crate::simd::{dot, dot_i8_avx2, lemma_inner_bound, dim_limit, sqnorm, sqnorm_i8};

verus! {

/// One step of the generator that draws neighbours and samples.
pub open spec fn drawn(x: u64) -> u64 {
    let a = x ^ (x >> 12u64);
    let b = a ^ (a << 25u64);
    let c = b ^ (b >> 27u64);
    c.wrapping_mul(0x2545_f491_4f6c_dd1d)
}

/// One step of the generator.
pub fn draw(x: u64) -> (r: u64)
    ensures
        r == drawn(x),
{
    let a: u64 = x ^ (x >> 12u64);
    let b: u64 = a ^ (a << 25u64);
    let c: u64 = b ^ (b >> 27u64);
    c.wrapping_mul(0x2545_f491_4f6c_dd1d)
}

/// The constant that seeds are spread with.
pub const SPREAD: u64 = 0x9e37_79b9_7f4a_7c15;

/// How many draws a row is filled with before the lowest free ids take their place.
pub const DRAWS: u64 = 0xffff_ffff_ffff_ffff;

/// An edge to a neighbour: how near it is, and for how many rounds it still counts as new.
#[derive(Clone, Copy)]
pub struct Edge {
    pub sim: i32,
    pub id: u32,
    pub fresh: u8,
}

/// How near two points are: their inner product, or under the Euclidean distance twice that less the
/// neighbour's squared norm. Larger is nearer.
pub open spec fn sim(l2: bool, x: Seq<i8>, y: Seq<i8>) -> int {
    if l2 {
        2 * dot(x, y) - sqnorm(y)
    } else {
        dot(x, y)
    }
}

/// Under the Euclidean distance, the nearer of two neighbours is the one at the smaller distance.
pub proof fn law_similarity_orders_by_distance(x: Seq<i8>, y: Seq<i8>, z: Seq<i8>)
    requires
        x.len() == y.len(),
        x.len() == z.len(),
    ensures
        sim(true, x, y) <= sim(true, x, z) <==> crate::simd::l2(x, z) <= crate::simd::l2(x, y),
{
    lemma_expand(x, y, x.len());
    lemma_expand(x, z, x.len());
}

/// Under the inner product, the nearer of two neighbours is the one of the larger inner product.
pub proof fn law_similarity_orders_by_inner_product(x: Seq<i8>, y: Seq<i8>, z: Seq<i8>)
    ensures
        sim(false, x, y) <= sim(false, x, z) <==> dot(x, y) <= dot(x, z),
{
}

proof fn lemma_expand(x: Seq<i8>, y: Seq<i8>, n: nat)
    ensures
        crate::simd::sqdist(x, y, n) == crate::simd::inner(x, x, n) + crate::simd::inner(y, y, n) - 2 * crate::simd::inner(x, y, n),
    decreases n,
{
    if n > 0 {
        lemma_expand(x, y, (n - 1) as nat);
        let a = x[n - 1] as int;
        let b = y[n - 1] as int;
        assert((a - b) * (a - b) == a * a + b * b - 2 * (a * b)) by (nonlinear_arith);
    }
}

/// How near two points are.
pub fn similarity(l2: bool, x: &[i8], y: &[i8]) -> (r: i32)
    requires
        x@.len() == y@.len(),
        x@.len() <= dim_limit(l2),
    ensures
        r == sim(l2, x@, y@),
{
    proof {
        lemma_inner_bound(x@, y@, x@.len());
        lemma_inner_bound(y@, y@, y@.len());
    }
    let s: i32 = dot_i8_avx2(x, y);
    if l2 {
        2 * s - sqnorm_i8(y)
    } else {
        s
    }
}

// ---------------------------------------------------------------- first neighbours

/// True where `w` may join a row of point `own` that holds `row`.
pub open spec fn may_join(row: Seq<u32>, own: u32, w: u32) -> bool {
    w != own && !row.contains(w)
}

/// The first `k` usable ids of a seed row: below `n`, not the point itself, none twice.
pub open spec fn seeded(seeds: Seq<u32>, own: u32, n: nat, k: nat) -> Seq<u32>
    decreases seeds.len(),
{
    if seeds.len() == 0 {
        seeds
    } else {
        let before = seeded(seeds.drop_last(), own, n, k);
        let w = seeds.last();
        if before.len() < k && w < n && may_join(before, own, w) {
            before.push(w)
        } else {
            before
        }
    }
}

/// A row filled up to `k` ids by at most `left` draws.
pub open spec fn drawn_row(row: Seq<u32>, own: u32, n: nat, k: nat, state: u64, left: nat) -> Seq<u32>
    decreases left,
{
    if row.len() >= k || left == 0 {
        row
    } else {
        let s = drawn(state);
        let w = (s as int % n as int) as u32;
        if may_join(row, own, w) {
            drawn_row(row.push(w), own, n, k, s, (left - 1) as nat)
        } else {
            drawn_row(row, own, n, k, s, (left - 1) as nat)
        }
    }
}

/// A row filled up to `k` ids by the free ids among the first `n`, lowest first.
pub open spec fn completed(row: Seq<u32>, own: u32, n: nat, k: nat) -> Seq<u32>
    decreases n,
{
    if n == 0 {
        row
    } else {
        let before = completed(row, own, (n - 1) as nat, k);
        let w = (n - 1) as u32;
        if before.len() < k && may_join(before, own, w) {
            before.push(w)
        } else {
            before
        }
    }
}

/// The row that a point starts with.
pub open spec fn start_row(seeds: Seq<u32>, own: u32, n: nat, k: nat) -> Seq<u32> {
    completed(drawn_row(seeded(seeds, own, n, k), own, n, k, own as u64 ^ SPREAD, DRAWS as nat), own, n, k)
}

/// Distinct ids below `n`, none of them the point itself.
pub open spec fn proper_row(row: Seq<u32>, own: u32, n: nat) -> bool {
    &&& row.no_duplicates()
    &&& forall|j: int| 0 <= j < row.len() ==> #[trigger] row[j] < n && row[j] != own
}

proof fn lemma_push_proper(row: Seq<u32>, own: u32, n: nat, w: u32)
    requires
        proper_row(row, own, n),
        may_join(row, own, w),
        w < n,
    ensures
        proper_row(row.push(w), own, n),
{
    let p = row.push(w);
    assert forall|j: int| 0 <= j < p.len() implies #[trigger] p[j] < n && p[j] != own by {
        if j < row.len() {
            assert(p[j] == row[j]);
        }
    }
    assert forall|i: int, j: int| 0 <= i < p.len() && 0 <= j < p.len() && i != j implies p[i] != p[j] by {
        if i < row.len() && j == row.len() {
            assert(row.contains(row[i]));
        }
        if j < row.len() && i == row.len() {
            assert(row.contains(row[j]));
        }
    }
}

/// Whether a list of ids holds `w`.
pub(crate) fn holds_id(row: &Vec<u32>, w: u32) -> (r: bool)
    ensures
        r == row@.contains(w),
{
    let n: usize = row.len();
    let mut i: usize = 0;
    while i < n
        invariant
            i <= n,
            n == row@.len(),
            forall|j: int| 0 <= j < i ==> row@[j] != w,
        decreases n - i,
    {
        if row[i] == w {
            return true;
        }
        i = i + 1;
    }
    false
}

proof fn lemma_completed(row: Seq<u32>, own: u32, n: nat, m: nat, k: nat)
    requires
        proper_row(row, own, n),
        row.len() <= k,
        m <= n,
        n <= u32::MAX,
    ensures
        proper_row(completed(row, own, m, k), own, n),
        row.len() <= completed(row, own, m, k).len() <= k,
        completed(row, own, m, k).len() < k ==> forall|w: u32| w < m && w != own ==> #[trigger] completed(row, own, m, k).contains(w),
    decreases m,
{
    if m > 0 {
        lemma_completed(row, own, n, (m - 1) as nat, k);
        let before = completed(row, own, (m - 1) as nat, k);
        let after = completed(row, own, m, k);
        let w = (m - 1) as u32;
        if before.len() < k && may_join(before, own, w) {
            lemma_push_proper(before, own, n, w);
            assert forall|x: u32| after.len() < k && x < m && x != own implies #[trigger] after.contains(x) by {
                if x == w {
                    assert(after[before.len() as int] == x);
                } else {
                    assert(before.contains(x));
                    let j = choose|j: int| 0 <= j < before.len() && before[j] == x;
                    assert(after[j] == x);
                }
            }
        }
    }
}

proof fn lemma_completed_full(row: Seq<u32>, own: u32, n: nat, k: nat)
    ensures
        row.len() >= k ==> completed(row, own, n, k) == row,
    decreases n,
{
    if n > 0 {
        lemma_completed_full(row, own, (n - 1) as nat, k);
    }
}

/// A list that holds every id below `n` but one has at least `n - 1` entries.
proof fn lemma_all_but_one(row: Seq<u32>, own: u32, n: nat)
    requires
        forall|w: u32| w < n && w != own ==> #[trigger] row.contains(w),
        n <= u32::MAX,
    ensures
        row.len() + 1 >= n,
{
    let s = row.to_set();
    let want = Set::new(|w: u32| w < n && w != own);
    assert(want.subset_of(s));
    row.lemma_cardinality_of_set();
    lemma_below_count(n);
    let all = Set::new(|w: u32| w < n);
    assert(all.subset_of(want.insert(own)));
    vstd::set_lib::lemma_len_subset(want, s);
    assert(want.finite());
    vstd::set_lib::lemma_len_subset(all, want.insert(own));
}

proof fn lemma_below_count(n: nat)
    requires
        n <= u32::MAX,
    ensures
        Set::new(|w: u32| w < n).finite(),
        Set::new(|w: u32| w < n).len() == n,
    decreases n,
{
    let all = Set::new(|w: u32| w < n);
    if n == 0 {
        assert(all =~= Set::<u32>::empty());
    } else {
        let m = (n - 1) as nat;
        lemma_below_count(m);
        let before = Set::new(|w: u32| w < m);
        assert(all =~= before.insert(m as u32));
    }
}

proof fn lemma_seeded(seeds: Seq<u32>, own: u32, n: nat, k: nat)
    ensures
        proper_row(seeded(seeds, own, n, k), own, n),
        seeded(seeds, own, n, k).len() <= k,
    decreases seeds.len(),
{
    if seeds.len() > 0 {
        lemma_seeded(seeds.drop_last(), own, n, k);
        let before = seeded(seeds.drop_last(), own, n, k);
        let w = seeds.last();
        if before.len() < k && w < n && may_join(before, own, w) {
            lemma_push_proper(before, own, n, w);
        }
    }
}

proof fn lemma_drawn_row(row: Seq<u32>, own: u32, n: nat, k: nat, state: u64, left: nat)
    requires
        proper_row(row, own, n),
        row.len() <= k,
        0 < n <= u32::MAX,
    ensures
        proper_row(drawn_row(row, own, n, k, state, left), own, n),
        drawn_row(row, own, n, k, state, left).len() <= k,
    decreases left,
{
    if row.len() < k && left > 0 {
        let s = drawn(state);
        let w = (s as int % n as int) as u32;
        if may_join(row, own, w) {
            lemma_push_proper(row, own, n, w);
            lemma_drawn_row(row.push(w), own, n, k, s, (left - 1) as nat);
        } else {
            lemma_drawn_row(row, own, n, k, s, (left - 1) as nat);
        }
    }
}

/// The row that a point starts with holds `k` distinct points, and not the point itself, whatever it
/// was seeded with.
pub proof fn law_start_row_is_proper(seeds: Seq<u32>, own: u32, n: nat, k: nat)
    requires
        k < n <= u32::MAX,
    ensures
        proper_row(start_row(seeds, own, n, k), own, n),
        start_row(seeds, own, n, k).len() == k,
{
    lemma_seeded(seeds, own, n, k);
    let a = seeded(seeds, own, n, k);
    let state = own as u64 ^ SPREAD;
    lemma_drawn_row(a, own, n, k, state, DRAWS as nat);
    let b = drawn_row(a, own, n, k, state, DRAWS as nat);
    lemma_completed(b, own, n, n, k);
    let c = completed(b, own, n, k);
    if c.len() < k {
        lemma_all_but_one(c, own, n);
    }
}

/// The row that a point starts with: usable seeds first, then drawn ids.
pub fn first_row(seeds: &[u32], own: u32, n: usize, k: usize) -> (row: Vec<u32>)
    requires
        k < n <= u32::MAX,
    ensures
        row@ == start_row(seeds@, own, n as nat, k as nat),
        row@.len() == k,
        proper_row(row@, own, n as nat),
{
    let ghost nn = n as nat;
    let ghost kk = k as nat;
    let mut row: Vec<u32> = Vec::new();
    let ns: usize = seeds.len();
    let mut i: usize = 0;
    assert(seeds@.take(0) =~= Seq::<u32>::empty());
    while i < ns
        invariant
            i <= ns,
            ns == seeds@.len(),
            row@ == seeded(seeds@.take(i as int), own, n as nat, k as nat),
        decreases ns - i,
    {
        assert(seeds@.take(i + 1).drop_last() =~= seeds@.take(i as int));
        let w: u32 = seeds[i];
        if row.len() < k && (w as usize) < n && w != own && !holds_id(&row, w) {
            row.push(w);
        }
        i = i + 1;
    }
    assert(seeds@.take(ns as int) =~= seeds@);
    let ghost a = row@;
    let ghost full = drawn_row(a, own, nn, kk, own as u64 ^ SPREAD, DRAWS as nat);
    let mut state: u64 = own as u64 ^ SPREAD;
    let mut left: u64 = DRAWS;
    while row.len() < k && left > 0
        invariant
            nn == n,
            kk == k,
            k < n <= u32::MAX,
            drawn_row(row@, own, nn, kk, state, left as nat) == full,
        decreases left,
    {
        state = draw(state);
        let w: u32 = (state % (n as u64)) as u32;
        if w != own && !holds_id(&row, w) {
            row.push(w);
        }
        left = left - 1;
    }
    assert(row@ == full);
    proof {
        lemma_completed_full(full, own, nn, kk);
    }
    let mut w: usize = if row.len() < k { 0 } else { n };
    while w < n
        invariant
            w <= n,
            kk == k,
            n <= u32::MAX,
            row@ == completed(full, own, w as nat, kk),
        decreases n - w,
    {
        let x: u32 = w as u32;
        if row.len() < k && x != own && !holds_id(&row, x) {
            row.push(x);
        }
        w = w + 1;
    }
    proof {
        law_start_row_is_proper(seeds@, own, nn, kk);
    }
    row
}

// ---------------------------------------------------------------- rows of edges

/// A row with an edge put behind the last one that is at least as near.
pub open spec fn set_in(row: Seq<Edge>, e: Edge) -> Seq<Edge>
    decreases row.len(),
{
    if row.len() == 0 || row.last().sim >= e.sim {
        row.push(e)
    } else {
        set_in(row.drop_last(), e).push(row.last())
    }
}

/// Some edges from the nearest to the farthest, equally near ones in the order they came in.
pub open spec fn ranked(edges: Seq<Edge>) -> Seq<Edge>
    decreases edges.len(),
{
    if edges.len() == 0 {
        edges
    } else {
        set_in(ranked(edges.drop_last()), edges.last())
    }
}

/// A full row after an edge was offered to it: a nearer edge than the last takes its place and drives
/// the last one out.
pub open spec fn offered(row: Seq<Edge>, e: Edge) -> Seq<Edge> {
    if row.len() == 0 || e.sim <= row.last().sim {
        row
    } else {
        set_in(row.drop_last(), e)
    }
}

/// A full row after all these edges were offered to it.
pub open spec fn improved(row: Seq<Edge>, edges: Seq<Edge>) -> Seq<Edge>
    decreases edges.len(),
{
    if edges.len() == 0 {
        row
    } else {
        offered(improved(row, edges.drop_last()), edges.last())
    }
}

/// How many of the edges entered the row.
pub open spec fn entered(row: Seq<Edge>, edges: Seq<Edge>) -> nat
    decreases edges.len(),
{
    if edges.len() == 0 {
        0
    } else {
        let before = improved(row, edges.drop_last());
        entered(row, edges.drop_last()) + if before.len() == 0 || edges.last().sim <= before.last().sim {
            0nat
        } else {
            1nat
        }
    }
}

/// The row one round later: every edge a little less new.
pub open spec fn aged(row: Seq<Edge>) -> Seq<Edge> {
    Seq::new(
        row.len(),
        |j: int| Edge { sim: row[j].sim, id: row[j].id, fresh: if row[j].fresh > 0 { (row[j].fresh - 1) as u8 } else { 0 } },
    )
}

/// From the nearest to the farthest.
pub open spec fn falling(row: Seq<Edge>) -> bool {
    forall|i: int, j: int| 0 <= i <= j < row.len() ==> (#[trigger] row[i]).sim >= (#[trigger] row[j]).sim
}

/// The neighbours of a row.
pub open spec fn ids_in(row: Seq<Edge>) -> Seq<u32> {
    Seq::new(row.len(), |j: int| row[j].id)
}

/// The place that an edge takes in a row.
pub open spec fn place_of(row: Seq<Edge>, e: Edge) -> nat
    decreases row.len(),
{
    if row.len() == 0 || row.last().sim >= e.sim {
        row.len()
    } else {
        place_of(row.drop_last(), e)
    }
}

pub proof fn lemma_set_in(row: Seq<Edge>, e: Edge)
    ensures
        place_of(row, e) <= row.len(),
        set_in(row, e) == row.insert(place_of(row, e) as int, e),
        place_of(row, e) > 0 ==> row[place_of(row, e) - 1].sim >= e.sim,
        forall|j: int| place_of(row, e) <= j < row.len() ==> (#[trigger] row[j]).sim < e.sim,
    decreases row.len(),
{
    if row.len() > 0 && row.last().sim < e.sim {
        let head = row.drop_last();
        lemma_set_in(head, e);
        let p = place_of(head, e);
        assert(set_in(row, e) =~= row.insert(p as int, e));
        assert forall|j: int| p <= j < row.len() implies (#[trigger] row[j]).sim < e.sim by {
            if j < head.len() {
                assert(head[j] == row[j]);
            }
        }
        if p > 0 {
            assert(head[p - 1] == row[p - 1]);
        }
    } else {
        assert(set_in(row, e) =~= row.insert(row.len() as int, e));
    }
}

pub proof fn lemma_set_in_falls(row: Seq<Edge>, e: Edge)
    requires
        falling(row),
    ensures
        falling(set_in(row, e)),
        set_in(row, e).len() == row.len() + 1,
{
    lemma_set_in(row, e);
    let p = place_of(row, e) as int;
    let r = set_in(row, e);
    assert forall|i: int, j: int| 0 <= i <= j < r.len() implies (#[trigger] r[i]).sim >= (#[trigger] r[j]).sim by {
        let x = if i < p { i } else { i - 1 };
        let y = if j < p { j } else { j - 1 };
        if i == p {
            if j > p {
                assert(row[y].sim < e.sim);
            }
        } else if j == p {
            assert(row[i].sim >= row[p - 1].sim);
        } else {
            assert(row[x].sim >= row[y].sim);
        }
    }
}

/// A row with an edge put in its place.
fn insert_edge(row: &mut Vec<Edge>, e: Edge)
    ensures
        final(row)@ == set_in(old(row)@, e),
{
    let ghost start = row@;
    let mut p: usize = row.len();
    assert(start.take(p as int) =~= start);
    while p > 0 && row[p - 1].sim < e.sim
        invariant
            p <= row@.len(),
            row@ == start,
            place_of(start, e) == place_of(start.take(p as int), e),
        decreases p,
    {
        assert(start.take(p as int).drop_last() =~= start.take(p - 1));
        assert(start.take(p as int).last() == start[p - 1]);
        p = p - 1;
    }
    proof {
        if p > 0 {
            assert(start.take(p as int).last() == start[p - 1]);
        }
        assert(place_of(start.take(p as int), e) == p);
        lemma_set_in(start, e);
    }
    row.insert(p, e);
}

/// Offer an edge to a full row; true where it entered.
pub(crate) fn offer_edge(row: &mut Vec<Edge>, e: Edge) -> (took: bool)
    ensures
        final(row)@ == offered(old(row)@, e),
        took == (old(row)@.len() > 0 && e.sim > old(row)@.last().sim),
{
    let n: usize = row.len();
    if n == 0 || e.sim <= row[n - 1].sim {
        return false;
    }
    let ghost start = row@;
    row.pop();
    assert(row@ =~= start.drop_last());
    insert_edge(row, e);
    true
}

/// The ranked edges of a point to the given neighbours.
pub open spec fn scored(data: I8Bin<'_>, l2: bool, v: int, ids: Seq<u32>, fresh: u8) -> Seq<Edge> {
    Seq::new(ids.len(), |j: int| Edge { sim: sim(l2, data.spec_row(v), data.spec_row(ids[j] as int)) as i32, id: ids[j], fresh })
}

/// The edge of a point to a neighbour.
pub(crate) fn edge_to(ds: &I8Bin<'_>, l2: bool, v: usize, id: u32, fresh: u8) -> (e: Edge)
    requires
        ds.wf(),
        ds.d <= dim_limit(l2),
        v < ds.nb,
        id < ds.nb,
    ensures
        e.sim == sim(l2, ds.spec_row(v as int), ds.spec_row(id as int)),
        e.id == id,
        e.fresh == fresh,
{
    let s: i32 = similarity(l2, ds.row(v), ds.row(id as usize));
    Edge { sim: s, id, fresh }
}

/// The edges of a point to the given neighbours, from the nearest to the farthest.
pub fn rank_row(ds: &I8Bin<'_>, l2: bool, v: usize, ids: &Vec<u32>, fresh: u8) -> (row: Vec<Edge>)
    requires
        ds.wf(),
        ds.d <= dim_limit(l2),
        v < ds.nb,
        forall|j: int| 0 <= j < ids@.len() ==> #[trigger] ids@[j] < ds.nb,
    ensures
        row@ == ranked(scored(*ds, l2, v as int, ids@, fresh)),
{
    let n: usize = ids.len();
    let ghost all = scored(*ds, l2, v as int, ids@, fresh);
    let mut row: Vec<Edge> = Vec::new();
    let mut j: usize = 0;
    assert(all.take(0) =~= Seq::<Edge>::empty());
    while j < n
        invariant
            j <= n,
            n == ids@.len(),
            ds.wf(),
            ds.d <= dim_limit(l2),
            v < ds.nb,
            forall|i: int| 0 <= i < ids@.len() ==> #[trigger] ids@[i] < ds.nb,
            all == scored(*ds, l2, v as int, ids@, fresh),
            row@ == ranked(all.take(j as int)),
        decreases n - j,
    {
        assert(all.take(j + 1).drop_last() =~= all.take(j as int));
        let e: Edge = edge_to(ds, l2, v, ids[j], fresh);
        assert(e == all[j as int]);
        assert(all.take(j + 1).last() == e);
        insert_edge(&mut row, e);
        j = j + 1;
    }
    assert(all.take(n as int) =~= all);
    row
}

// ---------------------------------------------------------------- edges the other way

/// What marks the name of a new edge's point in the reversed lists.
pub const NEW_MARK: u32 = 0x8000_0000;

/// The reversed edges: for every point the sampled points that have it as a neighbour, and how many
/// have it in all.
pub struct Reversed {
    pub lists: Vec<Vec<u32>>,
    pub counts: Vec<u64>,
}

/// The reversed edges as sequences.
pub ghost struct Backward {
    pub lists: Seq<Seq<u32>>,
    pub counts: Seq<nat>,
}

impl Reversed {
    /// The sequences of the lists.
    pub open spec fn model(&self) -> Backward {
        Backward {
            lists: Seq::new(self.lists@.len(), |i: int| self.lists@[i]@),
            counts: Seq::new(self.counts@.len(), |i: int| self.counts@[i] as nat),
        }
    }
}

/// The rows of a graph as sequences.
pub open spec fn rows_of(rows: Seq<Vec<Edge>>) -> Seq<Seq<Edge>> {
    Seq::new(rows.len(), |i: int| rows[i]@)
}

/// The name under which an edge of point `v` stands in a reversed list.
pub open spec fn tag(v: int, e: Edge) -> u32 {
    if e.fresh > 0 {
        (v + NEW_MARK) as u32
    } else {
        v as u32
    }
}

/// The place that a reversed edge draws once the list of its point is full.
pub open spec fn drawn_place(salt: u64, v: int, u: int, count: nat) -> int {
    drawn(salt ^ ((v as u64) << 32u64) ^ (u as u64)) as int % (count as int + 1)
}

/// One reversed edge more: the first `cap` of a point are kept; each later one takes a drawn place
/// among all that there were, and is dropped where that lies beyond the list.
pub open spec fn reverse_edge(b: Backward, v: int, e: Edge, cap: nat, salt: u64) -> Backward {
    let u = e.id as int;
    let c = b.counts[u];
    let list = b.lists[u];
    let place = drawn_place(salt, v, u, c);
    let next = if c < cap {
        list.push(tag(v, e))
    } else if place < cap {
        list.update(place, tag(v, e))
    } else {
        list
    };
    Backward { lists: b.lists.update(u, next), counts: b.counts.update(u, c + 1) }
}

/// The reversed edges of the first `j` edges of a row.
pub open spec fn reverse_row(b: Backward, v: int, row: Seq<Edge>, j: nat, cap: nat, salt: u64) -> Backward
    decreases j,
{
    if j == 0 {
        b
    } else {
        reverse_edge(reverse_row(b, v, row, (j - 1) as nat, cap, salt), v, row[j - 1], cap, salt)
    }
}

/// The reversed edges of the first `v` rows.
pub open spec fn reverse_rows(rows: Seq<Seq<Edge>>, v: nat, cap: nat, salt: u64) -> Backward
    decreases v,
{
    if v == 0 {
        Backward { lists: Seq::new(rows.len(), |i: int| Seq::<u32>::empty()), counts: Seq::new(rows.len(), |i: int| 0nat) }
    } else {
        reverse_row(reverse_rows(rows, (v - 1) as nat, cap, salt), v - 1, rows[v - 1], rows[v - 1].len(), cap, salt)
    }
}

/// The salt of a round, from which the places of its reversed edges are drawn.
pub open spec fn round_salt(round: u64) -> u64 {
    drawn(0xd1b5_4a32u64 ^ round.wrapping_mul(SPREAD))
}

/// The point that a name in a reversed list stands for.
pub open spec fn untag(t: u32) -> u32 {
    t % NEW_MARK
}

/// Every list is within the cap and names points that exist.
pub open spec fn lists_ok(b: Backward, n: nat, cap: nat) -> bool {
    &&& b.lists.len() == n
    &&& b.counts.len() == n
    &&& forall|u: int| 0 <= u < n ==> (#[trigger] b.lists[u]).len() == (if b.counts[u] < cap { b.counts[u] } else { cap })
    &&& forall|u: int, t: int| 0 <= u < n && 0 <= t < b.lists[u].len() ==> untag(#[trigger] b.lists[u][t]) < n
}

/// Every name in a list is that of an edge from its point among the first `v` rows and `j` edges of
/// the next.
pub open spec fn from_edges(b: Backward, rows: Seq<Seq<Edge>>, v: int, j: int) -> bool {
    forall|u: int, t: int| 0 <= u < b.lists.len() && 0 <= t < b.lists[u].len() ==> names_edge(rows, v, j, u, #[trigger] b.lists[u][t])
}

/// The name is that of an edge to `u` among the first `v` rows and `j` edges of the next.
pub open spec fn names_edge(rows: Seq<Seq<Edge>>, v: int, j: int, u: int, name: u32) -> bool {
    exists|x: int, y: int| #[trigger] edge_at(rows, x, y) && (x < v || (x == v && y < j)) && rows[x][y].id == u && tag(x, rows[x][y]) == name
}

/// There is an edge at this place.
pub open spec fn edge_at(rows: Seq<Seq<Edge>>, x: int, y: int) -> bool {
    0 <= x < rows.len() && 0 <= y < rows[x].len()
}

proof fn lemma_reverse_edge(b: Backward, rows: Seq<Seq<Edge>>, v: int, j: int, cap: nat, salt: u64)
    requires
        edge_at(rows, v, j),
        rows.len() < NEW_MARK,
        rows[v][j].id < rows.len(),
        lists_ok(b, rows.len(), cap),
        from_edges(b, rows, v, j),
    ensures
        lists_ok(reverse_edge(b, v, rows[v][j], cap, salt), rows.len(), cap),
        from_edges(reverse_edge(b, v, rows[v][j], cap, salt), rows, v, j + 1),
{
    let e = rows[v][j];
    let u = e.id as int;
    let a = reverse_edge(b, v, e, cap, salt);
    assert(untag(tag(v, e)) == v);
    assert forall|x: int| 0 <= x < rows.len() implies (#[trigger] a.lists[x]).len() == (if a.counts[x] < cap { a.counts[x] } else { cap }) by {
        assert(b.lists[x].len() == (if b.counts[x] < cap { b.counts[x] } else { cap }));
    }
    assert forall|x: int, t: int| 0 <= x < rows.len() && 0 <= t < a.lists[x].len() implies untag(#[trigger] a.lists[x][t]) < rows.len() by {
        if a.lists[x][t] != tag(v, e) {
            assert(a.lists[x][t] == b.lists[x][t]);
        }
    }
    assert forall|x: int, t: int| 0 <= x < a.lists.len() && 0 <= t < a.lists[x].len() implies names_edge(rows, v, j + 1, x, #[trigger] a.lists[x][t]) by {
        if x == u && a.lists[x][t] == tag(v, e) {
            assert(edge_at(rows, v, j));
        } else {
            assert(a.lists[x][t] == b.lists[x][t]);
            assert(names_edge(rows, v, j, x, b.lists[x][t]));
            let (p, q) = choose|p: int, q: int| #[trigger] edge_at(rows, p, q) && (p < v || (p == v && q < j)) && rows[p][q].id == x && tag(p, rows[p][q]) == b.lists[x][t];
            assert(edge_at(rows, p, q));
        }
    }
}

proof fn lemma_reverse_row(b: Backward, rows: Seq<Seq<Edge>>, v: int, j: nat, cap: nat, salt: u64)
    requires
        0 <= v < rows.len(),
        rows.len() < NEW_MARK,
        j <= rows[v].len(),
        forall|t: int| 0 <= t < rows[v].len() ==> (#[trigger] rows[v][t]).id < rows.len(),
        lists_ok(b, rows.len(), cap),
        from_edges(b, rows, v, 0),
    ensures
        lists_ok(reverse_row(b, v, rows[v], j, cap, salt), rows.len(), cap),
        from_edges(reverse_row(b, v, rows[v], j, cap, salt), rows, v, j as int),
    decreases j,
{
    if j > 0 {
        lemma_reverse_row(b, rows, v, (j - 1) as nat, cap, salt);
        lemma_reverse_edge(reverse_row(b, v, rows[v], (j - 1) as nat, cap, salt), rows, v, j - 1, cap, salt);
    }
}

/// All neighbours exist.
pub open spec fn ids_ok(rows: Seq<Seq<Edge>>) -> bool {
    forall|x: int, y: int| edge_at(rows, x, y) ==> (#[trigger] rows[x][y]).id < rows.len()
}

pub proof fn lemma_reverse_rows(rows: Seq<Seq<Edge>>, v: nat, cap: nat, salt: u64)
    requires
        v <= rows.len(),
        rows.len() < NEW_MARK,
        ids_ok(rows),
    ensures
        lists_ok(reverse_rows(rows, v, cap, salt), rows.len(), cap),
        from_edges(reverse_rows(rows, v, cap, salt), rows, v as int, 0),
    decreases v,
{
    if v > 0 {
        let w = (v - 1) as nat;
        lemma_reverse_rows(rows, w, cap, salt);
        let b = reverse_rows(rows, w, cap, salt);
        assert forall|t: int| 0 <= t < rows[w as int].len() implies (#[trigger] rows[w as int][t]).id < rows.len() by {
            assert(edge_at(rows, w as int, t));
        }
        lemma_reverse_row(b, rows, w as int, rows[w as int].len(), cap, salt);
        let a = reverse_rows(rows, v, cap, salt);
        assert forall|u: int, t: int| 0 <= u < a.lists.len() && 0 <= t < a.lists[u].len() implies names_edge(rows, v as int, 0, u, #[trigger] a.lists[u][t]) by {
            assert(names_edge(rows, w as int, rows[w as int].len() as int, u, a.lists[u][t]));
            let (x, y) = choose|x: int, y: int| #[trigger] edge_at(rows, x, y) && (x < w || (x == w && y < rows[w as int].len())) && rows[x][y].id == u && tag(x, rows[x][y]) == a.lists[u][t];
            assert(edge_at(rows, x, y));
        }
    }
}

/// Every name in the reversed list of a point stands for a point that has it as a neighbour, and is
/// marked new where that edge is.
pub proof fn law_reversed_edges_are_edges(rows: Seq<Seq<Edge>>, cap: nat, salt: u64, u: int, t: int)
    requires
        rows.len() < NEW_MARK,
        ids_ok(rows),
        0 <= u < rows.len(),
        0 <= t < reverse_rows(rows, rows.len(), cap, salt).lists[u].len(),
    ensures
        ({
            let name = reverse_rows(rows, rows.len(), cap, salt).lists[u][t];
            exists|x: int, y: int| #[trigger] edge_at(rows, x, y) && rows[x][y].id == u && untag(name) == x && ((name >= NEW_MARK) == (rows[x][y].fresh > 0))
        }),
{
    lemma_reverse_rows(rows, rows.len(), cap, salt);
    let b = reverse_rows(rows, rows.len(), cap, salt);
    assert(names_edge(rows, rows.len() as int, 0, u, b.lists[u][t]));
    let (x, y) = choose|x: int, y: int| #[trigger] edge_at(rows, x, y) && (x < rows.len() || (x == rows.len() && y < 0)) && rows[x][y].id == u && tag(x, rows[x][y]) == b.lists[u][t];
    assert(edge_at(rows, x, y));
}

/// Reverse the edges of a graph, at most `cap` to a point.
pub fn reverse(rows: &Vec<Vec<Edge>>, cap: usize, salt: u64) -> (r: Reversed)
    requires
        rows@.len() < NEW_MARK,
        ids_ok(rows_of(rows@)),
        forall|v: int| 0 <= v < rows@.len() ==> (#[trigger] rows@[v])@.len() <= 128,
    ensures
        r.model() == reverse_rows(rows_of(rows@), rows@.len(), cap as nat, salt),
{
    let n: usize = rows.len();
    let ghost all = rows_of(rows@);
    let mut lists: Vec<Vec<u32>> = Vec::new();
    let mut counts: Vec<u64> = Vec::new();
    let mut i: usize = 0;
    while i < n
        invariant
            i <= n,
            lists@.len() == i,
            counts@.len() == i,
            forall|u: int| 0 <= u < i ==> (#[trigger] lists@[u])@.len() == 0,
            forall|u: int| 0 <= u < i ==> #[trigger] counts@[u] == 0,
        decreases n - i,
    {
        lists.push(Vec::new());
        counts.push(0);
        i = i + 1;
    }
    let mut r: Reversed = Reversed { lists, counts };
    proof {
        let none = reverse_rows(all, 0, cap as nat, salt);
        assert forall|u: int| 0 <= u < n implies r.model().lists[u] == none.lists[u] by {
            assert(r.lists@[u]@.len() == 0);
            assert(r.model().lists[u] =~= none.lists[u]);
        }
        assert(r.model().lists =~= none.lists);
        assert forall|u: int| 0 <= u < n implies r.model().counts[u] == none.counts[u] by {
            assert(r.counts@[u] == 0);
        }
        assert(r.model().counts =~= none.counts);
    }
    let mut v: usize = 0;
    while v < n
        invariant
            v <= n,
            n == rows@.len(),
            n < NEW_MARK,
            all == rows_of(rows@),
            ids_ok(all),
            forall|x: int| 0 <= x < rows@.len() ==> (#[trigger] rows@[x])@.len() <= 128,
            r.model() == reverse_rows(all, v as nat, cap as nat, salt),
            forall|u: int| 0 <= u < n ==> #[trigger] r.counts@[u] <= 128 * v,
            r.counts@.len() == n,
        decreases n - v,
    {
        proof {
            lemma_reverse_rows(all, v as nat, cap as nat, salt);
        }
        let ghost before = r.model();
        let k: usize = rows[v].len();
        let ghost row = all[v as int];
        let mut j: usize = 0;
        while j < k
            invariant
                j <= k,
                k == row.len(),
                k <= 128,
                v < n,
                n == rows@.len(),
                n < NEW_MARK,
                    all == rows_of(rows@),
                row == all[v as int],
                ids_ok(all),
                before == reverse_rows(all, v as nat, cap as nat, salt),
                r.model() == reverse_row(before, v as int, row, j as nat, cap as nat, salt),
                lists_ok(before, n as nat, cap as nat),
                from_edges(before, all, v as int, 0),
                forall|u: int| 0 <= u < n ==> #[trigger] r.counts@[u] <= 128 * v + j,
                r.counts@.len() == n,
            decreases k - j,
        {
            proof {
                assert forall|t: int| 0 <= t < all[v as int].len() implies (#[trigger] all[v as int][t]).id < all.len() by {
                    assert(edge_at(all, v as int, t));
                }
                lemma_reverse_row(before, all, v as int, j as nat, cap as nat, salt);
            }
            let ghost now = r.model();
            let e: Edge = rows[v][j];
            assert(e == row[j as int]);
            assert(edge_at(all, v as int, j as int));
            let u: usize = e.id as usize;
            let c: u64 = r.counts[u];
            assert(now.counts[u as int] == c);
            assert(now.lists[u as int].len() == r.lists@[u as int]@.len());
            let name: u32 = if e.fresh > 0 { v as u32 + NEW_MARK } else { v as u32 };
            let ghost want = reverse_edge(now, v as int, e, cap as nat, salt);
            if c < cap as u64 {
                r.lists[u].push(name);
                assert(r.lists@[u as int]@ =~= now.lists[u as int].push(name));
            } else {
                let place: u64 = draw(salt ^ ((v as u64) << 32u64) ^ (u as u64)) % (c + 1);
                if place < cap as u64 {
                    r.lists[u].set(place as usize, name);
                    assert(r.lists@[u as int]@ =~= now.lists[u as int].update(place as int, name));
                }
            }
            r.counts.set(u, c + 1);
            proof {
                assert forall|x: int| 0 <= x < n implies r.model().lists[x] == want.lists[x] by {
                    if x != u {
                        assert(r.model().lists[x] == now.lists[x]);
                    }
                }
                assert(r.model().lists =~= want.lists);
                assert(r.model().counts =~= want.counts);
            }
            j = j + 1;
        }
        v = v + 1;
    }
    r
}

} // verus!
