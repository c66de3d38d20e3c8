//! What holds of every route: no cell is probed twice, and a descent that prunes nothing probes the
//! nearest cells of all.

use crate::hier::{beam_cut, children, lemma_frontier_below, range_ids, HierRouter};
use crate::order::{ascending, lemma_ascending, lemma_smallest_all, smallest, Ranked};
use crate::router::{ids_of, FlatIvf, Router};
use vstd::prelude::*;

verus! {

/// Sorting and cutting a list of distinct ids leaves them distinct.
pub proof fn lemma_cut_distinct(s: Seq<(i32, u32)>, t: nat)
    requires
        ids_of(s).no_duplicates(),
    ensures
        ids_of(ascending(s)).no_duplicates(),
        ids_of(smallest(s, t)).no_duplicates(),
{
    broadcast use vstd::seq_lib::group_to_multiset_ensures;

    lemma_ascending(s);
    let a = ascending(s);
    assert(s.no_duplicates()) by {
        assert forall|i: int, j: int| 0 <= i < s.len() && 0 <= j < s.len() && i != j implies s[i] != s[j] by {
            assert(ids_of(s)[i] != ids_of(s)[j]);
        }
    }
    s.lemma_multiset_has_no_duplicates();
    a.lemma_multiset_has_no_duplicates_conv();
    assert forall|i: int, j: int| 0 <= i < a.len() && 0 <= j < a.len() && i != j implies ids_of(a)[i] != ids_of(a)[j] by {
        assert(a.contains(a[i]) && a.contains(a[j]));
        assert(s.to_multiset().contains(a[i]) && s.to_multiset().contains(a[j]));
        assert(s.contains(a[i]) && s.contains(a[j]));
        let x = choose|x: int| 0 <= x < s.len() && s[x] == a[i];
        let y = choose|y: int| 0 <= y < s.len() && s[y] == a[j];
        assert(a[i] != a[j]);
        assert(x != y);
        assert(ids_of(s)[x] != ids_of(s)[y]);
    }
    let c = smallest(s, t);
    assert forall|i: int, j: int| 0 <= i < c.len() && 0 <= j < c.len() && i != j implies ids_of(c)[i] != ids_of(c)[j] by {
        assert(ids_of(a)[i] != ids_of(a)[j]);
    }
}

/// Flat routing probes no cell twice.
pub proof fn law_flat_probes_are_distinct(f: FlatIvf, q: Seq<i8>, qn: Seq<i8>, p: nat)
    requires
        f.wf(),
    ensures
        f.probed(q, qn, p).no_duplicates(),
{
    let s = f.scores(qn);
    assert(ids_of(s).no_duplicates()) by {
        assert forall|i: int, j: int| 0 <= i < s.len() && 0 <= j < s.len() && i != j implies ids_of(s)[i] != ids_of(s)[j] by {
        }
    }
    lemma_cut_distinct(s, p);
}

/// The children of distinct cells are distinct.
pub proof fn lemma_children_distinct(r: HierRouter, l: int, sel: Seq<u32>, n: nat)
    requires
        r.wf(),
        0 <= l < r.levels - 1,
        n <= sel.len(),
        sel.no_duplicates(),
        forall|i: int| 0 <= i < sel.len() ==> #[trigger] sel[i] < r.count(l),
    ensures
        children(r.child@[l]@, sel, n).no_duplicates(),
        forall|i: int|
            0 <= i < children(r.child@[l]@, sel, n).len() ==> exists|p: int| 0 <= p < n && r.child@[l]@[sel[p] as int] <= #[trigger] children(r.child@[l]@, sel, n)[i] < r.child@[l]@[#[trigger] sel[p] + 1],
    decreases n,
{
    let child = r.child@[l]@;
    let all = children(child, sel, n);
    assert(r.tree_ok(l));
    assert(r.level_ok(l + 1));
    if n > 0 {
        lemma_children_distinct(r, l, sel, (n - 1) as nat);
        let a = children(child, sel, (n - 1) as nat);
        let last = sel[n - 1] as int;
        assert(last < r.count(l));
        assert(child[last] <= child[last + 1] <= r.count(l + 1));
        let b = range_ids(child[last] as int, child[last + 1] as int);
        assert forall|i: int| 0 <= i < all.len() implies exists|p: int| 0 <= p < n && child[sel[p] as int] <= #[trigger] all[i] < child[#[trigger] sel[p] + 1] by {
            if i < a.len() {
                assert(all[i] == a[i]);
                let p = choose|p: int| 0 <= p < n - 1 && child[sel[p] as int] <= a[i] < child[#[trigger] sel[p] + 1];
                assert(child[sel[p] as int] <= all[i] < child[sel[p] + 1]);
            } else {
                assert(all[i] == b[i - a.len()]);
                assert(child[sel[n - 1] as int] <= all[i] < child[sel[n - 1] + 1]);
            }
        }
        assert forall|i: int, j: int| 0 <= i < all.len() && 0 <= j < all.len() && i != j implies all[i] != all[j] by {
            if i < a.len() && j < a.len() {
                assert(a[i] != a[j]);
            } else if i >= a.len() && j >= a.len() {
                assert(b[i - a.len()] != b[j - a.len()]);
            } else {
                let x = if i < a.len() {
                    i
                } else {
                    j
                };
                let y = if i < a.len() {
                    j
                } else {
                    i
                };
                assert(all[x] == a[x]);
                assert(all[y] == b[y - a.len()]);
                let p = choose|p: int| 0 <= p < n - 1 && child[sel[p] as int] <= a[x] < child[#[trigger] sel[p] + 1];
                assert(sel[p] != sel[n - 1]);
                assert(sel[p] < r.count(l));
                if sel[p] < last {
                    assert(child[sel[p] + 1] <= child[last]);
                } else {
                    assert(child[last + 1] <= child[sel[p] as int]);
                }
            }
        }
    }
}

proof fn lemma_beam_distinct(s: Seq<(i32, u32)>, b: nat)
    requires
        ids_of(s).no_duplicates(),
    ensures
        ids_of(beam_cut(s, b)).no_duplicates(),
{
    lemma_cut_distinct(s, b);
}

pub proof fn lemma_frontier_distinct(r: HierRouter, qn: Seq<i8>, coarse: Option<Seq<u32>>, lut: Option<Seq<i8>>, l: nat)
    requires
        r.wf(),
        r.inputs_ok(qn, coarse, lut),
        coarse matches Some(c) ==> c.no_duplicates(),
        l < r.levels - 1,
    ensures
        r.frontier(qn, coarse, lut, l).no_duplicates(),
    decreases l,
{
    if l == 0 {
        assert(r.level_ok(0));
        let s = r.coarse_scores(qn);
        assert forall|i: int, j: int| 0 <= i < s.len() && 0 <= j < s.len() && i != j implies ids_of(s)[i] != ids_of(s)[j] by {
        }
        lemma_beam_distinct(s, if r.knobs.beam0 > 0 { r.knobs.beam0 as nat } else { r.beam@[0] as nat });
    } else {
        let k = (l - 1) as nat;
        lemma_frontier_distinct(r, qn, coarse, lut, k);
        lemma_frontier_below(r, qn, coarse, lut, k);
        let up = r.frontier(qn, coarse, lut, k);
        lemma_children_distinct(r, k as int, up, up.len());
        let ids = children(r.child@[k as int]@, up, up.len());
        let s = r.scored_level(qn, lut, l as int, ids);
        assert(ids_of(s) =~= ids);
        lemma_beam_distinct(s, r.beam@[l as int] as nat);
    }
}

/// The descent reaches no cell twice, so no cell is probed twice.
pub proof fn law_descent_probes_are_distinct(r: HierRouter, qn: Seq<i8>, coarse: Option<Seq<u32>>, lut: Option<Seq<i8>>, k: nat)
    requires
        r.wf(),
        r.inputs_ok(qn, coarse, lut),
        coarse matches Some(c) ==> c.no_duplicates(),
    ensures
        ids_of(r.gathered(qn, coarse, lut)).no_duplicates(),
        r.routed(qn, coarse, lut, k).no_duplicates(),
{
    let l = (r.levels - 2) as nat;
    lemma_frontier_distinct(r, qn, coarse, lut, l);
    lemma_frontier_below(r, qn, coarse, lut, l);
    let up = r.frontier(qn, coarse, lut, l);
    lemma_children_distinct(r, l as int, up, up.len());
    let ids = children(r.child@[l as int]@, up, up.len());
    let nd = r.scored_level(qn, lut, r.levels - 1, ids);
    assert(ids_of(nd) =~= ids);
    let g = r.gathered(qn, coarse, lut);
    if lut is Some && r.knobs.adc_keep > 0 {
        lemma_cut_distinct(nd, r.knobs.adc_keep as nat);
        assert(ids_of(g) =~= ids_of(smallest(nd, r.knobs.adc_keep as nat)));
    }
    lemma_cut_distinct(g, k);
}

// ---------------------------------------------------------------- descents that prune nothing

/// Every cell of a level but the coarsest has a parent: the children of all cells are all cells of
/// the next level.
pub open spec fn tree_covers(r: HierRouter, l: int) -> bool {
    let child = r.child@[l]@;
    child[0] == 0 && child[r.count(l) as int] == r.count(l + 1)
}

/// No level is cut.
pub open spec fn prunes_nothing(r: HierRouter) -> bool {
    &&& forall|l: int| 0 <= l < r.levels - 1 ==> #[trigger] tree_covers(r, l)
    &&& r.knobs.beam0 == 0 || r.knobs.beam0 >= r.count(0)
    &&& r.knobs.beam0 > 0 || r.beam@[0] == 0 || r.beam@[0] >= r.count(0)
    &&& forall|l: int| 1 <= l < r.levels - 1 ==> #[trigger] r.beam@[l] == 0 || r.beam@[l] >= r.count(l)
}

/// Each of the ids `0 .. n` is in the list.
pub open spec fn has_all(s: Seq<u32>, n: nat) -> bool {
    forall|c: u32| c < n ==> #[trigger] s.contains(c)
}

/// A wide cut keeps every id.
proof fn lemma_wide_cut(s: Seq<(i32, u32)>, b: nat, n: nat)
    requires
        has_all(ids_of(s), n),
        b == 0 || b >= s.len(),
    ensures
        has_all(ids_of(beam_cut(s, b)), n),
{
    broadcast use vstd::seq_lib::group_to_multiset_ensures;

    lemma_ascending(s);
    if b > 0 {
        lemma_smallest_all(s, b);
    }
    let a = ascending(s);
    assert(beam_cut(s, b) == a);
    assert forall|c: u32| c < n implies #[trigger] ids_of(a).contains(c) by {
        assert(ids_of(s).contains(c));
        let x = choose|x: int| 0 <= x < s.len() && ids_of(s)[x] == c;
        assert(s.contains(s[x]));
        assert(s.to_multiset().contains(s[x]));
        assert(a.to_multiset().contains(s[x]));
        assert(a.contains(s[x]));
        let y = choose|y: int| 0 <= y < a.len() && a[y] == s[x];
        assert(ids_of(a)[y] == c);
    }
}

/// The parent of a cell.
spec fn parent_of(child: Seq<u32>, n: nat, c: int) -> int
    decreases n,
{
    if n == 0 {
        0
    } else if child[n - 1] <= c {
        n - 1
    } else {
        parent_of(child, (n - 1) as nat, c)
    }
}

proof fn lemma_parent(child: Seq<u32>, n: nat, c: int)
    requires
        child.len() > n,
        child[0] <= c < child[n as int],
    ensures
        0 <= parent_of(child, n, c) < n,
        child[parent_of(child, n, c)] <= c < child[parent_of(child, n, c) + 1],
    decreases n,
{
    if n > 0 && child[n - 1] > c {
        lemma_parent(child, (n - 1) as nat, c);
    }
}

pub proof fn lemma_children_hold(child: Seq<u32>, sel: Seq<u32>, n: nat, p: int, c: u32)
    requires
        0 <= p < n <= sel.len(),
        child[sel[p] as int] <= c < child[sel[p] + 1],
    ensures
        children(child, sel, n).contains(c),
    decreases n,
{
    let a = children(child, sel, (n - 1) as nat);
    let b = range_ids(child[sel[n - 1] as int] as int, child[sel[n - 1] + 1] as int);
    let all = children(child, sel, n);
    if p == n - 1 {
        let i = c - child[sel[p] as int];
        assert(b[i] == c);
        assert(all[a.len() + i] == c);
    } else {
        lemma_children_hold(child, sel, (n - 1) as nat, p, c);
        let i = choose|i: int| 0 <= i < a.len() && a[i] == c;
        assert(all[i] == c);
    }
}

/// Expanding all cells of a level reaches all cells of the next.
proof fn lemma_expand_all(r: HierRouter, l: int, sel: Seq<u32>)
    requires
        r.wf(),
        0 <= l < r.levels - 1,
        tree_covers(r, l),
        has_all(sel, r.count(l)),
    ensures
        has_all(children(r.child@[l]@, sel, sel.len()), r.count(l + 1)),
{
    let child = r.child@[l]@;
    assert(r.tree_ok(l));
    assert(r.level_ok(l));
    assert forall|c: u32| c < r.count(l + 1) implies #[trigger] children(child, sel, sel.len()).contains(c) by {
        let p = parent_of(child, r.count(l), c as int);
        lemma_parent(child, r.count(l), c as int);
        assert(sel.contains(p as u32));
        let x = choose|x: int| 0 <= x < sel.len() && sel[x] == p as u32;
        lemma_children_hold(child, sel, sel.len(), x, c);
    }
}

/// A list of distinct ids below `n` is no longer than `n`.
proof fn lemma_distinct_len(s: Seq<u32>, n: nat)
    requires
        s.no_duplicates(),
        forall|i: int| 0 <= i < s.len() ==> #[trigger] s[i] < n,
    ensures
        s.len() <= n,
{
    let t = s.map(|i: int, x: u32| x as int);
    assert(t.no_duplicates()) by {
        assert forall|i: int, j: int| 0 <= i < t.len() && 0 <= j < t.len() && i != j implies t[i] != t[j] by {
            assert(s[i] != s[j]);
        }
    }
    t.unique_seq_to_set();
    assert(t.to_set().subset_of(vstd::set_lib::set_int_range(0, n as int))) by {
        assert forall|x: int| t.to_set().contains(x) implies vstd::set_lib::set_int_range(0, n as int).contains(x) by {
            let i = choose|i: int| 0 <= i < t.len() && t[i] == x;
            assert(s[i] < n);
        }
    }
    vstd::set_lib::lemma_int_range(0, n as int);
    vstd::set_lib::lemma_len_subset(t.to_set(), vstd::set_lib::set_int_range(0, n as int));
}

proof fn lemma_frontier_all(r: HierRouter, qn: Seq<i8>, lut: Option<Seq<i8>>, l: nat)
    requires
        r.wf(),
        r.inputs_ok(qn, None, lut),
        prunes_nothing(r),
        l < r.levels - 1,
    ensures
        has_all(r.frontier(qn, None, lut, l), r.count(l as int)),
    decreases l,
{
    if l == 0 {
        assert(r.level_ok(0));
        let s = r.coarse_scores(qn);
        assert forall|c: u32| c < r.count(0) implies #[trigger] ids_of(s).contains(c) by {
            assert(ids_of(s)[c as int] == c);
        }
        lemma_wide_cut(s, if r.knobs.beam0 > 0 { r.knobs.beam0 as nat } else { r.beam@[0] as nat }, r.count(0));
    } else {
        let k = (l - 1) as nat;
        lemma_frontier_all(r, qn, lut, k);
        lemma_frontier_distinct(r, qn, None, lut, k);
        lemma_frontier_below(r, qn, None, lut, k);
        let up = r.frontier(qn, None, lut, k);
        assert(tree_covers(r, k as int));
        lemma_expand_all(r, k as int, up);
        lemma_children_distinct(r, k as int, up, up.len());
        let ids = children(r.child@[k as int]@, up, up.len());
        let s = r.scored_level(qn, lut, l as int, ids);
        assert(ids_of(s) =~= ids);
        assert forall|i: int| 0 <= i < ids.len() implies #[trigger] ids[i] < r.count(l as int) by {
            let child = r.child@[k as int]@;
            assert(r.tree_ok(k as int));
            let p = choose|p: int| 0 <= p < up.len() && child[up[p] as int] <= ids[i] < child[#[trigger] up[p] + 1];
            assert(up[p] < r.count(k as int));
            assert(child[up[p] + 1] <= r.count(l as int));
        }
        lemma_distinct_len(ids, r.count(l as int));
        assert(r.beam@[l as int] == 0 || r.beam@[l as int] >= r.count(l as int));
        lemma_wide_cut(s, r.beam@[l as int] as nat, r.count(l as int));
    }
}

/// A descent that prunes nothing scores every finest cell, so the cells it probes are the nearest of
/// all.
pub proof fn law_full_descent_reaches_every_cell(r: HierRouter, qn: Seq<i8>, c: u32)
    requires
        r.wf(),
        r.inputs_ok(qn, None, None),
        prunes_nothing(r),
        c < r.kf,
    ensures
        r.gathered(qn, None, None).contains((r.level_score(qn, None, r.levels - 1, c as int) as i32, c)),
        ids_of(r.gathered(qn, None, None)).no_duplicates(),
{
    let l = (r.levels - 2) as nat;
    lemma_frontier_all(r, qn, None, l);
    let up = r.frontier(qn, None, None, l);
    assert(tree_covers(r, l as int));
    lemma_expand_all(r, l as int, up);
    let ids = children(r.child@[l as int]@, up, up.len());
    assert(ids.contains(c));
    let i = choose|i: int| 0 <= i < ids.len() && ids[i] == c;
    let g = r.gathered(qn, None, None);
    assert(g[i] == (r.level_score(qn, None, r.levels - 1, c as int) as i32, c));
    law_descent_probes_are_distinct(r, qn, None, None, 0);
}

} // verus!
