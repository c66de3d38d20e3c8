//! Coarse routing: which cells a vector is stored in and which cells a query probes.
//!
//! Routing works on vectors that were mean-centred, normalised and quantised to int8; `qn` is such a
//! vector throughout.
use vstd::prelude::*;
use vstd::slice::slice_subrange;
use crate::order::{smallest, keep_smallest, lemma_smallest};
use crate::simd::{l2_i8, pivot_scores, assign_topk, lemma_row_in_range, L2_DIM};

verus! {

/// A coarse quantiser. `q` is the raw vector, `qn` its normalised form. Where an implementation
/// leaves a spec function out, it is a router without cells.
pub trait Router {
    /// Number of cells.
    open spec fn cells(&self) -> nat {
        0
    }

    /// The router is fit for use.
    open spec fn ready(&self) -> bool {
        true
    }

    /// Vectors that the router takes.
    open spec fn takes(&self, q: Seq<i8>, qn: Seq<i8>) -> bool {
        true
    }

    /// How many cells a point may be stored in.
    open spec fn allows(&self, a0: nat) -> bool {
        true
    }

    /// Cells that a point is stored in.
    open spec fn assigned(&self, q: Seq<i8>, qn: Seq<i8>, a0: nat) -> Seq<u32> {
        Seq::empty()
    }

    /// Cells that a query probes.
    open spec fn probed(&self, q: Seq<i8>, qn: Seq<i8>, p: nat) -> Seq<u32> {
        Seq::empty()
    }

    fn n_cells(&self) -> (r: usize)
        requires
            self.ready(),
        ensures
            r == self.cells(),
    ;

    fn assign(&self, q: &[i8], qn: &[i8], a0: usize, out: &mut Vec<u32>)
        requires
            self.ready(),
            self.takes(q@, qn@),
            self.allows(a0 as nat),
        ensures
            final(out)@ == self.assigned(q@, qn@, a0 as nat),
            forall|i: int| 0 <= i < final(out)@.len() ==> #[trigger] final(out)@[i] < self.cells(),
    ;

    fn probe(&self, q: &[i8], qn: &[i8], p: usize) -> (r: Vec<u32>)
        requires
            self.ready(),
            self.takes(q@, qn@),
            p >= 1,
        ensures
            r@ == self.probed(q@, qn@, p as nat),
            forall|i: int| 0 <= i < r@.len() ==> #[trigger] r@[i] < self.cells(),
    ;
}

/// The ids of a scored list.
pub open spec fn ids_of(s: Seq<(i32, u32)>) -> Seq<u32> {
    Seq::new(s.len(), |i: int| s[i].1)
}

/// The ids of a scored list.
pub fn take_all_ids(v: &Vec<(i32, u32)>) -> (r: Vec<u32>)
    ensures
        r@ == ids_of(v@),
{
    let mut out: Vec<u32> = Vec::with_capacity(v.len());
    let mut i: usize = 0;
    while i < v.len()
        invariant
            i <= v@.len(),
            out@.len() == i,
            forall|j: int| 0 <= j < i ==> #[trigger] out@[j] == v@[j].1,
        decreases v@.len() - i,
    {
        out.push(v[i].1);
        i = i + 1;
    }
    assert(out@ =~= ids_of(v@));
    out
}

// ---------------------------------------------------------------- flat routing

/// One level of `c` pivots.
pub struct FlatIvf {
    pub d: usize,
    pub c: usize,
    pub pivots: Vec<i8>,
}

impl FlatIvf {
    pub open spec fn wf(&self) -> bool {
        &&& 0 < self.d <= L2_DIM
        &&& 0 < self.c <= u32::MAX
        &&& self.pivots@.len() == self.c * self.d
    }

    /// Distance and id of every pivot.
    pub open spec fn scores(&self, qn: Seq<i8>) -> Seq<(i32, u32)> {
        pivot_scores(qn, self.pivots@, self.d as nat, self.c as nat)
    }

    fn score_all(&self, qn: &[i8]) -> (r: Vec<(i32, u32)>)
        requires
            self.wf(),
            qn@.len() == self.d,
        ensures
            r@ == self.scores(qn@),
    {
        let plen: usize = self.pivots.len();
        let mut cd: Vec<(i32, u32)> = Vec::with_capacity(self.c);
        let mut j: usize = 0;
        while j < self.c
            invariant
                j <= self.c,
                plen == self.pivots@.len(),
                self.wf(),
                qn@.len() == self.d,
                cd@.len() == j,
                forall|i: int| 0 <= i < j ==> #[trigger] cd@[i] == self.scores(qn@)[i],
            decreases self.c - j,
        {
            proof {
                lemma_row_in_range(j as int, self.d as int, self.c as int, plen as int);
            }
            let dist: i32 = l2_i8(qn, slice_subrange(self.pivots.as_slice(), j * self.d, j * self.d + self.d));
            cd.push((dist, j as u32));
            j = j + 1;
        }
        assert(cd@ =~= self.scores(qn@));
        cd
    }

    /// The `p` nearest cells, nearest first.
    pub fn probe_ranked(&self, qn: &[i8], p: usize) -> (r: Vec<u32>)
        requires
            self.wf(),
            qn@.len() == self.d,
            p >= 1,
        ensures
            r@ == ids_of(smallest(self.scores(qn@), p as nat)),
            forall|i: int| 0 <= i < r@.len() ==> #[trigger] r@[i] < self.c,
    {
        let mut cd = self.score_all(qn);
        keep_smallest(&mut cd, p);
        proof {
            lemma_flat_ids(*self, qn@, p as nat);
        }
        take_all_ids(&cd)
    }
}

proof fn lemma_flat_ids(f: FlatIvf, qn: Seq<i8>, p: nat)
    requires
        f.wf(),
    ensures
        forall|i: int| 0 <= i < smallest(f.scores(qn), p).len() ==> (#[trigger] smallest(f.scores(qn), p)[i]).1 < f.c,
{
    let s = f.scores(qn);
    lemma_smallest(s, p);
    assert forall|i: int| 0 <= i < smallest(s, p).len() implies (#[trigger] smallest(s, p)[i]).1 < f.c by {
        assert(s.contains(smallest(s, p)[i]));
        let k = choose|k: int| 0 <= k < s.len() && s[k] == smallest(s, p)[i];
    }
}

impl Router for FlatIvf {
    open spec fn cells(&self) -> nat {
        self.c as nat
    }

    open spec fn ready(&self) -> bool {
        self.wf()
    }

    open spec fn takes(&self, q: Seq<i8>, qn: Seq<i8>) -> bool {
        qn.len() == self.d
    }

    open spec fn allows(&self, a0: nat) -> bool {
        1 <= a0 <= 8
    }

    /// The `a0` nearest cells; cell 0 stands in for cells that do not exist.
    open spec fn assigned(&self, q: Seq<i8>, qn: Seq<i8>, a0: nat) -> Seq<u32> {
        let near = smallest(self.scores(qn), a0);
        Seq::new(a0, |i: int| if i < near.len() { near[i].1 } else { 0 })
    }

    open spec fn probed(&self, q: Seq<i8>, qn: Seq<i8>, p: nat) -> Seq<u32> {
        ids_of(smallest(self.scores(qn), p))
    }

    fn n_cells(&self) -> (r: usize) {
        self.c
    }

    fn assign(&self, q: &[i8], qn: &[i8], a0: usize, out: &mut Vec<u32>) {
        out.clear();
        out.resize(a0, 0);
        proof {
            vstd::arithmetic::div_mod::lemma_div_by_multiple(self.c as int, self.d as int);
            lemma_flat_ids(*self, qn@, a0 as nat);
        }
        assign_topk(qn, self.pivots.as_slice(), self.d, a0, out.as_mut_slice());
        assert(out@ =~= self.assigned(q@, qn@, a0 as nat));
    }

    fn probe(&self, q: &[i8], qn: &[i8], p: usize) -> (r: Vec<u32>) {
        self.probe_ranked(qn, p)
    }
}

} // verus!
