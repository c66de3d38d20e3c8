//! What an index shows of itself: which points its cells hold, and which cells its queries are sent to.
use vstd::prelude::*;
use crate::bytes::{push_words, word_bytes};
use crate::compress::Compressor;
use crate::index::Index;
use crate::rerank::NO_POINT;
use crate::router::Router;

verus! {

/// The points of the slots `from..to` with their cell, as pairs of words; empty slots are passed over.
pub open spec fn slot_pairs(slot_orig: Seq<u32>, from: int, to: int, cell: u32) -> Seq<u32>
    decreases to - from,
{
    if to <= from {
        Seq::empty()
    } else {
        let before = slot_pairs(slot_orig, from, to - 1, cell);
        if slot_orig[to - 1] == NO_POINT {
            before
        } else {
            before.push(slot_orig[to - 1]).push(cell)
        }
    }
}

/// The pairs of the first `n` cells.
pub open spec fn cell_pairs(bstart: Seq<u32>, slot_orig: Seq<u32>, n: nat) -> Seq<u32>
    decreases n,
{
    if n == 0 {
        Seq::empty()
    } else {
        cell_pairs(bstart, slot_orig, (n - 1) as nat) + slot_pairs(slot_orig, 16 * bstart[n - 1], 16 * bstart[n as int], (n - 1) as u32)
    }
}

/// How many points the slots `from..to` hold.
pub open spec fn held(slot_orig: Seq<u32>, from: int, to: int) -> nat
    decreases to - from,
{
    if to <= from {
        0
    } else {
        held(slot_orig, from, to - 1) + if slot_orig[to - 1] == NO_POINT { 0nat } else { 1nat }
    }
}

/// The pairs of a stretch of slots are two words for each point that it holds.
pub proof fn law_every_held_point_is_listed(slot_orig: Seq<u32>, from: int, to: int, cell: u32)
    ensures
        slot_pairs(slot_orig, from, to, cell).len() == 2 * held(slot_orig, from, to),
    decreases to - from,
{
    if to > from {
        law_every_held_point_is_listed(slot_orig, from, to - 1, cell);
    }
}

impl<R: Router, C: Compressor> Index<R, C> {
    /// Every stored point with its cell, cell by cell, as pairs of words.
    pub fn dump_assignments(&self) -> (out: Vec<u32>)
        requires
            self.main_ok(),
        ensures
            out@ == cell_pairs(self.cell_bstart@, self.slot_orig@, self.nc()),
    {
        let nc: usize = self.cell_bstart.len() - 1;
        let ghost total = self.nc();
        let slots: usize = self.slot_orig.len();
        let mut out: Vec<u32> = Vec::new();
        let mut c: usize = 0;
        while c < nc
            invariant
                c <= nc,
                nc == total,
                total == self.nc(),
                self.main_ok(),
                slots == self.slot_orig@.len(),
                out@ == cell_pairs(self.cell_bstart@, self.slot_orig@, c as nat),
            decreases nc - c,
        {
            proof {
                self.lemma_cell_range(c as int);
            }
            let s: usize = 16 * self.cell_bstart[c] as usize;
            let e: usize = 16 * self.cell_bstart[c + 1] as usize;
            let ghost before = out@;
            let mut i: usize = s;
            assert(out@ =~= before + slot_pairs(self.slot_orig@, s as int, s as int, c as u32));
            while i < e
                invariant
                    s <= i <= e,
                    e <= slots,
                    slots == self.slot_orig@.len(),
                    c < nc,
                    out@ == before + slot_pairs(self.slot_orig@, s as int, i as int, c as u32),
                decreases e - i,
            {
                let o: u32 = self.slot_orig[i];
                let ghost part = slot_pairs(self.slot_orig@, s as int, i as int, c as u32);
                if o != NO_POINT {
                    out.push(o);
                    out.push(c as u32);
                    assert(out@ =~= before + part.push(o).push(c as u32));
                }
                i = i + 1;
            }
            c = c + 1;
        }
        out
    }

    /// How many points each cell holds.
    pub fn cell_occupancy(&self) -> (out: Vec<u32>)
        requires
            self.main_ok(),
        ensures
            out@.len() == self.nc(),
            forall|c: int| 0 <= c < out@.len() ==> #[trigger] out@[c] == held(self.slot_orig@, 16 * self.cell_bstart@[c], 16 * self.cell_bstart@[c + 1]),
    {
        let nc: usize = self.cell_bstart.len() - 1;
        let ghost total = self.nc();
        let slots: usize = self.slot_orig.len();
        let mut out: Vec<u32> = Vec::new();
        let mut c: usize = 0;
        while c < nc
            invariant
                c <= nc,
                nc == total,
                total == self.nc(),
                self.main_ok(),
                slots == self.slot_orig@.len(),
                out@.len() == c,
                forall|x: int| 0 <= x < c ==> #[trigger] out@[x] == held(self.slot_orig@, 16 * self.cell_bstart@[x], 16 * self.cell_bstart@[x + 1]),
            decreases nc - c,
        {
            proof {
                self.lemma_cell_range(c as int);
            }
            let s: usize = 16 * self.cell_bstart[c] as usize;
            let e: usize = 16 * self.cell_bstart[c + 1] as usize;
            let mut n: u32 = 0;
            let mut i: usize = s;
            while i < e
                invariant
                    s <= i <= e,
                    e <= slots,
                    slots == self.slot_orig@.len(),
                    slots <= u32::MAX,
                    n <= i - s,
                    n == held(self.slot_orig@, s as int, i as int),
                decreases e - i,
            {
                if self.slot_orig[i] != NO_POINT {
                    n = n + 1;
                }
                i = i + 1;
            }
            out.push(n);
            c = c + 1;
        }
        out
    }
}

/// The bytes of a route file: the number of queries, the number of cells for each, then the cells.
pub fn route_bytes(nq: u32, p: u32, cells: &Vec<u32>) -> (out: Vec<u8>)
    ensures
        out@ == word_bytes(seq![nq, p] + cells@),
{
    let n: usize = cells.len();
    let mut words: Vec<u32> = Vec::new();
    words.push(nq);
    words.push(p);
    let mut i: usize = 0;
    assert(words@ =~= seq![nq, p] + cells@.take(0));
    while i < n
        invariant
            i <= n,
            n == cells@.len(),
            words@ == seq![nq, p] + cells@.take(i as int),
        decreases n - i,
    {
        words.push(cells[i]);
        assert(words@ =~= seq![nq, p] + cells@.take(i + 1));
        i = i + 1;
    }
    assert(cells@.take(n as int) =~= cells@);
    let mut out: Vec<u8> = Vec::new();
    push_words(&mut out, words.as_slice());
    assert(out@ =~= word_bytes(words@));
    out
}

} // verus!
