//! Storing a point in more than one cell: the nearest cell first, then the cells of least loss. The
//! losses are single-precision values, kept as bit patterns.

use crate::hier::{lemma_gathered_below, HierRouter};
use crate::order::{ascending, keep_smallest, lemma_ascending, lemma_smallest, smallest, Ranked};
use crate::refine::{keyed, order_key, top_by_key};
use crate::rerank::first_ids;
use vstd::prelude::*;

verus! {

/// How many near cells are weighed for `a0` copies.
pub open spec fn spill_width(a0: nat) -> nat {
    if 64 * a0 < 256 {
        256
    } else {
        64 * a0
    }
}

/// The candidates behind the first, each with its loss.
pub open spec fn with_losses(cands: Seq<(i32, u32)>, losses: Seq<u32>) -> Seq<(u32, u32)> {
    Seq::new((cands.len() - 1) as nat, |i: int| (losses[i], cands[i + 1].1))
}

/// The cells that a point is stored in: the first candidate, then the `a0 - 1` of least loss.
pub open spec fn spilled(cands: Seq<(i32, u32)>, losses: Seq<u32>, a0: nat) -> Seq<u32> {
    if cands.len() == 0 {
        Seq::empty()
    } else if a0 <= 1 {
        seq![cands[0].1]
    } else {
        seq![cands[0].1] + first_ids(ascending(keyed(with_losses(cands, losses))), (a0 - 1) as nat)
    }
}

impl HierRouter {
    /// The cells that are weighed when a point is stored `a0` times, nearest first.
    pub fn spill_candidates(&self, qn: &[i8], coarse: Option<&Vec<u32>>, lut: Option<&Vec<i8>>, a0: usize) -> (r: Vec<(i32, u32)>)
        requires
            self.wf(),
            self.inputs_ok(
                qn@,
                (match coarse {
                    Some(c) => Some(c@),
                    None => None,
                }),
                (match lut {
                    Some(t) => Some(t@),
                    None => None,
                }),
            ),
            a0 <= usize::MAX / 64,
        ensures
            r@ == smallest(
                self.gathered(
                    qn@,
                    (match coarse {
                        Some(c) => Some(c@),
                        None => None,
                    }),
                    (match lut {
                        Some(t) => Some(t@),
                        None => None,
                    }),
                ),
                spill_width(a0 as nat),
            ),
            forall|i: int| 0 <= i < r@.len() ==> (#[trigger] r@[i]).1 < self.kf,
    {
        let ghost gc: Option<Seq<u32>> = match coarse {
            Some(c) => Some(c@),
            None => None,
        };
        let ghost gl: Option<Seq<i8>> = match lut {
            Some(t) => Some(t@),
            None => None,
        };
        let mut fd = self.gather_fine(qn, coarse, lut);
        let width: usize = if 64 * a0 < 256 {
            256
        } else {
            64 * a0
        };
        keep_smallest(&mut fd, width);
        proof {
            let g = self.gathered(qn@, gc, gl);
            lemma_gathered_below(*self, qn@, gc, gl);
            lemma_smallest(g, width as nat);
            assert forall|i: int| 0 <= i < fd@.len() implies (#[trigger] fd@[i]).1 < self.kf by {
                assert(g.contains(fd@[i]));
                let x = choose|x: int| 0 <= x < g.len() && g[x] == fd@[i];
                assert(g[x].1 < self.kf);
            }
        }
        fd
    }
}

/// The cells that a point is stored in. `losses[i]` is the loss of candidate `i + 1`.
pub fn spill(cands: &Vec<(i32, u32)>, losses: &Vec<u32>, a0: usize) -> (r: Vec<u32>)
    requires
        cands@.len() == 0 || losses@.len() == cands@.len() - 1,
    ensures
        r@ == spilled(cands@, losses@, a0 as nat),
{
    let n: usize = cands.len();
    let mut out: Vec<u32> = Vec::new();
    if n == 0 {
        assert(out@ =~= spilled(cands@, losses@, a0 as nat));
        return out;
    }
    out.push(cands[0].1);
    if a0 <= 1 {
        assert(out@ =~= spilled(cands@, losses@, a0 as nat));
        return out;
    }
    let mut rest: Vec<(u32, u32)> = Vec::with_capacity(n - 1);
    let mut i: usize = 1;
    while i < n
        invariant
            1 <= i <= n,
            n == cands@.len(),
            losses@.len() == n - 1,
            rest@.len() == i - 1,
            forall|j: int| 0 <= j < i - 1 ==> #[trigger] rest@[j] == with_losses(cands@, losses@)[j],
        decreases n - i,
    {
        rest.push((losses[i - 1], cands[i].1));
        i = i + 1;
    }
    assert(rest@ =~= with_losses(cands@, losses@));
    let mut more = top_by_key(&rest, a0 - 1);
    out.append(&mut more);
    assert(out@ =~= spilled(cands@, losses@, a0 as nat));
    out
}

/// However the losses turn out, the first copy of a point goes to a nearest cell of all that the
/// descent reaches, and no candidate that was left unweighed is nearer than one that was weighed.
pub proof fn law_first_copy_is_nearest(all: Seq<(i32, u32)>, losses: Seq<u32>, a0: nat)
    requires
        all.len() > 0,
    ensures
        ({
            let cands = smallest(all, spill_width(a0));
            &&& cands.len() > 0
            &&& all.contains(cands[0])
            &&& spilled(cands, losses, a0)[0] == cands[0].1
            &&& forall|i: int| 0 <= i < all.len() ==> cands[0].0 <= (#[trigger] all[i]).0
            &&& forall|i: int, j: int| 0 <= i < all.len() && !cands.contains(all[i]) && 0 <= j < cands.len() ==> (#[trigger] cands[j]).0 <= (#[trigger] all[i]).0
        }),
{
    broadcast use vstd::seq_lib::group_to_multiset_ensures;

    let w = spill_width(a0);
    let cands = smallest(all, w);
    lemma_smallest(all, w);
    lemma_ascending(all);
    let a = ascending(all);
    assert forall|i: int| 0 <= i < all.len() implies cands[0].0 <= (#[trigger] all[i]).0 by {
        assert(all.contains(all[i]));
        assert(all.to_multiset().contains(all[i]));
        assert(a.contains(all[i]));
        let x = choose|x: int| 0 <= x < a.len() && a[x] == all[i];
        assert(a[0].le(a[x]));
        assert(cands[0] == a[0]);
    }
    assert forall|i: int, j: int| 0 <= i < all.len() && !cands.contains(all[i]) && 0 <= j < cands.len() implies (#[trigger] cands[j]).0 <= (#[trigger] all[i]).0 by {
        assert(all.contains(all[i]));
        assert(all.to_multiset().contains(all[i]));
        assert(a.contains(all[i]));
        let x = choose|x: int| 0 <= x < a.len() && a[x] == all[i];
        assert(cands[j] == a[j]);
        if x < cands.len() {
            assert(cands[x] == a[x]);
            assert(false);
        }
        assert(a[j].le(a[x]));
    }
}

/// The loss is a number below infinity.
pub open spec fn is_loss(bits: u32) -> bool {
    bits < 0x7f80_0000 || 0x8000_0000 <= bits <= 0xff80_0000
}

/// The place of a loss in the order of numbers; both zeros have the same.
pub open spec fn loss_key(bits: u32) -> int {
    if bits == 0x8000_0000 {
        0
    } else {
        order_key(bits) as int
    }
}

fn loss_place(bits: u32) -> (r: i64)
    ensures
        r == loss_key(bits),
{
    if bits == 0x8000_0000 {
        0
    } else if bits < 0x8000_0000 {
        bits as i64
    } else {
        -1 - (bits - 0x8000_0000) as i64
    }
}

/// The cell of the second copy of a point whose first copy is in cell `first`: the cell of least
/// loss among the others, the lowest of equals; `first` again where no other has a loss.
pub fn second_cell(losses: &Vec<u32>, first: usize) -> (r: usize)
    requires
        first < losses@.len(),
    ensures
        r < losses@.len(),
        r == first ==> forall|j: int| 0 <= j < losses@.len() && j != first ==> !is_loss(#[trigger] losses@[j]),
        r != first ==> is_loss(losses@[r as int]) && forall|j: int|
            0 <= j < losses@.len() && j != first && is_loss(#[trigger] losses@[j]) ==> loss_key(losses@[r as int]) < loss_key(losses@[j]) || (loss_key(losses@[r as int]) == loss_key(losses@[j]) && r <= j),
{
    let n: usize = losses.len();
    let mut best: usize = first;
    let mut key: i64 = 0;
    let mut j: usize = 0;
    while j < n
        invariant
            j <= n,
            n == losses@.len(),
            first < n,
            best < n,
            best == first ==> forall|i: int| 0 <= i < j && i != first ==> !is_loss(#[trigger] losses@[i]),
            best != first ==> best < j && is_loss(losses@[best as int]) && key == loss_key(losses@[best as int]) && forall|i: int|
                0 <= i < j && i != first && is_loss(#[trigger] losses@[i]) ==> key < loss_key(losses@[i]) || (key == loss_key(losses@[i]) && best <= i),
        decreases n - j,
    {
        let bits: u32 = losses[j];
        let number = bits < 0x7f80_0000 || (0x8000_0000 <= bits && bits <= 0xff80_0000);
        if j != first && number {
            let place: i64 = loss_place(bits);
            if best == first || place < key {
                best = j;
                key = place;
            }
        }
        j = j + 1;
    }
    best
}

} // verus!
