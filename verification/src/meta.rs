//! What a tree router shows of its cells: the cell above each of them, its centroid, and how many
//! points it holds.
use crate::bytes::{as_unsigned, bytes32, push_u32, unsigned_seq, word_bytes};
use crate::hier::HierRouter;
use crate::layout::append_bytes;
use crate::simd::lemma_row_in_range;
use vstd::prelude::*;
use vstd::slice::slice_subrange;

verus! {

pub const META_MAGIC: [u8; 4] = [0x52, 0x43, 0x4d, 0x31];

impl HierRouter {
    /// Cell `p` of the level above the finest one has the finest cell `c` below it.
    pub open spec fn is_above(&self, p: int, c: int) -> bool {
        let child = self.child@[self.levels - 2]@;
        0 <= p < child.len() - 1 && child[p] <= c < child[p + 1]
    }

    /// A finest cell has at most one cell above it.
    pub proof fn lemma_one_above(&self, p: int, r: int, c: int)
        requires
            self.wf(),
            self.is_above(p, c),
            self.is_above(r, c),
        ensures
            p == r,
    {
        assert(self.tree_ok(self.levels - 2));
        let child = self.child@[self.levels - 2]@;
        if p < r {
            assert(child[p + 1] <= child[r]);
        } else if r < p {
            assert(child[r + 1] <= child[p]);
        }
    }

    /// The cell of the level above that has `cell` below it; none where the tree leaves it out.
    pub fn cell_parent(&self, cell: u32) -> (r: Option<u32>)
        requires
            self.wf(),
            cell < self.kf,
        ensures
            match r {
                Some(p) => self.is_above(p as int, cell as int),
                None => forall|p: int| !self.is_above(p, cell as int),
            },
    {
        let l: usize = self.levels - 2;
        proof {
            assert(self.tree_ok(l as int));
            assert(self.level_ok(l as int));
        }
        let child: &Vec<u32> = &self.child[l];
        let n: usize = child.len();
        let mut lo: usize = 0;
        let mut hi: usize = n;
        while lo < hi
            invariant
                lo <= hi <= n,
                n == child@.len(),
                child == self.child@[self.levels - 2],
                self.tree_ok(self.levels - 2),
                forall|i: int| 0 <= i < lo ==> #[trigger] child@[i] <= cell,
                forall|i: int| hi <= i < n ==> #[trigger] child@[i] > cell,
            decreases hi - lo,
        {
            let mid: usize = lo + (hi - lo) / 2;
            if child[mid] <= cell {
                lo = mid + 1;
            } else {
                hi = mid;
            }
        }
        if lo == 0 || lo == n {
            proof {
                assert forall|p: int| !self.is_above(p, cell as int) by {
                    if 0 <= p < n - 1 {
                        assert(child@[p] <= cell || lo == 0);
                        assert(child@[p + 1] <= cell || lo == 0);
                    }
                }
            }
            return None;
        }
        assert(child@[lo - 1] <= cell);
        assert(self.is_above(lo - 1, cell as int));
        Some((lo - 1) as u32)
    }

    /// The centroid of a finest cell.
    pub fn cell_centroid(&self, cell: u32) -> (r: &[i8])
        requires
            self.wf(),
            cell < self.kf,
        ensures
            r@ == self.centroid(self.levels - 1, cell as int),
    {
        let l: usize = self.levels - 1;
        let d: usize = self.d;
        let len: usize = self.cent[l].len();
        proof {
            assert(self.level_ok(l as int));
            lemma_row_in_range(cell as int, d as int, self.kf as int, len as int);
        }
        let c: usize = cell as usize;
        slice_subrange(self.cent[l].as_slice(), c * d, c * d + d)
    }

    /// Some cell of the level above has the finest cell `c` below it.
    pub open spec fn has_above(&self, c: int) -> bool {
        exists|p: u32| self.is_above(p as int, c)
    }

    /// The cell above the finest cell `c`.
    pub open spec fn above(&self, c: int) -> u32 {
        choose|p: u32| self.is_above(p as int, c)
    }

    /// What is written of the first `n` cells.
    pub open spec fn meta_of(&self, held: Seq<u32>, n: nat) -> Seq<u8>
        decreases n,
    {
        if n == 0 {
            META_MAGIC@ + word_bytes(seq![self.kf as u32, self.d as u32])
        } else {
            self.meta_of(held, (n - 1) as nat) + word_bytes(seq![self.above(n - 1), held[n - 1]]) + unsigned_seq(self.centroid(self.levels - 1, n - 1))
        }
    }

    /// All cells as bytes; `held` says how many points each of them holds. None where a cell has no
    /// cell above it.
    pub fn meta_bytes(&self, held: &Vec<u32>) -> (r: Option<Vec<u8>>)
        requires
            self.wf(),
            held@.len() == self.kf,
        ensures
            match r {
                Some(out) => out@ == self.meta_of(held@, self.kf as nat) && forall|c: int| 0 <= c < self.kf ==> #[trigger] self.has_above(c),
                None => exists|c: int| 0 <= c < self.kf && !(#[trigger] self.has_above(c)),
            },
    {
        proof {
            assert(self.level_ok(self.levels - 1));
        }
        let n: usize = self.kf;
        let mut out: Vec<u8> = Vec::new();
        out.push(META_MAGIC[0]);
        out.push(META_MAGIC[1]);
        out.push(META_MAGIC[2]);
        out.push(META_MAGIC[3]);
        push_u32(&mut out, n as u32);
        push_u32(&mut out, self.d as u32);
        proof {
            lemma_two_words(self.kf as u32, self.d as u32);
            assert(out@ =~= META_MAGIC@ + word_bytes(seq![self.kf as u32, self.d as u32]));
        }
        let mut c: usize = 0;
        while c < n
            invariant
                c <= n,
                n == self.kf,
                n <= u32::MAX,
                self.wf(),
                held@.len() == n,
                forall|i: int| 0 <= i < c ==> #[trigger] self.has_above(i),
                out@ == self.meta_of(held@, c as nat),
            decreases n - c,
        {
            let p: u32 = match self.cell_parent(c as u32) {
                Some(p) => p,
                None => {
                    assert(!self.has_above(c as int));
                    return None;
                },
            };
            let ghost before = out@;
            push_u32(&mut out, p);
            push_u32(&mut out, held[c]);
            append_bytes(&mut out, as_unsigned(self.cell_centroid(c as u32)));
            proof {
                assert(self.has_above(c as int));
                self.lemma_one_above(p as int, self.above(c as int) as int, c as int);
                lemma_two_words(p, held@[c as int]);
                assert(out@ =~= before + word_bytes(seq![p, held@[c as int]]) + unsigned_seq(self.centroid(self.levels - 1, c as int)));
            }
            c = c + 1;
        }
        Some(out)
    }
}

proof fn lemma_two_words(a: u32, b: u32)
    ensures
        word_bytes(seq![a, b]) == bytes32(a) + bytes32(b),
{
    reveal_with_fuel(word_bytes, 3);
    assert(seq![a, b].drop_last() =~= seq![a]);
    assert(seq![a].drop_last() =~= Seq::<u32>::empty());
    assert(word_bytes(seq![a, b]) =~= bytes32(a) + bytes32(b));
}

} // verus!
