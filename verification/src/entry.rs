//! Where a walk starts: a directory of rows taken at even distances, and the rows of it that are
//! nearest to a query.

use crate::ibin::I8Bin;
use crate::order::{keep_smallest, smallest};
use crate::router::{ids_of, take_all_ids};
use crate::simd::{dot, negdot_i8, DOT_DIM};
use vstd::prelude::*;

verus! {

/// Row `j` of a directory of `n` rows out of `nb`.
pub open spec fn directory_row(j: int, nb: int, n: int) -> int {
    j * nb / n
}

/// The rows of a directory of `n` entries over `nb` rows, spread evenly.
pub fn directory(n: usize, nb: usize) -> (ids: Vec<u32>)
    requires
        nb <= u32::MAX,
        n <= u32::MAX,
    ensures
        ids@.len() == n,
        forall|j: int| 0 <= j < n ==> #[trigger] ids@[j] == directory_row(j, nb as int, n as int),
        nb > 0 ==> forall|j: int| 0 <= j < n ==> #[trigger] ids@[j] < nb,
{
    let mut ids: Vec<u32> = Vec::with_capacity(n);
    let mut j: usize = 0;
    while j < n
        invariant
            j <= n,
            n <= u32::MAX,
            nb <= u32::MAX,
            ids@.len() == j,
            forall|i: int| 0 <= i < j ==> #[trigger] ids@[i] == directory_row(i, nb as int, n as int),
            nb > 0 ==> forall|i: int| 0 <= i < j ==> #[trigger] ids@[i] < nb,
        decreases n - j,
    {
        proof {
            assert(j * nb <= 0xffff_ffff * 0xffff_ffff && j * nb >= 0) by (nonlinear_arith)
                requires
                    0 <= j <= 0xffff_ffff,
                    0 <= nb <= 0xffff_ffff,
            ;
            assert(directory_row(j as int, nb as int, n as int) <= nb && directory_row(j as int, nb as int, n as int) >= 0 && (nb > 0 ==> directory_row(j as int, nb as int, n as int) < nb)) by (nonlinear_arith)
                requires
                    0 <= j < n,
                    0 <= nb,
                    directory_row(j as int, nb as int, n as int) == j * nb / n as int,
            ;
        }
        let row: u64 = j as u64 * nb as u64 / n as u64;
        ids.push(row as u32);
        j = j + 1;
    }
    ids
}

/// A directory lists its rows in order, and none twice where it is no larger than the data.
pub proof fn law_directory_rises(i: int, j: int, nb: int, n: int)
    requires
        0 <= i < j < n,
        nb >= 0,
    ensures
        directory_row(i, nb, n) <= directory_row(j, nb, n),
        n <= nb ==> directory_row(i, nb, n) < directory_row(j, nb, n),
{
    assert(i * nb <= j * nb && (n <= nb ==> i * nb + n <= j * nb)) by (nonlinear_arith)
        requires
            0 <= i < j < n,
            nb >= 0,
    ;
    vstd::arithmetic::div_mod::lemma_div_is_ordered(i * nb, j * nb, n);
    if n <= nb {
        vstd::arithmetic::div_mod::lemma_div_is_ordered(i * nb + n, j * nb, n);
        assert((i * nb + n) / n == i * nb / n + 1) by {
            vstd::arithmetic::div_mod::lemma_div_plus_one(i * nb, n);
        }
    }
}

/// Directory rows with their negated inner products.
pub open spec fn entry_scores(ds: I8Bin<'_>, q: Seq<i8>, ids: Seq<u32>) -> Seq<(i32, u32)> {
    Seq::new(ids.len(), |j: int| (-dot(q, ds.spec_row(ids[j] as int)) as i32, ids[j]))
}

/// The `want` rows of a directory with the largest inner product, clamped to 1 at least and 16 at
/// most, best first.
pub fn nearest_entries(ds: &I8Bin<'_>, q: &[i8], ids: &Vec<u32>, want: usize) -> (r: Vec<u32>)
    requires
        ds.wf(),
        ds.d <= DOT_DIM,
        q@.len() == ds.d,
        forall|j: int| 0 <= j < ids@.len() ==> #[trigger] ids@[j] < ds.nb,
    ensures
        r@ == ids_of(
            smallest(
                entry_scores(*ds, q@, ids@),
                (if want < 1 {
                    1
                } else if want > 16 {
                    16
                } else {
                    want as int
                }) as nat,
            ),
        ),
{
    let n: usize = ids.len();
    let ne: usize = if want < 1 {
        1
    } else if want > 16 {
        16
    } else {
        want
    };
    let mut top: Vec<(i32, u32)> = Vec::with_capacity(n);
    let mut j: usize = 0;
    while j < n
        invariant
            j <= n,
            n == ids@.len(),
            ds.wf(),
            ds.d <= DOT_DIM,
            q@.len() == ds.d,
            forall|i: int| 0 <= i < n ==> #[trigger] ids@[i] < ds.nb,
            top@.len() == j,
            forall|i: int| 0 <= i < j ==> #[trigger] top@[i] == entry_scores(*ds, q@, ids@)[i],
        decreases n - j,
    {
        let id: u32 = ids[j];
        assert(ids@[j as int] < ds.nb);
        top.push((negdot_i8(q, ds.row(id as usize)), id));
        j = j + 1;
    }
    assert(top@ =~= entry_scores(*ds, q@, ids@));
    keep_smallest(&mut top, ne);
    take_all_ids(&top)
}

} // verus!
