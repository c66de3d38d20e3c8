//! What a run of queries is judged by: the true neighbours, how many of them came back, how far
//! two runs agree, and the files that the results are written to.
use vstd::prelude::*;
use vstd::slice::slice_subrange;
use crate::bytes::{push_words, read_u32, read_words, word_at, word_bytes};
use crate::ibin::{header_dim, header_rows, rows_within, BinError};

verus! {

/// How many results are judged.
pub const TOP: usize = 10;

/// The true neighbours of each query, `k` to a query, nearest first.
pub struct Truth {
    pub nq: usize,
    pub k: usize,
    pub ids: Vec<u32>,
}

impl Truth {
    /// The ids are `k` to a query.
    pub open spec fn wf(&self) -> bool {
        self.ids@.len() == self.nq * self.k
    }

    /// The true neighbours of query `i` that its results are held against.
    pub open spec fn top(&self, i: int) -> Seq<u32> {
        self.ids@.subrange(i * self.k, i * self.k + TOP)
    }

    /// All known neighbours of query `i`.
    pub open spec fn row(&self, i: int) -> Seq<u32> {
        self.ids@.subrange(i * self.k, i * self.k + self.k)
    }
}

/// The first ten entries, or all of them where there are fewer.
pub open spec fn first_ten(s: Seq<u32>) -> Seq<u32> {
    if s.len() < TOP {
        s
    } else {
        s.take(TOP as int)
    }
}

/// How many entries of `s` occur in `truth`.
pub open spec fn hits(s: Seq<u32>, truth: Seq<u32>) -> nat
    decreases s.len(),
{
    if s.len() == 0 {
        0
    } else {
        hits(s.drop_last(), truth) + if truth.contains(s.last()) { 1nat } else { 0nat }
    }
}

/// How many of the first `n` queries' results are true neighbours, all together.
pub open spec fn total_hits(res: Seq<Vec<u32>>, truth: Truth, n: nat) -> nat
    decreases n,
{
    if n == 0 {
        0
    } else {
        total_hits(res, truth, (n - 1) as nat) + hits(first_ten(res[n - 1]@), truth.top(n - 1))
    }
}

/// The ids of a list that are live, in order.
pub open spec fn live_ids(s: Seq<u32>, live: Seq<bool>) -> Seq<u32>
    decreases s.len(),
{
    if s.len() == 0 {
        s
    } else {
        let before = live_ids(s.drop_last(), live);
        if s.last() < live.len() && live[s.last() as int] {
            before.push(s.last())
        } else {
            before
        }
    }
}

/// True where two lists hold the same ids.
pub open spec fn same_ids(a: Seq<u32>, b: Seq<u32>) -> bool {
    &&& forall|i: int| 0 <= i < a.len() ==> b.contains(#[trigger] a[i])
    &&& forall|i: int| 0 <= i < b.len() ==> a.contains(#[trigger] b[i])
}

/// How many of the first `n` queries got the same ids in two runs.
pub open spec fn same_sets(a: Seq<Vec<u32>>, b: Seq<Vec<u32>>, n: nat) -> nat
    decreases n,
{
    if n == 0 {
        0
    } else {
        same_sets(a, b, (n - 1) as nat) + if same_ids(first_ten(a[n - 1]@), first_ten(b[n - 1]@)) {
            1nat
        } else {
            0nat
        }
    }
}

/// How many of the first `n` queries got the same ids in the same order in two runs.
pub open spec fn same_lists(a: Seq<Vec<u32>>, b: Seq<Vec<u32>>, n: nat) -> nat
    decreases n,
{
    if n == 0 {
        0
    } else {
        same_lists(a, b, (n - 1) as nat) + if first_ten(a[n - 1]@) == first_ten(b[n - 1]@) {
            1nat
        } else {
            0nat
        }
    }
}

/// The ten ids that a query's results are written as; the largest word stands where there is none.
pub open spec fn ten_ids(s: Seq<u32>) -> Seq<u32> {
    Seq::new(TOP as nat, |j: int| if j < s.len() { s[j] } else { u32::MAX })
}

/// The words of a result file: the number of queries, then ten ids for each.
pub open spec fn result_words(res: Seq<Vec<u32>>, n: nat, nq: u32) -> Seq<u32>
    decreases n,
{
    if n == 0 {
        seq![nq]
    } else {
        result_words(res, (n - 1) as nat, nq) + ten_ids(res[n - 1]@)
    }
}

/// A neighbour row for the graph: the results other than `own`, at most `k` of them, filled up with
/// the last one, or with `own` where there is none.
pub open spec fn neighbour_row(res: Seq<u32>, own: u32, k: nat) -> Seq<u32> {
    let near = others(res, own, k);
    let pad = if near.len() == 0 { own } else { near.last() };
    Seq::new(k, |j: int| if j < near.len() { near[j] } else { pad })
}

/// The first `k` entries other than `own`.
pub open spec fn others(res: Seq<u32>, own: u32, k: nat) -> Seq<u32>
    decreases res.len(),
{
    if res.len() == 0 {
        res
    } else {
        let before = others(res.drop_last(), own, k);
        if res.last() != own && before.len() < k {
            before.push(res.last())
        } else {
            before
        }
    }
}

/// Read a truth file: the number of queries, the number of neighbours, then the ids.
pub fn read_gt(bytes: &[u8]) -> (r: Result<Truth, BinError>)
    ensures
        match r {
            Ok(t) => {
                &&& bytes@.len() >= 8
                &&& t.wf()
                &&& t.nq == header_rows(bytes@)
                &&& t.k == header_dim(bytes@)
                &&& 8 + 4 * (t.nq * t.k) <= bytes@.len()
                &&& forall|i: int| 0 <= i < t.ids@.len() ==> #[trigger] t.ids@[i] == word_at(bytes@, i + 2)
            },
            Err(BinError::TooSmall) => bytes@.len() < 8,
            Err(BinError::Truncated) => bytes@.len() >= 8 && bytes@.len() < 8 + 4 * (header_rows(bytes@) * header_dim(bytes@)),
            Err(_) => false,
        },
{
    let len: usize = bytes.len();
    if len < 8 {
        return Err(BinError::TooSmall);
    }
    let nq: u32 = read_u32(bytes, 0);
    let k: u32 = read_u32(bytes, 4);
    let words: usize = (len - 8) / 4;
    match rows_within(words, 0, nq, k) {
        None => Err(BinError::Truncated),
        Some(total) => {
            let all: &[u8] = slice_subrange(bytes, 8, len);
            let ids: Vec<u32> = read_words(all, total);
            proof {
                assert forall|i: int| 0 <= i < ids@.len() implies #[trigger] ids@[i] == word_at(bytes@, i + 2) by {
                    assert(all@.subrange(4 * i, 4 * i + 4) =~= bytes@.subrange(4 * (i + 2), 4 * (i + 2) + 4));
                }
            }
            Ok(Truth { nq: nq as usize, k: k as usize, ids })
        },
    }
}

fn occurs(truth: &[u32], id: u32) -> (r: bool)
    ensures
        r == truth@.contains(id),
{
    let n: usize = truth.len();
    let mut i: usize = 0;
    while i < n
        invariant
            i <= n,
            n == truth@.len(),
            forall|j: int| 0 <= j < i ==> truth@[j] != id,
        decreases n - i,
    {
        if truth[i] == id {
            return true;
        }
        i = i + 1;
    }
    false
}

/// How many of a query's first ten results occur among its true neighbours.
pub fn count_hits(res: &Vec<u32>, truth: &[u32]) -> (r: usize)
    ensures
        r == hits(first_ten(res@), truth@),
        r <= TOP,
{
    let n: usize = if res.len() < TOP { res.len() } else { TOP };
    let ghost all = first_ten(res@);
    assert(all =~= res@.take(n as int));
    let mut r: usize = 0;
    let mut i: usize = 0;
    while i < n
        invariant
            i <= n,
            n <= TOP,
            n == all.len(),
            n <= res@.len(),
            all == res@.take(n as int),
            r <= i,
            r == hits(all.take(i as int), truth@),
        decreases n - i,
    {
        assert(all.take(i + 1).drop_last() =~= all.take(i as int));
        if occurs(truth, res[i]) {
            r = r + 1;
        }
        i = i + 1;
    }
    assert(all.take(n as int) =~= all);
    r
}

/// How many of the results of the first `nq` queries are true neighbours, each query's first ten
/// held against its first ten.
pub fn recall_hits(res: &Vec<Vec<u32>>, truth: &Truth, nq: usize) -> (r: usize)
    requires
        truth.wf(),
        truth.k >= TOP,
        nq <= truth.nq,
        nq <= res@.len(),
        nq * TOP <= usize::MAX,
    ensures
        r == total_hits(res@, *truth, nq as nat),
        r <= nq * TOP,
{
    let total: usize = truth.ids.len();
    let mut r: usize = 0;
    let mut i: usize = 0;
    while i < nq
        invariant
            i <= nq,
            total == truth.ids@.len(),
            truth.wf(),
            truth.k >= TOP,
            nq <= truth.nq,
            nq <= res@.len(),
            nq * TOP <= usize::MAX,
            r <= i * TOP,
            r == total_hits(res@, *truth, i as nat),
        decreases nq - i,
    {
        proof {
            crate::simd::lemma_row_in_range(i as int, truth.k as int, truth.nq as int, total as int);
        }
        let top: &[u32] = slice_subrange(truth.ids.as_slice(), i * truth.k, i * truth.k + TOP);
        assert(top@ =~= truth.top(i as int));
        r = r + count_hits(&res[i], top);
        i = i + 1;
    }
    r
}

/// The true neighbours of a query among the live points: the first ten live ids of its row.
pub fn live_truth(truth: &Truth, i: usize, live: &Vec<bool>) -> (r: Vec<u32>)
    requires
        truth.wf(),
        i < truth.nq,
    ensures
        r@ == first_ten(live_ids(truth.row(i as int), live@)),
{
    let total: usize = truth.ids.len();
    proof {
        crate::simd::lemma_row_in_range(i as int, truth.k as int, truth.nq as int, total as int);
    }
    let row: &[u32] = slice_subrange(truth.ids.as_slice(), i * truth.k, i * truth.k + truth.k);
    assert(row@ =~= truth.row(i as int));
    let n: usize = row.len();
    let mut out: Vec<u32> = Vec::new();
    let mut j: usize = 0;
    assert(row@.take(0) =~= Seq::<u32>::empty());
    while j < n
        invariant
            j <= n,
            n == row@.len(),
            out@ == first_ten(live_ids(row@.take(j as int), live@)),
        decreases n - j,
    {
        assert(row@.take(j + 1).drop_last() =~= row@.take(j as int));
        let id: u32 = row[j];
        let ghost before = live_ids(row@.take(j as int), live@);
        if (id as usize) < live.len() && live[id as usize] {
            if out.len() < TOP {
                out.push(id);
            }
            assert(out@ =~= first_ten(before.push(id)));
        }
        j = j + 1;
    }
    assert(row@.take(n as int) =~= row@);
    out
}

/// Of a query in a changing index: how many of its first ten results are true neighbours among the
/// live points, and how many such neighbours are known.
pub fn live_hits(res: &Vec<u32>, truth: &Truth, i: usize, live: &Vec<bool>) -> (r: (usize, usize))
    requires
        truth.wf(),
        i < truth.nq,
    ensures
        r.1 == first_ten(live_ids(truth.row(i as int), live@)).len(),
        r.0 == hits(first_ten(res@), first_ten(live_ids(truth.row(i as int), live@))),
        r.0 <= TOP,
        r.1 <= TOP,
{
    let near: Vec<u32> = live_truth(truth, i, live);
    (count_hits(res, near.as_slice()), near.len())
}

proof fn lemma_live_ids_split(a: Seq<u32>, b: Seq<u32>, live: Seq<bool>)
    ensures
        live_ids(a + b, live) == live_ids(a, live) + live_ids(b, live),
    decreases b.len(),
{
    if b.len() == 0 {
        assert(a + b =~= a);
        assert(live_ids(a, live) + live_ids(b, live) =~= live_ids(a, live));
    } else {
        lemma_live_ids_split(a, b.drop_last(), live);
        assert((a + b).drop_last() =~= a + b.drop_last());
        assert((a + b).last() == b.last());
        let x = live_ids(a, live);
        let y = live_ids(b.drop_last(), live);
        assert((x + y).push(b.last()) =~= x + y.push(b.last()));
    }
}

/// The known neighbours decide the live ones: where the first `k` of all points, in their order from
/// the query, hold ten live ones, these are the first ten live ones of all points.
pub proof fn law_live_truth_is_exact(order: Seq<u32>, k: int, live: Seq<bool>)
    requires
        0 <= k <= order.len(),
        live_ids(order.take(k), live).len() >= TOP,
    ensures
        first_ten(live_ids(order.take(k), live)) == first_ten(live_ids(order, live)),
{
    let rest = order.skip(k);
    assert(order =~= order.take(k) + rest);
    lemma_live_ids_split(order.take(k), rest, live);
    assert(first_ten(live_ids(order.take(k), live)) =~= first_ten(live_ids(order, live)));
}

fn subset(a: &[u32], b: &[u32]) -> (r: bool)
    ensures
        r == (forall|i: int| 0 <= i < a@.len() ==> b@.contains(#[trigger] a@[i])),
{
    let n: usize = a.len();
    let mut i: usize = 0;
    while i < n
        invariant
            i <= n,
            n == a@.len(),
            forall|j: int| 0 <= j < i ==> b@.contains(#[trigger] a@[j]),
        decreases n - i,
    {
        if !occurs(b, a[i]) {
            return false;
        }
        i = i + 1;
    }
    true
}

fn equal(a: &[u32], b: &[u32]) -> (r: bool)
    ensures
        r == (a@ == b@),
{
    let n: usize = a.len();
    if b.len() != n {
        return false;
    }
    let mut i: usize = 0;
    while i < n
        invariant
            i <= n,
            n == a@.len(),
            n == b@.len(),
            forall|j: int| 0 <= j < i ==> a@[j] == b@[j],
        decreases n - i,
    {
        if a[i] != b[i] {
            return false;
        }
        i = i + 1;
    }
    assert(a@ =~= b@);
    true
}

fn head(v: &Vec<u32>) -> (r: &[u32])
    ensures
        r@ == first_ten(v@),
{
    let n: usize = if v.len() < TOP { v.len() } else { TOP };
    let r: &[u32] = slice_subrange(v.as_slice(), 0, n);
    assert(r@ =~= first_ten(v@));
    r
}

/// How far two runs of the same queries agree: for how many queries the first ten results are the
/// same ids, and for how many the same ids in the same order.
pub fn agreement(a: &Vec<Vec<u32>>, b: &Vec<Vec<u32>>, nq: usize) -> (r: (usize, usize))
    requires
        nq <= a@.len(),
        nq <= b@.len(),
    ensures
        r.0 == same_sets(a@, b@, nq as nat),
        r.1 == same_lists(a@, b@, nq as nat),
{
    let mut sets: usize = 0;
    let mut lists: usize = 0;
    let mut i: usize = 0;
    while i < nq
        invariant
            i <= nq,
            nq <= a@.len(),
            nq <= b@.len(),
            sets <= i,
            lists <= i,
            sets == same_sets(a@, b@, i as nat),
            lists == same_lists(a@, b@, i as nat),
        decreases nq - i,
    {
        let x: &[u32] = head(&a[i]);
        let y: &[u32] = head(&b[i]);
        if subset(x, y) && subset(y, x) {
            sets = sets + 1;
        }
        if equal(x, y) {
            lists = lists + 1;
        }
        i = i + 1;
    }
    (sets, lists)
}

/// Results in the same order are the same results: no run agrees in order more often than in
/// content.
pub proof fn law_order_agreement_is_stronger(a: Seq<Vec<u32>>, b: Seq<Vec<u32>>, n: nat)
    requires
        n <= a.len(),
        n <= b.len(),
    ensures
        same_lists(a, b, n) <= same_sets(a, b, n) <= n,
    decreases n,
{
    if n > 0 {
        law_order_agreement_is_stronger(a, b, (n - 1) as nat);
        let x = first_ten(a[n - 1]@);
        let y = first_ten(b[n - 1]@);
        if x == y {
            assert forall|i: int| 0 <= i < x.len() implies y.contains(#[trigger] x[i]) by {
                assert(y[i] == x[i]);
            }
        }
    }
}

/// The bytes of a result file.
pub fn result_bytes(res: &Vec<Vec<u32>>, nq: u32) -> (out: Vec<u8>)
    requires
        nq <= res@.len(),
    ensures
        out@ == word_bytes(result_words(res@, nq as nat, nq)),
{
    let mut words: Vec<u32> = Vec::new();
    words.push(nq);
    let mut i: usize = 0;
    assert(words@ =~= result_words(res@, 0, nq));
    while i < nq as usize
        invariant
            i <= nq,
            nq <= res@.len(),
            words@ == result_words(res@, i as nat, nq),
        decreases nq - i,
    {
        let ghost before = words@;
        let ghost ids = ten_ids(res@[i as int]@);
        let n: usize = res[i].len();
        let mut j: usize = 0;
        while j < TOP
            invariant
                j <= TOP,
                i < nq,
                nq <= res@.len(),
                n == res@[i as int]@.len(),
                ids == ten_ids(res@[i as int]@),
                words@ =~= before + ids.take(j as int),
            decreases TOP - j,
        {
            words.push(if j < n { res[i][j] } else { u32::MAX });
            j = j + 1;
        }
        assert(ids.take(TOP as int) =~= ids);
        i = i + 1;
    }
    let mut out: Vec<u8> = Vec::new();
    push_words(&mut out, words.as_slice());
    assert(out@ =~= word_bytes(words@));
    out
}

proof fn lemma_result_words(res: Seq<Vec<u32>>, n: nat, nq: u32)
    ensures
        result_words(res, n, nq).len() == 1 + TOP * n,
        result_words(res, n, nq)[0] == nq,
        forall|i: int, j: int| 0 <= i < n && 0 <= j < TOP ==> result_words(res, n, nq)[1 + TOP * i + j] == #[trigger] ten_ids(res[i]@)[j],
    decreases n,
{
    if n > 0 {
        lemma_result_words(res, (n - 1) as nat, nq);
        let before = result_words(res, (n - 1) as nat, nq);
        let after = result_words(res, n, nq);
        assert forall|i: int, j: int| 0 <= i < n && 0 <= j < TOP implies after[1 + TOP * i + j] == #[trigger] ten_ids(res[i]@)[j] by {
            if i < n - 1 {
                assert(before[1 + TOP * i + j] == ten_ids(res[i]@)[j]);
                assert(after[1 + TOP * i + j] == before[1 + TOP * i + j]);
            }
        }
    }
}

/// A result file gives back, behind the number of queries, result `j` of query `i`.
pub proof fn law_results_come_back(res: Seq<Vec<u32>>, nq: u32, i: int, j: int)
    requires
        0 <= i < nq,
        nq <= res.len(),
        0 <= j < TOP,
    ensures
        ({
            let file = word_bytes(result_words(res, nq as nat, nq));
            &&& file.len() == 4 * (1 + TOP * nq)
            &&& word_at(file, 0) == nq
            &&& word_at(file, 1 + TOP * i + j) == (if j < res[i]@.len() { res[i]@[j] } else { u32::MAX })
        }),
{
    let words = result_words(res, nq as nat, nq);
    lemma_result_words(res, nq as nat, nq);
    crate::bytes::law_word_strings_come_back(words);
    assert(words[0] == nq);
    assert(words[1 + TOP * i + j] == ten_ids(res[i]@)[j]);
}

/// A neighbour row for the graph of a point, from the results of a search for the point itself.
pub fn self_neighbours(res: &Vec<u32>, own: u32, k: usize) -> (out: Vec<u32>)
    ensures
        out@ == neighbour_row(res@, own, k as nat),
{
    let n: usize = res.len();
    let mut out: Vec<u32> = Vec::new();
    let mut i: usize = 0;
    assert(res@.take(0) =~= Seq::<u32>::empty());
    while i < n
        invariant
            i <= n,
            n == res@.len(),
            out@.len() <= k,
            out@ == others(res@.take(i as int), own, k as nat),
        decreases n - i,
    {
        assert(res@.take(i + 1).drop_last() =~= res@.take(i as int));
        if res[i] != own && out.len() < k {
            out.push(res[i]);
        }
        i = i + 1;
    }
    assert(res@.take(n as int) =~= res@);
    let ghost near = others(res@, own, k as nat);
    let found: usize = out.len();
    let pad: u32 = if found == 0 { own } else { out[found - 1] };
    let ghost want = neighbour_row(res@, own, k as nat);
    let mut m: usize = found;
    assert(out@ =~= want.take(m as int));
    while m < k
        invariant
            found <= m <= k,
            near == others(res@, own, k as nat),
            near.len() == found,
            pad == (if near.len() == 0 { own } else { near.last() }),
            want == neighbour_row(res@, own, k as nat),
            out@ == want.take(m as int),
        decreases k - m,
    {
        out.push(pad);
        assert(out@ =~= want.take(m + 1));
        m = m + 1;
    }
    assert(want.take(k as int) =~= want);
    out
}

proof fn lemma_others(res: Seq<u32>, own: u32, k: nat)
    ensures
        others(res, own, k).len() <= k,
        forall|i: int| 0 <= i < others(res, own, k).len() ==> (#[trigger] others(res, own, k)[i]) != own && res.contains(others(res, own, k)[i]),
    decreases res.len(),
{
    if res.len() > 0 {
        lemma_others(res.drop_last(), own, k);
        let before = others(res.drop_last(), own, k);
        let after = others(res, own, k);
        assert forall|i: int| 0 <= i < after.len() implies (#[trigger] after[i]) != own && res.contains(after[i]) by {
            if i < before.len() {
                assert(res.drop_last().contains(before[i]));
                let j = choose|j: int| 0 <= j < res.len() - 1 && res.drop_last()[j] == before[i];
                assert(res[j] == after[i]);
            } else {
                assert(res[res.len() - 1] == after[i]);
            }
        }
    }
}

/// A point is its own neighbour only where its search found no other point.
pub proof fn law_no_point_neighbours_itself(res: Seq<u32>, own: u32, k: nat, i: int)
    requires
        0 <= i < k,
        exists|j: int| 0 <= j < res.len() && #[trigger] res[j] != own,
    ensures
        neighbour_row(res, own, k)[i] != own,
        res.contains(neighbour_row(res, own, k)[i]),
{
    lemma_others(res, own, k);
    lemma_others_some(res, own, k);
    let near = others(res, own, k);
    if i < near.len() {
        assert(near[i] != own);
    } else {
        assert(near[near.len() - 1] != own);
    }
}

proof fn lemma_others_some(res: Seq<u32>, own: u32, k: nat)
    requires
        k > 0,
        exists|j: int| 0 <= j < res.len() && #[trigger] res[j] != own,
    ensures
        others(res, own, k).len() > 0,
    decreases res.len(),
{
    let j = choose|j: int| 0 <= j < res.len() && #[trigger] res[j] != own;
    if j < res.len() - 1 {
        assert(res.drop_last()[j] != own);
        lemma_others_some(res.drop_last(), own, k);
    }
}

} // verus!
