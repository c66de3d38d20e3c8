//! The files that stand beside an index: half-precision copies of the rows, four-bit codes of them,
//! and tables of starting points. Single-precision values are kept as bit patterns.
use vstd::prelude::*;
use vstd::slice::{slice_subrange, slice_to_vec};
use crate::bytes::{bytes32, bytes64, le32, le64, push_u32, push_u64, push_words, read_u32, read_u64, read_words, word_at, word_bytes};
use crate::ibin::{rows_within, I8Bin};
use crate::image::half_bytes;
use crate::layout::append_bytes;

verus! {

// ---------------------------------------------------------------- half-precision rows

/// The first eight bytes of a file of half-precision rows.
pub const HALF_MAGIC: [u8; 8] = [0x53, 0x42, 0x46, 0x31, 0x36, 0, 0, 0];

/// What keeps a byte string from being a file of half-precision rows.
#[derive(Clone, Copy, Debug, PartialEq, Eq, Structural)]
pub enum HalfError {
    /// There are fewer bytes than the header, or fewer than it promises.
    Truncated,
    /// The first bytes are others.
    BadMagic,
}

/// The 16-bit word that two bytes spell, least significant byte first.
pub open spec fn le16(bytes: Seq<u8>, i: int) -> u16 {
    (bytes[2 * i] + 0x100 * bytes[2 * i + 1]) as u16
}

/// A file of half-precision rows.
pub open spec fn half_file(nb: u32, d: u32, v: Seq<u16>) -> Seq<u8> {
    HALF_MAGIC@ + bytes32(nb) + bytes32(d) + half_bytes(v)
}

/// The bytes of a file of half-precision rows.
pub fn write_halves(nb: u32, d: u32, v: &Vec<u16>) -> (out: Vec<u8>)
    ensures
        out@ == half_file(nb, d, v@),
{
    let mut out: Vec<u8> = Vec::new();
    append_bytes(&mut out, HALF_MAGIC.as_slice());
    push_u32(&mut out, nb);
    push_u32(&mut out, d);
    let ghost head = out@;
    let n: usize = v.len();
    let ghost body = half_bytes(v@);
    let mut i: usize = 0;
    assert(out@ =~= head + body.take(0));
    while i < n
        invariant
            i <= n,
            n == v@.len(),
            body == half_bytes(v@),
            out@ == head + body.take(2 * i as int),
        decreases n - i,
    {
        let x: u16 = v[i];
        out.push((x % 0x100) as u8);
        out.push((x / 0x100) as u8);
        proof {
            assert((2 * i) / 2 == i && (2 * i + 1) / 2 == i && (2 * i) % 2 == 0 && (2 * i + 1) % 2 == 1);
            assert(out@ =~= head + body.take(2 * (i + 1)));
        }
        i = i + 1;
    }
    assert(body.take(2 * n as int) =~= body);
    assert(out@ =~= half_file(nb, d, v@));
    out
}

/// The rows of a file of half-precision rows; none where the file is one of another size.
pub fn read_halves(bytes: &[u8], nb: u32, d: u32) -> (r: Result<Option<Vec<u16>>, HalfError>)
    ensures
        match r {
            Err(HalfError::Truncated) => bytes@.len() < 16 || (bytes@.take(8) == HALF_MAGIC@ && le32(bytes@.subrange(8, 12)) == nb && le32(bytes@.subrange(12, 16)) == d && bytes@.len() < 16 + 2 * (nb * d)),
            Err(HalfError::BadMagic) => bytes@.len() >= 16 && bytes@.take(8) != HALF_MAGIC@,
            Ok(None) => bytes@.len() >= 16 && bytes@.take(8) == HALF_MAGIC@ && !(le32(bytes@.subrange(8, 12)) == nb && le32(bytes@.subrange(12, 16)) == d),
            Ok(Some(v)) => {
                &&& bytes@.len() >= 16 + 2 * (nb * d)
                &&& bytes@.take(8) == HALF_MAGIC@
                &&& le32(bytes@.subrange(8, 12)) == nb
                &&& le32(bytes@.subrange(12, 16)) == d
                &&& v@.len() == nb * d
                &&& forall|i: int| 0 <= i < v@.len() ==> #[trigger] v@[i] == le16(bytes@, i + 8)
            },
        },
{
    let len: usize = bytes.len();
    if len < 16 {
        return Err(HalfError::Truncated);
    }
    let mut j: usize = 0;
    while j < 8
        invariant
            j <= 8,
            len == bytes@.len(),
            len >= 16,
            forall|i: int| 0 <= i < j ==> bytes@[i] == HALF_MAGIC@[i],
        decreases 8 - j,
    {
        if bytes[j] != HALF_MAGIC[j] {
            assert(bytes@.take(8)[j as int] != HALF_MAGIC@[j as int]);
            return Err(HalfError::BadMagic);
        }
        j = j + 1;
    }
    assert(bytes@.take(8) =~= HALF_MAGIC@);
    if read_u32(bytes, 8) != nb || read_u32(bytes, 12) != d {
        return Ok(None);
    }
    match rows_within((len - 16) / 2, 0, nb, d) {
        None => Err(HalfError::Truncated),
        Some(total) => {
            let mut out: Vec<u16> = Vec::new();
            let mut i: usize = 0;
            while i < total
                invariant
                    i <= total,
                    len == bytes@.len(),
                    16 + 2 * total <= len,
                    out@.len() == i,
                    forall|k: int| 0 <= k < i ==> #[trigger] out@[k] == le16(bytes@, k + 8),
                decreases total - i,
            {
                out.push(bytes[16 + 2 * i] as u16 + 0x100 * (bytes[17 + 2 * i] as u16));
                i = i + 1;
            }
            Ok(Some(out))
        },
    }
}

/// The rows of a file come back: a file written for `nb` rows of dimension `d` is read as those rows.
pub proof fn law_halves_come_back(nb: u32, d: u32, v: Seq<u16>)
    requires
        v.len() == nb * d,
    ensures
        ({
            let file = half_file(nb, d, v);
            &&& file.len() == 16 + 2 * (nb * d)
            &&& file.take(8) == HALF_MAGIC@
            &&& le32(file.subrange(8, 12)) == nb
            &&& le32(file.subrange(12, 16)) == d
            &&& forall|i: int| 0 <= i < v.len() ==> le16(file, i + 8) == #[trigger] v[i]
        }),
{
    let file = half_file(nb, d, v);
    crate::bytes::law_words_come_back(nb, 0);
    crate::bytes::law_words_come_back(d, 0);
    assert(file.take(8) =~= HALF_MAGIC@);
    assert(file.subrange(8, 12) =~= bytes32(nb));
    assert(file.subrange(12, 16) =~= bytes32(d));
    assert forall|i: int| 0 <= i < v.len() implies le16(file, i + 8) == #[trigger] v[i] by {
        let body = half_bytes(v);
        assert(file[2 * (i + 8)] == body[2 * i]);
        assert(file[2 * (i + 8) + 1] == body[2 * i + 1]);
        assert((2 * i) / 2 == i && (2 * i + 1) / 2 == i && (2 * i) % 2 == 0 && (2 * i + 1) % 2 == 1);
    }
}

// ---------------------------------------------------------------- four-bit codes

/// A file of codes beside words: two header words, a count, the words, and the codes.
pub open spec fn code_file(a: u32, b: u32, n: u64, words: Seq<u32>, codes: Seq<u8>) -> Seq<u8> {
    bytes32(a) + bytes32(b) + bytes64(n) + word_bytes(words) + codes
}

/// The bytes of a file of codes.
pub fn write_codes(a: u32, b: u32, n: u64, words: &Vec<u32>, codes: &Vec<u8>) -> (out: Vec<u8>)
    ensures
        out@ == code_file(a, b, n, words@, codes@),
{
    let mut out: Vec<u8> = Vec::new();
    push_u32(&mut out, a);
    push_u32(&mut out, b);
    push_u64(&mut out, n);
    push_words(&mut out, words.as_slice());
    append_bytes(&mut out, codes.as_slice());
    assert(out@ =~= code_file(a, b, n, words@, codes@));
    out
}

/// The words and the codes of a file with `nw` words and `nc` bytes of codes, whose first header word is
/// `a` and whose count is `n`; none where the file is another one.
pub fn read_codes(bytes: &[u8], a: u32, n: u64, nw: usize, nc: usize) -> (r: Option<(Vec<u32>, Vec<u8>)>)
    requires
        16 + 4 * nw + nc <= usize::MAX,
    ensures
        match r {
            Some(f) => {
                &&& bytes@.len() == 16 + 4 * nw + nc
                &&& le32(bytes@.subrange(0, 4)) == a
                &&& le64(bytes@.subrange(8, 16)) == n
                &&& f.0@.len() == nw
                &&& forall|i: int| 0 <= i < nw ==> #[trigger] f.0@[i] == word_at(bytes@, i + 4)
                &&& f.1@ == bytes@.subrange(16 + 4 * nw, bytes@.len() as int)
            },
            None => bytes@.len() != 16 + 4 * nw + nc || le32(bytes@.subrange(0, 4)) != a || le64(bytes@.subrange(8, 16)) != n,
        },
{
    let len: usize = bytes.len();
    if len != 16 + 4 * nw + nc {
        return None;
    }
    if read_u32(bytes, 0) != a || read_u64(bytes, 8) != n {
        return None;
    }
    let part: &[u8] = slice_subrange(bytes, 16, len);
    let words: Vec<u32> = read_words(part, nw);
    proof {
        assert forall|i: int| 0 <= i < nw implies #[trigger] words@[i] == word_at(bytes@, i + 4) by {
            assert(part@.subrange(4 * i, 4 * i + 4) =~= bytes@.subrange(4 * (i + 4), 4 * (i + 4) + 4));
        }
    }
    let codes: Vec<u8> = slice_to_vec(slice_subrange(bytes, 16 + 4 * nw, len));
    Some((words, codes))
}

/// A file of codes is read as what was written: its words, its codes, and the header that it is asked
/// for by.
pub proof fn law_codes_come_back(a: u32, b: u32, n: u64, words: Seq<u32>, codes: Seq<u8>)
    ensures
        ({
            let file = code_file(a, b, n, words, codes);
            &&& file.len() == 16 + 4 * words.len() + codes.len()
            &&& le32(file.subrange(0, 4)) == a
            &&& le32(file.subrange(4, 8)) == b
            &&& le64(file.subrange(8, 16)) == n
            &&& forall|i: int| 0 <= i < words.len() ==> word_at(file, i + 4) == #[trigger] words[i]
            &&& file.subrange((16 + 4 * words.len()) as int, file.len() as int) == codes
        }),
{
    let file = code_file(a, b, n, words, codes);
    crate::bytes::law_words_come_back(a, n);
    crate::bytes::law_words_come_back(b, n);
    crate::bytes::law_word_strings_come_back(words);
    assert(file.subrange(0, 4) =~= bytes32(a));
    assert(file.subrange(4, 8) =~= bytes32(b));
    assert(file.subrange(8, 16) =~= bytes64(n));
    assert forall|i: int| 0 <= i < words.len() implies word_at(file, i + 4) == #[trigger] words[i] by {
        assert(file.subrange(4 * (i + 4), 4 * (i + 4) + 4) =~= word_bytes(words).subrange(4 * i, 4 * i + 4));
        assert(word_at(word_bytes(words), i) == words[i]);
    }
    assert(file.subrange((16 + 4 * words.len()) as int, file.len() as int) =~= codes);
}

/// How many of the first `k` sampled rows have a coordinate `j` of at most `v`.
pub open spec fn count_up_to(data: I8Bin<'_>, step: nat, j: int, v: int, k: nat) -> nat
    decreases k,
{
    if k == 0 {
        0
    } else {
        count_up_to(data, step, j, v, (k - 1) as nat) + if data.spec_row((k - 1) * step)[j] <= v { 1nat } else { 0nat }
    }
}

/// How many of the first `k` sampled rows have exactly the coordinate `v` at `j`.
pub open spec fn count_of(data: I8Bin<'_>, step: nat, j: int, v: int, k: nat) -> nat
    decreases k,
{
    if k == 0 {
        0
    } else {
        count_of(data, step, j, v, (k - 1) as nat) + if data.spec_row((k - 1) * step)[j] == v { 1nat } else { 0nat }
    }
}

/// How many rows are sampled from `n` with every `step`-th taken.
pub open spec fn sampled(n: nat, step: nat) -> nat {
    (n + step - 1) as nat / step
}

/// How many of `k` samples may lie outside a range at either end: one in two hundred, and one at least.
pub open spec fn outliers(k: nat) -> nat {
    if k / 200 > 1 { k / 200 } else { 1 }
}

/// The range of a coordinate: from the least value that at least so many samples do not exceed, to the
/// largest that at least so many do not fall below, and at least one wide.
pub open spec fn is_range(data: I8Bin<'_>, step: nat, j: int, k: nat, lo: int, hi: int) -> bool {
    let cut = outliers(k);
    &&& -128 <= lo <= 127
    &&& count_up_to(data, step, j, lo, k) >= cut
    &&& count_up_to(data, step, j, lo - 1, k) < cut
    &&& exists|top: int| {
        &&& -128 <= top <= 127
        &&& #[trigger] at_least(data, step, j, top, k) >= cut
        &&& at_least(data, step, j, top + 1, k) < cut
        &&& hi == (if top > lo + 1 { top } else { lo + 1 })
    }
}

/// How many of the first `k` sampled rows have a coordinate `j` of at least `v`.
pub open spec fn at_least(data: I8Bin<'_>, step: nat, j: int, v: int, k: nat) -> int {
    k - count_up_to(data, step, j, v - 1, k)
}

proof fn lemma_counts(data: I8Bin<'_>, step: nat, j: int, v: int, k: nat)
    ensures
        count_up_to(data, step, j, v, k) == count_up_to(data, step, j, v - 1, k) + count_of(data, step, j, v, k),
        count_up_to(data, step, j, v, k) <= k,
        v >= 127 ==> count_up_to(data, step, j, v, k) == k,
        v < -128 ==> count_up_to(data, step, j, v, k) == 0,
    decreases k,
{
    if k > 0 {
        lemma_counts(data, step, j, v, (k - 1) as nat);
    }
}

/// The range of coordinate `j` over the sampled rows.
fn coordinate_range(ds: &I8Bin<'_>, step: usize, k: usize, j: usize) -> (r: (i32, i32))
    requires
        ds.wf(),
        step > 0,
        k >= 1,
        (k - 1) * step < ds.nb,
        j < ds.d,
        k <= u32::MAX,
    ensures
        is_range(*ds, step as nat, j as int, k as nat, r.0 as int, r.1 as int),
{
    let ghost st = step as nat;
    let ghost jj = j as int;
    let ghost kk = k as nat;
    let mut hist: Vec<u32> = vec![0u32; 256];
    let mut t: usize = 0;
    while t < k
        invariant
            t <= k,
            k <= u32::MAX,
            ds.wf(),
            st == step,
            jj == j,
            j < ds.d,
            (k - 1) * step < ds.nb,
            hist@.len() == 256,
            forall|b: int| 0 <= b < 256 ==> #[trigger] hist@[b] == count_of(*ds, st, jj, b - 128, t as nat),
            forall|b: int| 0 <= b < 256 ==> #[trigger] hist@[b] <= t,
        decreases k - t,
    {
        assert(0 <= t * step <= (k - 1) * step) by (nonlinear_arith)
            requires
                0 <= t <= k - 1,
                step >= 0,
        ;
        let row: &[i8] = ds.row(t * step);
        let b: usize = (row[j] as i16 + 128) as usize;
        hist.set(b, hist[b] + 1);
        t = t + 1;
    }
    let cut: u32 = if k / 200 > 1 { (k / 200) as u32 } else { 1 };
    let mut acc: u32 = 0;
    let mut b: usize = 0;
    proof {
        lemma_counts(*ds, st, jj, -129, kk);
        lemma_counts(*ds, st, jj, 127, kk);
        lemma_counts(*ds, st, jj, -128, kk);
    }
    assert(hist@[0] == count_of(*ds, st, jj, 0 - 128, kk));
    while b < 255 && acc + hist[b] < cut
        invariant
            b <= 255,
            k <= u32::MAX,
            kk == k,
            hist@.len() == 256,
            cut == outliers(kk),
            forall|x: int| 0 <= x < 256 ==> #[trigger] hist@[x] == count_of(*ds, st, jj, x - 128, kk),
            acc == count_up_to(*ds, st, jj, b - 129, kk),
            acc < cut,
            acc + hist@[b as int] <= k,
        decreases 255 - b,
    {
        proof {
            lemma_counts(*ds, st, jj, b - 128, kk);
            lemma_counts(*ds, st, jj, b - 127, kk);
            assert(hist@[b as int] == count_of(*ds, st, jj, b - 128, kk));
            assert(hist@[b + 1] == count_of(*ds, st, jj, b + 1 - 128, kk));
        }
        acc = acc + hist[b];
        b = b + 1;
    }
    proof {
        lemma_counts(*ds, st, jj, b - 128, kk);
    }
    let lo: i32 = b as i32 - 128;
    let mut over: u32 = 0;
    let mut c: usize = 255;
    proof {
        lemma_counts(*ds, st, jj, 126, kk);
        lemma_counts(*ds, st, jj, 128, kk);
        assert(hist@[255] == count_of(*ds, st, jj, 255 - 128, kk));
    }
    while c > 0 && over + hist[c] < cut
        invariant
            c <= 255,
            k <= u32::MAX,
            kk == k,
            hist@.len() == 256,
            cut == outliers(kk),
            forall|x: int| 0 <= x < 256 ==> #[trigger] hist@[x] == count_of(*ds, st, jj, x - 128, kk),
            over == at_least(*ds, st, jj, c - 127, kk),
            over < cut,
            over + hist@[c as int] <= k,
        decreases c,
    {
        proof {
            lemma_counts(*ds, st, jj, c - 128, kk);
            lemma_counts(*ds, st, jj, c - 129, kk);
            assert(hist@[c as int] == count_of(*ds, st, jj, c - 128, kk));
            assert(hist@[c - 1] == count_of(*ds, st, jj, c - 1 - 128, kk));
        }
        over = over + hist[c];
        c = c - 1;
    }
    let top: i32 = c as i32 - 128;
    proof {
        lemma_counts(*ds, st, jj, c - 128, kk);
        lemma_counts(*ds, st, jj, c - 129, kk);
        assert(at_least(*ds, st, jj, top as int, kk) >= cut);
    }
    (lo, if top > lo + 1 { top } else { lo + 1 })
}

/// The ranges of all coordinates, from a sample of about 200,000 rows.
pub fn coordinate_ranges(ds: &I8Bin<'_>) -> (r: Vec<(i32, i32)>)
    requires
        ds.wf(),
        1 <= ds.nb <= u32::MAX,
    ensures
        r@.len() == ds.d,
        ({
            let step = if ds.nb / 200_000 > 1 { (ds.nb / 200_000) as nat } else { 1nat };
            forall|j: int| 0 <= j < ds.d ==> is_range(*ds, step, j, sampled(ds.nb as nat, step), (#[trigger] r@[j]).0 as int, r@[j].1 as int)
        }),
{
    let n: usize = ds.nb;
    let step: usize = if n / 200_000 > 1 { n / 200_000 } else { 1 };
    proof {
        let s = step as int;
        vstd::arithmetic::div_mod::lemma_fundamental_div_mod(n as int, s);
        let q = n as int / s;
        let m = n as int % s;
        assert(m > 0 ==> q < n) by (nonlinear_arith)
            requires
                n == s * q + m,
                s >= 1,
                q >= 0,
        ;
    }
    let k: usize = n / step + (if n % step == 0 { 0 } else { 1 });
    proof {
        let s = step as int;
        let q = n as int / s;
        let m = n as int % s;
        vstd::arithmetic::div_mod::lemma_fundamental_div_mod(n as int, s);
        if m == 0 {
            assert((n + s - 1) / s == q) by (nonlinear_arith)
                requires
                    n == s * q,
                    s > 0,
            ;
            assert((q - 1) * s < n) by (nonlinear_arith)
                requires
                    n == s * q,
                    s > 0,
            ;
            assert(q >= 1) by (nonlinear_arith)
                requires
                    n == s * q,
                    n >= 1,
                    s > 0,
            ;
        } else {
            assert((n + s - 1) / s == q + 1) by (nonlinear_arith)
                requires
                    n == s * q + m,
                    0 < m < s,
            ;
            assert(q * s < n) by (nonlinear_arith)
                requires
                    n == s * q + m,
                    0 < m,
            ;
        }
        assert(k == sampled(n as nat, step as nat));
        assert(q <= n) by (nonlinear_arith)
            requires
                n == s * q + m,
                0 <= m,
                s >= 1,
                q >= 0,
        ;
        assert(k <= n) by {
            if m != 0 {
                assert(q < n) by (nonlinear_arith)
                    requires
                        n == s * q + m,
                        0 < m,
                        s >= 1,
                        q >= 0,
                ;
            }
        }
    }
    let mut out: Vec<(i32, i32)> = Vec::new();
    let mut j: usize = 0;
    while j < ds.d
        invariant
            j <= ds.d,
            ds.wf(),
            n == ds.nb,
            n <= u32::MAX,
            step > 0,
            k >= 1,
            k <= n,
            (k - 1) * step < n,
            out@.len() == j,
            forall|i: int| 0 <= i < j ==> is_range(*ds, step as nat, i, k as nat, (#[trigger] out@[i]).0 as int, out@[i].1 as int),
        decreases ds.d - j,
    {
        out.push(coordinate_range(ds, step, k, j));
        j = j + 1;
    }
    out
}

// ---------------------------------------------------------------- starting points

/// A table of starting points, `s` for each query.
pub struct Seeds {
    pub s: usize,
    pub ids: Vec<u32>,
}

/// The table of starting points of a file: the number of queries, the number for each, then the ids;
/// none where the file ends before them.
pub fn read_seeds(bytes: &[u8]) -> (r: Option<Seeds>)
    ensures
        match r {
            Some(t) => {
                &&& bytes@.len() >= 8
                &&& t.s == le32(bytes@.subrange(4, 8))
                &&& t.ids@.len() == le32(bytes@.subrange(0, 4)) * le32(bytes@.subrange(4, 8))
                &&& 8 + 4 * t.ids@.len() <= bytes@.len()
                &&& forall|i: int| 0 <= i < t.ids@.len() ==> #[trigger] t.ids@[i] == word_at(bytes@, i + 2)
            },
            None => bytes@.len() < 8 || bytes@.len() < 8 + 4 * (le32(bytes@.subrange(0, 4)) * le32(bytes@.subrange(4, 8))),
        },
{
    match crate::report::read_gt(bytes) {
        Err(_) => None,
        Ok(t) => Some(Seeds { s: t.k, ids: t.ids }),
    }
}

impl Seeds {
    /// The starting points of query `i`, at most `most` of them and at least one; none where the table
    /// does not reach that far.
    pub fn of(&self, i: usize, most: usize) -> (r: Option<&[u32]>)
        ensures
            match r {
                Some(e) => {
                    let ne = if most < 1 { 1 } else if most > self.s { self.s } else { most };
                    &&& self.s > 0
                    &&& (i + 1) * self.s <= self.ids@.len()
                    &&& e@ == self.ids@.subrange(i * self.s, i * self.s + ne)
                },
                None => self.s == 0 || (i + 1) * self.s > self.ids@.len(),
            },
    {
        let len: usize = self.ids.len();
        let s: usize = self.s;
        if s == 0 {
            return None;
        }
        if i >= len / s {
            proof {
                assert((i + 1) * s > len) by (nonlinear_arith)
                    requires
                        i >= len as int / s as int,
                        s > 0,
                ;
            }
            return None;
        }
        proof {
            assert((i + 1) * s <= len && i * s + s == (i + 1) * s && 0 <= i * s) by (nonlinear_arith)
                requires
                    i + 1 <= len as int / s as int,
                    s > 0,
            ;
        }
        let ne: usize = if most < 1 { 1 } else if most > s { s } else { most };
        Some(slice_subrange(self.ids.as_slice(), i * s, i * s + ne))
    }
}

} // verus!
