//! Image of a whole index: writing it, reading it back, and taking an index up again.
use vstd::prelude::*;
use crate::bytes::{
    as_signed, bytes32, bytes64, law_signs_come_back, law_word_strings_come_back, read_words, signed_seq, unsigned_seq, word_bytes,
};
use crate::hier::HierRouter;
use crate::persist::{double_bytes, region, words_of, Pr, Sw};
use crate::pq::Pq;
use crate::store::{
    byte_views, lemma_put_pq, lemma_put_regions, lemma_put_regions_push, lemma_regions_come_back, lemma_take_opt_pq,
    lemma_take_region, lemma_take_size, lemma_take_sizes, lemma_take_u32, lemma_take_u8, lemma_words_fit, load_opt_pq, opt_parts,
    put_list, put_opt_pq, put_pq, put_regions, save_opt_pq, take_list, take_opt_pq, take_region, take_size, take_sizes, take_u32,
    take_u8, try_list, try_size, try_sizes, try_u32, try_u32s, try_u8, try_u8s, PqParts,
};

verus! {

// ---------------------------------------------------------------- lists of arrays

/// The bytes of 16-bit words, least significant first.
pub open spec fn half_bytes(v: Seq<u16>) -> Seq<u8> {
    Seq::new(2 * v.len(), |i: int| if i % 2 == 0 { (v[i / 2] % 0x100) as u8 } else { (v[i / 2] / 0x100) as u8 })
}

/// The 16-bit words of a byte string; an odd last byte is left out.
pub open spec fn halves_of(b: Seq<u8>) -> Seq<u16> {
    Seq::new(b.len() / 2, |i: int| (b[2 * i] + 0x100 * b[2 * i + 1]) as u16)
}

proof fn lemma_halves_come_back(v: Seq<u16>)
    ensures
        halves_of(half_bytes(v)) == v,
{
    let b = half_bytes(v);
    assert forall|i: int| 0 <= i < v.len() implies halves_of(b)[i] == v[i] by {
        assert((2 * i) % 2 == 0 && (2 * i) / 2 == i && (2 * i + 1) % 2 == 1 && (2 * i + 1) / 2 == i);
        assert(b[2 * i] == (v[i] % 0x100) as u8);
        assert(b[2 * i + 1] == (v[i] / 0x100) as u8);
    }
    assert(halves_of(b) =~= v);
}

/// The contents of nested vectors.
pub open spec fn nested<T>(v: Seq<Vec<T>>) -> Seq<Seq<T>> {
    Seq::new(v.len(), |i: int| v[i]@)
}

pub open spec fn i8_regions(v: Seq<Seq<i8>>) -> Seq<Seq<u8>> {
    Seq::new(v.len(), |i: int| unsigned_seq(v[i]))
}

pub open spec fn u32_regions(v: Seq<Seq<u32>>) -> Seq<Seq<u8>> {
    Seq::new(v.len(), |i: int| word_bytes(v[i]))
}

pub open spec fn u16_regions(v: Seq<Seq<u16>>) -> Seq<Seq<u8>> {
    Seq::new(v.len(), |i: int| half_bytes(v[i]))
}

pub open spec fn i8_lists(v: Seq<Seq<u8>>) -> Seq<Seq<i8>> {
    Seq::new(v.len(), |i: int| signed_seq(v[i]))
}

pub open spec fn u32_lists(v: Seq<Seq<u8>>) -> Seq<Seq<u32>> {
    Seq::new(v.len(), |i: int| words_of(v[i]))
}

pub open spec fn u16_lists(v: Seq<Seq<u8>>) -> Seq<Seq<u16>> {
    Seq::new(v.len(), |i: int| halves_of(v[i]))
}

/// Every array of a list is short enough for its byte count to be a double word.
pub open spec fn lists_fit<T>(v: Seq<Seq<T>>, width: nat) -> bool {
    forall|i: int| 0 <= i < v.len() ==> width * (#[trigger] v[i]).len() <= u64::MAX
}

proof fn lemma_take_list(v: Seq<Seq<u8>>, tail: Seq<u8>)
    requires
        v.len() <= usize::MAX,
        lists_fit(v, 1),
    ensures
        take_list(put_list(v, tail)) == Some((v, tail)),
{
    assert forall|i: int| 0 <= i < v.len() implies (#[trigger] v[i]).len() <= u64::MAX by {
        assert(1 * v[i].len() <= u64::MAX);
    }
    lemma_take_size(v.len() as usize, put_regions(v, tail));
    lemma_regions_come_back(v, tail);
}

proof fn lemma_put_list(v: Seq<Seq<u8>>, tail: Seq<u8>)
    ensures
        put_list(v, tail) == put_list(v, Seq::empty()) + tail,
{
    lemma_put_regions(v, tail);
    assert(put_list(v, tail) =~= put_list(v, Seq::empty()) + tail);
}

proof fn lemma_lists_come_back(a: Seq<Seq<i8>>, b: Seq<Seq<u32>>, c: Seq<Seq<u16>>)
    requires
        lists_fit(a, 1),
        lists_fit(b, 4),
        lists_fit(c, 2),
    ensures
        i8_lists(i8_regions(a)) == a,
        u32_lists(u32_regions(b)) == b,
        u16_lists(u16_regions(c)) == c,
        lists_fit(i8_regions(a), 1),
        lists_fit(u32_regions(b), 1),
        lists_fit(u16_regions(c), 1),
{
    assert forall|i: int| 0 <= i < a.len() implies i8_lists(i8_regions(a))[i] == #[trigger] a[i] by {
        law_signs_come_back(a[i], Seq::empty());
    }
    assert(i8_lists(i8_regions(a)) =~= a);
    assert forall|i: int| 0 <= i < b.len() implies u32_lists(u32_regions(b))[i] == #[trigger] b[i] by {
        lemma_words_fit(b[i]);
    }
    assert(u32_lists(u32_regions(b)) =~= b);
    assert forall|i: int| 0 <= i < c.len() implies u16_lists(u16_regions(c))[i] == #[trigger] c[i] by {
        lemma_halves_come_back(c[i]);
    }
    assert(u16_lists(u16_regions(c)) =~= c);
    assert forall|i: int| 0 <= i < a.len() implies 1 * (#[trigger] i8_regions(a)[i]).len() <= u64::MAX by {
        assert(1 * a[i].len() <= u64::MAX);
    }
    assert forall|i: int| 0 <= i < b.len() implies 1 * (#[trigger] u32_regions(b)[i]).len() <= u64::MAX by {
        assert(4 * b[i].len() <= u64::MAX);
        law_word_strings_come_back(b[i]);
    }
    assert forall|i: int| 0 <= i < c.len() implies 1 * (#[trigger] u16_regions(c)[i]).len() <= u64::MAX by {
        assert(2 * c[i].len() <= u64::MAX);
    }
}

fn save_i8_list(v: &Vec<Vec<i8>>, w: &mut Sw)
    ensures
        final(w).w@ == old(w).w@ + put_list(i8_regions(nested(v@)), Seq::empty()),
{
    let ghost all = i8_regions(nested(v@));
    let n: usize = v.len();
    w.usize(n);
    let ghost start = w.w@;
    let mut i: usize = 0;
    assert(all.take(0) =~= Seq::<Seq<u8>>::empty());
    assert(w.w@ =~= start + put_regions(all.take(0), Seq::empty()));
    while i < n
        invariant
            i <= n,
            n == v@.len(),
            all == i8_regions(nested(v@)),
            w.w@ == start + put_regions(all.take(i as int), Seq::empty()),
        decreases n - i,
    {
        w.i8s(v[i].as_slice());
        proof {
            lemma_put_regions_push(all.take(i as int), all[i as int]);
            assert(all.take(i + 1) =~= all.take(i as int).push(all[i as int]));
            assert(w.w@ =~= start + put_regions(all.take(i + 1), Seq::empty()));
        }
        i = i + 1;
    }
    assert(all.take(n as int) =~= all);
    assert(w.w@ =~= old(w).w@ + put_list(all, Seq::empty()));
}

fn save_u32_list(v: &Vec<Vec<u32>>, w: &mut Sw)
    requires
        lists_fit(nested(v@), 4),
    ensures
        final(w).w@ == old(w).w@ + put_list(u32_regions(nested(v@)), Seq::empty()),
{
    let ghost all = u32_regions(nested(v@));
    let n: usize = v.len();
    w.usize(n);
    let ghost start = w.w@;
    let mut i: usize = 0;
    assert(all.take(0) =~= Seq::<Seq<u8>>::empty());
    assert(w.w@ =~= start + put_regions(all.take(0), Seq::empty()));
    while i < n
        invariant
            i <= n,
            n == v@.len(),
            lists_fit(nested(v@), 4),
            all == u32_regions(nested(v@)),
            w.w@ == start + put_regions(all.take(i as int), Seq::empty()),
        decreases n - i,
    {
        assert(4 * nested(v@)[i as int].len() <= u64::MAX);
        w.u32s(v[i].as_slice());
        proof {
            lemma_put_regions_push(all.take(i as int), all[i as int]);
            assert(all.take(i + 1) =~= all.take(i as int).push(all[i as int]));
            assert(w.w@ =~= start + put_regions(all.take(i + 1), Seq::empty()));
        }
        i = i + 1;
    }
    assert(all.take(n as int) =~= all);
    assert(w.w@ =~= old(w).w@ + put_list(all, Seq::empty()));
}

fn bytes_of_halves(v: &Vec<u16>) -> (r: Vec<u8>)
    ensures
        r@ == half_bytes(v@),
{
    let n: usize = v.len();
    let mut out: Vec<u8> = Vec::new();
    let mut i: usize = 0;
    while i < n
        invariant
            i <= n,
            n == v@.len(),
            out@.len() == 2 * i,
            forall|j: int| 0 <= j < 2 * i ==> #[trigger] out@[j] == half_bytes(v@)[j],
        decreases n - i,
    {
        let x: u16 = v[i];
        proof {
            let k = i as int;
            assert((2 * k) % 2 == 0 && (2 * k) / 2 == k && (2 * k + 1) % 2 == 1 && (2 * k + 1) / 2 == k);
        }
        out.push((x % 0x100) as u8);
        out.push((x / 0x100) as u8);
        i = i + 1;
    }
    assert(out@ =~= half_bytes(v@));
    out
}

fn save_u16_list(v: &Vec<Vec<u16>>, w: &mut Sw)
    ensures
        final(w).w@ == old(w).w@ + put_list(u16_regions(nested(v@)), Seq::empty()),
{
    let ghost all = u16_regions(nested(v@));
    let n: usize = v.len();
    w.usize(n);
    let ghost start = w.w@;
    let mut i: usize = 0;
    assert(all.take(0) =~= Seq::<Seq<u8>>::empty());
    assert(w.w@ =~= start + put_regions(all.take(0), Seq::empty()));
    while i < n
        invariant
            i <= n,
            n == v@.len(),
            all == u16_regions(nested(v@)),
            w.w@ == start + put_regions(all.take(i as int), Seq::empty()),
        decreases n - i,
    {
        let b = bytes_of_halves(&v[i]);
        w.u8s(b.as_slice());
        proof {
            lemma_put_regions_push(all.take(i as int), all[i as int]);
            assert(all.take(i + 1) =~= all.take(i as int).push(all[i as int]));
            assert(w.w@ =~= start + put_regions(all.take(i + 1), Seq::empty()));
        }
        i = i + 1;
    }
    assert(all.take(n as int) =~= all);
    assert(w.w@ =~= old(w).w@ + put_list(all, Seq::empty()));
}

fn to_i8_lists(v: &Vec<&[u8]>) -> (r: Vec<Vec<i8>>)
    ensures
        nested(r@) == i8_lists(byte_views(v@)),
{
    let n: usize = v.len();
    let mut out: Vec<Vec<i8>> = Vec::with_capacity(n);
    let mut i: usize = 0;
    while i < n
        invariant
            i <= n,
            n == v@.len(),
            out@.len() == i,
            forall|j: int| 0 <= j < i ==> (#[trigger] out@[j])@ == signed_seq(v@[j]@),
        decreases n - i,
    {
        out.push(vstd::slice::slice_to_vec(as_signed(v[i])));
        i = i + 1;
    }
    assert(nested(out@) =~= i8_lists(byte_views(v@)));
    out
}

fn to_u32_lists(v: &Vec<&[u8]>) -> (r: Vec<Vec<u32>>)
    ensures
        nested(r@) == u32_lists(byte_views(v@)),
{
    let n: usize = v.len();
    let mut out: Vec<Vec<u32>> = Vec::with_capacity(n);
    let mut i: usize = 0;
    while i < n
        invariant
            i <= n,
            n == v@.len(),
            out@.len() == i,
            forall|j: int| 0 <= j < i ==> (#[trigger] out@[j])@ == words_of(v@[j]@),
        decreases n - i,
    {
        let b: &[u8] = v[i];
        let words = read_words(b, b.len() / 4);
        assert(words@ =~= words_of(b@));
        out.push(words);
        i = i + 1;
    }
    assert(nested(out@) =~= u32_lists(byte_views(v@)));
    out
}

fn to_u16_lists(v: &Vec<&[u8]>) -> (r: Vec<Vec<u16>>)
    ensures
        nested(r@) == u16_lists(byte_views(v@)),
{
    let n: usize = v.len();
    let mut out: Vec<Vec<u16>> = Vec::with_capacity(n);
    let mut i: usize = 0;
    while i < n
        invariant
            i <= n,
            n == v@.len(),
            out@.len() == i,
            forall|j: int| 0 <= j < i ==> (#[trigger] out@[j])@ == halves_of(v@[j]@),
        decreases n - i,
    {
        let b: &[u8] = v[i];
        let blen: usize = b.len();
        let m: usize = blen / 2;
        let mut row: Vec<u16> = Vec::with_capacity(m);
        let mut k: usize = 0;
        while k < m
            invariant
                k <= m,
                m == blen / 2,
                blen == b@.len(),
                row@.len() == k,
                forall|j: int| 0 <= j < k ==> #[trigger] row@[j] == halves_of(b@)[j],
            decreases m - k,
        {
            row.push(b[2 * k] as u16 + 0x100 * (b[2 * k + 1] as u16));
            k = k + 1;
        }
        assert(row@ =~= halves_of(b@));
        out.push(row);
        i = i + 1;
    }
    assert(nested(out@) =~= u16_lists(byte_views(v@)));
    out
}

// ---------------------------------------------------------------- router

/// Tag of a router without half-precision centroids.
pub const ROUTER_TAG_HIER: u8 = 1;

/// Tag of a router with half-precision centroids behind its other fields.
pub const ROUTER_TAG_HIER_F16: u8 = 2;

/// Tag of an anisotropic codebook.
pub const COMP_TAG_APQ4: u8 = 1;

/// Tag of a plain codebook.
pub const COMP_TAG_PQ4: u8 = 2;

/// Why a byte string is not an index image.
#[derive(Clone, Copy, Debug, PartialEq, Eq, Structural)]
pub enum LoadError {
    /// It does not start with the magic.
    BadMagic,
    /// It is of another version.
    BadVersion(u32),
    /// It ends too early.
    Truncated,
    /// Its router is of an unknown type.
    UnknownRouter(u8),
    /// Its codebook is of an unknown type.
    UnknownCodebook(u8),
}

/// What is stored of a router.
#[verifier::ext_equal]
pub struct RouterParts {
    pub d: usize,
    pub kf: usize,
    pub levels: usize,
    pub soar: u32,
    pub mu: Seq<u32>,
    pub cent: Seq<Seq<i8>>,
    pub child: Seq<Seq<u32>>,
    pub beam: Seq<usize>,
    pub radc: Option<PqParts>,
    pub rcodes: Seq<u8>,
    pub rblocks: Seq<u8>,
    pub cent_f16: Seq<Seq<u16>>,
}

/// The stored fields of a router.
pub struct RouterImage {
    pub d: usize,
    pub kf: usize,
    pub levels: usize,
    pub soar: u32,
    pub mu: Vec<u32>,
    pub cent: Vec<Vec<i8>>,
    pub child: Vec<Vec<u32>>,
    pub beam: Vec<usize>,
    pub radc: Option<Pq>,
    pub rcodes: Vec<u8>,
    pub rblocks: Vec<u8>,
    pub cent_f16: Vec<Vec<u16>>,
}

impl RouterImage {
    pub open spec fn parts(&self) -> RouterParts {
        RouterParts {
            d: self.d,
            kf: self.kf,
            levels: self.levels,
            soar: self.soar,
            mu: self.mu@,
            cent: nested(self.cent@),
            child: nested(self.child@),
            beam: self.beam@,
            radc: opt_parts(self.radc),
            rcodes: self.rcodes@,
            rblocks: self.rblocks@,
            cent_f16: nested(self.cent_f16@),
        }
    }
}

impl HierRouter {
    pub open spec fn parts(&self) -> RouterParts {
        RouterParts {
            d: self.d,
            kf: self.kf,
            levels: self.levels,
            soar: self.soar,
            mu: self.mu@,
            cent: nested(self.cent@),
            child: nested(self.child@),
            beam: self.beam@,
            radc: opt_parts(self.radc),
            rcodes: self.rcodes@,
            rblocks: self.rblocks@,
            cent_f16: nested(self.cent_f16@),
        }
    }
}

impl RouterParts {
    /// The byte counts of all arrays fit.
    pub open spec fn fits(&self) -> bool {
        &&& 4 * self.mu.len() <= u64::MAX
        &&& self.cent.len() <= usize::MAX
        &&& lists_fit(self.cent, 1)
        &&& self.child.len() <= usize::MAX
        &&& lists_fit(self.child, 4)
        &&& self.beam.len() <= u64::MAX
        &&& match self.radc {
            Some(p) => 4 * p.cent.len() <= u64::MAX,
            None => true,
        }
        &&& self.rcodes.len() <= u64::MAX
        &&& self.rblocks.len() <= u64::MAX
        &&& self.cent_f16.len() <= usize::MAX
        &&& lists_fit(self.cent_f16, 2)
    }
}

/// Half-precision centroids, stored only where there are some.
pub open spec fn put_f16(v: Seq<Seq<u16>>, tail: Seq<u8>) -> Seq<u8> {
    if v.len() > 0 {
        put_list(u16_regions(v), tail)
    } else {
        tail
    }
}

/// The codes and what follows them.
pub open spec fn put_codes(v: RouterParts, tail: Seq<u8>) -> Seq<u8> {
    put_opt_pq(v.radc, region(v.rcodes) + (region(v.rblocks) + put_f16(v.cent_f16, tail)))
}

/// The tree and what follows it.
pub open spec fn put_tree(v: RouterParts, tail: Seq<u8>) -> Seq<u8> {
    put_list(i8_regions(v.cent), put_list(u32_regions(v.child), bytes64(v.beam.len() as u64) + double_bytes(v.beam) + put_codes(v, tail)))
}

pub open spec fn put_router(v: RouterParts, tail: Seq<u8>) -> Seq<u8> {
    seq![if v.cent_f16.len() > 0 { ROUTER_TAG_HIER_F16 } else { ROUTER_TAG_HIER }] + (bytes64(v.d as u64) + (bytes64(v.kf as u64) + (bytes64(v.levels as u64) + (bytes32(v.soar) + (region(word_bytes(v.mu)) + put_tree(v, tail))))))
}

pub open spec fn take_f16(b: Seq<u8>, tag: u8) -> Option<(Seq<Seq<u16>>, Seq<u8>)> {
    if tag == ROUTER_TAG_HIER_F16 {
        match take_list(b) {
            None => None,
            Some((x, b)) => Some((u16_lists(x), b)),
        }
    } else {
        Some((Seq::empty(), b))
    }
}

/// Codes: codebook, codes, packed codes, half-precision centroids.
pub open spec fn take_codes(b: Seq<u8>, tag: u8) -> Option<((Option<PqParts>, Seq<u8>, Seq<u8>, Seq<Seq<u16>>), Seq<u8>)> {
    match take_opt_pq(b) {
        None => None,
        Some((radc, b)) => match take_region(b) {
            None => None,
            Some((rcodes, b)) => match take_region(b) {
                None => None,
                Some((rblocks, b)) => match take_f16(b, tag) {
                    None => None,
                    Some((half, b)) => Some(((radc, rcodes, rblocks, half), b)),
                },
            },
        },
    }
}

/// Tree: centroids, child starts, beams.
pub open spec fn take_tree(b: Seq<u8>) -> Option<((Seq<Seq<i8>>, Seq<Seq<u32>>, Seq<usize>), Seq<u8>)> {
    match take_list(b) {
        None => None,
        Some((cent, b)) => match take_list(b) {
            None => None,
            Some((child, b)) => match take_sizes(b) {
                None => None,
                Some((beam, b)) => Some(((i8_lists(cent), u32_lists(child), beam), b)),
            },
        },
    }
}

pub open spec fn take_router(b: Seq<u8>) -> Result<(RouterParts, Seq<u8>), LoadError> {
    match take_u8(b) {
        None => Err(LoadError::Truncated),
        Some((tag, b)) => if tag != ROUTER_TAG_HIER && tag != ROUTER_TAG_HIER_F16 {
            Err(LoadError::UnknownRouter(tag))
        } else {
            match take_size(b) {
                None => Err(LoadError::Truncated),
                Some((d, b)) => match take_size(b) {
                    None => Err(LoadError::Truncated),
                    Some((kf, b)) => match take_size(b) {
                        None => Err(LoadError::Truncated),
                        Some((levels, b)) => match take_u32(b) {
                            None => Err(LoadError::Truncated),
                            Some((soar, b)) => match take_region(b) {
                                None => Err(LoadError::Truncated),
                                Some((mu, b)) => match take_tree(b) {
                                    None => Err(LoadError::Truncated),
                                    Some((tree, b)) => match take_codes(b, tag) {
                                        None => Err(LoadError::Truncated),
                                        Some((codes, b)) => Ok(
                                            (
                                                RouterParts {
                                                    d,
                                                    kf,
                                                    levels,
                                                    soar,
                                                    mu: words_of(mu),
                                                    cent: tree.0,
                                                    child: tree.1,
                                                    beam: tree.2,
                                                    radc: codes.0,
                                                    rcodes: codes.1,
                                                    rblocks: codes.2,
                                                    cent_f16: codes.3,
                                                },
                                                b,
                                            ),
                                        ),
                                    },
                                },
                            },
                        },
                    },
                },
            }
        },
    }
}

pub proof fn lemma_take_router(v: RouterParts, tail: Seq<u8>)
    requires
        v.fits(),
    ensures
        take_router(put_router(v, tail)) == Ok::<(RouterParts, Seq<u8>), LoadError>((v, tail)),
{
    let tag = if v.cent_f16.len() > 0 {
        ROUTER_TAG_HIER_F16
    } else {
        ROUTER_TAG_HIER
    };
    lemma_lists_come_back(v.cent, v.child, v.cent_f16);
    // codes
    let c2 = put_f16(v.cent_f16, tail);
    let c1 = region(v.rblocks) + c2;
    let c0 = region(v.rcodes) + c1;
    if v.cent_f16.len() > 0 {
        lemma_take_list(u16_regions(v.cent_f16), tail);
    } else {
        assert(v.cent_f16 =~= Seq::<Seq<u16>>::empty());
    }
    lemma_take_region(v.rblocks, c2);
    lemma_take_region(v.rcodes, c1);
    lemma_take_opt_pq(v.radc, c0);
    let codes = put_codes(v, tail);
    assert(take_codes(codes, tag) == Some(((v.radc, v.rcodes, v.rblocks, v.cent_f16), tail)));
    // tree
    let t1 = bytes64(v.beam.len() as u64) + double_bytes(v.beam) + codes;
    let t0 = put_list(u32_regions(v.child), t1);
    lemma_take_sizes(v.beam, codes);
    lemma_take_list(u32_regions(v.child), t1);
    lemma_take_list(i8_regions(v.cent), t0);
    let tree = put_tree(v, tail);
    assert(take_tree(tree) == Some(((v.cent, v.child, v.beam), codes)));
    // scalars
    let b4 = region(word_bytes(v.mu)) + tree;
    let b3 = bytes32(v.soar) + b4;
    let b2 = bytes64(v.levels as u64) + b3;
    let b1 = bytes64(v.kf as u64) + b2;
    let b0 = bytes64(v.d as u64) + b1;
    lemma_words_fit(v.mu);
    lemma_take_region(word_bytes(v.mu), tree);
    lemma_take_u32(v.soar, b4);
    lemma_take_size(v.levels, b3);
    lemma_take_size(v.kf, b2);
    lemma_take_size(v.d, b1);
    lemma_take_u8(tag, b0);
}

pub proof fn assoc(a: Seq<u8>, b: Seq<u8>, c: Seq<u8>)
    ensures
        a + (b + c) == (a + b) + c,
{
    assert(a + (b + c) =~= (a + b) + c);
}

pub proof fn chain3(w: Seq<u8>, a: Seq<u8>, b: Seq<u8>, c: Seq<u8>)
    ensures
        w + (a + (b + c)) == ((w + a) + b) + c,
{
    assoc(w, a, b + c);
    assoc(w + a, b, c);
}

pub proof fn chain6(w: Seq<u8>, a: Seq<u8>, b: Seq<u8>, c: Seq<u8>, d: Seq<u8>, e: Seq<u8>, f: Seq<u8>)
    ensures
        w + (a + (b + (c + (d + (e + f))))) == (((((w + a) + b) + c) + d) + e) + f,
{
    chain3(w, a, b, c + (d + (e + f)));
    chain3((w + a) + b, c, d, e + f);
    assoc((((w + a) + b) + c) + d, e, f);
}

/// Any bytes of a list are the list's own bytes and what follows.
proof fn lemma_list_split(v: Seq<Seq<u8>>, x: Seq<u8>, tail: Seq<u8>)
    ensures
        put_list(v, x + tail) == put_list(v, x) + tail,
{
    lemma_put_list(v, x + tail);
    lemma_put_list(v, x);
    assoc(put_list(v, Seq::empty()), x, tail);
}

proof fn lemma_pq_split(v: PqParts, x: Seq<u8>, tail: Seq<u8>)
    ensures
        put_pq(v, x + tail) == put_pq(v, x) + tail,
{
    lemma_put_pq(v, x + tail);
    lemma_put_pq(v, x);
    assoc(put_pq(v, Seq::empty()), x, tail);
}

proof fn lemma_opt_pq_split(v: Option<PqParts>, x: Seq<u8>, tail: Seq<u8>)
    ensures
        put_opt_pq(v, x + tail) == put_opt_pq(v, x) + tail,
{
    match v {
        Some(p) => {
            lemma_pq_split(p, x, tail);
            assoc(seq![1u8], put_pq(p, x), tail);
        },
        None => {
            assoc(seq![0u8], x, tail);
        },
    }
}

proof fn lemma_codes_split(v: RouterParts, x: Seq<u8>, tail: Seq<u8>)
    ensures
        put_codes(v, x + tail) == put_codes(v, x) + tail,
{
    let f = put_f16(v.cent_f16, x);
    assert(put_f16(v.cent_f16, x + tail) == f + tail) by {
        if v.cent_f16.len() > 0 {
            lemma_list_split(u16_regions(v.cent_f16), x, tail);
        }
    }
    let b = region(v.rblocks);
    let a = region(v.rcodes);
    assoc(b, f, tail);
    assoc(a, b + f, tail);
    lemma_opt_pq_split(v.radc, a + (b + f), tail);
}

proof fn lemma_tree_split(v: RouterParts, x: Seq<u8>, tail: Seq<u8>)
    ensures
        put_tree(v, x + tail) == put_tree(v, x) + tail,
{
    lemma_codes_split(v, x, tail);
    let beams = bytes64(v.beam.len() as u64) + double_bytes(v.beam);
    let c = put_codes(v, x);
    assoc(beams, c, tail);
    lemma_list_split(u32_regions(v.child), beams + c, tail);
    lemma_list_split(i8_regions(v.cent), put_list(u32_regions(v.child), beams + c), tail);
}

pub proof fn lemma_router_split(v: RouterParts, x: Seq<u8>, tail: Seq<u8>)
    ensures
        put_router(v, x + tail) == put_router(v, x) + tail,
{
    lemma_tree_split(v, x, tail);
    let t = put_tree(v, x);
    let b4 = region(word_bytes(v.mu)) + t;
    let b3 = bytes32(v.soar) + b4;
    let b2 = bytes64(v.levels as u64) + b3;
    let b1 = bytes64(v.kf as u64) + b2;
    let b0 = bytes64(v.d as u64) + b1;
    assoc(region(word_bytes(v.mu)), t, tail);
    assoc(bytes32(v.soar), b4, tail);
    assoc(bytes64(v.levels as u64), b3, tail);
    assoc(bytes64(v.kf as u64), b2, tail);
    assoc(bytes64(v.d as u64), b1, tail);
    assoc(seq![if v.cent_f16.len() > 0 { ROUTER_TAG_HIER_F16 } else { ROUTER_TAG_HIER }], b0, tail);
}

impl HierRouter {
    /// Append the router to an image.
    pub fn save(&self, w: &mut Sw)
        requires
            self.parts().fits(),
        ensures
            final(w).w@ == old(w).w@ + put_router(self.parts(), Seq::empty()),
    {
        let ghost v = self.parts();
        let ghost e = Seq::<u8>::empty();
        let ghost w0 = w.w@;
        let half = self.cent_f16.len() > 0;
        w.u8(if half { ROUTER_TAG_HIER_F16 } else { ROUTER_TAG_HIER });
        let ghost tag = seq![if v.cent_f16.len() > 0 { ROUTER_TAG_HIER_F16 } else { ROUTER_TAG_HIER }];
        assert(w.w@ =~= w0 + tag);
        w.usize(self.d);
        w.usize(self.kf);
        w.usize(self.levels);
        w.f32_bits(self.soar);
        w.f32s(self.mu.as_slice());
        self.save_tree(w);
        proof {
            chain6(w0, tag, bytes64(v.d as u64), bytes64(v.kf as u64), bytes64(v.levels as u64), bytes32(v.soar), region(word_bytes(v.mu)) + put_tree(v, e));
            assoc(((((w0 + tag) + bytes64(v.d as u64)) + bytes64(v.kf as u64)) + bytes64(v.levels as u64)) + bytes32(v.soar), region(word_bytes(v.mu)), put_tree(v, e));
        }
    }

    fn save_tree(&self, w: &mut Sw)
        requires
            self.parts().fits(),
        ensures
            final(w).w@ == old(w).w@ + put_tree(self.parts(), Seq::empty()),
    {
        let ghost v = self.parts();
        let ghost e = Seq::<u8>::empty();
        let ghost w0 = w.w@;
        save_i8_list(&self.cent, w);
        let ghost l1 = put_list(i8_regions(v.cent), e);
        save_u32_list(&self.child, w);
        let ghost l2 = put_list(u32_regions(v.child), e);
        w.usizes(self.beam.as_slice());
        let ghost beams = bytes64(v.beam.len() as u64) + double_bytes(v.beam);
        assert(w.w@ =~= ((w0 + l1) + l2) + beams);
        let ghost codes = put_codes(v, e);
        self.save_codes(w);
        proof {
            lemma_put_list(u32_regions(v.child), beams + codes);
            lemma_put_list(i8_regions(v.cent), put_list(u32_regions(v.child), beams + codes));
            chain3(w0, l1, l2, beams + codes);
            assoc((w0 + l1) + l2, beams, codes);
        }
    }

    fn save_codes(&self, w: &mut Sw)
        requires
            self.parts().fits(),
        ensures
            final(w).w@ == old(w).w@ + put_codes(self.parts(), Seq::empty()),
    {
        let ghost v = self.parts();
        let ghost e = Seq::<u8>::empty();
        let ghost w0 = w.w@;
        save_opt_pq(&self.radc, w);
        let ghost p = put_opt_pq(v.radc, e);
        w.u8s(self.rcodes.as_slice());
        w.u8s(self.rblocks.as_slice());
        let ghost (a, b) = (region(v.rcodes), region(v.rblocks));
        let ghost w1 = w.w@;
        if self.cent_f16.len() > 0 {
            save_u16_list(&self.cent_f16, w);
        }
        proof {
            let f = put_f16(v.cent_f16, e);
            assert(w.w@ == w1 + f) by {
                if v.cent_f16.len() == 0 {
                    assert(w1 + e =~= w1);
                }
            }
            assert(e + (a + (b + f)) =~= a + (b + f));
            lemma_opt_pq_split(v.radc, e, a + (b + f));
            chain3(w0, p, a, b + f);
            assoc((w0 + p) + a, b, f);
        }
    }
}

/// Read a router.
pub(crate) fn load_router(r: &mut Pr<'_>) -> (x: Result<RouterImage, LoadError>)
    requires
        old(r).wf(),
    ensures
        final(r).wf(),
        match take_router(old(r).left()) {
            Ok(p) => x is Ok && x->Ok_0.parts() == p.0 && final(r).left() == p.1,
            Err(e) => x is Err && x->Err_0 == e,
        },
{
    let tag: u8 = match try_u8(r) {
        Some(v) => v,
        None => {
            return Err(LoadError::Truncated);
        },
    };
    if tag != ROUTER_TAG_HIER && tag != ROUTER_TAG_HIER_F16 {
        return Err(LoadError::UnknownRouter(tag));
    }
    let d: usize = match try_size(r) {
        Some(v) => v,
        None => {
            return Err(LoadError::Truncated);
        },
    };
    let kf: usize = match try_size(r) {
        Some(v) => v,
        None => {
            return Err(LoadError::Truncated);
        },
    };
    let levels: usize = match try_size(r) {
        Some(v) => v,
        None => {
            return Err(LoadError::Truncated);
        },
    };
    let soar: u32 = match try_u32(r) {
        Some(v) => v,
        None => {
            return Err(LoadError::Truncated);
        },
    };
    let mu: Vec<u32> = match try_u32s(r) {
        Some(v) => v,
        None => {
            return Err(LoadError::Truncated);
        },
    };
    let (cent, child, beam) = match load_tree(r) {
        Some(v) => v,
        None => {
            return Err(LoadError::Truncated);
        },
    };
    let (radc, rcodes, rblocks, cent_f16) = match load_codes(r, tag) {
        Some(v) => v,
        None => {
            return Err(LoadError::Truncated);
        },
    };
    Ok(RouterImage { d, kf, levels, soar, mu, cent, child, beam, radc, rcodes, rblocks, cent_f16 })
}

fn load_tree(r: &mut Pr<'_>) -> (x: Option<(Vec<Vec<i8>>, Vec<Vec<u32>>, Vec<usize>)>)
    requires
        old(r).wf(),
    ensures
        final(r).wf(),
        match take_tree(old(r).left()) {
            Some(p) => match x {
                Some(v) => nested(v.0@) == p.0.0 && nested(v.1@) == p.0.1 && v.2@ == p.0.2 && final(r).left() == p.1,
                None => false,
            },
            None => x is None,
        },
{
    let cent = match try_list(r) {
        Some(v) => to_i8_lists(&v),
        None => {
            return None;
        },
    };
    let child = match try_list(r) {
        Some(v) => to_u32_lists(&v),
        None => {
            return None;
        },
    };
    match try_sizes(r) {
        Some(beam) => Some((cent, child, beam)),
        None => None,
    }
}

fn load_codes(r: &mut Pr<'_>, tag: u8) -> (x: Option<(Option<Pq>, Vec<u8>, Vec<u8>, Vec<Vec<u16>>)>)
    requires
        old(r).wf(),
    ensures
        final(r).wf(),
        match take_codes(old(r).left(), tag) {
            Some(p) => match x {
                Some(v) => opt_parts(v.0) == p.0.0 && v.1@ == p.0.1 && v.2@ == p.0.2 && nested(v.3@) == p.0.3 && final(r).left() == p.1,
                None => false,
            },
            None => x is None,
        },
{
    let radc = match load_opt_pq(r) {
        Some(v) => v,
        None => {
            return None;
        },
    };
    let rcodes = match try_u8s(r) {
        Some(v) => v,
        None => {
            return None;
        },
    };
    let rblocks = match try_u8s(r) {
        Some(v) => v,
        None => {
            return None;
        },
    };
    if tag == ROUTER_TAG_HIER_F16 {
        match try_list(r) {
            Some(v) => Some((radc, rcodes, rblocks, to_u16_lists(&v))),
            None => None,
        }
    } else {
        let none: Vec<Vec<u16>> = Vec::new();
        assert(nested(none@) =~= Seq::<Seq<u16>>::empty());
        Some((radc, rcodes, rblocks, none))
    }
}

} // verus!
