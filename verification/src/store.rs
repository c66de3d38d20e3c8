//! The index as a byte image: magic, version, scalars, arrays, router, codebook.
//!
//! `put_x(v, tail)` are the bytes of `v` followed by `tail`; `take_x(b)` is what a byte string starts
//! with, and what follows it, or `None` where the string is too short.
use vstd::prelude::*;
use crate::bytes::{bytes32, bytes64, law_word_strings_come_back, le32, le64, word_bytes};
use crate::persist::{
    double_bytes, has_doubles, has_region, law_region_comes_back, law_scalars_come_back, law_usizes_come_back, region, region_body,
    region_len, signed32, words_of, Pr, Sw,
};
use crate::pq::{Pq, ResidPq};

verus! {

// ---------------------------------------------------------------- primitives

#[verifier::opaque]
pub open spec fn take_u8(b: Seq<u8>) -> Option<(u8, Seq<u8>)> {
    if b.len() < 1 {
        None
    } else {
        Some((b[0], b.skip(1)))
    }
}

#[verifier::opaque]
pub open spec fn take_u32(b: Seq<u8>) -> Option<(u32, Seq<u8>)> {
    if b.len() < 4 {
        None
    } else {
        Some((le32(b.take(4)), b.skip(4)))
    }
}

#[verifier::opaque]
pub open spec fn take_size(b: Seq<u8>) -> Option<(usize, Seq<u8>)> {
    if b.len() < 8 {
        None
    } else {
        Some((le64(b.take(8)) as usize, b.skip(8)))
    }
}

#[verifier::opaque]
pub open spec fn take_region(b: Seq<u8>) -> Option<(Seq<u8>, Seq<u8>)> {
    if !has_region(b) {
        None
    } else {
        Some((region_body(b), b.skip(8 + region_len(b))))
    }
}

#[verifier::opaque]
pub open spec fn take_sizes(b: Seq<u8>) -> Option<(Seq<usize>, Seq<u8>)> {
    if !has_doubles(b) {
        None
    } else {
        Some((Seq::new(region_len(b) as nat, |i: int| le64(b.subrange(8 + 8 * i, 16 + 8 * i)) as usize), b.skip(8 + 8 * region_len(b))))
    }
}

/// `n` regions.
pub open spec fn take_regions(b: Seq<u8>, n: nat) -> Option<(Seq<Seq<u8>>, Seq<u8>)>
    decreases n,
{
    if n == 0 {
        Some((Seq::empty(), b))
    } else {
        match take_region(b) {
            None => None,
            Some((x, rest)) => match take_regions(rest, (n - 1) as nat) {
                None => None,
                Some((xs, end)) => Some((seq![x] + xs, end)),
            },
        }
    }
}

/// A count, then as many regions.
pub open spec fn take_list(b: Seq<u8>) -> Option<(Seq<Seq<u8>>, Seq<u8>)> {
    match take_size(b) {
        None => None,
        Some((n, rest)) => take_regions(rest, n as nat),
    }
}

pub open spec fn put_regions(v: Seq<Seq<u8>>, tail: Seq<u8>) -> Seq<u8>
    decreases v.len(),
{
    if v.len() == 0 {
        tail
    } else {
        region(v[0]) + put_regions(v.skip(1), tail)
    }
}

pub open spec fn put_list(v: Seq<Seq<u8>>, tail: Seq<u8>) -> Seq<u8> {
    bytes64(v.len() as u64) + put_regions(v, tail)
}

pub proof fn lemma_put_regions(v: Seq<Seq<u8>>, tail: Seq<u8>)
    ensures
        put_regions(v, tail) == put_regions(v, Seq::empty()) + tail,
    decreases v.len(),
{
    if v.len() > 0 {
        lemma_put_regions(v.skip(1), tail);
        let one = region(v[0]);
        let rest = put_regions(v.skip(1), Seq::empty());
        assert(one + (rest + tail) =~= (one + rest) + tail);
    } else {
        assert(Seq::<u8>::empty() + tail =~= tail);
    }
}

pub proof fn lemma_put_regions_push(v: Seq<Seq<u8>>, x: Seq<u8>)
    ensures
        put_regions(v.push(x), Seq::empty()) == put_regions(v, Seq::empty()) + region(x),
    decreases v.len(),
{
    let all = v.push(x);
    if v.len() > 0 {
        assert(all.skip(1) =~= v.skip(1).push(x));
        lemma_put_regions_push(v.skip(1), x);
        assert(all[0] == v[0]);
        let one = region(v[0]);
        let rest = put_regions(v.skip(1), Seq::empty());
        assert(one + (rest + region(x)) =~= (one + rest) + region(x));
    } else {
        assert(all.skip(1) =~= Seq::<Seq<u8>>::empty());
        assert(put_regions(all.skip(1), Seq::empty()) == Seq::<u8>::empty());
        assert(all[0] == x);
        assert(region(x) + Seq::<u8>::empty() =~= region(x));
        assert(Seq::<u8>::empty() + region(x) =~= region(x));
    }
}

pub proof fn lemma_take_u8(x: u8, tail: Seq<u8>)
    ensures
        take_u8(seq![x] + tail) == Some((x, tail)),
{
    reveal(take_u8);
    assert((seq![x] + tail).skip(1) =~= tail);
}

pub proof fn lemma_take_u32(x: u32, tail: Seq<u8>)
    ensures
        take_u32(bytes32(x) + tail) == Some((x, tail)),
{
    reveal(take_u32);
    law_scalars_come_back(x, 0, tail);
}

pub proof fn lemma_take_size(x: usize, tail: Seq<u8>)
    ensures
        take_size(bytes64(x as u64) + tail) == Some((x, tail)),
{
    reveal(take_size);
    law_scalars_come_back(0, x as u64, tail);
}

pub proof fn lemma_take_region(b: Seq<u8>, tail: Seq<u8>)
    requires
        b.len() <= u64::MAX,
    ensures
        take_region(region(b) + tail) == Some((b, tail)),
{
    reveal(take_region);
    law_region_comes_back(b, tail);
}

pub proof fn lemma_take_sizes(v: Seq<usize>, tail: Seq<u8>)
    requires
        v.len() <= u64::MAX,
    ensures
        take_sizes(bytes64(v.len() as u64) + double_bytes(v) + tail) == Some((v, tail)),
{
    reveal(take_sizes);
    law_usizes_come_back(v, tail);
    let b = bytes64(v.len() as u64) + double_bytes(v) + tail;
    assert(Seq::new(region_len(b) as nat, |i: int| le64(b.subrange(8 + 8 * i, 16 + 8 * i)) as usize) =~= v);
}

/// Regions come back from their bytes.
pub proof fn lemma_regions_come_back(v: Seq<Seq<u8>>, tail: Seq<u8>)
    requires
        forall|i: int| 0 <= i < v.len() ==> (#[trigger] v[i]).len() <= u64::MAX,
    ensures
        take_regions(put_regions(v, tail), v.len()) == Some((v, tail)),
    decreases v.len(),
{
    if v.len() > 0 {
        let rest = put_regions(v.skip(1), tail);
        assert forall|i: int| 0 <= i < v.skip(1).len() implies (#[trigger] v.skip(1)[i]).len() <= u64::MAX by {
            assert(v.skip(1)[i] == v[i + 1]);
        }
        lemma_regions_come_back(v.skip(1), tail);
        lemma_take_region(v[0], rest);
        assert(put_regions(v, tail) == region(v[0]) + rest);
        assert(seq![v[0]] + v.skip(1) =~= v);
    } else {
        assert(v =~= Seq::<Seq<u8>>::empty());
    }
}

pub(crate) fn try_u8(r: &mut Pr<'_>) -> (x: Option<u8>)
    requires
        old(r).wf(),
    ensures
        final(r).wf(),
        match take_u8(old(r).left()) {
            Some(p) => x == Some(p.0) && final(r).left() == p.1,
            None => x is None,
        },
{
    reveal(take_u8);
    let len: usize = r.buf.len();
    if len - r.pos < 1 {
        None
    } else {
        Some(r.u8())
    }
}

pub(crate) fn try_u32(r: &mut Pr<'_>) -> (x: Option<u32>)
    requires
        old(r).wf(),
    ensures
        final(r).wf(),
        match take_u32(old(r).left()) {
            Some(p) => x == Some(p.0) && final(r).left() == p.1,
            None => x is None,
        },
{
    reveal(take_u32);
    let len: usize = r.buf.len();
    if len - r.pos < 4 {
        None
    } else {
        Some(r.u32())
    }
}

pub(crate) fn try_size(r: &mut Pr<'_>) -> (x: Option<usize>)
    requires
        old(r).wf(),
    ensures
        final(r).wf(),
        match take_size(old(r).left()) {
            Some(p) => x == Some(p.0) && final(r).left() == p.1,
            None => x is None,
        },
{
    reveal(take_size);
    let len: usize = r.buf.len();
    if len - r.pos < 8 {
        None
    } else {
        Some(r.usize())
    }
}

/// The reader stands at a whole region.
fn at_region(r: &Pr<'_>) -> (b: bool)
    requires
        r.wf(),
    ensures
        b == has_region(r.left()),
{
    let len: usize = r.buf.len();
    if len - r.pos < 8 {
        return false;
    }
    let n: u64 = crate::bytes::read_u64(r.buf, r.pos);
    assert(r.buf@.subrange(r.pos as int, r.pos + 8) =~= r.left().take(8));
    n <= (len - r.pos - 8) as u64
}

/// The reader stands at a count and as many double words.
fn at_sizes(r: &Pr<'_>) -> (b: bool)
    requires
        r.wf(),
    ensures
        b == has_doubles(r.left()),
{
    let len: usize = r.buf.len();
    if len - r.pos < 8 {
        return false;
    }
    let n: u64 = crate::bytes::read_u64(r.buf, r.pos);
    assert(r.buf@.subrange(r.pos as int, r.pos + 8) =~= r.left().take(8));
    n <= ((len - r.pos - 8) / 8) as u64
}

pub(crate) fn try_bytes<'a>(r: &mut Pr<'a>) -> (x: Option<&'a [u8]>)
    requires
        old(r).wf(),
    ensures
        final(r).wf(),
        match take_region(old(r).left()) {
            Some(p) => x is Some && x->0@ == p.0 && final(r).left() == p.1,
            None => x is None,
        },
{
    reveal(take_region);
    if at_region(r) {
        Some(r.bytes())
    } else {
        None
    }
}

pub(crate) fn try_u8s(r: &mut Pr<'_>) -> (x: Option<Vec<u8>>)
    requires
        old(r).wf(),
    ensures
        final(r).wf(),
        match take_region(old(r).left()) {
            Some(p) => x is Some && x->0@ == p.0 && final(r).left() == p.1,
            None => x is None,
        },
{
    reveal(take_region);
    if at_region(r) {
        Some(r.u8_vec())
    } else {
        None
    }
}

pub(crate) fn try_u32s(r: &mut Pr<'_>) -> (x: Option<Vec<u32>>)
    requires
        old(r).wf(),
    ensures
        final(r).wf(),
        match take_region(old(r).left()) {
            Some(p) => x is Some && x->0@ == words_of(p.0) && final(r).left() == p.1,
            None => x is None,
        },
{
    reveal(take_region);
    if at_region(r) {
        Some(r.u32_vec())
    } else {
        None
    }
}

/// Signed values of words.
pub open spec fn signed32_seq(w: Seq<u32>) -> Seq<i32> {
    Seq::new(w.len(), |i: int| signed32(w[i]))
}

pub(crate) fn try_sizes(r: &mut Pr<'_>) -> (x: Option<Vec<usize>>)
    requires
        old(r).wf(),
    ensures
        final(r).wf(),
        match take_sizes(old(r).left()) {
            Some(p) => x is Some && x->0@ == p.0 && final(r).left() == p.1,
            None => x is None,
        },
{
    reveal(take_sizes);
    if at_sizes(r) {
        let ghost left = r.left();
        let v = r.usize_vec();
        assert(v@ =~= Seq::new(region_len(left) as nat, |i: int| le64(left.subrange(8 + 8 * i, 16 + 8 * i)) as usize));
        Some(v)
    } else {
        None
    }
}

/// The contents of borrowed byte strings.
pub open spec fn byte_views(v: Seq<&[u8]>) -> Seq<Seq<u8>> {
    Seq::new(v.len(), |i: int| v[i]@)
}

pub(crate) fn try_list<'a>(r: &mut Pr<'a>) -> (x: Option<Vec<&'a [u8]>>)
    requires
        old(r).wf(),
    ensures
        final(r).wf(),
        match take_list(old(r).left()) {
            Some(p) => x is Some && byte_views(x->0@) == p.0 && final(r).left() == p.1,
            None => x is None,
        },
{
    match try_size(r) {
        Some(n) => try_regions(r, n),
        None => None,
    }
}

pub(crate) fn try_regions<'a>(r: &mut Pr<'a>, n: usize) -> (x: Option<Vec<&'a [u8]>>)
    requires
        old(r).wf(),
    ensures
        final(r).wf(),
        match take_regions(old(r).left(), n as nat) {
            Some(p) => x is Some && byte_views(x->0@) == p.0 && final(r).left() == p.1,
            None => x is None,
        },
{
    let ghost start = r.left();
    let mut v: Vec<&'a [u8]> = Vec::new();
    let mut i: usize = 0;
    proof {
        assert(byte_views(v@) =~= Seq::<Seq<u8>>::empty());
        match take_regions(start, n as nat) {
            Some((xs, end)) => {
                assert(byte_views(v@) + xs =~= xs);
            },
            None => {},
        }
    }
    while i < n
        invariant
            i <= n,
            r.wf(),
            start == old(r).left(),
            match take_regions(r.left(), (n - i) as nat) {
                Some((xs, end)) => take_regions(start, n as nat) == Some((byte_views(v@) + xs, end)),
                None => take_regions(start, n as nat) is None,
            },
        decreases n - i,
    {
        let ghost here = r.left();
        let ghost v0 = v@;
        match try_bytes(r) {
            Some(b) => {
                v.push(b);
                proof {
                    match take_regions(r.left(), (n - i - 1) as nat) {
                        Some((xs, end)) => {
                            assert(take_regions(here, (n - i) as nat) == Some((seq![b@] + xs, end)));
                            assert(byte_views(v0) + (seq![b@] + xs) =~= byte_views(v@) + xs);
                        },
                        None => {},
                    }
                }
            },
            None => {
                return None;
            },
        }
        i = i + 1;
    }
    proof {
        assert(byte_views(v@) + Seq::<Seq<u8>>::empty() =~= byte_views(v@));
    }
    Some(v)
}

// ---------------------------------------------------------------- codebooks

/// What is stored of a codebook.
#[verifier::ext_equal]
pub struct PqParts {
    pub d: usize,
    pub dpb: usize,
    pub m: usize,
    pub eta: u32,
    pub cent: Seq<u32>,
}

impl Pq {
    pub open spec fn parts(&self) -> PqParts {
        PqParts { d: self.d, dpb: self.dpb, m: self.m, eta: self.eta, cent: self.cent@ }
    }
}

pub open spec fn put_pq(v: PqParts, tail: Seq<u8>) -> Seq<u8> {
    bytes64(v.d as u64) + (bytes64(v.dpb as u64) + (bytes64(v.m as u64) + (bytes32(v.eta) + (region(word_bytes(v.cent)) + tail))))
}

pub open spec fn take_pq(b: Seq<u8>) -> Option<(PqParts, Seq<u8>)> {
    match take_size(b) {
        None => None,
        Some((d, b)) => match take_size(b) {
            None => None,
            Some((dpb, b)) => match take_size(b) {
                None => None,
                Some((m, b)) => match take_u32(b) {
                    None => None,
                    Some((eta, b)) => match take_region(b) {
                        None => None,
                        Some((cent, b)) => Some((PqParts { d, dpb, m, eta, cent: words_of(cent) }, b)),
                    },
                },
            },
        },
    }
}

pub proof fn lemma_words_fit(v: Seq<u32>)
    requires
        4 * v.len() <= u64::MAX,
    ensures
        word_bytes(v).len() <= u64::MAX,
        words_of(word_bytes(v)) == v,
{
    law_word_strings_come_back(v);
    assert(words_of(word_bytes(v)) =~= v);
}

pub proof fn lemma_take_pq(v: PqParts, tail: Seq<u8>)
    requires
        4 * v.cent.len() <= u64::MAX,
    ensures
        take_pq(put_pq(v, tail)) == Some((v, tail)),
{
    let b4 = region(word_bytes(v.cent)) + tail;
    let b3 = bytes32(v.eta) + b4;
    let b2 = bytes64(v.m as u64) + b3;
    let b1 = bytes64(v.dpb as u64) + b2;
    lemma_words_fit(v.cent);
    lemma_take_region(word_bytes(v.cent), tail);
    lemma_take_u32(v.eta, b4);
    lemma_take_size(v.m, b3);
    lemma_take_size(v.dpb, b2);
    lemma_take_size(v.d, b1);
}

pub proof fn lemma_put_pq(v: PqParts, tail: Seq<u8>)
    ensures
        put_pq(v, tail) == put_pq(v, Seq::empty()) + tail,
{
    assert(put_pq(v, tail) =~= put_pq(v, Seq::empty()) + tail);
}

pub(crate) fn save_pq(pq: &Pq, w: &mut Sw)
    requires
        4 * pq.cent@.len() <= u64::MAX,
    ensures
        final(w).w@ == old(w).w@ + put_pq(pq.parts(), Seq::empty()),
{
    w.usize(pq.d);
    w.usize(pq.dpb);
    w.usize(pq.m);
    w.f32_bits(pq.eta);
    w.f32s(pq.cent.as_slice());
    assert(w.w@ =~= old(w).w@ + put_pq(pq.parts(), Seq::empty()));
}

pub(crate) fn load_pq(r: &mut Pr<'_>) -> (x: Option<Pq>)
    requires
        old(r).wf(),
    ensures
        final(r).wf(),
        match take_pq(old(r).left()) {
            Some(p) => x is Some && x->0.parts() == p.0 && final(r).left() == p.1,
            None => x is None,
        },
{
    let d: usize = match try_size(r) {
        Some(v) => v,
        None => {
            return None;
        },
    };
    let dpb: usize = match try_size(r) {
        Some(v) => v,
        None => {
            return None;
        },
    };
    let m: usize = match try_size(r) {
        Some(v) => v,
        None => {
            return None;
        },
    };
    let eta: u32 = match try_u32(r) {
        Some(v) => v,
        None => {
            return None;
        },
    };
    match try_u32s(r) {
        Some(cent) => Some(Pq { d, dpb, m, cent, eta }),
        None => None,
    }
}

pub open spec fn put_opt_pq(v: Option<PqParts>, tail: Seq<u8>) -> Seq<u8> {
    match v {
        Some(p) => seq![1u8] + put_pq(p, tail),
        None => seq![0u8] + tail,
    }
}

/// A flag, then a codebook where the flag is 1.
pub open spec fn take_opt_pq(b: Seq<u8>) -> Option<(Option<PqParts>, Seq<u8>)> {
    match take_u8(b) {
        None => None,
        Some((flag, b)) => if flag == 1 {
            match take_pq(b) {
                None => None,
                Some((p, b)) => Some((Some(p), b)),
            }
        } else {
            Some((None, b))
        },
    }
}

pub proof fn lemma_take_opt_pq(v: Option<PqParts>, tail: Seq<u8>)
    requires
        match v {
            Some(p) => 4 * p.cent.len() <= u64::MAX,
            None => true,
        },
    ensures
        take_opt_pq(put_opt_pq(v, tail)) == Some((v, tail)),
{
    match v {
        Some(p) => {
            lemma_take_u8(1, put_pq(p, tail));
            lemma_take_pq(p, tail);
        },
        None => {
            lemma_take_u8(0, tail);
        },
    }
}

/// What is stored of an optional codebook.
pub open spec fn opt_parts(o: Option<Pq>) -> Option<PqParts> {
    match o {
        Some(p) => Some(p.parts()),
        None => None,
    }
}

pub(crate) fn save_opt_pq(o: &Option<Pq>, w: &mut Sw)
    requires
        match *o {
            Some(p) => 4 * p.cent@.len() <= u64::MAX,
            None => true,
        },
    ensures
        final(w).w@ == old(w).w@ + put_opt_pq(opt_parts(*o), Seq::empty()),
{
    match o {
        Some(p) => {
            w.u8(1);
            save_pq(p, w);
            assert(w.w@ =~= old(w).w@ + put_opt_pq(opt_parts(*o), Seq::empty()));
        },
        None => {
            w.u8(0);
            assert(w.w@ =~= old(w).w@ + put_opt_pq(opt_parts(*o), Seq::empty()));
        },
    }
}

pub(crate) fn load_opt_pq(r: &mut Pr<'_>) -> (x: Option<Option<Pq>>)
    requires
        old(r).wf(),
    ensures
        final(r).wf(),
        match take_opt_pq(old(r).left()) {
            Some(p) => x is Some && opt_parts(x->0) == p.0 && final(r).left() == p.1,
            None => x is None,
        },
{
    let flag: u8 = match try_u8(r) {
        Some(v) => v,
        None => {
            return None;
        },
    };
    if flag == 1 {
        match load_pq(r) {
            Some(p) => Some(Some(p)),
            None => None,
        }
    } else {
        Some(None)
    }
}

/// What is stored of a refinement codebook.
#[verifier::ext_equal]
pub struct ResidParts {
    pub d: usize,
    pub dpb: usize,
    pub m: usize,
    pub cent: Seq<u32>,
}

/// What is stored of an optional refinement codebook.
pub open spec fn resid_parts(o: Option<ResidPq>) -> Option<ResidParts> {
    match o {
        Some(p) => Some(ResidParts { d: p.d, dpb: p.dpb, m: p.m, cent: p.cent@ }),
        None => None,
    }
}

pub open spec fn put_resid(v: Option<ResidParts>, tail: Seq<u8>) -> Seq<u8> {
    match v {
        Some(p) => seq![1u8] + (bytes64(p.d as u64) + (bytes64(p.dpb as u64) + (bytes64(p.m as u64) + (region(word_bytes(p.cent)) + tail)))),
        None => seq![0u8] + tail,
    }
}

pub open spec fn take_resid(b: Seq<u8>) -> Option<(Option<ResidParts>, Seq<u8>)> {
    match take_u8(b) {
        None => None,
        Some((flag, b)) => if flag != 1 {
            Some((None, b))
        } else {
            match take_size(b) {
                None => None,
                Some((d, b)) => match take_size(b) {
                    None => None,
                    Some((dpb, b)) => match take_size(b) {
                        None => None,
                        Some((m, b)) => match take_region(b) {
                            None => None,
                            Some((cent, b)) => Some((Some(ResidParts { d, dpb, m, cent: words_of(cent) }), b)),
                        },
                    },
                },
            }
        },
    }
}

pub proof fn lemma_take_resid(v: Option<ResidParts>, tail: Seq<u8>)
    requires
        match v {
            Some(p) => 4 * p.cent.len() <= u64::MAX,
            None => true,
        },
    ensures
        take_resid(put_resid(v, tail)) == Some((v, tail)),
{
    match v {
        Some(p) => {
            let b3 = region(word_bytes(p.cent)) + tail;
            let b2 = bytes64(p.m as u64) + b3;
            let b1 = bytes64(p.dpb as u64) + b2;
            let b0 = bytes64(p.d as u64) + b1;
            lemma_words_fit(p.cent);
            lemma_take_region(word_bytes(p.cent), tail);
            lemma_take_size(p.m, b3);
            lemma_take_size(p.dpb, b2);
            lemma_take_size(p.d, b1);
            lemma_take_u8(1, b0);
        },
        None => {
            lemma_take_u8(0, tail);
        },
    }
}

pub(crate) fn save_opt_residpq(o: &Option<ResidPq>, w: &mut Sw)
    requires
        match *o {
            Some(p) => 4 * p.cent@.len() <= u64::MAX,
            None => true,
        },
    ensures
        final(w).w@ == old(w).w@ + put_resid(resid_parts(*o), Seq::empty()),
{
    match o {
        Some(p) => {
            w.u8(1);
            w.usize(p.d);
            w.usize(p.dpb);
            w.usize(p.m);
            w.f32s(p.cent.as_slice());
            assert(w.w@ =~= old(w).w@ + put_resid(resid_parts(*o), Seq::empty()));
        },
        None => {
            w.u8(0);
            assert(w.w@ =~= old(w).w@ + put_resid(resid_parts(*o), Seq::empty()));
        },
    }
}

pub(crate) fn load_opt_residpq(r: &mut Pr<'_>) -> (x: Option<Option<ResidPq>>)
    requires
        old(r).wf(),
    ensures
        final(r).wf(),
        match take_resid(old(r).left()) {
            Some(p) => x is Some && resid_parts(x->0) == p.0 && final(r).left() == p.1,
            None => x is None,
        },
{
    let flag: u8 = match try_u8(r) {
        Some(v) => v,
        None => {
            return None;
        },
    };
    if flag != 1 {
        return Some(None);
    }
    let d: usize = match try_size(r) {
        Some(v) => v,
        None => {
            return None;
        },
    };
    let dpb: usize = match try_size(r) {
        Some(v) => v,
        None => {
            return None;
        },
    };
    let m: usize = match try_size(r) {
        Some(v) => v,
        None => {
            return None;
        },
    };
    match try_u32s(r) {
        Some(cent) => Some(Some(ResidPq { d, dpb, m, cent })),
        None => None,
    }
}

} // verus!
