//! An index written to one byte string and taken up from it again.
use vstd::prelude::*;
use crate::bytes::{as_signed, bytes32, bytes64, law_signs_come_back, law_words_come_back, le32, read_u32, read_words, signed_seq, unsigned_seq, word_bytes};
use crate::compress::Compressor;
use crate::hier::HierRouter;
use crate::image::{assoc, chain3, chain6, lemma_router_split, lemma_take_router, load_router, put_router, take_router, LoadError, RouterImage, RouterParts, COMP_TAG_APQ4, COMP_TAG_PQ4};
use crate::index::Index;
use crate::persist::{region, signed32, unsigned32_seq, words_of, Pr, Sw, MAGIC, VERSION};
use crate::pq::{Pq, ResidPq};
use crate::store::{
    byte_views, lemma_put_regions, lemma_put_regions_push, lemma_regions_come_back, lemma_take_pq, lemma_take_resid, lemma_take_size,
    lemma_take_u32, lemma_take_u8, lemma_words_fit, load_opt_residpq, load_pq, put_pq, put_regions, put_resid, resid_parts,
    save_opt_residpq, save_pq, signed32_seq, take_pq, take_region, take_regions, take_resid, take_size, take_u32, take_u8,
    try_regions, try_size, try_u32, try_u8, PqParts, ResidParts,
};

verus! {

/// What is stored of the codebook of the blocks.
#[verifier::ext_equal]
pub enum CompParts {
    Apq4 { d: usize, dpb: usize, eta: u32, pq: PqParts },
    Pq4 { pq: PqParts },
}

/// The codebook of the blocks: anisotropic, with the settings that it was trained with, or plain.
pub enum CompImage {
    Apq4 { d: usize, dpb: usize, eta: u32, pq: Pq },
    Pq4 { pq: Pq },
}

impl CompImage {
    pub open spec fn parts(&self) -> CompParts {
        match *self {
            CompImage::Apq4 { d, dpb, eta, pq } => CompParts::Apq4 { d, dpb, eta, pq: pq.parts() },
            CompImage::Pq4 { pq } => CompParts::Pq4 { pq: pq.parts() },
        }
    }
}

impl CompParts {
    pub open spec fn fits(&self) -> bool {
        match *self {
            CompParts::Apq4 { d, dpb, eta, pq } => 4 * pq.cent.len() <= u64::MAX,
            CompParts::Pq4 { pq } => 4 * pq.cent.len() <= u64::MAX,
        }
    }
}

pub open spec fn put_comp(v: CompParts, tail: Seq<u8>) -> Seq<u8> {
    match v {
        CompParts::Apq4 { d, dpb, eta, pq } => seq![COMP_TAG_APQ4] + (bytes64(d as u64) + (bytes64(dpb as u64) + (bytes32(eta) + put_pq(pq, tail)))),
        CompParts::Pq4 { pq } => seq![COMP_TAG_PQ4] + put_pq(pq, tail),
    }
}

pub open spec fn take_comp(b: Seq<u8>) -> Result<(CompParts, Seq<u8>), LoadError> {
    match take_u8(b) {
        None => Err(LoadError::Truncated),
        Some((tag, b)) => if tag == COMP_TAG_APQ4 {
            match take_size(b) {
                None => Err(LoadError::Truncated),
                Some((d, b)) => match take_size(b) {
                    None => Err(LoadError::Truncated),
                    Some((dpb, b)) => match take_u32(b) {
                        None => Err(LoadError::Truncated),
                        Some((eta, b)) => match take_pq(b) {
                            None => Err(LoadError::Truncated),
                            Some((pq, b)) => Ok((CompParts::Apq4 { d, dpb, eta, pq }, b)),
                        },
                    },
                },
            }
        } else if tag == COMP_TAG_PQ4 {
            match take_pq(b) {
                None => Err(LoadError::Truncated),
                Some((pq, b)) => Ok((CompParts::Pq4 { pq }, b)),
            }
        } else {
            Err(LoadError::UnknownCodebook(tag))
        },
    }
}

proof fn lemma_take_comp(v: CompParts, tail: Seq<u8>)
    requires
        v.fits(),
    ensures
        take_comp(put_comp(v, tail)) == Ok::<(CompParts, Seq<u8>), LoadError>((v, tail)),
{
    match v {
        CompParts::Apq4 { d, dpb, eta, pq } => {
            let b3 = put_pq(pq, tail);
            let b2 = bytes32(eta) + b3;
            let b1 = bytes64(dpb as u64) + b2;
            let b0 = bytes64(d as u64) + b1;
            lemma_take_pq(pq, tail);
            lemma_take_u32(eta, b3);
            lemma_take_size(dpb, b2);
            lemma_take_size(d, b1);
            lemma_take_u8(COMP_TAG_APQ4, b0);
        },
        CompParts::Pq4 { pq } => {
            lemma_take_pq(pq, tail);
            lemma_take_u8(COMP_TAG_PQ4, put_pq(pq, tail));
        },
    }
}

impl CompImage {
    /// Append the codebook to an image.
    pub fn save(&self, w: &mut Sw)
        requires
            self.parts().fits(),
        ensures
            final(w).w@ == old(w).w@ + put_comp(self.parts(), Seq::empty()),
    {
        let ghost w0 = w.w@;
        match self {
            CompImage::Apq4 { d, dpb, eta, pq } => {
                w.u8(COMP_TAG_APQ4);
                assert(w.w@ =~= w0 + seq![COMP_TAG_APQ4]);
                w.usize(*d);
                w.usize(*dpb);
                w.f32_bits(*eta);
                save_pq(pq, w);
                proof {
                    let p = put_pq(pq.parts(), Seq::empty());
                    chain3(w0, seq![COMP_TAG_APQ4], bytes64(*d as u64), bytes64(*dpb as u64) + (bytes32(*eta) + p));
                    chain3((w0 + seq![COMP_TAG_APQ4]) + bytes64(*d as u64), bytes64(*dpb as u64), bytes32(*eta), p);
                }
            },
            CompImage::Pq4 { pq } => {
                w.u8(COMP_TAG_PQ4);
                assert(w.w@ =~= w0 + seq![COMP_TAG_PQ4]);
                save_pq(pq, w);
                proof {
                    assoc(w0, seq![COMP_TAG_PQ4], put_pq(pq.parts(), Seq::empty()));
                }
            },
        }
    }
}

fn load_comp(r: &mut Pr<'_>) -> (x: Result<CompImage, LoadError>)
    requires
        old(r).wf(),
    ensures
        final(r).wf(),
        match take_comp(old(r).left()) {
            Ok(p) => x is Ok && x->Ok_0.parts() == p.0 && final(r).left() == p.1,
            Err(e) => x is Err && x->Err_0 == e,
        },
{
    let tag: u8 = match try_u8(r) {
        Some(v) => v,
        None => {
            return Err(LoadError::Truncated);
        },
    };
    if tag == COMP_TAG_APQ4 {
        let d: usize = match try_size(r) {
            Some(v) => v,
            None => {
                return Err(LoadError::Truncated);
            },
        };
        let dpb: usize = match try_size(r) {
            Some(v) => v,
            None => {
                return Err(LoadError::Truncated);
            },
        };
        let eta: u32 = match try_u32(r) {
            Some(v) => v,
            None => {
                return Err(LoadError::Truncated);
            },
        };
        match load_pq(r) {
            Some(pq) => Ok(CompImage::Apq4 { d, dpb, eta, pq }),
            None => Err(LoadError::Truncated),
        }
    } else if tag == COMP_TAG_PQ4 {
        match load_pq(r) {
            Some(pq) => Ok(CompImage::Pq4 { pq }),
            None => Err(LoadError::Truncated),
        }
    } else {
        Err(LoadError::UnknownCodebook(tag))
    }
}

// ---------------------------------------------------------------- arrays

/// The arrays of an index.
#[verifier::ext_equal]
pub struct ArrayParts {
    pub cell_bstart: Seq<u32>,
    pub slot_orig: Seq<u32>,
    pub blocks: Seq<u8>,
    pub xfn: Seq<i32>,
    pub raw: Seq<i8>,
    pub blocks_il: Seq<u8>,
    pub cell_ilstart: Seq<u32>,
    pub resid_codes: Seq<u8>,
    pub rq_cent: Seq<i8>,
}

/// The arrays of an index image.
pub struct ArrayImage {
    pub cell_bstart: Vec<u32>,
    pub slot_orig: Vec<u32>,
    pub blocks: Vec<u8>,
    pub xfn: Vec<i32>,
    pub raw: Vec<i8>,
    pub blocks_il: Vec<u8>,
    pub cell_ilstart: Vec<u32>,
    pub resid_codes: Vec<u8>,
    pub rq_cent: Vec<i8>,
}

impl ArrayImage {
    pub open spec fn parts(&self) -> ArrayParts {
        ArrayParts {
            cell_bstart: self.cell_bstart@,
            slot_orig: self.slot_orig@,
            blocks: self.blocks@,
            xfn: self.xfn@,
            raw: self.raw@,
            blocks_il: self.blocks_il@,
            cell_ilstart: self.cell_ilstart@,
            resid_codes: self.resid_codes@,
            rq_cent: self.rq_cent@,
        }
    }
}

impl ArrayParts {
    pub open spec fn fits(&self) -> bool {
        &&& 4 * self.cell_bstart.len() <= u64::MAX
        &&& 4 * self.slot_orig.len() <= u64::MAX
        &&& self.blocks.len() <= u64::MAX
        &&& 4 * self.xfn.len() <= u64::MAX
        &&& self.raw.len() <= u64::MAX
        &&& self.blocks_il.len() <= u64::MAX
        &&& 4 * self.cell_ilstart.len() <= u64::MAX
        &&& self.resid_codes.len() <= u64::MAX
        &&& self.rq_cent.len() <= u64::MAX
    }

    /// The byte regions of the arrays, in order.
    pub open spec fn regions(&self) -> Seq<Seq<u8>> {
        seq![
            word_bytes(self.cell_bstart),
            word_bytes(self.slot_orig),
            self.blocks,
            word_bytes(unsigned32_seq(self.xfn)),
            unsigned_seq(self.raw),
            self.blocks_il,
            word_bytes(self.cell_ilstart),
            self.resid_codes,
            unsigned_seq(self.rq_cent),
        ]
    }
}

/// The arrays that nine regions hold.
pub open spec fn arrays_of(x: Seq<Seq<u8>>) -> ArrayParts {
    ArrayParts {
        cell_bstart: words_of(x[0]),
        slot_orig: words_of(x[1]),
        blocks: x[2],
        xfn: signed32_seq(words_of(x[3])),
        raw: signed_seq(x[4]),
        blocks_il: x[5],
        cell_ilstart: words_of(x[6]),
        resid_codes: x[7],
        rq_cent: signed_seq(x[8]),
    }
}

pub open spec fn take_arrays(b: Seq<u8>) -> Option<(ArrayParts, Seq<u8>)> {
    match take_regions(b, 9) {
        None => None,
        Some((x, b)) => Some((arrays_of(x), b)),
    }
}

proof fn lemma_take_arrays(v: ArrayParts, tail: Seq<u8>)
    requires
        v.fits(),
    ensures
        take_arrays(put_regions(v.regions(), tail)) == Some((v, tail)),
{
    let x = v.regions();
    lemma_words_fit(v.cell_bstart);
    lemma_words_fit(v.slot_orig);
    lemma_words_fit(unsigned32_seq(v.xfn));
    lemma_words_fit(v.cell_ilstart);
    law_signs_come_back(v.raw, Seq::empty());
    law_signs_come_back(v.rq_cent, Seq::empty());
    assert(signed32_seq(unsigned32_seq(v.xfn)) =~= v.xfn);
    assert forall|i: int| 0 <= i < x.len() implies (#[trigger] x[i]).len() <= u64::MAX by {
    }
    lemma_regions_come_back(x, tail);
}

proof fn lemma_next_region(all: Seq<Seq<u8>>, k: int)
    requires
        0 <= k < all.len(),
    ensures
        put_regions(all.take(k + 1), Seq::empty()) == put_regions(all.take(k), Seq::empty()) + region(all[k]),
{
    assert(all.take(k + 1) =~= all.take(k).push(all[k]));
    lemma_put_regions_push(all.take(k), all[k]);
}

/// The index as an image stores it.
#[verifier::ext_equal]
pub struct IndexParts {
    pub d: usize,
    pub bb: usize,
    pub a0: usize,
    pub by_orig: bool,
    pub arrays: ArrayParts,
    pub resid: Option<ResidParts>,
    pub router: RouterParts,
    pub comp: CompParts,
}

/// The stored fields of an index.
pub struct IndexImage {
    pub d: usize,
    pub bb: usize,
    pub a0: usize,
    pub by_orig: bool,
    pub arrays: ArrayImage,
    pub resid: Option<ResidPq>,
    pub router: RouterImage,
    pub comp: CompImage,
}

impl IndexImage {
    pub open spec fn parts(&self) -> IndexParts {
        IndexParts {
            d: self.d,
            bb: self.bb,
            a0: self.a0,
            by_orig: self.by_orig,
            arrays: self.arrays.parts(),
            resid: resid_parts(self.resid),
            router: self.router.parts(),
            comp: self.comp.parts(),
        }
    }
}

impl IndexParts {
    /// The byte counts of all arrays fit.
    pub open spec fn fits(&self) -> bool {
        &&& self.arrays.fits()
        &&& match self.resid {
            Some(p) => 4 * p.cent.len() <= u64::MAX,
            None => true,
        }
        &&& self.router.fits()
        &&& self.comp.fits()
    }
}

/// Codebooks and router.
pub open spec fn put_models(v: IndexParts) -> Seq<u8> {
    put_resid(v.resid, put_router(v.router, put_comp(v.comp, Seq::empty())))
}

/// Everything behind magic and version.
pub open spec fn put_body(v: IndexParts) -> Seq<u8> {
    bytes64(v.d as u64) + (bytes64(v.bb as u64) + (bytes64(v.a0 as u64) + (seq![if v.by_orig { 1u8 } else { 0u8 }] + put_regions(v.arrays.regions(), put_models(v)))))
}

/// The image of an index.
pub open spec fn image(v: IndexParts) -> Seq<u8> {
    MAGIC@ + (bytes32(VERSION) + put_body(v))
}

pub open spec fn take_models(b: Seq<u8>) -> Result<(Option<ResidParts>, RouterParts, CompParts), LoadError> {
    match take_resid(b) {
        None => Err(LoadError::Truncated),
        Some((resid, b)) => match take_router(b) {
            Err(e) => Err(e),
            Ok((router, b)) => match take_comp(b) {
                Err(e) => Err(e),
                Ok((comp, b)) => Ok((resid, router, comp)),
            },
        },
    }
}

pub open spec fn take_body(b: Seq<u8>) -> Result<IndexParts, LoadError> {
    match take_size(b) {
        None => Err(LoadError::Truncated),
        Some((d, b)) => match take_size(b) {
            None => Err(LoadError::Truncated),
            Some((bb, b)) => match take_size(b) {
                None => Err(LoadError::Truncated),
                Some((a0, b)) => match take_u8(b) {
                    None => Err(LoadError::Truncated),
                    Some((flag, b)) => match take_arrays(b) {
                        None => Err(LoadError::Truncated),
                        Some((arrays, b)) => match take_models(b) {
                            Err(e) => Err(e),
                            Ok(m) => Ok(IndexParts { d, bb, a0, by_orig: flag != 0, arrays, resid: m.0, router: m.1, comp: m.2 }),
                        },
                    },
                },
            },
        },
    }
}

/// What a byte string holds as an index image; bytes behind the image are not looked at.
pub open spec fn parsed(b: Seq<u8>) -> Result<IndexParts, LoadError> {
    if b.len() < 12 || b.take(8) != MAGIC@ {
        Err(LoadError::BadMagic)
    } else if le32(b.subrange(8, 12)) != VERSION {
        Err(LoadError::BadVersion(le32(b.subrange(8, 12))))
    } else {
        take_body(b.skip(12))
    }
}

/// An index comes back from its image.
pub proof fn law_image_comes_back(v: IndexParts)
    requires
        v.fits(),
    ensures
        parsed(image(v)) == Ok::<IndexParts, LoadError>(v),
{
    let models = put_models(v);
    let comp = put_comp(v.comp, Seq::empty());
    let router = put_router(v.router, comp);
    lemma_take_comp(v.comp, Seq::empty());
    lemma_take_router(v.router, comp);
    lemma_take_resid(v.resid, router);
    assert(take_models(models) == Ok::<(Option<ResidParts>, RouterParts, CompParts), LoadError>((v.resid, v.router, v.comp)));
    let flag = if v.by_orig {
        1u8
    } else {
        0u8
    };
    let b3 = put_regions(v.arrays.regions(), models);
    let b2 = seq![flag] + b3;
    let b1 = bytes64(v.a0 as u64) + b2;
    let b0 = bytes64(v.bb as u64) + b1;
    lemma_take_arrays(v.arrays, models);
    lemma_take_u8(flag, b3);
    lemma_take_size(v.a0, b2);
    lemma_take_size(v.bb, b1);
    lemma_take_size(v.d, b0);
    assert(take_body(put_body(v)) == Ok::<IndexParts, LoadError>(v));
    let b = image(v);
    law_words_come_back(VERSION, 0);
    assert(MAGIC@.len() == 8);
    assert(b.take(8) =~= MAGIC@);
    assert(b.subrange(8, 12) =~= bytes32(VERSION));
    assert(b.skip(12) =~= put_body(v));
}

impl<C: Compressor> Index<HierRouter, C> {
    /// What an image stores of the index; `comp` is the codebook of its blocks.
    pub open spec fn parts(&self, comp: CompParts) -> IndexParts {
        IndexParts {
            d: self.d,
            bb: self.bb,
            a0: self.a0,
            by_orig: self.raw_orig_indexed,
            arrays: ArrayParts {
                cell_bstart: self.cell_bstart@,
                slot_orig: self.slot_orig@,
                blocks: self.blocks@,
                xfn: self.xfn@,
                raw: self.raw@,
                blocks_il: self.blocks_il@,
                cell_ilstart: self.cell_ilstart@,
                resid_codes: self.resid_codes@,
                rq_cent: self.rq_cent@,
            },
            resid: resid_parts(self.resid_pq),
            router: self.router.parts(),
            comp,
        }
    }

    fn save_arrays(&self, w: &mut Sw, v: Ghost<ArrayParts>)
        requires
            v@.fits(),
            v@ == (ArrayParts {
                cell_bstart: self.cell_bstart@,
                slot_orig: self.slot_orig@,
                blocks: self.blocks@,
                xfn: self.xfn@,
                raw: self.raw@,
                blocks_il: self.blocks_il@,
                cell_ilstart: self.cell_ilstart@,
                resid_codes: self.resid_codes@,
                rq_cent: self.rq_cent@,
            }),
        ensures
            final(w).w@ == old(w).w@ + put_regions(v@.regions(), Seq::empty()),
    {
        let ghost x = v@.regions();
        let ghost w0 = w.w@;
        proof {
            assert(x.take(0) =~= Seq::<Seq<u8>>::empty());
            assert(w0 =~= w0 + put_regions(x.take(0), Seq::empty()));
        }
        w.u32s(self.cell_bstart.as_slice());
        proof {
            lemma_next_region(x, 0);
            assoc(w0, put_regions(x.take(0), Seq::empty()), region(x[0]));
        }
        w.u32s(self.slot_orig.as_slice());
        proof {
            lemma_next_region(x, 1);
            assoc(w0, put_regions(x.take(1), Seq::empty()), region(x[1]));
        }
        w.u8s(self.blocks.as_slice());
        proof {
            lemma_next_region(x, 2);
            assoc(w0, put_regions(x.take(2), Seq::empty()), region(x[2]));
        }
        w.i32s(self.xfn.as_slice());
        proof {
            lemma_next_region(x, 3);
            assoc(w0, put_regions(x.take(3), Seq::empty()), region(x[3]));
        }
        w.i8s(self.raw.as_slice());
        proof {
            lemma_next_region(x, 4);
            assoc(w0, put_regions(x.take(4), Seq::empty()), region(x[4]));
        }
        w.u8s(self.blocks_il.as_slice());
        proof {
            lemma_next_region(x, 5);
            assoc(w0, put_regions(x.take(5), Seq::empty()), region(x[5]));
        }
        w.u32s(self.cell_ilstart.as_slice());
        proof {
            lemma_next_region(x, 6);
            assoc(w0, put_regions(x.take(6), Seq::empty()), region(x[6]));
        }
        w.u8s(self.resid_codes.as_slice());
        proof {
            lemma_next_region(x, 7);
            assoc(w0, put_regions(x.take(7), Seq::empty()), region(x[7]));
        }
        w.i8s(self.rq_cent.as_slice());
        proof {
            lemma_next_region(x, 8);
            assoc(w0, put_regions(x.take(8), Seq::empty()), region(x[8]));
            assert(x.take(9) =~= x);
        }
    }

    /// The image of the index; `comp` is the codebook of its blocks.
    pub fn save_image(&self, comp: &CompImage) -> (r: Vec<u8>)
        requires
            self.parts(comp.parts()).fits(),
        ensures
            r@ == image(self.parts(comp.parts())),
    {
        let ghost v = self.parts(comp.parts());
        let ghost e = Seq::<u8>::empty();
        let mut w = Sw::new();
        let mut i: usize = 0;
        while i < 8
            invariant
                i <= 8,
                w.w@ =~= MAGIC@.take(i as int),
            decreases 8 - i,
        {
            w.u8(MAGIC[i]);
            i = i + 1;
        }
        let ghost m = MAGIC@;
        assert(w.w@ =~= m);
        w.u32(VERSION);
        w.usize(self.d);
        w.usize(self.bb);
        w.usize(self.a0);
        let ghost w1 = w.w@;
        w.u8(if self.raw_orig_indexed { 1 } else { 0 });
        let ghost flag = seq![if v.by_orig { 1u8 } else { 0u8 }];
        assert(w.w@ =~= w1 + flag);
        self.save_arrays(&mut w, Ghost(v.arrays));
        let ghost arrays = put_regions(v.arrays.regions(), e);
        save_opt_residpq(&self.resid_pq, &mut w);
        let ghost resid = put_resid(v.resid, e);
        self.router.save(&mut w);
        let ghost router = put_router(v.router, e);
        comp.save(&mut w);
        let ghost code = put_comp(v.comp, e);
        proof {
            let rc = put_router(v.router, code);
            lemma_router_split(v.router, e, code);
            assert(e + code =~= code);
            assert(rc == router + code);
            lemma_resid_split(v.resid, e, rc);
            assert(e + rc =~= rc);
            let models = put_models(v);
            assert(models == resid + (router + code));
            lemma_put_regions(v.arrays.regions(), models);
            let body3 = arrays + models;
            // scalars
            chain6(m, bytes32(VERSION), bytes64(v.d as u64), bytes64(v.bb as u64), bytes64(v.a0 as u64), flag, body3);
            let w2 = ((((m + bytes32(VERSION)) + bytes64(v.d as u64)) + bytes64(v.bb as u64)) + bytes64(v.a0 as u64)) + flag;
            assoc(w2, arrays, models);
            chain3(w2 + arrays, resid, router, code);
        }
        w.w
    }
}

proof fn lemma_resid_split(v: Option<ResidParts>, x: Seq<u8>, tail: Seq<u8>)
    ensures
        put_resid(v, x + tail) == put_resid(v, x) + tail,
{
    match v {
        Some(p) => {
            let c = region(word_bytes(p.cent));
            let b2 = bytes64(p.m as u64) + (c + x);
            let b1 = bytes64(p.dpb as u64) + b2;
            let b0 = bytes64(p.d as u64) + b1;
            assoc(c, x, tail);
            assoc(bytes64(p.m as u64), c + x, tail);
            assoc(bytes64(p.dpb as u64), b2, tail);
            assoc(bytes64(p.d as u64), b1, tail);
            assoc(seq![1u8], b0, tail);
        },
        None => {
            assoc(seq![0u8], x, tail);
        },
    }
}

fn words_from(b: &[u8]) -> (r: Vec<u32>)
    ensures
        r@ == words_of(b@),
{
    let n: usize = b.len() / 4;
    let r = read_words(b, n);
    assert(r@ =~= words_of(b@));
    r
}

fn signed_words_from(b: &[u8]) -> (r: Vec<i32>)
    ensures
        r@ == signed32_seq(words_of(b@)),
{
    let words = words_from(b);
    let n: usize = words.len();
    let mut v: Vec<i32> = Vec::with_capacity(n);
    let mut i: usize = 0;
    while i < n
        invariant
            i <= n,
            n == words@.len(),
            v@.len() == i,
            forall|j: int| 0 <= j < i ==> #[trigger] v@[j] == signed32(words@[j]),
        decreases n - i,
    {
        let x: u32 = words[i];
        v.push(if x < 0x8000_0000 { x as i32 } else { (x as i64 - 0x1_0000_0000) as i32 });
        i = i + 1;
    }
    assert(v@ =~= signed32_seq(words@));
    v
}

fn load_arrays(r: &mut Pr<'_>) -> (x: Option<ArrayImage>)
    requires
        old(r).wf(),
    ensures
        final(r).wf(),
        match take_arrays(old(r).left()) {
            Some(p) => x is Some && x->0.parts() == p.0 && final(r).left() == p.1,
            None => x is None,
        },
{
    let ghost left = r.left();
    match try_regions(r, 9) {
        None => None,
        Some(v) => {
            proof {
                lemma_regions_count(left, 9);
                assert(v@.len() == 9);
                assert forall|i: int| 0 <= i < 9 implies byte_views(v@)[i] == v@[i]@ by {
                }
            }
            Some(
                ArrayImage {
                    cell_bstart: words_from(v[0]),
                    slot_orig: words_from(v[1]),
                    blocks: vstd::slice::slice_to_vec(v[2]),
                    xfn: signed_words_from(v[3]),
                    raw: vstd::slice::slice_to_vec(as_signed(v[4])),
                    blocks_il: vstd::slice::slice_to_vec(v[5]),
                    cell_ilstart: words_from(v[6]),
                    resid_codes: vstd::slice::slice_to_vec(v[7]),
                    rq_cent: vstd::slice::slice_to_vec(as_signed(v[8])),
                },
            )
        },
    }
}

proof fn lemma_regions_count(b: Seq<u8>, n: nat)
    ensures
        match take_regions(b, n) {
            Some(p) => p.0.len() == n,
            None => true,
        },
    decreases n,
{
    if n > 0 {
        match take_region(b) {
            Some((x, rest)) => {
                lemma_regions_count(rest, (n - 1) as nat);
            },
            None => {},
        }
    }
}

fn starts_with_magic(bytes: &[u8]) -> (r: bool)
    requires
        bytes@.len() >= 8,
    ensures
        r == (bytes@.take(8) == MAGIC@),
{
    let mut i: usize = 0;
    while i < 8
        invariant
            i <= 8,
            bytes@.len() >= 8,
            forall|j: int| 0 <= j < i ==> #[trigger] bytes@[j] == MAGIC@[j],
        decreases 8 - i,
    {
        if bytes[i] != MAGIC[i] {
            proof {
                assert(bytes@.take(8)[i as int] == bytes@[i as int]);
            }
            return false;
        }
        i = i + 1;
    }
    assert(bytes@.take(8) =~= MAGIC@);
    true
}

/// Read an index image.
pub fn load_image(bytes: &[u8]) -> (r: Result<IndexImage, LoadError>)
    ensures
        match parsed(bytes@) {
            Ok(v) => r is Ok && r->Ok_0.parts() == v,
            Err(e) => r is Err && r->Err_0 == e,
        },
{
    let len: usize = bytes.len();
    if len < 12 {
        return Err(LoadError::BadMagic);
    }
    if !starts_with_magic(bytes) {
        return Err(LoadError::BadMagic);
    }
    let version: u32 = read_u32(bytes, 8);
    if version != VERSION {
        return Err(LoadError::BadVersion(version));
    }
    let mut r = Pr { buf: bytes, pos: 12 };
    load_body(&mut r)
}

fn load_body(r: &mut Pr<'_>) -> (x: Result<IndexImage, LoadError>)
    requires
        old(r).wf(),
    ensures
        match take_body(old(r).left()) {
            Ok(v) => x is Ok && x->Ok_0.parts() == v,
            Err(e) => x is Err && x->Err_0 == e,
        },
{
    let d: usize = match try_size(r) {
        Some(v) => v,
        None => {
            return Err(LoadError::Truncated);
        },
    };
    let bb: usize = match try_size(r) {
        Some(v) => v,
        None => {
            return Err(LoadError::Truncated);
        },
    };
    let a0: usize = match try_size(r) {
        Some(v) => v,
        None => {
            return Err(LoadError::Truncated);
        },
    };
    let flag: u8 = match try_u8(r) {
        Some(v) => v,
        None => {
            return Err(LoadError::Truncated);
        },
    };
    let arrays = match load_arrays(r) {
        Some(v) => v,
        None => {
            return Err(LoadError::Truncated);
        },
    };
    let resid = match load_opt_residpq(r) {
        Some(v) => v,
        None => {
            return Err(LoadError::Truncated);
        },
    };
    let router = match load_router(r) {
        Ok(v) => v,
        Err(e) => {
            return Err(e);
        },
    };
    let comp = match load_comp(r) {
        Ok(v) => v,
        Err(e) => {
            return Err(e);
        },
    };
    Ok(IndexImage { d, bb, a0, by_orig: flag != 0, arrays, resid, router, comp })
}

} // verus!
