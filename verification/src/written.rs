//! How an index is written down: the fields of an image in order, and words by their bytes.

use crate::archive::{image, put_comp, put_models, CompParts, IndexParts};
use crate::bytes::{bytes32, bytes64, unsigned_seq, word_bytes};
use crate::image::{half_bytes, i8_regions, put_router, u16_regions, u32_regions, RouterParts};
use crate::persist::{double_bytes, region, unsigned32_seq, MAGIC};
use crate::store::{put_list, put_opt_pq, put_pq, put_regions, put_resid, PqParts, ResidParts};
use vstd::prelude::*;

verus! {

/// Words are written least significant byte first.
pub proof fn law_words_are_little_endian(x: u32, y: u64, i: int)
    ensures
        bytes32(x).len() == 4,
        bytes32(x)[0] == x % 0x100,
        bytes32(x)[1] == (x / 0x100) % 0x100,
        bytes32(x)[2] == (x / 0x1_0000) % 0x100,
        bytes32(x)[3] == x / 0x100_0000,
        bytes64(y).len() == 8,
        0 <= i < 4 ==> bytes64(y)[i] == bytes32((y % 0x1_0000_0000) as u32)[i],
        4 <= i < 8 ==> bytes64(y)[i] == bytes32((y / 0x1_0000_0000) as u32)[i - 4],
{
}

/// A string of words is their bytes, one word behind the other.
pub proof fn law_word_strings_stand_in_order(words: Seq<u32>, i: int, j: int)
    requires
        0 <= i < words.len(),
        0 <= j < 4,
    ensures
        word_bytes(words).len() == 4 * words.len(),
        word_bytes(words)[4 * i + j] == bytes32(words[i])[j],
    decreases words.len(),
{
    let head = words.drop_last();
    lemma_word_bytes_len(words);
    lemma_word_bytes_len(head);
    if i < head.len() {
        law_word_strings_stand_in_order(head, i, j);
        assert(head[i] == words[i]);
    }
}

proof fn lemma_word_bytes_len(words: Seq<u32>)
    ensures
        word_bytes(words).len() == 4 * words.len(),
    decreases words.len(),
{
    if words.len() > 0 {
        lemma_word_bytes_len(words.drop_last());
    }
}

/// A region is its length in eight bytes, and the bytes; a list of regions is their number in eight bytes,
/// and the regions in order.
pub proof fn law_regions_carry_their_lengths(v: Seq<Seq<u8>>, tail: Seq<u8>)
    requires
        v.len() > 0,
    ensures
        region(v[0]) == bytes64(v[0].len() as u64) + v[0],
        put_list(v, tail) == bytes64(v.len() as u64) + put_regions(v, tail),
        put_regions(v, tail) == region(v[0]) + put_regions(v.skip(1), tail),
        put_regions(Seq::empty(), tail) == tail,
{
}

proof fn lemma_next_region(v: Seq<Seq<u8>>, i: int, tail: Seq<u8>)
    requires
        0 <= i < v.len(),
    ensures
        put_regions(v.skip(i), tail) == region(v[i]) + put_regions(v.skip(i + 1), tail),
{
    assert(v.skip(i).skip(1) =~= v.skip(i + 1));
}

/// The image of an index: eight bytes of magic, the version, the sizes, the nine arrays, and the models.
pub proof fn law_image_layout(v: IndexParts)
    ensures
        image(v) == seq![0x53u8, 0x42u8, 0x41u8, 0x4eu8, 0x4eu8, 0x49u8, 0x58u8, 0x31u8] + (bytes32(1) + (bytes64(v.d as u64) + (bytes64(v.bb as u64) + (bytes64(v.a0 as u64) + (seq![if v.by_orig { 1u8 } else { 0u8 }] + (region(word_bytes(v.arrays.cell_bstart)) + (region(word_bytes(v.arrays.slot_orig)) + (region(v.arrays.blocks) + (region(word_bytes(unsigned32_seq(v.arrays.xfn))) + (region(unsigned_seq(v.arrays.raw)) + (region(v.arrays.blocks_il) + (region(word_bytes(v.arrays.cell_ilstart)) + (region(v.arrays.resid_codes) + (region(unsigned_seq(v.arrays.rq_cent)) + put_models(v))))))))))))))),
        put_models(v) == put_resid(v.resid, put_router(v.router, put_comp(v.comp, Seq::empty()))),
{
    let r = v.arrays.regions();
    let t = put_models(v);
    assert(r.skip(0) =~= r);
    lemma_next_region(r, 0, t);
    lemma_next_region(r, 1, t);
    lemma_next_region(r, 2, t);
    lemma_next_region(r, 3, t);
    lemma_next_region(r, 4, t);
    lemma_next_region(r, 5, t);
    lemma_next_region(r, 6, t);
    lemma_next_region(r, 7, t);
    lemma_next_region(r, 8, t);
    assert(r.skip(9) =~= Seq::<Seq<u8>>::empty());
    assert(MAGIC@ =~= seq![0x53u8, 0x42u8, 0x41u8, 0x4eu8, 0x4eu8, 0x49u8, 0x58u8, 0x31u8]);
}

/// A codebook: its sizes, its weight, its centroids.
pub proof fn law_codebook_layout(v: PqParts, tail: Seq<u8>)
    ensures
        put_pq(v, tail) == bytes64(v.d as u64) + (bytes64(v.dpb as u64) + (bytes64(v.m as u64) + (bytes32(v.eta) + (region(word_bytes(v.cent)) + tail)))),
        put_opt_pq(Some(v), tail) == seq![1u8] + put_pq(v, tail),
        put_opt_pq(None, tail) == seq![0u8] + tail,
{
}

/// A second codebook, where there is one: its sizes and its centroids.
pub proof fn law_second_codebook_layout(v: ResidParts, tail: Seq<u8>)
    ensures
        put_resid(Some(v), tail) == seq![1u8] + (bytes64(v.d as u64) + (bytes64(v.dpb as u64) + (bytes64(v.m as u64) + (region(word_bytes(v.cent)) + tail)))),
        put_resid(None, tail) == seq![0u8] + tail,
{
}

/// A compressor: a tag, the settings of an anisotropic one, and the codebook.
pub proof fn law_compressor_layout(d: usize, dpb: usize, eta: u32, pq: PqParts, tail: Seq<u8>)
    ensures
        put_comp(CompParts::Apq4 { d, dpb, eta, pq }, tail) == seq![1u8] + (bytes64(d as u64) + (bytes64(dpb as u64) + (bytes32(eta) + put_pq(pq, tail)))),
        put_comp(CompParts::Pq4 { pq }, tail) == seq![2u8] + put_pq(pq, tail),
{
}

/// A router: a tag, its sizes, its spill weight, the mean, the centroids and the children level by level,
/// the beams, the codes, and half-precision centroids behind the second tag.
pub proof fn law_router_layout(v: RouterParts, tail: Seq<u8>)
    ensures
        ({
            let end = if v.cent_f16.len() > 0 {
                put_list(u16_regions(v.cent_f16), tail)
            } else {
                tail
            };
            let codes = put_opt_pq(v.radc, region(v.rcodes) + (region(v.rblocks) + end));
            let beams = bytes64(v.beam.len() as u64) + double_bytes(v.beam) + codes;
            let tree = put_list(i8_regions(v.cent), put_list(u32_regions(v.child), beams));
            put_router(v, tail) == seq![if v.cent_f16.len() > 0 { 2u8 } else { 1u8 }] + (bytes64(v.d as u64) + (bytes64(v.kf as u64) + (bytes64(v.levels as u64) + (bytes32(v.soar) + (region(word_bytes(v.mu)) + tree)))))
        }),
        forall|i: int| 0 <= i < v.cent.len() ==> #[trigger] i8_regions(v.cent)[i] == unsigned_seq(v.cent[i]),
        forall|i: int| 0 <= i < v.child.len() ==> #[trigger] u32_regions(v.child)[i] == word_bytes(v.child[i]),
        forall|i: int| 0 <= i < v.cent_f16.len() ==> #[trigger] u16_regions(v.cent_f16)[i] == half_bytes(v.cent_f16[i]),
{
}

} // verus!
