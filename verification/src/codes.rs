//! What packed codes spell: two to a byte, in the order of their subspaces.

use crate::ivf::{byte_at, slot_byte, PqIndex};
use crate::layout::block_at;
use crate::pq::{code_at, lane_code, packed_rows};
use crate::rerank::NO_POINT;
use crate::simd::{inner, nibble_score};
use crate::training::two_codes;
use vstd::prelude::*;

verus! {

proof fn lemma_halves(lo: u8, hi: u8)
    requires
        lo < 16,
        hi < 16,
    ensures
        (lo | (hi << 4u8)) % 16 == lo,
        (lo | (hi << 4u8)) / 16 == hi,
{
    assert((lo | (hi << 4u8)) % 16 == lo && (lo | (hi << 4u8)) / 16 == hi) by (bit_vector)
        requires
            lo < 16,
            hi < 16,
    ;
}

/// The codes of up to 16 points come back from their block; a lane without a point spells zeros.
pub proof fn law_packed_rows_come_back(codes: Seq<Vec<u8>>, m: nat, lane: int, s: int)
    requires
        m % 2 == 0,
        0 <= lane < 16,
        0 <= s < m,
        forall|i: int, k: int| 0 <= i < codes.len() && 0 <= k < m ==> (#[trigger] codes[i]@[k]) < 16,
    ensures
        code_at(packed_rows(codes, m), lane, s) == (if lane < codes.len() {
            codes[lane]@[s] as int
        } else {
            0
        }),
{
    let g = s / 2;
    let p = g * 16 + lane;
    assert(p / 16 == g && p % 16 == lane);
    let lo = lane_code(codes, lane, 2 * g);
    let hi = lane_code(codes, lane, 2 * g + 1);
    if lane < codes.len() {
        assert(codes[lane]@[2 * g] < 16 && codes[lane]@[2 * g + 1] < 16);
    }
    lemma_halves(lo, hi);
}

/// The codes of a stored point come back from its slot of a coded inverted file.
pub proof fn law_slots_spell_their_codes(idx: PqIndex, codes: Seq<u8>, slot: int, s: int)
    requires
        idx.packs(codes),
        idx.m % 2 == 0,
        idx.bb == (idx.m / 2) * 16,
        0 <= slot < idx.slot_orig@.len(),
        16 * (slot / 16) < idx.slot_orig@.len(),
        (slot / 16 + 1) * idx.bb <= idx.blocks@.len(),
        0 <= s < idx.m,
        forall|i: int| 0 <= i < codes.len() ==> #[trigger] codes[i] < 16,
        idx.slot_orig@[slot] != NO_POINT ==> (idx.slot_orig@[slot] + 1) * idx.m <= codes.len(),
    ensures
        code_at(block_at(idx.blocks@, idx.bb as nat, slot / 16), slot % 16, s) == (if idx.slot_orig@[slot] != NO_POINT {
            codes[idx.slot_orig@[slot] * idx.m + s] as int
        } else {
            0
        }),
{
    let (b, j, g) = (slot / 16, slot % 16, s / 2);
    let (m, bb) = (idx.m as int, idx.bb as int);
    let id = idx.slot_orig@[slot];
    assert(16 * b + j == slot);
    let at = byte_at(b, bb, g, j);
    assert(idx.blocks@[at] == slot_byte(codes, m as nat, idx.slot_orig@[16 * b + j], g));
    assert(0 <= b * bb && (b + 1) * bb == b * bb + bb && g * 16 + j < bb) by (nonlinear_arith)
        requires
            0 <= b,
            bb == (m / 2) * 16,
            0 <= g < m / 2,
            0 <= j < 16,
    ;
    assert(block_at(idx.blocks@, idx.bb as nat, b)[g * 16 + j] == idx.blocks@[at]);
    if id != NO_POINT {
        let o = id as int;
        assert(0 <= o * m && (o + 1) * m == o * m + m) by (nonlinear_arith)
            requires
                0 <= o,
                0 <= m,
        ;
        lemma_halves(codes[o * m + 2 * g], codes[o * m + 2 * g + 1]);
    }
}

/// A byte of two codes spells them both.
pub proof fn law_two_codes_come_back(lo: u8, hi: u8)
    requires
        lo < 16,
        hi < 16,
    ensures
        two_codes(lo, hi) % 16 == lo,
        two_codes(lo, hi) / 16 == hi,
{
}

/// The score of a row of four-bit codes is the inner product of the query with the codes, where the even
/// coordinates of the query stand in one half and the odd ones in the other.
pub proof fn law_nibble_score_is_an_inner_product(qe: Seq<i8>, qo: Seq<i8>, codes: Seq<u8>, q: Seq<i8>, row: Seq<i8>, n: nat)
    requires
        forall|i: int| 0 <= i < n ==> q[2 * i] == #[trigger] qe[i] && q[2 * i + 1] == qo[i],
        forall|i: int| 0 <= i < n ==> row[2 * i] == (#[trigger] codes[i]) % 16 && row[2 * i + 1] == codes[i] / 16,
    ensures
        nibble_score(qe, qo, codes, n) == inner(q, row, 2 * n),
    decreases n,
{
    if n > 0 {
        law_nibble_score_is_an_inner_product(qe, qo, codes, q, row, (n - 1) as nat);
        reveal_with_fuel(inner, 3);
        let i = n - 1;
        assert(q[2 * i] == qe[i] && q[2 * i + 1] == qo[i]);
        assert(row[2 * i] == codes[i] % 16 && row[2 * i + 1] == codes[i] / 16);
        assert((codes[i] % 16) * qe[i] == q[2 * i] * row[2 * i] && (codes[i] / 16) * qo[i] == q[2 * i + 1] * row[2 * i + 1]) by (nonlinear_arith)
            requires
                q[2 * i] == qe[i] && q[2 * i + 1] == qo[i],
                row[2 * i] == codes[i] % 16 && row[2 * i + 1] == codes[i] / 16,
        ;
    }
}

} // verus!
