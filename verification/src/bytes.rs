//! Little-endian words and signed bytes.
use vstd::prelude::*;

verus! {

/// The 32-bit word that 4 bytes spell, least significant byte first.
pub open spec fn le32(b: Seq<u8>) -> u32 {
    (b[0] + 0x100 * b[1] + 0x1_0000 * b[2] + 0x100_0000 * b[3]) as u32
}

/// The 64-bit word that 8 bytes spell, least significant byte first.
pub open spec fn le64(b: Seq<u8>) -> u64 {
    (le32(b.subrange(0, 4)) + 0x1_0000_0000 * le32(b.subrange(4, 8))) as u64
}

/// The 4 bytes of a word, least significant first.
pub open spec fn bytes32(x: u32) -> Seq<u8> {
    seq![(x % 0x100) as u8, ((x / 0x100) % 0x100) as u8, ((x / 0x1_0000) % 0x100) as u8, (x / 0x100_0000) as u8]
}

/// The 8 bytes of a word, least significant first.
pub open spec fn bytes64(x: u64) -> Seq<u8> {
    bytes32((x % 0x1_0000_0000) as u32) + bytes32((x / 0x1_0000_0000) as u32)
}

/// Word `i` of a byte string.
pub open spec fn word_at(bytes: Seq<u8>, i: int) -> u32 {
    le32(bytes.subrange(4 * i, 4 * i + 4))
}

/// The bytes of a string of words.
pub open spec fn word_bytes(words: Seq<u32>) -> Seq<u8>
    decreases words.len(),
{
    if words.len() == 0 {
        Seq::empty()
    } else {
        word_bytes(words.drop_last()) + bytes32(words.last())
    }
}

/// The byte that holds a signed value in two's complement.
pub open spec fn unsigned(v: i8) -> u8 {
    if v >= 0 {
        v as u8
    } else {
        (v + 0x100) as u8
    }
}

/// The signed value that a byte holds in two's complement.
pub open spec fn signed(b: u8) -> i8 {
    if b < 0x80 {
        b as i8
    } else {
        (b - 0x100) as i8
    }
}

/// Bytes as signed values.
pub open spec fn signed_seq(b: Seq<u8>) -> Seq<i8> {
    Seq::new(b.len(), |i: int| signed(b[i]))
}

/// Signed values as bytes.
pub open spec fn unsigned_seq(v: Seq<i8>) -> Seq<u8> {
    Seq::new(v.len(), |i: int| unsigned(v[i]))
}

/// Writing a word and reading it back gives the word.
pub proof fn law_words_come_back(x: u32, y: u64)
    ensures
        bytes32(x).len() == 4,
        le32(bytes32(x)) == x,
        bytes64(y).len() == 8,
        le64(bytes64(y)) == y,
{
    lemma_bytes32(x);
    let lo = (y % 0x1_0000_0000) as u32;
    let hi = (y / 0x1_0000_0000) as u32;
    lemma_bytes32(lo);
    lemma_bytes32(hi);
    assert(bytes64(y).subrange(0, 4) =~= bytes32(lo));
    assert(bytes64(y).subrange(4, 8) =~= bytes32(hi));
}

proof fn lemma_bytes32(x: u32)
    ensures
        bytes32(x).len() == 4,
        le32(bytes32(x)) == x,
{
    let b = bytes32(x);
    assert(b[0] == x % 0x100);
    assert(b[1] == (x / 0x100) % 0x100);
    assert(b[2] == (x / 0x1_0000) % 0x100);
    assert(b[3] == x / 0x100_0000);
    assert(b[0] + 0x100 * b[1] + 0x1_0000 * b[2] + 0x100_0000 * b[3] == x);
}

/// A string of words comes back from its bytes.
pub proof fn law_word_strings_come_back(words: Seq<u32>)
    ensures
        word_bytes(words).len() == 4 * words.len(),
        forall|i: int| 0 <= i < words.len() ==> word_at(word_bytes(words), i) == #[trigger] words[i],
    decreases words.len(),
{
    if words.len() > 0 {
        let head = words.drop_last();
        law_word_strings_come_back(head);
        lemma_bytes32(words.last());
        let all = word_bytes(words);
        assert forall|i: int| 0 <= i < words.len() implies word_at(all, i) == #[trigger] words[i] by {
            if i < head.len() {
                assert(all.subrange(4 * i, 4 * i + 4) =~= word_bytes(head).subrange(4 * i, 4 * i + 4));
                assert(head[i] == words[i]);
            } else {
                assert(all.subrange(4 * i, 4 * i + 4) =~= bytes32(words.last()));
            }
        }
    }
}

/// Signed values come back from their bytes, and bytes from their signed values.
pub proof fn law_signs_come_back(v: Seq<i8>, b: Seq<u8>)
    ensures
        signed_seq(unsigned_seq(v)) == v,
        unsigned_seq(signed_seq(b)) == b,
{
    assert(signed_seq(unsigned_seq(v)) =~= v);
    assert(unsigned_seq(signed_seq(b)) =~= b);
}

/// `bytemuck::cast_slice` from `u8` to `i8`: the same bytes in the same order, each read as a
/// two's complement value. Both types are one byte wide, so the call cannot fail.
#[verifier::external_body]
pub(crate) fn as_signed(b: &[u8]) -> (r: &[i8])
    ensures
        r@ == signed_seq(b@),
{
    bytemuck::cast_slice::<u8, i8>(b)
}

/// `bytemuck::cast_slice` from `i8` to `u8`: the same bytes in the same order, each the two's
/// complement of the value. Both types are one byte wide, so the call cannot fail.
#[verifier::external_body]
pub(crate) fn as_unsigned(v: &[i8]) -> (r: &[u8])
    ensures
        r@ == unsigned_seq(v@),
{
    bytemuck::cast_slice::<i8, u8>(v)
}

/// The word at byte offset `pos`.
pub fn read_u32(b: &[u8], pos: usize) -> (r: u32)
    requires
        pos + 4 <= b@.len(),
    ensures
        r == le32(b@.subrange(pos as int, pos + 4)),
{
    let blen: usize = b.len();
    b[pos] as u32 + 0x100 * (b[pos + 1] as u32) + 0x1_0000 * (b[pos + 2] as u32) + 0x100_0000 * (b[pos + 3] as u32)
}

/// The double word at byte offset `pos`.
pub fn read_u64(b: &[u8], pos: usize) -> (r: u64)
    requires
        pos + 8 <= b@.len(),
    ensures
        r == le64(b@.subrange(pos as int, pos + 8)),
{
    let blen: usize = b.len();
    let lo: u32 = read_u32(b, pos);
    let hi: u32 = read_u32(b, pos + 4);
    proof {
        let w = b@.subrange(pos as int, pos + 8);
        assert(w.subrange(0, 4) =~= b@.subrange(pos as int, pos + 4));
        assert(w.subrange(4, 8) =~= b@.subrange(pos + 4, pos + 8));
    }
    lo as u64 + 0x1_0000_0000 * (hi as u64)
}

/// Append the bytes of a word.
pub fn push_u32(out: &mut Vec<u8>, x: u32)
    ensures
        final(out)@ == old(out)@ + bytes32(x),
{
    out.push((x % 0x100) as u8);
    out.push(((x / 0x100) % 0x100) as u8);
    out.push(((x / 0x1_0000) % 0x100) as u8);
    out.push((x / 0x100_0000) as u8);
    assert(out@ =~= old(out)@ + bytes32(x));
}

/// Append the bytes of a double word.
pub fn push_u64(out: &mut Vec<u8>, x: u64)
    ensures
        final(out)@ == old(out)@ + bytes64(x),
{
    push_u32(out, (x % 0x1_0000_0000) as u32);
    push_u32(out, (x / 0x1_0000_0000) as u32);
    assert(out@ =~= old(out)@ + bytes64(x));
}

/// The first `n` words of a byte string.
pub fn read_words(bytes: &[u8], n: usize) -> (r: Vec<u32>)
    requires
        4 * n <= bytes@.len(),
    ensures
        r@.len() == n,
        forall|i: int| 0 <= i < n ==> #[trigger] r@[i] == word_at(bytes@, i),
{
    let blen: usize = bytes.len();
    let mut v: Vec<u32> = Vec::with_capacity(n);
    let mut i: usize = 0;
    while i < n
        invariant
            i <= n,
            blen == bytes@.len(),
            4 * n <= blen,
            v@.len() == i,
            forall|j: int| 0 <= j < i ==> #[trigger] v@[j] == word_at(bytes@, j),
        decreases n - i,
    {
        v.push(read_u32(bytes, 4 * i));
        i = i + 1;
    }
    v
}

/// Append the bytes of a string of words.
pub fn push_words(out: &mut Vec<u8>, words: &[u32])
    ensures
        final(out)@ == old(out)@ + word_bytes(words@),
{
    let ghost start = out@;
    let n: usize = words.len();
    let mut i: usize = 0;
    while i < n
        invariant
            i <= n,
            n == words@.len(),
            out@ =~= start + word_bytes(words@.take(i as int)),
        decreases n - i,
    {
        push_u32(out, words[i]);
        proof {
            assert(words@.take(i + 1).drop_last() =~= words@.take(i as int));
        }
        i = i + 1;
    }
    proof {
        assert(words@.take(n as int) =~= words@);
    }
}

} // verus!
