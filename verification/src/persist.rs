//! Index image: a flat little-endian byte string with length-prefixed regions. Single-precision
//! values are carried as their bit patterns.
use vstd::prelude::*;
use vstd::slice::slice_subrange;
use crate::bytes::{as_signed, as_unsigned, bytes32, bytes64, law_signs_come_back, law_word_strings_come_back, law_words_come_back, le32, le64, push_u32, push_u64, push_words, read_u32, read_u64, read_words, signed_seq, unsigned_seq, word_at, word_bytes};

verus! {

/// The first 8 bytes of an index image: `SBANNIX1`.
pub const MAGIC: [u8; 8] = [0x53, 0x42, 0x41, 0x4e, 0x4e, 0x49, 0x58, 0x31];

/// The version that follows the magic.
pub const VERSION: u32 = 1;

/// A length-prefixed byte region.
pub open spec fn region(b: Seq<u8>) -> Seq<u8> {
    bytes64(b.len() as u64) + b
}

/// The bytes of a string of double words.
pub open spec fn double_bytes(v: Seq<usize>) -> Seq<u8>
    decreases v.len(),
{
    if v.len() == 0 {
        Seq::empty()
    } else {
        double_bytes(v.drop_last()) + bytes64(v.last() as u64)
    }
}

/// The word that holds a signed value in two's complement.
pub open spec fn unsigned32(v: i32) -> u32 {
    if v >= 0 {
        v as u32
    } else {
        (v + 0x1_0000_0000) as u32
    }
}

/// The signed value that a word holds in two's complement.
pub open spec fn signed32(w: u32) -> i32 {
    if w < 0x8000_0000 {
        w as i32
    } else {
        (w - 0x1_0000_0000) as i32
    }
}

/// Signed values as words.
pub open spec fn unsigned32_seq(v: Seq<i32>) -> Seq<u32> {
    Seq::new(v.len(), |i: int| unsigned32(v[i]))
}

/// Image writer.
pub struct Sw {
    pub w: Vec<u8>,
}

impl Sw {
    pub fn new() -> (r: Self)
        ensures
            r.w@ == Seq::<u8>::empty(),
    {
        Sw { w: Vec::new() }
    }

    pub fn u8(&mut self, v: u8)
        ensures
            final(self).w@ == old(self).w@.push(v),
    {
        self.w.push(v);
    }

    pub fn u32(&mut self, v: u32)
        ensures
            final(self).w@ == old(self).w@ + bytes32(v),
    {
        push_u32(&mut self.w, v);
    }

    pub fn u64(&mut self, v: u64)
        ensures
            final(self).w@ == old(self).w@ + bytes64(v),
    {
        push_u64(&mut self.w, v);
    }

    pub fn usize(&mut self, v: usize)
        ensures
            final(self).w@ == old(self).w@ + bytes64(v as u64),
    {
        self.u64(v as u64);
    }

    /// The bit pattern of a single-precision value.
    pub fn f32_bits(&mut self, v: u32)
        ensures
            final(self).w@ == old(self).w@ + bytes32(v),
    {
        self.u32(v);
    }

    /// A length-prefixed byte region.
    pub fn bytes(&mut self, b: &[u8])
        ensures
            final(self).w@ == old(self).w@ + region(b@),
    {
        let ghost start = self.w@;
        let n: usize = b.len();
        self.u64(n as u64);
        self.append(b);
        assert(self.w@ =~= start + region(b@));
    }

    fn append(&mut self, b: &[u8])
        ensures
            final(self).w@ == old(self).w@ + b@,
    {
        let ghost start = self.w@;
        let n: usize = b.len();
        let mut i: usize = 0;
        while i < n
            invariant
                i <= n,
                n == b@.len(),
                self.w@ =~= start + b@.take(i as int),
            decreases n - i,
        {
            self.w.push(b[i]);
            i = i + 1;
        }
        assert(b@.take(n as int) =~= b@);
    }

    pub fn u8s(&mut self, v: &[u8])
        ensures
            final(self).w@ == old(self).w@ + region(v@),
    {
        self.bytes(v);
    }

    pub fn i8s(&mut self, v: &[i8])
        ensures
            final(self).w@ == old(self).w@ + region(unsigned_seq(v@)),
    {
        self.bytes(as_unsigned(v));
    }

    pub fn u32s(&mut self, v: &[u32])
        requires
            4 * v@.len() <= u64::MAX,
        ensures
            final(self).w@ == old(self).w@ + region(word_bytes(v@)),
    {
        let ghost start = self.w@;
        let n: usize = v.len();
        self.u64(4 * (n as u64));
        push_words(&mut self.w, v);
        proof {
            law_word_strings_come_back(v@);
        }
        assert(self.w@ =~= start + region(word_bytes(v@)));
    }

    pub fn i32s(&mut self, v: &[i32])
        requires
            4 * v@.len() <= u64::MAX,
        ensures
            final(self).w@ == old(self).w@ + region(word_bytes(unsigned32_seq(v@))),
    {
        let n: usize = v.len();
        let mut words: Vec<u32> = Vec::with_capacity(n);
        let mut i: usize = 0;
        while i < n
            invariant
                i <= n,
                n == v@.len(),
                words@ =~= unsigned32_seq(v@).take(i as int),
            decreases n - i,
        {
            let x: i32 = v[i];
            words.push(if x >= 0 { x as u32 } else { (x as i64 + 0x1_0000_0000) as u32 });
            i = i + 1;
        }
        assert(words@ =~= unsigned32_seq(v@));
        self.u32s(words.as_slice());
    }

    /// The bit patterns of single-precision values.
    pub fn f32s(&mut self, v: &[u32])
        requires
            4 * v@.len() <= u64::MAX,
        ensures
            final(self).w@ == old(self).w@ + region(word_bytes(v@)),
    {
        self.u32s(v);
    }

    /// A count, then each element as a double word.
    pub fn usizes(&mut self, v: &[usize])
        ensures
            final(self).w@ == old(self).w@ + bytes64(v@.len() as u64) + double_bytes(v@),
    {
        let ghost start = self.w@;
        let n: usize = v.len();
        self.u64(n as u64);
        let mut i: usize = 0;
        while i < n
            invariant
                i <= n,
                n == v@.len(),
                self.w@ =~= start + bytes64(v@.len() as u64) + double_bytes(v@.take(i as int)),
            decreases n - i,
        {
            self.u64(v[i] as u64);
            assert(v@.take(i + 1).drop_last() =~= v@.take(i as int));
            i = i + 1;
        }
        assert(v@.take(n as int) =~= v@);
    }
}

/// The region length that a byte string starts with.
pub open spec fn region_len(left: Seq<u8>) -> int {
    le64(left.take(8)) as int
}

/// The region that a byte string starts with.
pub open spec fn region_body(left: Seq<u8>) -> Seq<u8> {
    left.subrange(8, 8 + region_len(left))
}

/// A byte string starts with a whole region.
pub open spec fn has_region(left: Seq<u8>) -> bool {
    left.len() >= 8 && left.len() >= 8 + region_len(left)
}

/// A byte string starts with a count and that many double words.
pub open spec fn has_doubles(left: Seq<u8>) -> bool {
    left.len() >= 8 && left.len() >= 8 + 8 * region_len(left)
}

/// Words of a byte region; a rest of fewer than 4 bytes is left out.
pub open spec fn words_of(b: Seq<u8>) -> Seq<u32> {
    Seq::new(b.len() / 4, |i: int| word_at(b, i))
}

/// Image reader.
pub struct Pr<'a> {
    pub buf: &'a [u8],
    pub pos: usize,
}

impl<'a> Pr<'a> {
    /// The reader stands inside its buffer.
    pub open spec fn wf(&self) -> bool {
        self.pos <= self.buf@.len()
    }

    /// The bytes not read yet.
    pub open spec fn left(&self) -> Seq<u8> {
        self.buf@.skip(self.pos as int)
    }

    /// The reader moved on by `n` bytes over the same buffer.
    pub open spec fn moved(&self, from: &Self, n: int) -> bool {
        &&& self.buf == from.buf
        &&& self.wf()
        &&& self.left() == from.left().skip(n)
        &&& self.pos == from.pos + n
    }

    pub fn new(buf: &'a [u8]) -> (r: Self)
        ensures
            r.wf(),
            r.buf == buf,
            r.left() == buf@,
    {
        let r = Pr { buf, pos: 0 };
        assert(r.left() =~= buf@);
        r
    }

    pub fn u8(&mut self) -> (r: u8)
        requires
            old(self).wf(),
            old(self).left().len() >= 1,
        ensures
            r == old(self).left()[0],
            final(self).moved(old(self), 1),
    {
        let n: usize = self.buf.len();
        let v: u8 = self.buf[self.pos];
        self.pos = self.pos + 1;
        assert(self.left() =~= old(self).left().skip(1));
        v
    }

    pub fn u32(&mut self) -> (r: u32)
        requires
            old(self).wf(),
            old(self).left().len() >= 4,
        ensures
            r == le32(old(self).left().take(4)),
            final(self).moved(old(self), 4),
    {
        let n: usize = self.buf.len();
        let v: u32 = read_u32(self.buf, self.pos);
        assert(self.left().take(4) =~= self.buf@.subrange(self.pos as int, self.pos + 4));
        self.pos = self.pos + 4;
        assert(self.left() =~= old(self).left().skip(4));
        v
    }

    pub fn u64(&mut self) -> (r: u64)
        requires
            old(self).wf(),
            old(self).left().len() >= 8,
        ensures
            r == le64(old(self).left().take(8)),
            final(self).moved(old(self), 8),
    {
        let n: usize = self.buf.len();
        let v: u64 = read_u64(self.buf, self.pos);
        assert(self.left().take(8) =~= self.buf@.subrange(self.pos as int, self.pos + 8));
        self.pos = self.pos + 8;
        assert(self.left() =~= old(self).left().skip(8));
        v
    }

    pub fn usize(&mut self) -> (r: usize)
        requires
            old(self).wf(),
            old(self).left().len() >= 8,
        ensures
            r == le64(old(self).left().take(8)) as usize,
            final(self).moved(old(self), 8),
    {
        self.u64() as usize
    }

    /// The bit pattern of a single-precision value.
    pub fn f32_bits(&mut self) -> (r: u32)
        requires
            old(self).wf(),
            old(self).left().len() >= 4,
        ensures
            r == le32(old(self).left().take(4)),
            final(self).moved(old(self), 4),
    {
        self.u32()
    }

    /// The next length-prefixed byte region.
    pub fn bytes(&mut self) -> (r: &'a [u8])
        requires
            old(self).wf(),
            has_region(old(self).left()),
        ensures
            r@ == region_body(old(self).left()),
            final(self).moved(old(self), 8 + region_len(old(self).left())),
    {
        let ghost left = self.left();
        let total: usize = self.buf.len();
        let n: usize = self.usize();
        assert(self.left() =~= left.skip(8));
        let s: &'a [u8] = slice_subrange(self.buf, self.pos, self.pos + n);
        self.pos = self.pos + n;
        proof {
            assert(s@ =~= region_body(left));
            assert(self.left() =~= left.skip(8 + region_len(left)));
        }
        s
    }

    pub fn u8_vec(&mut self) -> (r: Vec<u8>)
        requires
            old(self).wf(),
            has_region(old(self).left()),
        ensures
            r@ == region_body(old(self).left()),
            final(self).moved(old(self), 8 + region_len(old(self).left())),
    {
        let s: &'a [u8] = self.bytes();
        vstd::slice::slice_to_vec(s)
    }

    pub fn i8_vec(&mut self) -> (r: Vec<i8>)
        requires
            old(self).wf(),
            has_region(old(self).left()),
        ensures
            r@ == signed_seq(region_body(old(self).left())),
            final(self).moved(old(self), 8 + region_len(old(self).left())),
    {
        let s: &'a [u8] = self.bytes();
        vstd::slice::slice_to_vec(as_signed(s))
    }

    pub fn u32_vec(&mut self) -> (r: Vec<u32>)
        requires
            old(self).wf(),
            has_region(old(self).left()),
        ensures
            r@ == words_of(region_body(old(self).left())),
            final(self).moved(old(self), 8 + region_len(old(self).left())),
    {
        let s: &'a [u8] = self.bytes();
        let n: usize = s.len() / 4;
        let v: Vec<u32> = read_words(s, n);
        assert(v@ =~= words_of(s@));
        v
    }

    pub fn i32_vec(&mut self) -> (r: Vec<i32>)
        requires
            old(self).wf(),
            has_region(old(self).left()),
        ensures
            r@ == Seq::new(words_of(region_body(old(self).left())).len(), |i: int| signed32(words_of(region_body(old(self).left()))[i])),
            final(self).moved(old(self), 8 + region_len(old(self).left())),
    {
        let words: Vec<u32> = self.u32_vec();
        let n: usize = words.len();
        let mut v: Vec<i32> = Vec::with_capacity(n);
        let mut i: usize = 0;
        while i < n
            invariant
                i <= n,
                n == words@.len(),
                v@.len() == i,
                forall|j: int| 0 <= j < i ==> #[trigger] v@[j] == signed32(words@[j]),
            decreases n - i,
        {
            let x: u32 = words[i];
            v.push(if x < 0x8000_0000 { x as i32 } else { (x as i64 - 0x1_0000_0000) as i32 });
            i = i + 1;
        }
        assert(v@ =~= Seq::new(words@.len(), |i: int| signed32(words@[i])));
        v
    }

    /// The bit patterns of single-precision values.
    pub fn f32_vec(&mut self) -> (r: Vec<u32>)
        requires
            old(self).wf(),
            has_region(old(self).left()),
        ensures
            r@ == words_of(region_body(old(self).left())),
            final(self).moved(old(self), 8 + region_len(old(self).left())),
    {
        self.u32_vec()
    }

    pub fn usize_vec(&mut self) -> (r: Vec<usize>)
        requires
            old(self).wf(),
            has_doubles(old(self).left()),
        ensures
            r@.len() == region_len(old(self).left()),
            forall|i: int| 0 <= i < r@.len() ==> #[trigger] r@[i] == le64(old(self).left().subrange(8 + 8 * i, 16 + 8 * i)) as usize,
            final(self).moved(old(self), 8 + 8 * region_len(old(self).left())),
    {
        let ghost left = self.left();
        let ghost start = *self;
        let total: usize = self.buf.len();
        let n: usize = self.usize();
        let mut v: Vec<usize> = Vec::new();
        let mut i: usize = 0;
        assert(left.skip(8) =~= self.left());
        while i < n
            invariant
                i <= n,
                n == region_len(left),
                has_doubles(left),
                left == start.left(),
                start.wf(),
                self.moved(&start, 8 + 8 * i),
                v@.len() == i,
                forall|j: int| 0 <= j < i ==> #[trigger] v@[j] == le64(left.subrange(8 + 8 * j, 16 + 8 * j)) as usize,
            decreases n - i,
        {
            assert(self.left().take(8) =~= left.subrange(8 + 8 * i, 16 + 8 * i));
            assert(self.left().skip(8) =~= left.skip(16 + 8 * i));
            v.push(self.usize());
            i = i + 1;
        }
        v
    }
}

/// Reading a word or double word gives back what was written, and leaves what follows it.
pub proof fn law_scalars_come_back(x: u32, y: u64, tail: Seq<u8>)
    ensures
        le32((bytes32(x) + tail).take(4)) == x,
        (bytes32(x) + tail).skip(4) == tail,
        le64((bytes64(y) + tail).take(8)) == y,
        (bytes64(y) + tail).skip(8) == tail,
{
    law_words_come_back(x, y);
    assert((bytes32(x) + tail).take(4) =~= bytes32(x));
    assert((bytes32(x) + tail).skip(4) =~= tail);
    assert((bytes64(y) + tail).take(8) =~= bytes64(y));
    assert((bytes64(y) + tail).skip(8) =~= tail);
}

/// Reading a region gives back the bytes that were written, and leaves what follows it.
pub proof fn law_region_comes_back(b: Seq<u8>, tail: Seq<u8>)
    requires
        b.len() <= u64::MAX,
    ensures
        has_region(region(b) + tail),
        region_len(region(b) + tail) == b.len(),
        region_body(region(b) + tail) == b,
        (region(b) + tail).skip(8 + b.len() as int) == tail,
{
    let left = region(b) + tail;
    law_words_come_back(0, b.len() as u64);
    assert(left.take(8) =~= bytes64(b.len() as u64));
    assert(region_body(left) =~= b);
    assert(left.skip(8 + b.len() as int) =~= tail);
}

/// Reading a region of signed bytes gives back the values that were written.
pub proof fn law_i8s_come_back(v: Seq<i8>, tail: Seq<u8>)
    requires
        v.len() <= u64::MAX,
    ensures
        signed_seq(region_body(region(unsigned_seq(v)) + tail)) == v,
{
    law_region_comes_back(unsigned_seq(v), tail);
    law_signs_come_back(v, Seq::empty());
}

/// Reading a region of words gives back the words that were written.
pub proof fn law_u32s_come_back(v: Seq<u32>, tail: Seq<u8>)
    requires
        4 * v.len() <= u64::MAX,
    ensures
        words_of(region_body(region(word_bytes(v)) + tail)) == v,
{
    law_word_strings_come_back(v);
    law_region_comes_back(word_bytes(v), tail);
    assert(words_of(word_bytes(v)) =~= v);
}

/// Reading a region of signed words gives back the values that were written.
pub proof fn law_i32s_come_back(v: Seq<i32>, tail: Seq<u8>)
    requires
        4 * v.len() <= u64::MAX,
    ensures
        ({
            let w = words_of(region_body(region(word_bytes(unsigned32_seq(v))) + tail));
            Seq::new(w.len(), |i: int| signed32(w[i])) == v
        }),
{
    law_u32s_come_back(unsigned32_seq(v), tail);
    let w = words_of(region_body(region(word_bytes(unsigned32_seq(v))) + tail));
    assert(Seq::new(w.len(), |i: int| signed32(w[i])) =~= v);
}

/// Reading a counted string of double words gives back the values that were written, and leaves what
/// follows them.
pub proof fn law_usizes_come_back(v: Seq<usize>, tail: Seq<u8>)
    requires
        v.len() <= u64::MAX,
    ensures
        double_bytes(v).len() == 8 * v.len(),
        has_doubles(bytes64(v.len() as u64) + double_bytes(v) + tail),
        region_len(bytes64(v.len() as u64) + double_bytes(v) + tail) == v.len(),
        forall|i: int| 0 <= i < v.len() ==> le64((bytes64(v.len() as u64) + double_bytes(v) + tail).subrange(8 + 8 * i, 16 + 8 * i)) as usize == #[trigger] v[i],
        (bytes64(v.len() as u64) + double_bytes(v) + tail).skip(8 + 8 * v.len() as int) == tail,
{
    let left = bytes64(v.len() as u64) + double_bytes(v) + tail;
    law_words_come_back(0, v.len() as u64);
    lemma_double_bytes(v);
    assert(left.take(8) =~= bytes64(v.len() as u64));
    assert(left.skip(8 + 8 * v.len() as int) =~= tail);
    assert forall|i: int| 0 <= i < v.len() implies le64(left.subrange(8 + 8 * i, 16 + 8 * i)) as usize == #[trigger] v[i] by {
        assert(left.subrange(8 + 8 * i, 16 + 8 * i) =~= double_bytes(v).subrange(8 * i, 8 * i + 8));
    }
}

proof fn lemma_double_bytes(v: Seq<usize>)
    ensures
        double_bytes(v).len() == 8 * v.len(),
        forall|i: int| 0 <= i < v.len() ==> le64(double_bytes(v).subrange(8 * i, 8 * i + 8)) == #[trigger] v[i],
    decreases v.len(),
{
    if v.len() > 0 {
        let head = v.drop_last();
        lemma_double_bytes(head);
        law_words_come_back(0, v.last() as u64);
        let all = double_bytes(v);
        assert forall|i: int| 0 <= i < v.len() implies le64(all.subrange(8 * i, 8 * i + 8)) == #[trigger] v[i] by {
            if i < head.len() {
                assert(all.subrange(8 * i, 8 * i + 8) =~= double_bytes(head).subrange(8 * i, 8 * i + 8));
                assert(head[i] == v[i]);
            } else {
                assert(all.subrange(8 * i, 8 * i + 8) =~= bytes64(v.last() as u64));
            }
        }
    }
}

} // verus!
