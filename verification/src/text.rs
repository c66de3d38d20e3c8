//! The little text that the measurement plans are written in: lists and rows of
//! unsigned numbers, split at one separator.

use vstd::prelude::*;
use vstd::string::*;

verus! {

/// The characters that Unicode calls white space.
pub open spec fn is_space(c: char) -> bool {
    ||| '\u{9}' <= c <= '\u{d}'
    ||| c == ' '
    ||| c == '\u{85}'
    ||| c == '\u{a0}'
    ||| c == '\u{1680}'
    ||| '\u{2000}' <= c <= '\u{200a}'
    ||| c == '\u{2028}'
    ||| c == '\u{2029}'
    ||| c == '\u{202f}'
    ||| c == '\u{205f}'
    ||| c == '\u{3000}'
}

/// The text without the white space at its two ends.
pub open spec fn trimmed(s: Seq<char>) -> Seq<char>
    decreases s.len(),
{
    if s.len() == 0 {
        s
    } else if is_space(s.first()) {
        trimmed(s.subrange(1, s.len() as int))
    } else if is_space(s.last()) {
        trimmed(s.drop_last())
    } else {
        s
    }
}

/// One decimal digit.
pub open spec fn is_digit(c: char) -> bool {
    '0' <= c <= '9'
}

/// The number that a string of digits spells, most significant first.
pub open spec fn spelled(s: Seq<char>) -> nat
    decreases s.len(),
{
    if s.len() == 0 {
        0
    } else {
        spelled(s.drop_last()) * 10 + (s.last() as nat - '0' as nat) as nat
    }
}

/// The digits of a number, after the plus sign that may stand in front.
pub open spec fn unsigned_part(s: Seq<char>) -> Seq<char> {
    if s.len() > 0 && s[0] == '+' {
        s.subrange(1, s.len() as int)
    } else {
        s
    }
}

/// The unsigned machine word that a text spells: one digit or more, with at most a plus sign in
/// front and nothing else around them, and no more than the word holds.
pub open spec fn number(s: Seq<char>) -> Option<usize> {
    let t = unsigned_part(s);
    if t.len() > 0 && (forall|i: int| 0 <= i < t.len() ==> is_digit(#[trigger] t[i])) && spelled(t)
        <= usize::MAX {
        Some(spelled(t) as usize)
    } else {
        None
    }
}

/// The pieces of a text between its separators: one more than there are separators.
pub open spec fn pieces(s: Seq<char>, sep: char) -> Seq<Seq<char>>
    decreases s.len(),
{
    if s.len() == 0 {
        seq![Seq::<char>::empty()]
    } else {
        let before = pieces(s.drop_last(), sep);
        if s.last() == sep {
            before.push(Seq::<char>::empty())
        } else {
            before.drop_last().push(before.last().push(s.last()))
        }
    }
}

/// The texts that a vector of texts holds.
pub open spec fn texts(v: Seq<Vec<char>>) -> Seq<Seq<char>> {
    Seq::new(v.len(), |i: int| v[i]@)
}

/// The numbers of at least `least` among some texts, in order; what spells none is passed over.
pub open spec fn numbers_in(ps: Seq<Seq<char>>, least: usize) -> Seq<usize>
    decreases ps.len(),
{
    if ps.len() == 0 {
        Seq::empty()
    } else {
        let before = numbers_in(ps.drop_last(), least);
        match number(trimmed(ps.last())) {
            Some(v) => if v >= least {
                before.push(v)
            } else {
                before
            },
            None => before,
        }
    }
}

/// The numbers of a list: its pieces, trimmed, that spell one of at least `least`.
pub open spec fn number_list(s: Seq<char>, sep: char, least: usize) -> Seq<usize> {
    numbers_in(pieces(s, sep), least)
}

/// The number that the first piece of a list spells, as it stands.
pub open spec fn first_number(s: Seq<char>, sep: char) -> Option<usize> {
    number(pieces(s, sep)[0])
}

proof fn lemma_pieces_exist(s: Seq<char>, sep: char)
    ensures
        pieces(s, sep).len() > 0,
    decreases s.len(),
{
    if s.len() > 0 {
        lemma_pieces_exist(s.drop_last(), sep);
    }
}

proof fn lemma_spelled_grows(s: Seq<char>, n: int)
    requires
        0 <= n <= s.len(),
    ensures
        spelled(s.take(n)) <= spelled(s),
    decreases s.len(),
{
    if n < s.len() {
        assert(s.take(n) =~= s.drop_last().take(n));
        lemma_spelled_grows(s.drop_last(), n);
    } else {
        assert(s.take(n) =~= s);
    }
}

/// The characters of a text.
pub fn chars_of(s: &str) -> (r: Vec<char>)
    ensures
        r@ == s@,
{
    let n: usize = s.unicode_len();
    let mut out: Vec<char> = Vec::new();
    let mut i: usize = 0;
    while i < n
        invariant
            i <= n,
            n == s@.len(),
            out@ == s@.take(i as int),
        decreases n - i,
    {
        out.push(s.get_char(i));
        i = i + 1;
    }
    assert(s@.take(n as int) =~= s@);
    out
}

/// True of the characters that Unicode calls white space.
pub fn space(c: char) -> (r: bool)
    ensures
        r == is_space(c),
{
    ('\u{9}' <= c && c <= '\u{d}') || c == ' ' || c == '\u{85}' || c == '\u{a0}' || c == '\u{1680}'
        || ('\u{2000}' <= c && c <= '\u{200a}') || c == '\u{2028}' || c == '\u{2029}' || c
        == '\u{202f}' || c == '\u{205f}' || c == '\u{3000}'
}

/// The text without the white space at its two ends.
pub fn trim(s: &[char]) -> (r: Vec<char>)
    ensures
        r@ == trimmed(s@),
{
    let mut lo: usize = 0;
    let mut hi: usize = s.len();
    assert(s@.subrange(0, s@.len() as int) =~= s@);
    while lo < hi && space(s[lo])
        invariant
            lo <= hi,
            hi == s@.len(),
            trimmed(s@.subrange(lo as int, hi as int)) == trimmed(s@),
        decreases hi - lo,
    {
        assert(s@.subrange(lo as int, hi as int).subrange(1, hi - lo) =~= s@.subrange(
            lo + 1,
            hi as int,
        ));
        assert(s@.subrange(lo as int, hi as int).first() == s@[lo as int]);
        lo = lo + 1;
    }
    while lo < hi && space(s[hi - 1])
        invariant
            lo <= hi <= s@.len(),
            lo < hi ==> !is_space(s@[lo as int]),
            trimmed(s@.subrange(lo as int, hi as int)) == trimmed(s@),
        decreases hi - lo,
    {
        let ghost part = s@.subrange(lo as int, hi as int);
        assert(part.drop_last() =~= s@.subrange(lo as int, hi - 1));
        assert(part.first() == s@[lo as int]);
        assert(part.last() == s@[hi - 1]);
        hi = hi - 1;
    }
    proof {
        let part = s@.subrange(lo as int, hi as int);
        if lo < hi {
            assert(part.first() == s@[lo as int]);
            assert(part.last() == s@[hi - 1]);
        }
        assert(trimmed(part) == part);
    }
    vstd::slice::slice_to_vec(vstd::slice::slice_subrange(s, lo, hi))
}

/// The unsigned word that a text spells, if it spells one.
pub fn parse_usize(s: &[char]) -> (r: Option<usize>)
    ensures
        r == number(s@),
{
    let n: usize = s.len();
    let start: usize = if n > 0 && s[0] == '+' {
        1
    } else {
        0
    };
    let ghost t = unsigned_part(s@);
    assert(t =~= s@.subrange(start as int, n as int));
    if start == n {
        return None;
    }
    let mut v: usize = 0;
    let mut i: usize = start;
    while i < n
        invariant
            start <= i <= n,
            start < n,
            n == s@.len(),
            t == unsigned_part(s@),
            t == s@.subrange(start as int, n as int),
            v == spelled(t.take(i - start)),
            forall|j: int| 0 <= j < i - start ==> is_digit(#[trigger] t[j]),
        decreases n - i,
    {
        let c: char = s[i];
        assert(c == t[i - start]);
        if !('0' <= c && c <= '9') {
            assert(!is_digit(t[i - start]));
            return None;
        }
        let digit: usize = (c as u32 - '0' as u32) as usize;
        proof {
            assert(t.take(i - start + 1).drop_last() =~= t.take(i - start));
            lemma_spelled_grows(t, i - start + 1);
            assert(spelled(t.take(i - start + 1)) == v * 10 + digit);
        }
        match v.checked_mul(10) {
            None => {
                return None;
            },
            Some(ten) => {
                match ten.checked_add(digit) {
                    None => {
                        return None;
                    },
                    Some(next) => {
                        v = next;
                    },
                }
            },
        }
        i = i + 1;
    }
    assert(t.take(n - start) =~= t);
    Some(v)
}

/// The pieces of a text between its separators.
pub fn split(s: &[char], sep: char) -> (r: Vec<Vec<char>>)
    ensures
        texts(r@) == pieces(s@, sep),
{
    let n: usize = s.len();
    let mut out: Vec<Vec<char>> = Vec::new();
    let mut piece: Vec<char> = Vec::new();
    let mut i: usize = 0;
    assert(s@.take(0) =~= Seq::<char>::empty());
    assert(texts(out@).push(piece@) =~= pieces(s@.take(0), sep));
    while i < n
        invariant
            i <= n,
            n == s@.len(),
            texts(out@).push(piece@) == pieces(s@.take(i as int), sep),
        decreases n - i,
    {
        let ghost before = texts(out@).push(piece@);
        assert(s@.take(i + 1).drop_last() =~= s@.take(i as int));
        let c: char = s[i];
        if c == sep {
            out.push(piece);
            piece = Vec::new();
            assert(texts(out@) =~= before);
        } else {
            piece.push(c);
            assert(texts(out@).push(piece@) =~= before.drop_last().push(before.last().push(c)));
        }
        i = i + 1;
    }
    assert(s@.take(n as int) =~= s@);
    let ghost before = texts(out@).push(piece@);
    out.push(piece);
    assert(texts(out@) =~= before);
    out
}

/// The numbers of a list that are at least `least`, in the order of the list.
pub fn parse_list(s: &[char], sep: char, least: usize) -> (r: Vec<usize>)
    ensures
        r@ == number_list(s@, sep, least),
{
    let ps: Vec<Vec<char>> = split(s, sep);
    let n: usize = ps.len();
    let ghost all = pieces(s@, sep);
    let mut out: Vec<usize> = Vec::new();
    let mut i: usize = 0;
    assert(all.take(0) =~= Seq::<Seq<char>>::empty());
    while i < n
        invariant
            i <= n,
            n == ps@.len(),
            texts(ps@) == all,
            out@ == numbers_in(all.take(i as int), least),
        decreases n - i,
    {
        assert(all.take(i + 1).drop_last() =~= all.take(i as int));
        assert(all.take(i + 1).last() == texts(ps@)[i as int]);
        let bare: Vec<char> = trim(ps[i].as_slice());
        match parse_usize(bare.as_slice()) {
            Some(v) => {
                if v >= least {
                    out.push(v);
                }
            },
            None => {},
        }
        i = i + 1;
    }
    assert(all.take(n as int) =~= all);
    out
}

/// The number at the head of a list; `None` where its first piece spells none.
pub fn parse_first(s: &[char], sep: char) -> (r: Option<usize>)
    ensures
        r == first_number(s@, sep),
{
    let ps: Vec<Vec<char>> = split(s, sep);
    proof {
        lemma_pieces_exist(s@, sep);
        assert(texts(ps@)[0] == ps@[0]@);
    }
    parse_usize(ps[0].as_slice())
}

} // verus!
