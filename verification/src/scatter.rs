//! The order in which a benchmark visits its blocks, and the pairing of blocks into wide ones.

use vstd::prelude::*;

verus! {

/// The next state of the shift-and-xor generator.
pub open spec fn spun(s: u64) -> u64 {
    let a = s ^ (s << 13u64);
    let b = a ^ (a >> 7u64);
    b ^ (b << 17u64)
}

/// The generator after `n` steps.
pub open spec fn spun_after(s: u64, n: nat) -> u64
    decreases n,
{
    if n == 0 {
        s
    } else {
        spun(spun_after(s, (n - 1) as nat))
    }
}

/// Step the generator.
pub fn spin(state: &mut u64) -> (r: u64)
    ensures
        r == spun(*old(state)),
        *final(state) == r,
{
    *state = *state ^ (*state << 13u64);
    *state = *state ^ (*state >> 7u64);
    *state = *state ^ (*state << 17u64);
    *state
}

/// A sequence with two places exchanged.
pub open spec fn exchanged(s: Seq<usize>, i: int, j: int) -> Seq<usize> {
    s.update(i, s[j]).update(j, s[i])
}

/// The shuffle: from place `i` down to place 1, each place is exchanged with a drawn one that is not
/// behind it.
pub open spec fn shuffled(s: Seq<usize>, state: u64, i: nat) -> Seq<usize>
    decreases i,
{
    if i == 0 {
        s
    } else {
        let next = spun(state);
        shuffled(exchanged(s, i as int, next as int % (i as int + 1)), next, (i - 1) as nat)
    }
}

/// The numbers `0 .. n` in order.
pub open spec fn in_order(n: nat) -> Seq<usize> {
    Seq::new(n, |i: int| i as usize)
}

/// The numbers `0 .. n`, shuffled where `scatter` asks for it, with one draw for each place but the
/// first.
pub fn visit_order(n: usize, scatter: bool, state: &mut u64) -> (r: Vec<usize>)
    ensures
        r@ == if scatter && n > 0 {
            shuffled(in_order(n as nat), *old(state), (n - 1) as nat)
        } else {
            in_order(n as nat)
        },
        *final(state) == if scatter && n > 0 {
            spun_after(*old(state), (n - 1) as nat)
        } else {
            *old(state)
        },
{
    let mut order: Vec<usize> = Vec::with_capacity(n);
    let mut k: usize = 0;
    while k < n
        invariant
            k <= n,
            order@.len() == k,
            forall|i: int| 0 <= i < k ==> #[trigger] order@[i] == i,
        decreases n - k,
    {
        order.push(k);
        k = k + 1;
    }
    assert(order@ =~= in_order(n as nat));
    if !scatter || n == 0 {
        return order;
    }
    let mut i: usize = n - 1;
    while i > 0
        invariant
            i < n,
            order@.len() == n,
            n > 0,
            *state == spun_after(*old(state), (n - 1 - i) as nat),
            shuffled(in_order(n as nat), *old(state), (n - 1) as nat) == shuffled(order@, *state, i as nat),
        decreases i,
    {
        let draw: u64 = spin(state);
        let j: usize = (draw % (i as u64 + 1)) as usize;
        let a: usize = order[i];
        let b: usize = order[j];
        order.set(i, b);
        order.set(j, a);
        i = i - 1;
    }
    order
}

proof fn lemma_exchange(s: Seq<usize>, i: int, j: int)
    requires
        0 <= i < s.len(),
        0 <= j < s.len(),
    ensures
        exchanged(s, i, j).to_multiset() == s.to_multiset(),
        exchanged(s, i, j).len() == s.len(),
{
    broadcast use vstd::seq_lib::group_to_multiset_ensures;

    let a = s.update(i, s[j]);
    assert(a.to_multiset() =~= s.to_multiset().remove(s[i]).insert(s[j]));
    let b = a.update(j, s[i]);
    assert(b.to_multiset() =~= a.to_multiset().remove(a[j]).insert(s[i]));
    assert(a[j] == s[j]);
    assert(s.to_multiset().count(s[i]) > 0) by {
        assert(s.contains(s[i]));
    }
    assert(b.to_multiset() =~= s.to_multiset());
}

/// A shuffle visits every block once.
pub proof fn law_shuffle_is_a_permutation(s: Seq<usize>, state: u64, i: nat)
    requires
        i < s.len() || i == 0,
    ensures
        shuffled(s, state, i).to_multiset() == s.to_multiset(),
        shuffled(s, state, i).len() == s.len(),
    decreases i,
{
    if i > 0 {
        let next = spun(state);
        let j = next as int % (i as int + 1);
        lemma_exchange(s, i as int, j);
        law_shuffle_is_a_permutation(exchanged(s, i as int, j), next, (i - 1) as nat);
    }
}

/// Blocks of 16 points paired into blocks of 32: group `g` of wide block `b` is group `g` of block
/// `2 b`, then group `g` of block `2 b + 1`. `half` is the number of groups.
pub fn pair_blocks(blocks: &[u8], half: usize, pairs: usize) -> (r: Vec<u8>)
    requires
        blocks@.len() >= pairs * (half * 32),
        half * 32 <= usize::MAX,
    ensures
        r@.len() == pairs * (half * 32),
        forall|b: int, g: int, s: int, i: int|
            0 <= b < pairs && 0 <= g < half && 0 <= s < 2 && 0 <= i < 16 ==> #[trigger] r@[wide_at(half as int, b, g, s, i)] == blocks@[narrow_at(half as int, b, g, s, i)],
{
    let blen: usize = blocks.len();
    let mut out: Vec<u8> = Vec::with_capacity(blen);
    let mut b: usize = 0;
    while b < pairs
        invariant
            b <= pairs,
            blen == blocks@.len(),
            blen >= pairs * (half * 32),
            half * 32 <= usize::MAX,
            out@.len() == b * (half * 32),
            forall|e: int, g: int, s: int, i: int|
                0 <= e < b && 0 <= g < half && 0 <= s < 2 && 0 <= i < 16 ==> #[trigger] out@[wide_at(half as int, e, g, s, i)] == blocks@[narrow_at(half as int, e, g, s, i)],
        decreases pairs - b,
    {
        let mut g: usize = 0;
        while g < half
            invariant
                g <= half,
                b < pairs,
                blen == blocks@.len(),
                blen >= pairs * (half * 32),
                half * 32 <= usize::MAX,
                out@.len() == b * (half * 32) + g * 32,
                forall|e: int, h: int, s: int, i: int|
                    0 <= h < half && 0 <= s < 2 && 0 <= i < 16 && (0 <= e < b || (e == b && h < g)) ==> #[trigger] out@[wide_at(half as int, e, h, s, i)] == blocks@[narrow_at(half as int, e, h, s, i)],
            decreases half - g,
        {
            let ghost before = out@;
            let mut k: usize = 0;
            while k < 32
                invariant
                    k <= 32,
                    g < half,
                    b < pairs,
                    blen == blocks@.len(),
                    blen >= pairs * (half * 32),
                    half * 32 <= usize::MAX,
                    before.len() == b * (half * 32) + g * 32,
                    out@.len() == before.len() + k,
                    forall|x: int| 0 <= x < before.len() ==> #[trigger] out@[x] == before[x],
                    forall|x: int| 0 <= x < k ==> #[trigger] out@[before.len() + x] == blocks@[narrow_at(half as int, b as int, g as int, x / 16, x % 16)],
                decreases 32 - k,
            {
                let side: usize = k / 16;
                let lane: usize = k % 16;
                proof {
                    lemma_narrow_bound(half as int, b as int, g as int, side as int, lane as int, pairs as int);
                    assert(2 * b * (half * 16) == b * (half * 32)) by (nonlinear_arith);
                    assert((2 * b + side) * (half * 16) == 2 * b * (half * 16) + side * (half * 16)) by (nonlinear_arith);
                    assert(b * (half * 32) + half * 32 <= pairs * (half * 32)) by (nonlinear_arith)
                        requires
                            b < pairs,
                    ;
                    assert(2 * b + 2 <= pairs * (half * 32)) by (nonlinear_arith)
                        requires
                            b < pairs,
                            half >= 1,
                    ;
                    assert(side * (half * 16) <= half * 16) by (nonlinear_arith)
                        requires
                            0 <= side <= 1,
                            half >= 0,
                    ;
                }
                let at: usize = (2 * b + side) * (half * 16) + g * 16 + lane;
                assert(at == narrow_at(half as int, b as int, g as int, side as int, lane as int));
                out.push(blocks[at]);
                k = k + 1;
            }
            proof {
                assert forall|e: int, h: int, s: int, i: int|
                    0 <= h < half && 0 <= s < 2 && 0 <= i < 16 && (0 <= e < b || (e == b && h < g + 1)) implies #[trigger] out@[wide_at(half as int, e, h, s, i)] == blocks@[narrow_at(half as int, e, h, s, i)] by {
                    lemma_wide_order(half as int, e, h, s, i, b as int, g as int);
                    if e == b && h == g {
                        let x = 16 * s + i;
                        assert(out@[before.len() + x] == blocks@[narrow_at(half as int, b as int, g as int, x / 16, x % 16)]);
                        assert(x / 16 == s && x % 16 == i);
                    } else {
                        assert(out@[wide_at(half as int, e, h, s, i)] == before[wide_at(half as int, e, h, s, i)]);
                    }
                }
            }
            g = g + 1;
        }
        assert(b * (half * 32) + half * 32 == (b + 1) * (half * 32)) by (nonlinear_arith);
        b = b + 1;
    }
    out
}

/// Where lane `i` of side `s` of group `g` of wide block `b` lies.
pub open spec fn wide_at(half: int, b: int, g: int, s: int, i: int) -> int {
    b * (half * 32) + g * 32 + 16 * s + i
}

/// Where lane `i` of group `g` of narrow block `2 b + s` lies.
pub open spec fn narrow_at(half: int, b: int, g: int, s: int, i: int) -> int {
    (2 * b + s) * (half * 16) + g * 16 + i
}

proof fn lemma_narrow_bound(half: int, b: int, g: int, s: int, i: int, pairs: int)
    requires
        0 <= b < pairs,
        0 <= g < half,
        0 <= s < 2,
        0 <= i < 16,
    ensures
        0 <= narrow_at(half, b, g, s, i) < pairs * (half * 32),
{
    assert(0 <= (2 * b + s) * (half * 16) && (2 * b + s) * (half * 16) + half * 16 <= pairs * (half * 32)) by (nonlinear_arith)
        requires
            0 <= b < pairs,
            0 <= s < 2,
            half >= 0,
    ;
}

/// What was written before a group starts lies before it.
proof fn lemma_wide_order(half: int, e: int, h: int, s: int, i: int, b: int, g: int)
    requires
        0 <= h < half,
        0 <= s < 2,
        0 <= i < 16,
        0 <= g < half,
        0 <= e < b || (e == b && 0 <= h <= g),
        b >= 0,
    ensures
        0 <= wide_at(half, e, h, s, i),
        e < b || h < g ==> wide_at(half, e, h, s, i) < b * (half * 32) + g * 32,
        e == b && h == g ==> wide_at(half, e, h, s, i) == b * (half * 32) + g * 32 + (16 * s + i),
{
    assert(0 <= e * (half * 32) && (e < b ==> e * (half * 32) + half * 32 <= b * (half * 32))) by (nonlinear_arith)
        requires
            0 <= e,
            half >= 0,
    ;
}

} // verus!
