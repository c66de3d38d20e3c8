//! Total orders, ascending sequences and "the `t` smallest of a pool".
//!
//! Every selection in the index (probe the nearest cells, cap the survivor pool, prune the cascade)
//! is stated through [`ascending`] and [`smallest`]: the result is a prefix of the sorted pool.
use vstd::prelude::*;

verus! {

/// A plain key with a total order that compiled code can test.
pub trait Ranked: Sized {
    /// `self` comes before `other`, or the two are equal.
    spec fn le(self, other: Self) -> bool;

    fn at_most(&self, other: &Self) -> (r: bool)
        ensures
            r == self.le(*other),
    ;

    fn copied(&self) -> (r: Self)
        ensures
            r == *self,
    ;

    proof fn le_total(a: Self, b: Self)
        ensures
            a.le(b) || b.le(a),
    ;

    proof fn le_trans(a: Self, b: Self, c: Self)
        requires
            a.le(b),
            b.le(c),
        ensures
            a.le(c),
    ;

    proof fn le_antisym(a: Self, b: Self)
        requires
            a.le(b),
            b.le(a),
        ensures
            a == b,
    ;
}

impl Ranked for u32 {
    open spec fn le(self, other: Self) -> bool {
        self <= other
    }

    fn at_most(&self, other: &Self) -> (r: bool) {
        *self <= *other
    }

    fn copied(&self) -> (r: Self) {
        *self
    }

    proof fn le_total(a: Self, b: Self) {
    }

    proof fn le_trans(a: Self, b: Self, c: Self) {
    }

    proof fn le_antisym(a: Self, b: Self) {
    }
}

/// A scored id: lower score first, ties by lower id.
impl Ranked for (i32, u32) {
    open spec fn le(self, other: Self) -> bool {
        self.0 < other.0 || (self.0 == other.0 && self.1 <= other.1)
    }

    fn at_most(&self, other: &Self) -> (r: bool) {
        self.0 < other.0 || (self.0 == other.0 && self.1 <= other.1)
    }

    fn copied(&self) -> (r: Self) {
        *self
    }

    proof fn le_total(a: Self, b: Self) {
    }

    proof fn le_trans(a: Self, b: Self, c: Self) {
    }

    proof fn le_antisym(a: Self, b: Self) {
    }
}

impl Ranked for (i64, u32) {
    open spec fn le(self, other: Self) -> bool {
        self.0 < other.0 || (self.0 == other.0 && self.1 <= other.1)
    }

    fn at_most(&self, other: &Self) -> (r: bool) {
        self.0 < other.0 || (self.0 == other.0 && self.1 <= other.1)
    }

    fn copied(&self) -> (r: Self) {
        *self
    }

    proof fn le_total(a: Self, b: Self) {
    }

    proof fn le_trans(a: Self, b: Self, c: Self) {
    }

    proof fn le_antisym(a: Self, b: Self) {
    }
}

/// Every element comes before every later one.
pub open spec fn sorted<T: Ranked>(s: Seq<T>) -> bool {
    forall|i: int, j: int| 0 <= i <= j < s.len() ==> #[trigger] s[i].le(#[trigger] s[j])
}

/// `r` with `x` put behind the last element that comes before `x`.
pub open spec fn place<T: Ranked>(r: Seq<T>, x: T) -> Seq<T>
    decreases r.len(),
{
    if r.len() == 0 || r.last().le(x) {
        r.push(x)
    } else {
        place(r.drop_last(), x).push(r.last())
    }
}

/// The elements of `s` in ascending order.
pub open spec fn ascending<T: Ranked>(s: Seq<T>) -> Seq<T>
    decreases s.len(),
{
    if s.len() == 0 {
        s
    } else {
        place(ascending(s.drop_last()), s.last())
    }
}

/// The first `t` elements, or all of them where there are fewer.
pub open spec fn first<T>(s: Seq<T>, t: nat) -> Seq<T> {
    if t < s.len() {
        s.take(t as int)
    } else {
        s
    }
}

/// The `t` smallest elements of `s`, ascending.
pub open spec fn smallest<T: Ranked>(s: Seq<T>, t: nat) -> Seq<T> {
    first(ascending(s), t)
}

pub proof fn lemma_place<T: Ranked>(r: Seq<T>, x: T)
    requires
        sorted(r),
    ensures
        sorted(place(r, x)),
        place(r, x).len() == r.len() + 1,
        place(r, x).to_multiset() =~= r.to_multiset().insert(x),
    decreases r.len(),
{
    broadcast use vstd::seq_lib::group_to_multiset_ensures;

    T::le_total(x, x);
    if r.len() == 0 {
        assert(r.push(x).to_multiset() =~= r.to_multiset().insert(x));
    } else if r.last().le(x) {
        let p = r.push(x);
        assert forall|i: int, j: int| 0 <= i <= j < p.len() implies #[trigger] p[i].le(
            #[trigger] p[j],
        ) by {
            if j == r.len() && i < r.len() {
                assert(r[i].le(r[r.len() - 1]));
                T::le_trans(r[i], r.last(), x);
            }
        }
        assert(p.to_multiset() =~= r.to_multiset().insert(x));
    } else {
        let h = r.drop_last();
        assert(sorted(h)) by {
            assert forall|i: int, j: int| 0 <= i <= j < h.len() implies #[trigger] h[i].le(
                #[trigger] h[j],
            ) by {
                assert(r[i].le(r[j]));
            }
        }
        lemma_place(h, x);
        let q = place(h, x);
        let p = q.push(r.last());
        T::le_total(r.last(), x);
        T::le_total(r.last(), r.last());
        assert forall|i: int, j: int| 0 <= i <= j < p.len() implies #[trigger] p[i].le(
            #[trigger] p[j],
        ) by {
            if j < q.len() {
                assert(q[i].le(q[j]));
            } else if i < q.len() {
                assert(q.to_multiset().contains(q[i])) by {
                    assert(q.contains(q[i]));
                }
                if q[i] != x {
                    assert(h.to_multiset().contains(q[i]));
                    assert(h.contains(q[i]));
                    let n = choose|n: int| 0 <= n < h.len() && h[n] == q[i];
                    assert(r[n].le(r[r.len() - 1]));
                }
            }
        }
        assert(r =~= h.push(r.last()));
        assert(r.to_multiset() =~= h.to_multiset().insert(r.last()));
        assert(p.to_multiset() =~= q.to_multiset().insert(r.last()));
    }
}

pub proof fn lemma_ascending<T: Ranked>(s: Seq<T>)
    ensures
        sorted(ascending(s)),
        ascending(s).len() == s.len(),
        ascending(s).to_multiset() =~= s.to_multiset(),
    decreases s.len(),
{
    broadcast use vstd::seq_lib::group_to_multiset_ensures;

    if s.len() > 0 {
        lemma_ascending(s.drop_last());
        lemma_place(ascending(s.drop_last()), s.last());
        assert(s =~= s.drop_last().push(s.last()));
    }
}

/// Two sorted sequences of the same elements are the same sequence.
pub proof fn lemma_sorted_is_unique<T: Ranked>(a: Seq<T>, b: Seq<T>)
    requires
        sorted(a),
        sorted(b),
        a.to_multiset() == b.to_multiset(),
    ensures
        a == b,
{
    let leq = |x: T, y: T| x.le(y);
    assert(vstd::relations::total_ordering(leq)) by {
        assert forall|x: T| #[trigger] leq(x, x) by {
            T::le_total(x, x);
        }
        assert forall|x: T, y: T| #[trigger] leq(x, y) && #[trigger] leq(y, x) implies x == y by {
            T::le_antisym(x, y);
        }
        assert forall|x: T, y: T, z: T| #[trigger] leq(x, y) && #[trigger] leq(y, z) implies leq(
            x,
            z,
        ) by {
            T::le_trans(x, y, z);
        }
        assert forall|x: T, y: T| #[trigger] leq(x, y) || #[trigger] leq(y, x) by {
            T::le_total(x, y);
        }
    }
    assert(vstd::relations::sorted_by(a, leq));
    assert(vstd::relations::sorted_by(b, leq));
    vstd::seq_lib::lemma_sorted_unique(a, b, leq);
}

/// The ascending order does not depend on how the elements were listed.
pub proof fn lemma_ascending_ignores_order<T: Ranked>(a: Seq<T>, b: Seq<T>)
    requires
        a.to_multiset() == b.to_multiset(),
    ensures
        ascending(a) == ascending(b),
{
    lemma_ascending(a);
    lemma_ascending(b);
    lemma_sorted_is_unique(ascending(a), ascending(b));
}

pub proof fn lemma_ascending_of_sorted<T: Ranked>(s: Seq<T>)
    requires
        sorted(s),
    ensures
        ascending(s) == s,
{
    lemma_ascending(s);
    lemma_sorted_is_unique(ascending(s), s);
}

proof fn lemma_place_first<T: Ranked>(r: Seq<T>, x: T, t: nat)
    requires
        sorted(r),
    ensures
        first(place(r, x), t) == first(place(first(r, t), x), t),
    decreases r.len(),
{
    if t < r.len() {
        let h = r.take(t as int);
        assert(sorted(h)) by {
            assert forall|i: int, j: int| 0 <= i <= j < h.len() implies #[trigger] h[i].le(
                #[trigger] h[j],
            ) by {
                assert(r[i].le(r[j]));
            }
        }
        lemma_place(r, x);
        lemma_place(h, x);
        if r.last().le(x) {
            if t > 0 {
                assert(r[t - 1].le(r[r.len() - 1]));
                T::le_trans(r[t - 1], r.last(), x);
                assert(h.last() == r[t - 1]);
            }
            assert(place(h, x) =~= h.push(x));
            assert(first(place(r, x), t) =~= h);
            assert(first(place(h, x), t) =~= h);
        } else {
            let dl = r.drop_last();
            assert(sorted(dl)) by {
                assert forall|i: int, j: int| 0 <= i <= j < dl.len() implies #[trigger] dl[i].le(
                    #[trigger] dl[j],
                ) by {
                    assert(r[i].le(r[j]));
                }
            }
            lemma_place_first(dl, x, t);
            lemma_place(dl, x);
            assert(first(dl, t) =~= h);
            assert(first(place(r, x), t) =~= first(place(dl, x), t));
        }
    }
}

/// Adding one element to a pool changes its `t` smallest by placing it among them.
pub proof fn lemma_smallest_push<T: Ranked>(s: Seq<T>, x: T, t: nat)
    ensures
        smallest(s.push(x), t) == first(place(smallest(s, t), x), t),
{
    lemma_ascending(s);
    assert(s.push(x).drop_last() =~= s);
    lemma_place_first(ascending(s), x, t);
}

pub proof fn lemma_smallest<T: Ranked>(s: Seq<T>, t: nat)
    ensures
        sorted(smallest(s, t)),
        smallest(s, t).len() == if t < s.len() { t } else { s.len() },
        forall|i: int| 0 <= i < smallest(s, t).len() ==> s.contains(#[trigger] smallest(s, t)[i]),
{
    broadcast use vstd::seq_lib::group_to_multiset_ensures;

    lemma_ascending(s);
    let a = ascending(s);
    let r = smallest(s, t);
    assert forall|i: int, j: int| 0 <= i <= j < r.len() implies #[trigger] r[i].le(
        #[trigger] r[j],
    ) by {
        assert(a[i].le(a[j]));
    }
    assert forall|i: int| 0 <= i < r.len() implies s.contains(#[trigger] r[i]) by {
        assert(a.contains(a[i]));
        assert(a.to_multiset().contains(a[i]));
        assert(s.to_multiset().contains(a[i]));
    }
}

/// Capping a pool early does not change its final cap: the `t` smallest of "the `t` smallest of
/// `a`, and `b`" are the `t` smallest of `a` and `b`.
pub proof fn lemma_smallest_of_capped<T: Ranked>(a: Seq<T>, b: Seq<T>, t: nat)
    ensures
        smallest(smallest(a, t) + b, t) == smallest(a + b, t),
    decreases b.len(),
{
    if b.len() == 0 {
        assert(a + b =~= a);
        assert(smallest(a, t) + b =~= smallest(a, t));
        lemma_smallest(a, t);
        lemma_ascending_of_sorted(smallest(a, t));
    } else {
        let c = b.drop_last();
        let x = b.last();
        lemma_smallest_of_capped(a, c, t);
        assert(a + b =~= (a + c).push(x));
        assert(smallest(a, t) + b =~= (smallest(a, t) + c).push(x));
        lemma_smallest_push(a + c, x, t);
        lemma_smallest_push(smallest(a, t) + c, x, t);
    }
}

/// An element that comes after each of the `t` smallest does not join them.
pub proof fn lemma_smallest_drop<T: Ranked>(s: Seq<T>, x: T, t: nat)
    requires
        s.len() >= t,
        forall|i: int| 0 <= i < t ==> (#[trigger] smallest(s, t)[i]).le(x),
    ensures
        smallest(s.push(x), t) == smallest(s, t),
{
    lemma_smallest_push(s, x, t);
    lemma_smallest(s, t);
    let r = smallest(s, t);
    if r.len() > 0 {
        assert(r[r.len() - 1].le(x));
    }
    assert(first(r.push(x), t) =~= r);
}

/// Where the pool is no larger than the cap, the cap keeps all of it.
pub proof fn lemma_smallest_all<T: Ranked>(s: Seq<T>, t: nat)
    requires
        s.len() <= t,
    ensures
        smallest(s, t) == ascending(s),
{
    lemma_ascending(s);
}

fn merge<T: Ranked>(a: &Vec<T>, b: &Vec<T>) -> (r: Vec<T>)
    requires
        sorted(a@),
        sorted(b@),
        a@.len() + b@.len() <= usize::MAX,
    ensures
        sorted(r@),
        r@.to_multiset() == a@.to_multiset().add(b@.to_multiset()),
{
    broadcast use vstd::seq_lib::group_to_multiset_ensures;

    let mut r: Vec<T> = Vec::with_capacity(a.len() + b.len());
    let mut i: usize = 0;
    let mut j: usize = 0;
    assert(r@.to_multiset() =~= a@.take(0).to_multiset().add(b@.take(0).to_multiset()));
    while i < a.len() || j < b.len()
        invariant
            i <= a@.len(),
            j <= b@.len(),
            a@.len() + b@.len() <= usize::MAX,
            sorted(a@),
            sorted(b@),
            sorted(r@),
            r@.to_multiset() == a@.take(i as int).to_multiset().add(b@.take(j as int).to_multiset()),
            forall|n: int, m: int| 0 <= n < r@.len() && i <= m < a@.len() ==> #[trigger] r@[n].le(#[trigger] a@[m]),
            forall|n: int, m: int| 0 <= n < r@.len() && j <= m < b@.len() ==> #[trigger] r@[n].le(#[trigger] b@[m]),
        decreases a@.len() - i + b@.len() - j,
    {
        let ghost r0 = r@;
        let take_a = i < a.len() && (j >= b.len() || a[i].at_most(&b[j]));
        if take_a {
            let x = a[i].copied();
            r.push(x);
            proof {
                broadcast use vstd::seq_lib::group_to_multiset_ensures;

                T::le_total(x, x);
                assert forall|n: int, m: int| 0 <= n < r@.len() && j <= m < b@.len() implies #[trigger] r@[n].le(#[trigger] b@[m]) by {
                    if n == r0.len() {
                        assert(b@[j as int].le(b@[m]));
                        T::le_trans(x, b@[j as int], b@[m]);
                    }
                }
                assert forall|n: int, m: int| 0 <= n < r@.len() && i + 1 <= m < a@.len() implies #[trigger] r@[n].le(#[trigger] a@[m]) by {
                    if n == r0.len() {
                        assert(a@[i as int].le(a@[m]));
                    }
                }
                assert(sorted(r@)) by {
                    assert forall|n: int, m: int| 0 <= n <= m < r@.len() implies #[trigger] r@[n].le(#[trigger] r@[m]) by {
                        if m == r0.len() && n < r0.len() {
                            assert(r0[n].le(a@[i as int]));
                        }
                    }
                }
                assert(a@.take(i + 1) =~= a@.take(i as int).push(x));
                assert(r@.to_multiset() =~= r0.to_multiset().insert(x));
                assert(r@.to_multiset() =~= a@.take(i + 1).to_multiset().add(b@.take(j as int).to_multiset()));
            }
            i = i + 1;
        } else {
            let y = b[j].copied();
            r.push(y);
            proof {
                broadcast use vstd::seq_lib::group_to_multiset_ensures;

                T::le_total(y, y);
                if i < a@.len() {
                    T::le_total(a@[i as int], y);
                }
                assert forall|n: int, m: int| 0 <= n < r@.len() && i <= m < a@.len() implies #[trigger] r@[n].le(#[trigger] a@[m]) by {
                    if n == r0.len() {
                        assert(a@[i as int].le(a@[m]));
                        T::le_trans(y, a@[i as int], a@[m]);
                    }
                }
                assert forall|n: int, m: int| 0 <= n < r@.len() && j + 1 <= m < b@.len() implies #[trigger] r@[n].le(#[trigger] b@[m]) by {
                    if n == r0.len() {
                        assert(b@[j as int].le(b@[m]));
                    }
                }
                assert(sorted(r@)) by {
                    assert forall|n: int, m: int| 0 <= n <= m < r@.len() implies #[trigger] r@[n].le(#[trigger] r@[m]) by {
                        if m == r0.len() && n < r0.len() {
                            assert(r0[n].le(b@[j as int]));
                        }
                    }
                }
                assert(b@.take(j + 1) =~= b@.take(j as int).push(y));
                assert(r@.to_multiset() =~= r0.to_multiset().insert(y));
                assert(r@.to_multiset() =~= a@.take(i as int).to_multiset().add(b@.take(j + 1).to_multiset()));
            }
            j = j + 1;
        }
    }
    assert(a@.take(i as int) =~= a@);
    assert(b@.take(j as int) =~= b@);
    r
}

fn merge_sort<T: Ranked>(v: &Vec<T>, lo: usize, hi: usize) -> (r: Vec<T>)
    requires
        lo <= hi <= v@.len(),
    ensures
        r@ == ascending(v@.subrange(lo as int, hi as int)),
    decreases hi - lo,
{
    broadcast use vstd::seq_lib::group_to_multiset_ensures;

    let ghost s = v@.subrange(lo as int, hi as int);
    proof {
        lemma_ascending(s);
    }
    let mut r: Vec<T> = Vec::new();
    if hi - lo <= 1 {
        if hi - lo == 1 {
            r.push(v[lo].copied());
            proof {
                T::le_total(v@[lo as int], v@[lo as int]);
            }
        }
        assert(r@ =~= s);
        proof {
            lemma_ascending_of_sorted(s);
        }
    } else {
        let mid: usize = lo + (hi - lo) / 2;
        let a = merge_sort(v, lo, mid);
        let b = merge_sort(v, mid, hi);
        proof {
            let sa = v@.subrange(lo as int, mid as int);
            let sb = v@.subrange(mid as int, hi as int);
            lemma_ascending(sa);
            lemma_ascending(sb);
            assert(s =~= sa + sb);
            vstd::seq_lib::lemma_multiset_commutative(sa, sb);
        }
        r = merge(&a, &b);
        proof {
            lemma_sorted_is_unique(r@, ascending(s));
        }
    }
    r
}

/// Sort ascending.
pub fn sort_ascending<T: Ranked>(v: &mut Vec<T>)
    ensures
        final(v)@ == ascending(old(v)@),
{
    let r = merge_sort(v, 0, v.len());
    assert(v@.subrange(0, v@.len() as int) =~= v@);
    *v = r;
}

/// Keep the `t` smallest, ascending.
pub fn keep_smallest<T: Ranked>(v: &mut Vec<T>, t: usize)
    ensures
        final(v)@ == smallest(old(v)@, t as nat),
{
    sort_ascending(v);
    if t < v.len() {
        v.truncate(t);
    }
    proof {
        lemma_ascending(old(v)@);
        assert(v@ =~= smallest(old(v)@, t as nat));
    }
}

proof fn lemma_place_is_insert<T: Ranked>(r: Seq<T>, x: T, i: int)
    requires
        0 <= i <= r.len(),
        i == 0 || r[i - 1].le(x),
        forall|j: int| i <= j < r.len() ==> !(#[trigger] r[j]).le(x),
    ensures
        place(r, x) == r.insert(i, x),
    decreases r.len(),
{
    if r.len() == 0 || r.last().le(x) {
        if r.len() > 0 && i < r.len() {
            assert(!r[r.len() - 1].le(x));
        }
        assert(r.push(x) =~= r.insert(i, x));
    } else {
        if i == r.len() {
            assert(r[i - 1] == r.last());
        }
        lemma_place_is_insert(r.drop_last(), x, i);
        assert(r.drop_last().insert(i, x).push(r.last()) =~= r.insert(i, x));
    }
}

/// Put `x` behind the last element that comes before it.
pub fn place_into<T: Ranked>(v: &mut Vec<T>, x: T)
    ensures
        final(v)@ == place(old(v)@, x),
{
    let mut i: usize = v.len();
    while i > 0 && !v[i - 1].at_most(&x)
        invariant
            i <= v@.len(),
            forall|j: int| i <= j < v@.len() ==> !(#[trigger] v@[j]).le(x),
        decreases i,
    {
        i = i - 1;
    }
    proof {
        lemma_place_is_insert(v@, x, i as int);
    }
    v.insert(i, x);
}

// ---------------------------------------------------------------- ranks

/// A scored id comes before another: it scores lower, or as low with a lower id.
pub open spec fn comes_before(a: (i32, u32), b: (i32, u32)) -> bool {
    a.0 < b.0 || (a.0 == b.0 && a.1 < b.1)
}

/// How many entries of a list come before `e`.
pub open spec fn ahead(s: Seq<(i32, u32)>, e: (i32, u32)) -> nat
    decreases s.len(),
{
    if s.len() == 0 {
        0
    } else {
        ahead(s.drop_last(), e) + if comes_before(s.last(), e) {
            1nat
        } else {
            0nat
        }
    }
}

proof fn lemma_ahead_place(r: Seq<(i32, u32)>, x: (i32, u32), e: (i32, u32))
    ensures
        ahead(place(r, x), e) == ahead(r.push(x), e),
    decreases r.len(),
{
    assert(r.push(x).drop_last() =~= r);
    if r.len() > 0 && !r.last().le(x) {
        let rest = r.drop_last();
        lemma_ahead_place(rest, x, e);
        assert(rest.push(x).drop_last() =~= rest);
        assert(place(rest, x).push(r.last()).drop_last() =~= place(rest, x));
        reveal_with_fuel(ahead, 3);
    }
}

pub proof fn lemma_ahead_ascending(s: Seq<(i32, u32)>, e: (i32, u32))
    ensures
        ahead(ascending(s), e) == ahead(s, e),
    decreases s.len(),
{
    if s.len() > 0 {
        let rest = ascending(s.drop_last());
        lemma_ahead_ascending(s.drop_last(), e);
        lemma_ahead_place(rest, s.last(), e);
        assert(rest.push(s.last()).drop_last() =~= rest);
    }
}

/// In ascending order the entries that come before `e` stand first.
pub proof fn lemma_ahead_sorted(s: Seq<(i32, u32)>, e: (i32, u32))
    requires
        sorted(s),
    ensures
        ahead(s, e) <= s.len(),
        forall|i: int| 0 <= i < s.len() ==> comes_before(#[trigger] s[i], e) == (i < ahead(s, e)),
    decreases s.len(),
{
    if s.len() > 0 {
        let rest = s.drop_last();
        let n = s.len() - 1;
        assert forall|i: int, j: int| 0 <= i <= j < rest.len() implies #[trigger] rest[i].le(#[trigger] rest[j]) by {
            assert(s[i].le(s[j]));
        }
        lemma_ahead_sorted(rest, e);
        if n > 0 {
            assert(s[n - 1].le(s[n]));
            assert(rest[n - 1] == s[n - 1]);
        }
        assert forall|i: int| 0 <= i < s.len() implies comes_before(#[trigger] s[i], e) == (i < ahead(s, e)) by {
            if i < n {
                assert(rest[i] == s[i]);
            }
        }
    }
}

/// The `t` smallest of a list are those of its entries that fewer than `t` entries come before: the
/// lowest scores, and among equal scores the lowest ids.
pub proof fn law_smallest_goes_by_rank(s: Seq<(i32, u32)>, t: nat, e: (i32, u32))
    ensures
        smallest(s, t).contains(e) <==> s.contains(e) && ahead(s, e) < t,
{
    broadcast use vstd::seq_lib::group_to_multiset_ensures;

    let a = ascending(s);
    let r = smallest(s, t);
    lemma_ascending(s);
    lemma_ahead_ascending(s, e);
    lemma_ahead_sorted(a, e);
    if r.contains(e) {
        let i = choose|i: int| 0 <= i < r.len() && r[i] == e;
        assert(a[i] == e);
        assert(a.contains(e));
        assert(a.to_multiset().contains(e));
        assert(s.contains(e));
    }
    if s.contains(e) && ahead(s, e) < t {
        assert(s.to_multiset().contains(e));
        assert(a.to_multiset().contains(e));
        assert(a.contains(e));
        let j = choose|j: int| 0 <= j < a.len() && a[j] == e;
        let c = ahead(s, e) as int;
        assert(!comes_before(a[j], e));
        assert(a[c].le(a[j]));
        assert(a[c] == e);
        assert(r[c] == e);
    }
}

/// A cut list rises, and whatever it leaves out scores no lower than what it keeps.
pub proof fn law_smallest_keeps_the_lowest(s: Seq<(i32, u32)>, t: nat)
    ensures
        smallest(s, t).len() == (if t < s.len() { t } else { s.len() }),
        forall|i: int, j: int| 0 <= i <= j < smallest(s, t).len() ==> (#[trigger] smallest(s, t)[i]).0 <= (#[trigger] smallest(s, t)[j]).0,
        forall|i: int, j: int| 0 <= i < smallest(s, t).len() && 0 <= j < s.len() && !smallest(s, t).contains(s[j]) ==> (#[trigger] smallest(s, t)[i]).0 <= (#[trigger] s[j]).0,
{
    broadcast use vstd::seq_lib::group_to_multiset_ensures;

    let a = ascending(s);
    let r = smallest(s, t);
    lemma_ascending(s);
    lemma_smallest(s, t);
    assert forall|i: int, j: int| 0 <= i <= j < r.len() implies (#[trigger] r[i]).0 <= (#[trigger] r[j]).0 by {
        assert(r[i].le(r[j]));
    }
    assert forall|i: int, j: int| 0 <= i < r.len() && 0 <= j < s.len() && !r.contains(s[j]) implies (#[trigger] r[i]).0 <= (#[trigger] s[j]).0 by {
        assert(s.contains(s[j]));
        assert(s.to_multiset().contains(s[j]));
        assert(a.to_multiset().contains(s[j]));
        assert(a.contains(s[j]));
        let x = choose|x: int| 0 <= x < a.len() && a[x] == s[j];
        if x < r.len() {
            assert(r[x] == s[j]);
        }
        assert(a[i].le(a[x]));
    }
}

} // verus!
