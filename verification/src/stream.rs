//! Inserting into and deleting from a built index, and searching it in between.
//!
//! A deleted point leaves its slots empty. An inserted point is appended: its row to one flat store,
//! its number to the list of every cell that it is routed to; the blocks of those cells are encoded
//! when a batch of insertions is finished.
use vstd::prelude::*;
use vstd::slice::slice_subrange;
use crate::compress::Compressor;
use crate::index::Index;
use crate::layout::{below, blocks_for, bucket, cell_code, lemma_below_all, lemma_below_monotone, members};
use crate::order::{ascending, lemma_ascending, sort_ascending, sorted};
use crate::rerank::NO_POINT;
use crate::router::Router;

verus! {

/// Entries that differ from their predecessor.
pub open spec fn without_repeats(s: Seq<u32>) -> Seq<u32>
    decreases s.len(),
{
    if s.len() == 0 {
        s
    } else {
        let r = without_repeats(s.drop_last());
        if r.len() > 0 && r.last() == s.last() {
            r
        } else {
            r.push(s.last())
        }
    }
}

/// The cells that an inserted point is stored in: those that it is routed to, each once, ascending;
/// cell 0 where it is routed nowhere.
pub open spec fn home_cells(assigned: Seq<u32>) -> Seq<u32> {
    if assigned.len() == 0 {
        seq![0u32]
    } else {
        without_repeats(ascending(assigned))
    }
}

/// The home cells are the assigned cells, none twice.
pub proof fn law_home_cells(assigned: Seq<u32>)
    ensures
        home_cells(assigned).no_duplicates(),
        home_cells(assigned).len() >= 1,
        assigned.len() > 0 ==> forall|c: u32| #[trigger] home_cells(assigned).contains(c) <==> assigned.contains(c),
{
    if assigned.len() > 0 {
        broadcast use vstd::seq_lib::group_to_multiset_ensures;

        let a = ascending(assigned);
        lemma_ascending(assigned);
        lemma_without_repeats(a);
        assert(assigned.to_multiset().len() == assigned.len());
        assert forall|c: u32| #[trigger] without_repeats(a).contains(c) <==> assigned.contains(c) by {
            assert(a.contains(c) <==> a.to_multiset().count(c) > 0);
            assert(assigned.contains(c) <==> assigned.to_multiset().count(c) > 0);
        }
        assert(without_repeats(a).contains(a[0])) by {
            assert(a.contains(a[0]));
        }
    }
}

pub proof fn lemma_without_repeats(s: Seq<u32>)
    requires
        sorted(s),
    ensures
        without_repeats(s).no_duplicates(),
        forall|c: u32| #[trigger] without_repeats(s).contains(c) <==> s.contains(c),
        s.len() > 0 ==> without_repeats(s).len() > 0 && without_repeats(s).last() == s.last(),
        forall|i: int| 0 <= i < without_repeats(s).len() ==> s.len() > 0 && #[trigger] without_repeats(s)[i] <= s.last(),
    decreases s.len(),
{
    if s.len() > 0 {
        let head = s.drop_last();
        assert(sorted(head)) by {
            assert forall|i: int, j: int| 0 <= i <= j < head.len() implies #[trigger] crate::order::Ranked::le(head[i], #[trigger] head[j]) by {
                assert(crate::order::Ranked::le(s[i], s[j]));
            }
        }
        lemma_without_repeats(head);
        let r = without_repeats(head);
        let x = s.last();
        if head.len() > 0 {
            assert(crate::order::Ranked::le(s[head.len() - 1], s[s.len() - 1]));
        }
        assert forall|c: u32| #[trigger] without_repeats(s).contains(c) <==> s.contains(c) by {
            assert(s =~= head.push(x));
            if s.contains(c) {
                let i = choose|i: int| 0 <= i < s.len() && s[i] == c;
                if i < head.len() {
                    assert(head[i] == c);
                    assert(r.contains(c));
                    let j = choose|j: int| 0 <= j < r.len() && r[j] == c;
                    assert(without_repeats(s)[j] == c);
                } else {
                    assert(without_repeats(s).last() == x);
                    assert(without_repeats(s)[without_repeats(s).len() - 1] == c);
                }
            }
            if without_repeats(s).contains(c) {
                let j = choose|j: int| 0 <= j < without_repeats(s).len() && without_repeats(s)[j] == c;
                if j < r.len() {
                    assert(r.contains(c));
                    assert(head.contains(c));
                    let i = choose|i: int| 0 <= i < head.len() && head[i] == c;
                    assert(s[i] == c);
                } else {
                    assert(s[s.len() - 1] == c);
                }
            }
        }
        if !(r.len() > 0 && r.last() == x) {
            assert forall|i: int| 0 <= i < r.len() implies r[i] != x by {
                if r[i] == x {
                    assert(r[i] <= head.last());
                    assert(r.last() == head.last());
                }
            }
        }
    }
}

/// Sort a list and drop repeated entries.
pub fn sort_distinct(v: &mut Vec<u32>)
    ensures
        final(v)@ == without_repeats(ascending(old(v)@)),
{
    sort_ascending(v);
    let ghost s = v@;
    let n: usize = v.len();
    let mut out: Vec<u32> = Vec::with_capacity(n);
    let mut i: usize = 0;
    assert(s.take(0) =~= Seq::<u32>::empty());
    while i < n
        invariant
            i <= n,
            n == v@.len(),
            s == v@,
            out@ == without_repeats(s.take(i as int)),
        decreases n - i,
    {
        let x: u32 = v[i];
        let m: usize = out.len();
        assert(s.take(i + 1).drop_last() =~= s.take(i as int));
        if m == 0 || out[m - 1] != x {
            out.push(x);
        }
        i = i + 1;
    }
    assert(s.take(n as int) =~= s);
    *v = out;
}

/// Live entries among the first `n`.
pub open spec fn live_count(orig: Seq<u32>, n: nat) -> nat
    decreases n,
{
    if n == 0 {
        0
    } else {
        live_count(orig, (n - 1) as nat) + (if orig[n - 1] != NO_POINT { 1nat } else { 0nat })
    }
}

proof fn lemma_live_count_update(orig: Seq<u32>, g: int, n: nat)
    requires
        0 <= g < orig.len(),
        n <= orig.len(),
        orig[g] != NO_POINT,
    ensures
        live_count(orig.update(g, NO_POINT), n) == live_count(orig, n) - (if g < n { 1int } else { 0int }),
    decreases n,
{
    if n > 0 {
        lemma_live_count_update(orig, g, (n - 1) as nat);
    }
}

pub proof fn lemma_live_count_bound(orig: Seq<u32>, n: nat)
    ensures
        live_count(orig, n) <= n,
    decreases n,
{
    if n > 0 {
        lemma_live_count_bound(orig, (n - 1) as nat);
    }
}

pub proof fn lemma_live_count_push(orig: Seq<u32>, x: u32, n: nat)
    requires
        n <= orig.len(),
    ensures
        live_count(orig.push(x), n) == live_count(orig, n),
    decreases n,
{
    if n > 0 {
        lemma_live_count_push(orig, x, (n - 1) as nat);
    }
}

/// A list of points with every entry for `orig` emptied.
pub open spec fn emptied(list: Seq<u32>, orig: u32) -> Seq<u32> {
    Seq::new(list.len(), |i: int| if list[i] == orig { NO_POINT } else { list[i] })
}

/// Empty every entry for `orig`, and say how many there were.
fn empty_entries(list: &mut Vec<u32>, orig: u32) -> (gone: usize)
    requires
        orig != NO_POINT,
    ensures
        final(list)@ == emptied(old(list)@, orig),
        gone == live_count(old(list)@, old(list)@.len()) - live_count(final(list)@, final(list)@.len()),
{
    let ghost all = list@;
    let n: usize = list.len();
    let mut gone: usize = 0;
    let mut i: usize = 0;
    while i < n
        invariant
            i <= n,
            n == list@.len(),
            n == all.len(),
            orig != NO_POINT,
            gone <= i,
            gone == live_count(all, n as nat) - live_count(list@, n as nat),
            forall|j: int| 0 <= j < i ==> #[trigger] list@[j] == emptied(all, orig)[j],
            forall|j: int| i <= j < n ==> #[trigger] list@[j] == all[j],
        decreases n - i,
    {
        if list[i] == orig {
            proof {
                lemma_live_count_update(list@, i as int, n as nat);
            }
            list.set(i, NO_POINT);
            gone = gone + 1;
        }
        i = i + 1;
    }
    assert(list@ =~= emptied(all, orig));
    gone
}

/// The slots of each point: `slots[off[o]..off[o + 1]]` are those of point `o`, whether they still
/// hold it or were emptied since.
pub open spec fn rev_ok(off: Seq<u32>, slots: Seq<u32>, slot_orig: Seq<u32>, n: nat) -> bool {
    &&& off.len() > n
    &&& forall|o: int| 0 <= o < n ==> #[trigger] off[o] <= off[o + 1] <= slots.len()
    &&& forall|o: int, k: int| #![trigger off[o], slots[k]] 0 <= o < n && off[o] <= k < off[o + 1] ==> slots[k] < slot_orig.len() && (slot_orig[slots[k] as int] == o || slot_orig[slots[k] as int] == NO_POINT)
    &&& forall|s: int| 0 <= s < slot_orig.len() && (#[trigger] slot_orig[s]) < n ==> exists|k: int| off[slot_orig[s] as int] <= k < off[slot_orig[s] + 1] && #[trigger] slots[k] == s
}

/// The points of a list of members.
proof fn lemma_members_listed(keys: Seq<u32>, c: int, n: nat)
    requires
        n <= keys.len(),
        n <= u32::MAX,
    ensures
        forall|k: int| 0 <= k < members(keys, 1, c, n).len() ==> (#[trigger] members(keys, 1, c, n)[k]) < n && keys[members(keys, 1, c, n)[k] as int] == c,
        forall|s: int| 0 <= s < n && #[trigger] keys[s] == c ==> exists|k: int| 0 <= k < members(keys, 1, c, n).len() && #[trigger] members(keys, 1, c, n)[k] == s,
    decreases n,
{
    if n > 0 {
        let m = (n - 1) as nat;
        lemma_members_listed(keys, c, m);
        let prev = members(keys, 1, c, m);
        let all = members(keys, 1, c, n);
        assert((n - 1) / 1 == n - 1);
        assert forall|k: int| 0 <= k < all.len() implies (#[trigger] all[k]) < n && keys[all[k] as int] == c by {
            if k < prev.len() {
                assert(all[k] == prev[k]);
            }
        }
        assert forall|s: int| 0 <= s < n && #[trigger] keys[s] == c implies exists|k: int| 0 <= k < all.len() && #[trigger] all[k] == s by {
            if s < m {
                let k = choose|k: int| 0 <= k < prev.len() && #[trigger] prev[k] == s;
                assert(all[k] == s);
            } else {
                assert(all[all.len() - 1] == s);
            }
        }
    }
}

/// List the slots of every point.
fn slots_by_point(slot_orig: &Vec<u32>, n: usize) -> (r: (Vec<u32>, Vec<u32>))
    requires
        slot_orig@.len() <= u32::MAX,
        n < u32::MAX - 1,
        forall|s: int| 0 <= s < slot_orig@.len() ==> #[trigger] slot_orig@[s] < n || slot_orig@[s] == NO_POINT,
    ensures
        rev_ok(r.0@, r.1@, slot_orig@, n as nat),
{
    let total: usize = slot_orig.len();
    let mut keys: Vec<u32> = Vec::with_capacity(total);
    let mut i: usize = 0;
    while i < total
        invariant
            i <= total,
            total == slot_orig@.len(),
            n < u32::MAX - 1,
            forall|s: int| 0 <= s < slot_orig@.len() ==> #[trigger] slot_orig@[s] < n || slot_orig@[s] == NO_POINT,
            keys@.len() == i,
            forall|s: int| 0 <= s < i ==> #[trigger] keys@[s] == (if slot_orig@[s] == NO_POINT { n as u32 } else { slot_orig@[s] }),
        decreases total - i,
    {
        let o: u32 = slot_orig[i];
        keys.push(if o == NO_POINT { n as u32 } else { o });
        i = i + 1;
    }
    let b = bucket(&keys, 1, n + 1);
    proof {
        let k = keys@;
        let t = total as nat;
        let nn = (n + 1) as nat;
        lemma_below_all(k, 1, nn, t);
        assert forall|o: int| 0 <= o < n implies #[trigger] b.start@[o] <= b.start@[o + 1] <= b.ids@.len() by {
            lemma_below_monotone(k, 1, o as nat, (o + 1) as nat, t);
            lemma_below_monotone(k, 1, (o + 1) as nat, nn, t);
            assert(b.start@[o + 1] == below(k, 1, (o + 1) as nat, t));
        }
        assert forall|o: int, j: int| #![trigger b.start@[o], b.ids@[j]] 0 <= o < n && b.start@[o] <= j < b.start@[o + 1] implies b.ids@[j] < slot_orig@.len() && (slot_orig@[b.ids@[j] as int] == o || slot_orig@[b.ids@[j] as int] == NO_POINT) by {
            assert(b.start@[o] <= b.start@[o + 1] <= b.ids@.len());
            let list = b.of(o);
            lemma_members_listed(k, o, t);
            assert(list == members(k, 1, o, t));
            assert(list[j - b.start@[o]] == b.ids@[j]);
            assert(members(k, 1, o, t)[j - b.start@[o]] < t);
        }
        assert forall|s: int| 0 <= s < slot_orig@.len() && (#[trigger] slot_orig@[s]) < n implies exists|j: int| b.start@[slot_orig@[s] as int] <= j < b.start@[slot_orig@[s] + 1] && #[trigger] b.ids@[j] == s by {
            let o = slot_orig@[s] as int;
            assert(b.start@[o] <= b.start@[o + 1] <= b.ids@.len());
            lemma_members_listed(k, o, t);
            assert(b.of(o) == members(k, 1, o, t));
            assert(k[s] == o);
            let x = choose|x: int| 0 <= x < members(k, 1, o, t).len() && #[trigger] members(k, 1, o, t)[x] == s;
            assert(b.of(o)[x] == b.ids@[b.start@[o] + x]);
            assert(b.ids@[b.start@[o] + x] == s);
        }
    }
    (b.start, b.ids)
}

impl<R: Router, C: Compressor> Index<R, C> {
    /// The first `n` blocks of the appended points of cell `c`.
    pub open spec fn ins_code(&self, c: int, n: nat) -> Seq<u8> {
        cell_code(&self.comp, self.ins_raw@, self.d as nat, self.ins_gidx@[c]@, Seq::empty(), n)
    }

    /// The blocks of the appended points of cell `c` are all encoded.
    pub open spec fn encoded(&self, c: int) -> bool {
        &&& self.ins_blocks@[c]@ == self.ins_code(c, blocks_for(self.ins_gidx@[c]@.len()))
        &&& self.ins_blocks@[c]@.len() == blocks_for(self.ins_gidx@[c]@.len()) * self.bb
    }

    /// The full blocks of the appended points of cell `c` are encoded.
    pub open spec fn sealed(&self, c: int) -> bool {
        let full = self.ins_full_blocks@[c] as nat;
        &&& 16 * full <= self.ins_gidx@[c]@.len()
        &&& full * self.bb <= self.ins_blocks@[c]@.len()
        &&& self.ins_blocks@[c]@.take(full * self.bb) == self.ins_code(c, full)
    }

    /// The lists of the append buffer fit together.
    pub open spec fn ins_lists_ok(&self) -> bool {
        &&& self.ins_blocks@.len() == self.nc()
        &&& self.ins_gidx@.len() == self.nc()
        &&& self.ins_full_blocks@.len() == self.nc()
        &&& self.ins_raw@.len() == self.ins_orig@.len() * self.d
        &&& self.ins_orig@.len() <= u32::MAX
        &&& forall|c: int, k: int| 0 <= c < self.nc() && 0 <= k < self.ins_gidx@[c]@.len() ==> #[trigger] self.ins_gidx@[c]@[k] < self.ins_orig@.len()
        &&& forall|i: int| 0 <= i < self.ins_dirty@.len() ==> #[trigger] self.ins_dirty@[i] < self.nc()
        &&& forall|o: u32| #[trigger] self.ins_loc@.contains_key(o) ==> self.ins_loc@[o] < self.ins_orig@.len() && self.ins_orig@[self.ins_loc@[o] as int] == o && o != NO_POINT
        &&& forall|g: int| 0 <= g < self.ins_orig@.len() && #[trigger] self.ins_orig@[g] != NO_POINT ==> self.ins_loc@.contains_key(self.ins_orig@[g])
        &&& self.ins_count == live_count(self.ins_orig@, self.ins_orig@.len())
    }

    /// The blocks of the append buffer are up to date but for the cells marked dirty.
    pub open spec fn ins_blocks_ok(&self) -> bool {
        self.bb > 0 ==> {
            &&& forall|c: int| 0 <= c < self.nc() ==> #[trigger] self.sealed(c)
            &&& forall|c: int| 0 <= c < self.nc() && !self.ins_dirty@.contains(c as u32) ==> #[trigger] self.encoded(c)
        }
    }

    /// Built part, append buffer and slot lists are sound.
    pub open spec fn wf(&self) -> bool {
        &&& self.main_ok()
        &&& self.nc() <= u32::MAX
        &&& self.ins_lists_ok()
        &&& self.ins_blocks_ok()
        &&& self.n_main < u32::MAX - 1
        &&& forall|s: int| 0 <= s < self.slot_orig@.len() ==> #[trigger] self.slot_orig@[s] < self.n_main || self.slot_orig@[s] == NO_POINT
        &&& match self.main_rev {
            Some(rev) => rev_ok(rev.0@, rev.1@, self.slot_orig@, self.n_main as nat),
            None => true,
        }
    }

    /// An index without insertions and deletions is sound.
    pub proof fn lemma_fresh_is_wf(&self)
        requires
            self.main_ok(),
            self.nc() <= u32::MAX,
            self.n_main < u32::MAX - 1,
            forall|s: int| 0 <= s < self.slot_orig@.len() ==> #[trigger] self.slot_orig@[s] < self.n_main || self.slot_orig@[s] == NO_POINT,
            self.empty_buffer(),
            self.main_rev is None,
        ensures
            self.wf(),
    {
        assert forall|c: int| 0 <= c < self.nc() implies #[trigger] self.sealed(c) by {
            assert(self.ins_blocks@[c]@.len() == 0);
            assert(self.ins_full_blocks@[c] == 0);
            assert(self.ins_blocks@[c]@.take(0) =~= self.ins_code(c, 0));
        }
        assert forall|c: int| 0 <= c < self.nc() implies #[trigger] self.encoded(c) by {
            assert(self.ins_gidx@[c]@.len() == 0);
            assert(self.ins_blocks@[c]@.len() == 0);
            assert(blocks_for(self.ins_gidx@[c]@.len()) == 0);
            assert(self.ins_blocks@[c]@ =~= self.ins_code(c, 0));
            assert(0 * self.bb == 0);
        }
    }

    /// The appended store is the same.
    pub open spec fn same_buffer(&self, other: &Self) -> bool {
        &&& self.ins_blocks == other.ins_blocks
        &&& self.ins_gidx == other.ins_gidx
        &&& self.ins_full_blocks == other.ins_full_blocks
        &&& self.ins_raw == other.ins_raw
        &&& self.ins_dirty == other.ins_dirty
    }

    /// The built store is the same but for emptied slots and the slot lists.
    pub open spec fn same_built(&self, other: &Self) -> bool {
        &&& self.router == other.router
        &&& self.comp == other.comp
        &&& self.cell_bstart == other.cell_bstart
        &&& self.blocks == other.blocks
        &&& self.bb == other.bb
        &&& self.xfn == other.xfn
        &&& self.raw == other.raw
        &&& self.d == other.d
        &&& self.blocks_il == other.blocks_il
        &&& self.cell_ilstart == other.cell_ilstart
        &&& self.resid_pq == other.resid_pq
        &&& self.resid_codes == other.resid_codes
        &&& self.rq_cent == other.rq_cent
        &&& self.a0 == other.a0
        &&& self.raw_orig_indexed == other.raw_orig_indexed
        &&& self.n_main == other.n_main
    }

    /// The index after `orig` was deleted from `pre`: no entry of either store names it, all others are
    /// as they were.
    pub open spec fn deleted(&self, pre: &Self, orig: u32) -> bool {
        &&& self.same_built(pre)
        &&& self.same_buffer(pre)
        &&& self.slot_orig@ == emptied(pre.slot_orig@, orig)
        &&& self.ins_orig@ == emptied(pre.ins_orig@, orig)
        &&& self.ins_loc@ == pre.ins_loc@.remove(orig)
        &&& self.ins_count == live_count(self.ins_orig@, self.ins_orig@.len())
    }

    /// `orig` is stored, built or inserted.
    pub open spec fn knows(&self, orig: u32) -> bool {
        orig != NO_POINT && (self.slot_orig@.contains(orig) || self.ins_orig@.contains(orig))
    }

    /// Delete a point, with all of its copies, built and inserted, so that no later search finds it.
    /// False if the id is unknown.
    pub fn delete(&mut self, orig: u32) -> (r: bool)
        requires
            old(self).wf(),
        ensures
            final(self).wf(),
            r == old(self).knows(orig),
            final(self).deleted(old(self), orig),
    {
        let inserted = self.forget_inserted(orig);
        let built = self.forget_built(orig);
        inserted || built
    }

    /// Empty every entry of the append buffer that names a point; true if one did.
    fn forget_inserted(&mut self, orig: u32) -> (r: bool)
        requires
            old(self).wf(),
        ensures
            final(self).wf(),
            final(self).same_built(old(self)),
            final(self).same_buffer(old(self)),
            final(self).slot_orig == old(self).slot_orig,
            final(self).ins_orig@ == emptied(old(self).ins_orig@, orig),
            final(self).ins_loc@ == old(self).ins_loc@.remove(orig),
            r == (orig != NO_POINT && old(self).ins_orig@.contains(orig)),
    {
        broadcast use vstd::std_specs::hash::group_hash_axioms;

        let ghost pre = *self;
        let known: bool = self.ins_loc.contains_key(&orig);
        if !known {
            proof {
                if orig != NO_POINT && pre.ins_orig@.contains(orig) {
                    let g = choose|g: int| 0 <= g < pre.ins_orig@.len() && pre.ins_orig@[g] == orig;
                    assert(pre.ins_loc@.contains_key(pre.ins_orig@[g]));
                }
                assert(emptied(pre.ins_orig@, orig) =~= pre.ins_orig@) by {
                    assert forall|g: int| 0 <= g < pre.ins_orig@.len() implies emptied(pre.ins_orig@, orig)[g] == pre.ins_orig@[g] by {
                        if pre.ins_orig@[g] == orig {
                            assert(pre.ins_orig@.contains(orig));
                        }
                    }
                }
                assert(pre.ins_loc@.remove(orig) =~= pre.ins_loc@);
            }
            return false;
        }
        proof {
            assert(pre.ins_orig@[pre.ins_loc@[orig] as int] == orig);
            assert(pre.ins_orig@.contains(orig));
        }
        let gone: usize = empty_entries(&mut self.ins_orig, orig);
        self.ins_count = self.ins_count - gone;
        self.ins_loc.remove(&orig);
        proof {
            self.lemma_frame_blocks(&pre);
            assert forall|o: u32| #[trigger] self.ins_loc@.contains_key(o) implies self.ins_loc@[o] < self.ins_orig@.len() && self.ins_orig@[self.ins_loc@[o] as int] == o && o != NO_POINT by {
                assert(pre.ins_loc@.contains_key(o));
                assert(pre.ins_orig@[pre.ins_loc@[o] as int] == o);
            }
            assert forall|g: int| 0 <= g < self.ins_orig@.len() && #[trigger] self.ins_orig@[g] != NO_POINT implies self.ins_loc@.contains_key(self.ins_orig@[g]) by {
                assert(pre.ins_orig@[g] == self.ins_orig@[g]);
                assert(pre.ins_loc@.contains_key(pre.ins_orig@[g]));
            }
            assert(self.main_ok());
            assert(self.ins_lists_ok());
        }
        true
    }

    /// Empty every slot of a built point; true if one held it.
    fn forget_built(&mut self, orig: u32) -> (r: bool)
        requires
            old(self).wf(),
        ensures
            final(self).wf(),
            final(self).same_built(old(self)),
            final(self).same_buffer(old(self)),
            final(self).ins_orig == old(self).ins_orig,
            final(self).ins_loc == old(self).ins_loc,
            final(self).slot_orig@ == emptied(old(self).slot_orig@, orig),
            r == (orig != NO_POINT && old(self).slot_orig@.contains(orig)),
    {
        let ghost pre = *self;
        if orig as usize >= self.n_main {
            proof {
                if orig != NO_POINT && pre.slot_orig@.contains(orig) {
                    let s = choose|s: int| 0 <= s < pre.slot_orig@.len() && pre.slot_orig@[s] == orig;
                    assert(pre.slot_orig@[s] < pre.n_main);
                }
                assert forall|s: int| 0 <= s < pre.slot_orig@.len() implies #[trigger] self.slot_orig@[s] == emptied(pre.slot_orig@, orig)[s] by {
                    assert(pre.slot_orig@[s] < pre.n_main || pre.slot_orig@[s] == NO_POINT);
                }
                assert(self.slot_orig@ =~= emptied(pre.slot_orig@, orig));
            }
            return false;
        }
        self.list_slots();
        let any = self.empty_slots(orig);
        assert(self.slot_orig@ =~= emptied(pre.slot_orig@, orig));
        any
    }

    /// Build the slot lists unless they were.
    fn list_slots(&mut self)
        requires
            old(self).wf(),
        ensures
            final(self).wf(),
            final(self).main_rev is Some,
            final(self).same_built(old(self)),
            final(self).same_buffer(old(self)),
            final(self).slot_orig == old(self).slot_orig,
            final(self).ins_orig == old(self).ins_orig,
            final(self).ins_loc == old(self).ins_loc,
            final(self).ins_count == old(self).ins_count,
    {
        if self.main_rev.is_none() {
            let ghost pre = *self;
            let rev = slots_by_point(&self.slot_orig, self.n_main);
            self.main_rev = Some(rev);
            proof {
                self.lemma_frame_blocks(&pre);
                self.lemma_frame_lists(&pre);
                assert(self.main_ok());
            }
        }
    }

    proof fn lemma_frame_lists(&self, pre: &Self)
        requires
            pre.ins_lists_ok(),
            self.same_built(pre),
            self.same_buffer(pre),
            self.ins_orig == pre.ins_orig,
            self.ins_loc == pre.ins_loc,
            self.ins_count == pre.ins_count,
        ensures
            self.ins_lists_ok(),
    {
    }

    proof fn lemma_frame_blocks(&self, pre: &Self)
        requires
            pre.ins_blocks_ok(),
            self.same_built(pre),
            self.same_buffer(pre),
        ensures
            self.ins_blocks_ok(),
    {
        assert forall|c: int| 0 <= c < self.nc() && self.bb > 0 implies #[trigger] self.sealed(c) by {
            assert(pre.sealed(c));
        }
        assert forall|c: int| 0 <= c < self.nc() && self.bb > 0 && !self.ins_dirty@.contains(c as u32) implies #[trigger] self.encoded(c) by {
            assert(pre.encoded(c));
        }
    }

    /// The slot lists, where they were built.
    pub open spec fn rev(&self) -> (Seq<u32>, Seq<u32>) {
        match self.main_rev {
            Some(rev) => (rev.0@, rev.1@),
            None => (Seq::empty(), Seq::empty()),
        }
    }

    /// Empty every slot of a built point; true if one held it.
    fn empty_slots(&mut self, orig: u32) -> (r: bool)
        requires
            old(self).wf(),
            old(self).main_rev is Some,
            orig < old(self).n_main,
        ensures
            final(self).wf(),
            final(self).same_built(old(self)),
            final(self).same_buffer(old(self)),
            final(self).ins_orig == old(self).ins_orig,
            final(self).ins_loc == old(self).ins_loc,
            final(self).ins_count == old(self).ins_count,
            r == old(self).slot_orig@.contains(orig),
            final(self).slot_orig@.len() == old(self).slot_orig@.len(),
            forall|s: int| 0 <= s < old(self).slot_orig@.len() ==> #[trigger] final(self).slot_orig@[s] == (if old(self).slot_orig@[s] == orig { NO_POINT } else { old(self).slot_orig@[s] }),
    {
        let ghost s0 = self.slot_orig@;
        let ghost off = self.rev().0;
        let ghost slots = self.rev().1;
        let list: Vec<u32> = match &self.main_rev {
            Some(rev) => {
                let olen: usize = rev.0.len();
                assert(off[orig as int] <= off[orig + 1] <= slots.len());
                vstd::slice::slice_to_vec(slice_subrange(rev.1.as_slice(), rev.0[orig as usize] as usize, rev.0[orig as usize + 1] as usize))
            },
            None => Vec::new(),
        };
        let n: usize = list.len();
        let mut any = false;
        let mut i: usize = 0;
        let ghost from = off[orig as int] as int;
        let ghost pre = *self;
        proof {
            assert forall|k: int| 0 <= k < n implies (#[trigger] list@[k]) < s0.len() && (s0[list@[k] as int] == orig || s0[list@[k] as int] == NO_POINT) by {
                assert(off[orig as int] <= off[orig + 1]);
                assert(list@[k] == slots[from + k]);
            }
        }
        while i < n
            invariant
                i <= n,
                n == list@.len(),
                s0 == pre.slot_orig@,
                orig != NO_POINT,
                forall|k: int| 0 <= k < n ==> (#[trigger] list@[k]) < s0.len() && (s0[list@[k] as int] == orig || s0[list@[k] as int] == NO_POINT),
                self.same_built(&pre),
                self.same_buffer(&pre),
                self.ins_orig == pre.ins_orig,
                self.ins_loc == pre.ins_loc,
                self.ins_count == pre.ins_count,
                self.main_rev == pre.main_rev,
                self.slot_orig@.len() == s0.len(),
                forall|s: int| 0 <= s < s0.len() ==> #[trigger] self.slot_orig@[s] == s0[s] || (s0[s] == orig && self.slot_orig@[s] == NO_POINT),
                forall|k: int| 0 <= k < i ==> self.slot_orig@[#[trigger] list@[k] as int] == NO_POINT,
                any ==> exists|k: int| 0 <= k < n && s0[#[trigger] list@[k] as int] == orig,
                !any ==> self.slot_orig@ == s0 && forall|k: int| 0 <= k < i ==> s0[#[trigger] list@[k] as int] == NO_POINT,
            decreases n - i,
        {
            let slot: usize = list[i] as usize;
            if self.slot_orig[slot] != NO_POINT {
                self.slot_orig.set(slot, NO_POINT);
                any = true;
                assert(s0[list@[i as int] as int] == orig);
            }
            i = i + 1;
        }
        proof {
            assert forall|s: int| 0 <= s < s0.len() implies #[trigger] self.slot_orig@[s] == (if s0[s] == orig { NO_POINT } else { s0[s] }) by {
                if s0[s] == orig {
                    let k = choose|k: int| off[s0[s] as int] <= k < off[s0[s] + 1] && #[trigger] slots[k] == s;
                    assert(list@[k - from] == slots[k]);
                    assert(self.slot_orig@[list@[k - from] as int] == NO_POINT);
                }
            }
            if s0.contains(orig) {
                let s = choose|s: int| 0 <= s < s0.len() && s0[s] == orig;
                let k = choose|k: int| off[s0[s] as int] <= k < off[s0[s] + 1] && #[trigger] slots[k] == s;
                assert(list@[k - from] == slots[k]);
            }
            if any {
                let k = choose|k: int| 0 <= k < n && s0[#[trigger] list@[k] as int] == orig;
                assert(s0.contains(orig));
            }
            assert forall|s: int| 0 <= s < self.slot_orig@.len() && (#[trigger] self.slot_orig@[s]) < self.n_main implies exists|k: int| off[self.slot_orig@[s] as int] <= k < off[self.slot_orig@[s] + 1] && #[trigger] slots[k] == s by {
                assert(self.slot_orig@[s] == s0[s]);
            }
            assert(rev_ok(off, slots, self.slot_orig@, self.n_main as nat));
            self.lemma_frame_blocks(&pre);
            self.lemma_frame_lists(&pre);
            assert(self.main_ok());
        }
        any
    }
}

} // verus!
