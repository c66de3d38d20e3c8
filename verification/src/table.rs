//! Open-addressing table from point ids to small values, linear probing, Fibonacci hashing.
use vstd::prelude::*;

verus! {

/// The id that marks an empty cell. It is no valid key.
pub const EMPTY_KEY: u32 = 0xffff_ffff;

/// Fibonacci multiplier.
const HASH_MUL: u32 = 0x9e37_79b1;

/// Cell at which the search for `key` starts.
pub open spec fn home(key: u32, cap: nat) -> nat {
    (key.wrapping_mul(0x9e37_79b1) as nat) % cap
}

/// Cell of the `s`-th step of a search that starts at `h`.
pub open spec fn step_at(h: nat, s: nat, cap: nat) -> nat {
    (h + s) % cap
}

/// Number of taken cells.
pub open spec fn taken(cells: Seq<(u32, u32)>) -> nat
    decreases cells.len(),
{
    if cells.len() == 0 {
        0
    } else {
        taken(cells.drop_last()) + if cells.last().0 != EMPTY_KEY {
            1nat
        } else {
            0
        }
    }
}

/// A map from ids to `u32`, sized once; its cells never move.
pub struct IdTable {
    cells: Vec<(u32, u32)>,
    len: usize,
    model: Ghost<Map<u32, u32>>,
}

/// What the search has passed: steps `0..n` from `h` are taken by keys other than `key`.
spec fn passed(cells: Seq<(u32, u32)>, h: nat, n: nat, key: u32) -> bool {
    forall|s: nat| s < n ==> {
        &&& (#[trigger] cells[step_at(h, s, cells.len()) as int]).0 != EMPTY_KEY
        &&& cells[step_at(h, s, cells.len()) as int].0 != key
    }
}

/// Cell `i` is reached from the home of its key through taken cells only.
spec fn reachable(cells: Seq<(u32, u32)>, i: int) -> bool {
    exists|n: nat|
        #![trigger step_at(home(cells[i].0, cells.len()), n, cells.len())]
        {
            &&& n < cells.len()
            &&& step_at(home(cells[i].0, cells.len()), n, cells.len()) == i
            &&& forall|s: nat| s < n ==> (#[trigger] cells[step_at(home(cells[i].0, cells.len()), s, cells.len()) as int]).0 != EMPTY_KEY
        }
}

impl IdTable {
    /// The map that the table holds.
    pub closed spec fn view(&self) -> Map<u32, u32> {
        self.model@
    }

    /// Number of cells.
    pub closed spec fn capacity(&self) -> nat {
        self.cells@.len()
    }

    /// Number of keys.
    pub closed spec fn count(&self) -> nat {
        self.len as nat
    }

    pub closed spec fn wf(&self) -> bool {
        holds(self.cells@, self.len as nat, self.model@)
    }
}

/// `cells` is a probing table of `len` keys that holds `model`.
spec fn holds(cells: Seq<(u32, u32)>, len: nat, model: Map<u32, u32>) -> bool {
    &&& cells.len() > 0
    &&& len == taken(cells)
    &&& forall|i: int| 0 <= i < cells.len() && (#[trigger] cells[i]).0 != EMPTY_KEY ==> reachable(cells, i)
    &&& forall|i: int, j: int| 0 <= i < j < cells.len() && (#[trigger] cells[i]).0 != EMPTY_KEY ==> cells[i].0 != (#[trigger] cells[j]).0
    &&& forall|i: int| 0 <= i < cells.len() && (#[trigger] cells[i]).0 != EMPTY_KEY ==> model.dom().contains(cells[i].0) && model[cells[i].0] == cells[i].1
    &&& forall|k: u32| #[trigger] model.dom().contains(k) ==> k != EMPTY_KEY && exists|i: int| 0 <= i < cells.len() && (#[trigger] cells[i]).0 == k
}

proof fn lemma_taken_bound(cells: Seq<(u32, u32)>)
    ensures
        taken(cells) <= cells.len(),
        (forall|i: int| 0 <= i < cells.len() ==> (#[trigger] cells[i]).0 != EMPTY_KEY) ==> taken(cells) == cells.len(),
        (forall|i: int| 0 <= i < cells.len() ==> (#[trigger] cells[i]).0 == EMPTY_KEY) ==> taken(cells) == 0,
    decreases cells.len(),
{
    if cells.len() > 0 {
        let h = cells.drop_last();
        lemma_taken_bound(h);
        assert forall|i: int| 0 <= i < h.len() implies h[i] == cells[i] by {
        }
        if forall|i: int| 0 <= i < cells.len() ==> (#[trigger] cells[i]).0 != EMPTY_KEY {
            assert(forall|i: int| 0 <= i < h.len() ==> (#[trigger] h[i]).0 != EMPTY_KEY);
            assert(cells[cells.len() - 1].0 != EMPTY_KEY);
        }
        if forall|i: int| 0 <= i < cells.len() ==> (#[trigger] cells[i]).0 == EMPTY_KEY {
            assert(forall|i: int| 0 <= i < h.len() ==> (#[trigger] h[i]).0 == EMPTY_KEY);
            assert(cells[cells.len() - 1].0 == EMPTY_KEY);
        }
    }
}

proof fn lemma_taken_update(cells: Seq<(u32, u32)>, i: int, e: (u32, u32))
    requires
        0 <= i < cells.len(),
        e.0 != EMPTY_KEY,
    ensures
        taken(cells.update(i, e)) == taken(cells) + if cells[i].0 == EMPTY_KEY {
            1nat
        } else {
            0
        },
    decreases cells.len(),
{
    let u = cells.update(i, e);
    if i == cells.len() - 1 {
        assert(u.drop_last() =~= cells.drop_last());
    } else {
        assert(u.drop_last() =~= cells.drop_last().update(i, e));
        lemma_taken_update(cells.drop_last(), i, e);
    }
}

/// After `cap` steps a search has seen every cell.
proof fn lemma_steps_cover(h: nat, cap: nat, i: nat) -> (s: nat)
    requires
        h < cap,
        i < cap,
    ensures
        s < cap,
        step_at(h, s, cap) == i,
{
    if i >= h {
        vstd::arithmetic::div_mod::lemma_small_mod(i, cap);
        (i - h) as nat
    } else {
        let s = (i + cap - h) as nat;
        assert((i + cap) as int % cap as int == i) by {
            vstd::arithmetic::div_mod::lemma_mod_add_multiples_vanish(i as int, cap as int);
            vstd::arithmetic::div_mod::lemma_small_mod(i, cap);
        }
        s
    }
}

proof fn lemma_step_in_range(h: nat, s: nat, cap: nat)
    requires
        cap > 0,
    ensures
        step_at(h, s, cap) < cap,
{
    vstd::arithmetic::div_mod::lemma_mod_bound((h + s) as int, cap as int);
}

proof fn lemma_add(c0: Seq<(u32, u32)>, len: nat, model: Map<u32, u32>, i: int, key: u32, value: u32, n: nat)
    requires
        holds(c0, len, model),
        0 <= i < c0.len(),
        key != EMPTY_KEY,
        c0[i].0 == EMPTY_KEY,
        !model.dom().contains(key),
        n < c0.len(),
        step_at(home(key, c0.len()), n, c0.len()) == i,
        passed(c0, home(key, c0.len()), n, key),
    ensures
        holds(c0.update(i, (key, value)), len + 1, model.insert(key, value)),
{
    let c1 = c0.update(i, (key, value));
    let m1 = model.insert(key, value);
    let hk = home(key, c0.len());
    lemma_taken_update(c0, i, (key, value));
    assert forall|j: int| 0 <= j < c1.len() && (#[trigger] c1[j]).0 != EMPTY_KEY implies reachable(c1, j) by {
        if j == i {
            assert(step_at(home(c1[j].0, c1.len()), n, c1.len()) == i);
            assert forall|s: nat| s < n implies (#[trigger] c1[step_at(home(c1[j].0, c1.len()), s, c1.len()) as int]).0 != EMPTY_KEY by {
                lemma_step_in_range(hk, s, c0.len());
                assert(c0[step_at(hk, s, c0.len()) as int].0 != EMPTY_KEY);
            }
        } else {
            assert(c1[j] == c0[j]);
            assert(reachable(c0, j));
            let hj = home(c0[j].0, c0.len());
            let m = choose|m: nat|
                #![trigger step_at(home(c0[j].0, c0.len()), m, c0.len())]
                {
                    &&& m < c0.len()
                    &&& step_at(home(c0[j].0, c0.len()), m, c0.len()) == j
                    &&& forall|s: nat| s < m ==> (#[trigger] c0[step_at(home(c0[j].0, c0.len()), s, c0.len()) as int]).0 != EMPTY_KEY
                };
            assert(step_at(home(c1[j].0, c1.len()), m, c1.len()) == j);
            assert forall|s: nat| s < m implies (#[trigger] c1[step_at(home(c1[j].0, c1.len()), s, c1.len()) as int]).0 != EMPTY_KEY by {
                lemma_step_in_range(hj, s, c0.len());
                assert(c0[step_at(hj, s, c0.len()) as int].0 != EMPTY_KEY);
            }
        }
    }
    assert forall|a: int, b: int| 0 <= a < b < c1.len() && (#[trigger] c1[a]).0 != EMPTY_KEY implies c1[a].0 != (#[trigger] c1[b]).0 by {
        if a != i && b != i {
            assert(c0[a].0 != c0[b].0);
        } else if a == i {
            assert(c0[b].0 != EMPTY_KEY ==> model.dom().contains(c0[b].0));
        } else {
            assert(c0[a].0 != EMPTY_KEY ==> model.dom().contains(c0[a].0));
        }
    }
    assert forall|j: int| 0 <= j < c1.len() && (#[trigger] c1[j]).0 != EMPTY_KEY implies m1.dom().contains(c1[j].0) && m1[c1[j].0] == c1[j].1 by {
        if j != i {
            assert(model.dom().contains(c0[j].0));
        }
    }
    assert forall|k: u32| #[trigger] m1.dom().contains(k) implies k != EMPTY_KEY && exists|j: int| 0 <= j < c1.len() && (#[trigger] c1[j]).0 == k by {
        if k == key {
            assert(c1[i].0 == key);
        } else {
            assert(model.dom().contains(k));
            let j = choose|j: int| 0 <= j < c0.len() && (#[trigger] c0[j]).0 == k;
            assert(c1[j].0 == k);
        }
    }
}

impl IdTable {
    /// A table with `cap` cells.
    pub fn with_cells(cap: usize) -> (r: Self)
        requires
            cap > 0,
        ensures
            r.wf(),
            r@ == Map::<u32, u32>::empty(),
            r.capacity() == cap,
            r.count() == 0,
    {
        let mut cells: Vec<(u32, u32)> = Vec::with_capacity(cap);
        let mut i: usize = 0;
        while i < cap
            invariant
                i <= cap,
                cells@.len() == i,
                forall|j: int| 0 <= j < i ==> (#[trigger] cells@[j]).0 == EMPTY_KEY,
            decreases cap - i,
        {
            cells.push((EMPTY_KEY, 0));
            i = i + 1;
        }
        proof {
            lemma_taken_bound(cells@);
        }
        IdTable { cells, len: 0, model: Ghost(Map::empty()) }
    }

    /// The cell that holds `key`, or the empty cell at which it belongs.
    fn find(&self, key: u32) -> (r: usize)
        requires
            self.wf(),
            key != EMPTY_KEY,
            self.count() < self.capacity() || self@.dom().contains(key),
        ensures
            r < self.cells@.len(),
            self.cells@[r as int].0 == key || self.cells@[r as int].0 == EMPTY_KEY,
            self@.dom().contains(key) <==> self.cells@[r as int].0 == key,
            self.cells@[r as int].0 == EMPTY_KEY ==> exists|n: nat|
                #![trigger step_at(home(key, self.cells@.len()), n, self.cells@.len())]
                {
                    &&& n < self.cells@.len()
                    &&& step_at(home(key, self.cells@.len()), n, self.cells@.len()) == r
                    &&& passed(self.cells@, home(key, self.cells@.len()), n, key)
                },
    {
        let cap: usize = self.cells.len();
        let h0: usize = key.wrapping_mul(HASH_MUL) as usize % cap;
        let ghost cells = self.cells@;
        let ghost hh = home(key, cells.len());
        let mut h: usize = h0;
        let mut steps: usize = 0;
        proof {
            vstd::arithmetic::div_mod::lemma_small_mod(h0 as nat, cap as nat);
        }
        while self.cells[h].0 != EMPTY_KEY && self.cells[h].0 != key
            invariant
                self.wf(),
                key != EMPTY_KEY,
                self.count() < self.capacity() || self@.dom().contains(key),
                cells == self.cells@,
                cap == cells.len(),
                cap > 0,
                hh == home(key, cells.len()),
                hh < cap,
                steps <= cap,
                h < cap,
                steps < cap ==> h == step_at(hh, steps as nat, cap as nat),
                passed(cells, hh, steps as nat, key),
                steps < cap,
            decreases cap - steps,
        {
            assert(cells[step_at(hh, steps as nat, cells.len()) as int] == cells[h as int]);
            proof {
                let next = (steps + 1) as nat;
                assert(passed(cells, hh, next, key)) by {
                    assert forall|s: nat| s < next implies {
                        &&& (#[trigger] cells[step_at(hh, s, cells.len()) as int]).0 != EMPTY_KEY
                        &&& cells[step_at(hh, s, cells.len()) as int].0 != key
                    } by {
                        if s == steps {
                        }
                    }
                }
                if steps + 1 == cap {
                    assert forall|i: int| 0 <= i < cells.len() implies (#[trigger] cells[i]).0 != EMPTY_KEY && cells[i].0 != key by {
                        let s = lemma_steps_cover(hh, cap as nat, i as nat);
                        assert(cells[step_at(hh, s, cells.len()) as int].0 != EMPTY_KEY);
                    }
                    lemma_taken_bound(cells);
                    assert(self@.dom().contains(key));
                    let i = choose|i: int| 0 <= i < cells.len() && (#[trigger] cells[i]).0 == key;
                    assert(false);
                }
                assert((h + 1) as int % cap as int == (hh + steps + 1) as int % cap as int) by {
                    vstd::arithmetic::div_mod::lemma_add_mod_noop((hh + steps) as int, 1, cap as int);
                    vstd::arithmetic::div_mod::lemma_add_mod_noop(h as int, 1, cap as int);
                    vstd::arithmetic::div_mod::lemma_small_mod(h as nat, cap as nat);
                }
            }
            if h + 1 == cap {
                proof {
                    vstd::arithmetic::div_mod::lemma_mod_self_0(cap as int);
                }
                h = 0;
            } else {
                proof {
                    vstd::arithmetic::div_mod::lemma_small_mod((h + 1) as nat, cap as nat);
                }
                h = h + 1;
            }
            steps = steps + 1;
        }
        proof {
            let n = steps as nat;
            assert(step_at(hh, n, cells.len()) == h);
            if cells[h as int].0 == EMPTY_KEY && self@.dom().contains(key) {
                let i = choose|i: int| 0 <= i < cells.len() && (#[trigger] cells[i]).0 == key;
                assert(reachable(cells, i));
                let m = choose|m: nat|
                    #![trigger step_at(home(cells[i].0, cells.len()), m, cells.len())]
                    {
                        &&& m < cells.len()
                        &&& step_at(home(cells[i].0, cells.len()), m, cells.len()) == i
                        &&& forall|s: nat| s < m ==> (#[trigger] cells[step_at(home(cells[i].0, cells.len()), s, cells.len()) as int]).0 != EMPTY_KEY
                    };
                if m < n {
                    assert(cells[step_at(hh, m, cells.len()) as int].0 != key);
                } else if n < m {
                    assert(cells[step_at(hh, n, cells.len()) as int].0 != EMPTY_KEY);
                }
                assert(false);
            }
        }
        h
    }

    /// Value of `key`, where it has one.
    pub fn get(&self, key: u32) -> (r: Option<u32>)
        requires
            self.wf(),
            key != EMPTY_KEY,
            self.count() < self.capacity(),
        ensures
            r == if self@.dom().contains(key) {
                Some(self@[key])
            } else {
                None
            },
    {
        let i: usize = self.find(key);
        if self.cells[i].0 == key {
            Some(self.cells[i].1)
        } else {
            None
        }
    }

    /// Add `key` with `value` unless the table has `key` already. True where it was added.
    pub fn add_new(&mut self, key: u32, value: u32) -> (added: bool)
        requires
            old(self).wf(),
            key != EMPTY_KEY,
            old(self).count() < old(self).capacity(),
        ensures
            final(self).wf(),
            final(self).capacity() == old(self).capacity(),
            added == !old(self)@.dom().contains(key),
            added ==> final(self)@ == old(self)@.insert(key, value) && final(self).count() == old(self).count() + 1,
            !added ==> final(self)@ == old(self)@ && final(self).count() == old(self).count(),
    {
        let cap: usize = self.cells.len();
        assert(self.len < cap);
        let i: usize = self.find(key);
        if self.cells[i].0 == key {
            return false;
        }
        let ghost c0 = self.cells@;
        let ghost n = choose|n: nat|
            #![trigger step_at(home(key, c0.len()), n, c0.len())]
            {
                &&& n < c0.len()
                &&& step_at(home(key, c0.len()), n, c0.len()) == i
                &&& passed(c0, home(key, c0.len()), n, key)
            };
        proof {
            lemma_taken_bound(c0);
            lemma_add(c0, self.len as nat, self.model@, i as int, key, value, n);
        }
        self.cells.set(i, (key, value));
        self.len = self.len + 1;
        self.model = Ghost(self.model@.insert(key, value));
        true
    }
}

} // verus!
