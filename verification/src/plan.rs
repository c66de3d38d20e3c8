//! The measurement plans: which operating points a run of queries is to be timed at, how its
//! knobs are resolved, and how its queries are cut into chunks.

use vstd::arithmetic::power2::pow2;
use vstd::prelude::*;
use crate::graph::GraphPolicy;
use crate::preset::SearchPreset;
use crate::text::{number, number_list, parse_list, parse_usize, pieces, split, texts, trim, trimmed};

verus! {

/// What is wrong with a plan.
#[derive(Clone, Copy, Debug, PartialEq, Eq, Structural)]
pub enum PlanError {
    /// The plan has no row.
    Empty,
    /// The row with this number has too few or too many fields.
    FieldCount(usize),
    /// In the row with this number the field with this number is no number.
    BadField(usize, usize),
}

/// One row of a plan: its label and the numbers behind it.
pub struct Row {
    pub label: Vec<char>,
    pub numbers: Vec<usize>,
}

/// One operating point of a search.
pub struct SearchPoint {
    pub label: Vec<char>,
    /// The probed cells.
    pub p: usize,
    /// How many survivors each probed cell stands for.
    pub tm: usize,
    /// The least number of survivors.
    pub floor: usize,
    /// What the integer stage leaves for the exact order.
    pub k: usize,
    /// The nodes that a graph search expands.
    pub m: usize,
    /// The edges that it follows from each of them.
    pub kedge: usize,
    pub hops: usize,
    pub bestfirst: bool,
    pub portal_keep: usize,
    pub sq4_int8k: usize,
}

/// One operating point of a graph walk.
pub struct WalkPoint {
    pub label: Vec<char>,
    /// How many candidates the walk keeps.
    pub l: usize,
    /// The fixed number of rounds, none for a walk that ends by itself.
    pub rounds: usize,
    pub frontier: usize,
}

/// The texts among some that hold more than white space.
pub open spec fn filled(ps: Seq<Seq<char>>) -> Seq<Seq<char>>
    decreases ps.len(),
{
    if ps.len() == 0 {
        ps
    } else {
        let before = filled(ps.drop_last());
        if trimmed(ps.last()).len() > 0 {
            before.push(ps.last())
        } else {
            before
        }
    }
}

/// The rows of a plan.
pub open spec fn rows_of(s: Seq<char>) -> Seq<Seq<char>> {
    filled(pieces(s, ';'))
}

/// The first field from the one at `k` on that is no number.
pub open spec fn first_bad(fields: Seq<Seq<char>>, k: nat) -> Option<nat>
    decreases fields.len() - k,
{
    if k >= fields.len() {
        None
    } else if number(fields[k as int]) is None {
        Some(k)
    } else {
        first_bad(fields, k + 1)
    }
}

/// What is wrong with the row of number `r`, which is to have `want` fields.
pub open spec fn row_error(row: Seq<char>, want: nat, r: nat) -> Option<PlanError> {
    let fields = pieces(row, ':');
    if fields.len() != want {
        Some(PlanError::FieldCount(r as usize))
    } else {
        match first_bad(fields, 1) {
            Some(k) => Some(PlanError::BadField(r as usize, k as usize)),
            None => None,
        }
    }
}

/// What is wrong with the first row from the one at `r` on that is not as it should be.
pub open spec fn rows_error(rows: Seq<Seq<char>>, want: nat, r: nat) -> Option<PlanError>
    decreases rows.len() - r,
{
    if r >= rows.len() {
        None
    } else if row_error(rows[r as int], want, r) is Some {
        row_error(rows[r as int], want, r)
    } else {
        rows_error(rows, want, r + 1)
    }
}

/// The number in a field of a row.
pub open spec fn field(row: Seq<char>, k: int) -> usize {
    number(pieces(row, ':')[k])->0
}

impl Row {
    /// True where this is what a row of `want` fields says.
    pub open spec fn says(&self, row: Seq<char>, want: nat) -> bool {
        &&& self.label@ == pieces(row, ':')[0]
        &&& self.numbers@.len() == want - 1
        &&& forall|k: int|
            0 <= k < want - 1 ==> #[trigger] self.numbers@[k] == field(row, k + 1)
    }
}

impl SearchPoint {
    /// True where this is the point that a row of a search plan describes.
    pub open spec fn says(&self, row: Seq<char>) -> bool {
        &&& self.label@ == pieces(row, ':')[0]
        &&& self.p == field(row, 1)
        &&& self.tm == field(row, 2)
        &&& self.floor == field(row, 3)
        &&& self.k == field(row, 4)
        &&& self.m == field(row, 5)
        &&& self.kedge == field(row, 6)
        &&& self.hops == field(row, 7)
        &&& self.bestfirst == (field(row, 8) != 0)
        &&& self.portal_keep == field(row, 9)
        &&& self.sq4_int8k == field(row, 10)
    }

    /// True where this is the unlabelled point of these knobs.
    pub open spec fn is_point(
        &self,
        portal_keep: usize,
        m: usize,
        kedge: usize,
        floor: usize,
        p: usize,
        tm: usize,
        k: usize,
    ) -> bool {
        &&& self.label@.len() == 0
        &&& self.p == p
        &&& self.tm == tm
        &&& self.floor == floor
        &&& self.k == k
        &&& self.m == m
        &&& self.kedge == kedge
        &&& self.portal_keep == portal_keep
    }
}

impl WalkPoint {
    /// True where this is the point that a row of a walk plan describes.
    pub open spec fn says(&self, row: Seq<char>) -> bool {
        &&& self.label@ == pieces(row, ':')[0]
        &&& self.l == field(row, 1)
        &&& self.rounds == field(row, 2)
        &&& self.frontier == field(row, 3)
    }
}

/// Every choice of one entry from each of two lists, the second varying fastest.
pub open spec fn spread(a: Seq<Seq<usize>>, b: Seq<usize>) -> Seq<Seq<usize>> {
    Seq::new(
        a.len() * b.len(),
        |i: int| a[i / (b.len() as int)].push(b[i % (b.len() as int)]),
    )
}

/// Every choice of one entry from each list, the last varying fastest.
pub open spec fn choices(lists: Seq<Seq<usize>>) -> Seq<Seq<usize>>
    decreases lists.len(),
{
    if lists.len() == 0 {
        seq![Seq::<usize>::empty()]
    } else {
        spread(choices(lists.drop_last()), lists.last())
    }
}

/// The number sequences that a vector of vectors holds.
pub open spec fn rows_in(v: Seq<Vec<usize>>) -> Seq<Seq<usize>> {
    Seq::new(v.len(), |i: int| v[i]@)
}

/// A number held to a bound where there is one.
pub open spec fn held(v: usize, bound: Option<usize>) -> usize {
    match bound {
        Some(b) => if b < v {
            b
        } else {
            v
        },
        None => v,
    }
}

/// The chunk of number `i` of `nq` queries cut into chunks of `chunk`.
pub open spec fn chunk_range(nq: nat, chunk: nat, i: nat) -> (usize, usize) {
    let end = (i + 1) * chunk;
    (
        (i * chunk) as usize,
        if end < nq {
            end as usize
        } else {
            nq as usize
        },
    )
}

/// How many chunks of `chunk` queries `nq` of them make, the last perhaps short.
pub open spec fn chunk_count(nq: nat, chunk: nat) -> nat {
    (nq + chunk - 1) as nat / chunk
}

/// The value of a boolean switch: as it is by default where it is not given, off where it is given
/// as `0`, on where it is given as anything else.
pub fn env_on(value: Option<&[char]>, default: bool) -> (r: bool)
    ensures
        r == (match value {
            Some(v) => v@ != seq!['0'],
            None => default,
        }),
{
    match value {
        Some(v) => {
            let off: bool = v.len() == 1 && v[0] == '0';
            assert(off ==> v@ =~= seq!['0']);
            !off
        },
        None => default,
    }
}

fn split_rows(s: &[char]) -> (r: Vec<Vec<char>>)
    ensures
        texts(r@) == rows_of(s@),
{
    let ps: Vec<Vec<char>> = split(s, ';');
    let n: usize = ps.len();
    let ghost all = pieces(s@, ';');
    let mut out: Vec<Vec<char>> = Vec::new();
    let mut i: usize = 0;
    assert(all.take(0) =~= Seq::<Seq<char>>::empty());
    assert(texts(out@) =~= filled(all.take(0)));
    while i < n
        invariant
            i <= n,
            n == ps@.len(),
            texts(ps@) == all,
            texts(out@) == filled(all.take(i as int)),
        decreases n - i,
    {
        assert(all.take(i + 1).drop_last() =~= all.take(i as int));
        assert(all.take(i + 1).last() == texts(ps@)[i as int]);
        let ghost before = texts(out@);
        let bare: Vec<char> = trim(ps[i].as_slice());
        if bare.len() > 0 {
            out.push(vstd::slice::slice_to_vec(ps[i].as_slice()));
            assert(texts(out@) =~= before.push(ps@[i as int]@));
        }
        i = i + 1;
    }
    assert(all.take(n as int) =~= all);
    out
}

fn parse_row(row: &[char], want: usize, r: usize) -> (out: Result<Row, PlanError>)
    requires
        want > 0,
    ensures
        match out {
            Ok(v) => row_error(row@, want as nat, r as nat) is None && v.says(row@, want as nat),
            Err(e) => row_error(row@, want as nat, r as nat) == Some(e),
        },
{
    let fields: Vec<Vec<char>> = split(row, ':');
    let ghost all = pieces(row@, ':');
    assert(texts(fields@).len() == fields@.len());
    if fields.len() != want {
        return Err(PlanError::FieldCount(r));
    }
    let mut numbers: Vec<usize> = Vec::new();
    let mut k: usize = 1;
    while k < want
        invariant
            1 <= k <= want,
            fields@.len() == want,
            texts(fields@) == all,
            all == pieces(row@, ':'),
            all.len() == want,
            first_bad(all, 1) == first_bad(all, k as nat),
            numbers@.len() == k - 1,
            forall|j: int| 0 <= j < k - 1 ==> #[trigger] numbers@[j] == field(row@, j + 1),
        decreases want - k,
    {
        assert(all[k as int] == texts(fields@)[k as int]);
        match parse_usize(fields[k].as_slice()) {
            Some(v) => {
                numbers.push(v);
            },
            None => {
                return Err(PlanError::BadField(r, k));
            },
        }
        k = k + 1;
    }
    assert(all[0] == texts(fields@)[0]);
    Ok(Row { label: vstd::slice::slice_to_vec(fields[0].as_slice()), numbers })
}

/// The rows of a plan, each with a label and `want - 1` numbers behind it.
pub fn parse_rows(s: &[char], want: usize) -> (out: Result<Vec<Row>, PlanError>)
    requires
        want > 0,
    ensures
        match out {
            Ok(v) => {
                &&& rows_error(rows_of(s@), want as nat, 0) is None
                &&& v@.len() == rows_of(s@).len()
                &&& v@.len() > 0
                &&& forall|i: int|
                    0 <= i < v@.len() ==> (#[trigger] v@[i]).says(rows_of(s@)[i], want as nat)
            },
            Err(e) => if rows_of(s@).len() == 0 {
                e == PlanError::Empty
            } else {
                rows_error(rows_of(s@), want as nat, 0) == Some(e)
            },
        },
{
    let rows: Vec<Vec<char>> = split_rows(s);
    let n: usize = rows.len();
    let ghost all = rows_of(s@);
    assert(texts(rows@).len() == n);
    if n == 0 {
        return Err(PlanError::Empty);
    }
    let mut out: Vec<Row> = Vec::new();
    let mut i: usize = 0;
    while i < n
        invariant
            i <= n,
            0 < n,
            want > 0,
            n == rows@.len(),
            texts(rows@) == all,
            all == rows_of(s@),
            all.len() == n,
            rows_error(all, want as nat, 0) == rows_error(all, want as nat, i as nat),
            out@.len() == i,
            forall|j: int| 0 <= j < i ==> (#[trigger] out@[j]).says(all[j], want as nat),
        decreases n - i,
    {
        assert(all[i as int] == texts(rows@)[i as int]);
        match parse_row(rows[i].as_slice(), want, i) {
            Ok(row) => {
                out.push(row);
            },
            Err(e) => {
                return Err(e);
            },
        }
        i = i + 1;
    }
    Ok(out)
}

/// A search plan: rows of the form
/// `label:p:tm:floor:K:M:kedge:hops:bestfirst:portal_keep:sq4_int8k`, with semicolons between them.
/// Rows are kept in their order, and so are those that occur twice.
pub fn search_plan(s: &[char]) -> (out: Result<Vec<SearchPoint>, PlanError>)
    ensures
        match out {
            Ok(v) => {
                &&& rows_error(rows_of(s@), 11, 0) is None
                &&& v@.len() == rows_of(s@).len()
                &&& v@.len() > 0
                &&& forall|i: int| 0 <= i < v@.len() ==> (#[trigger] v@[i]).says(rows_of(s@)[i])
            },
            Err(e) => if rows_of(s@).len() == 0 {
                e == PlanError::Empty
            } else {
                rows_error(rows_of(s@), 11, 0) == Some(e)
            },
        },
{
    match parse_rows(s, 11) {
        Err(e) => Err(e),
        Ok(rows) => {
            let n: usize = rows.len();
            let mut out: Vec<SearchPoint> = Vec::new();
            let mut i: usize = 0;
            while i < n
                invariant
                    i <= n,
                    n == rows@.len(),
                    n == rows_of(s@).len(),
                    forall|j: int| 0 <= j < n ==> (#[trigger] rows@[j]).says(rows_of(s@)[j], 11),
                    out@.len() == i,
                    forall|j: int| 0 <= j < i ==> (#[trigger] out@[j]).says(rows_of(s@)[j]),
                decreases n - i,
            {
                assert(rows@[i as int].says(rows_of(s@)[i as int], 11));
                let v: &Vec<usize> = &rows[i].numbers;
                out.push(
                    SearchPoint {
                        label: vstd::slice::slice_to_vec(rows[i].label.as_slice()),
                        p: v[0],
                        tm: v[1],
                        floor: v[2],
                        k: v[3],
                        m: v[4],
                        kedge: v[5],
                        hops: v[6],
                        bestfirst: v[7] != 0,
                        portal_keep: v[8],
                        sq4_int8k: v[9],
                    },
                );
                i = i + 1;
            }
            Ok(out)
        },
    }
}

/// A walk plan: rows of the form `label:L:rounds:frontier`, with semicolons between them, kept in
/// their order.
pub fn walk_plan(s: &[char]) -> (out: Result<Vec<WalkPoint>, PlanError>)
    ensures
        match out {
            Ok(v) => {
                &&& rows_error(rows_of(s@), 4, 0) is None
                &&& v@.len() == rows_of(s@).len()
                &&& v@.len() > 0
                &&& forall|i: int| 0 <= i < v@.len() ==> (#[trigger] v@[i]).says(rows_of(s@)[i])
            },
            Err(e) => if rows_of(s@).len() == 0 {
                e == PlanError::Empty
            } else {
                rows_error(rows_of(s@), 4, 0) == Some(e)
            },
        },
{
    match parse_rows(s, 4) {
        Err(e) => Err(e),
        Ok(rows) => {
            let n: usize = rows.len();
            let mut out: Vec<WalkPoint> = Vec::new();
            let mut i: usize = 0;
            while i < n
                invariant
                    i <= n,
                    n == rows@.len(),
                    n == rows_of(s@).len(),
                    forall|j: int| 0 <= j < n ==> (#[trigger] rows@[j]).says(rows_of(s@)[j], 4),
                    out@.len() == i,
                    forall|j: int| 0 <= j < i ==> (#[trigger] out@[j]).says(rows_of(s@)[j]),
                decreases n - i,
            {
                assert(rows@[i as int].says(rows_of(s@)[i as int], 4));
                let v: &Vec<usize> = &rows[i].numbers;
                out.push(
                    WalkPoint {
                        label: vstd::slice::slice_to_vec(rows[i].label.as_slice()),
                        l: v[0],
                        rounds: v[1],
                        frontier: v[2],
                    },
                );
                i = i + 1;
            }
            Ok(out)
        },
    }
}

/// A walk ladder: a list of candidate counts, those of at least ten, each with the same rounds and
/// frontier.
pub fn walk_ladder(s: &[char], rounds: usize, frontier: usize) -> (out: Result<
    Vec<WalkPoint>,
    PlanError,
>)
    ensures
        match out {
            Ok(v) => {
                &&& v@.len() == number_list(s@, ',', 10).len()
                &&& v@.len() > 0
                &&& forall|i: int|
                    0 <= i < v@.len() ==> (#[trigger] v@[i]).label@.len() == 0 && v@[i].l
                        == number_list(s@, ',', 10)[i] && v@[i].rounds == rounds && v@[i].frontier
                        == frontier
            },
            Err(e) => number_list(s@, ',', 10).len() == 0 && e == PlanError::Empty,
        },
{
    let ls: Vec<usize> = parse_list(s, ',', 10);
    let n: usize = ls.len();
    if n == 0 {
        return Err(PlanError::Empty);
    }
    let mut out: Vec<WalkPoint> = Vec::new();
    let mut i: usize = 0;
    while i < n
        invariant
            i <= n,
            n == ls@.len(),
            ls@ == number_list(s@, ',', 10),
            out@.len() == i,
            forall|j: int|
                0 <= j < i ==> (#[trigger] out@[j]).label@.len() == 0 && out@[j].l == ls@[j]
                    && out@[j].rounds == rounds && out@[j].frontier == frontier,
        decreases n - i,
    {
        out.push(WalkPoint { label: Vec::new(), l: ls[i], rounds, frontier });
        i = i + 1;
    }
    Ok(out)
}

fn spread_over(a: &Vec<Vec<usize>>, b: &Vec<usize>) -> (r: Vec<Vec<usize>>)
    ensures
        rows_in(r@) == spread(rows_in(a@), b@),
{
    let na: usize = a.len();
    let nb: usize = b.len();
    let ghost want = spread(rows_in(a@), b@);
    let mut out: Vec<Vec<usize>> = Vec::new();
    let mut i: usize = 0;
    while i < na
        invariant
            i <= na,
            na == a@.len(),
            nb == b@.len(),
            want == spread(rows_in(a@), b@),
            out@.len() == i * nb,
            forall|t: int| 0 <= t < out@.len() ==> (#[trigger] out@[t])@ == want[t],
        decreases na - i,
    {
        let mut j: usize = 0;
        while j < nb
            invariant
                i < na,
                j <= nb,
                na == a@.len(),
                nb == b@.len(),
                want == spread(rows_in(a@), b@),
                out@.len() == i * nb + j,
                forall|t: int| 0 <= t < out@.len() ==> (#[trigger] out@[t])@ == want[t],
            decreases nb - j,
        {
            let mut row: Vec<usize> = vstd::slice::slice_to_vec(a[i].as_slice());
            row.push(b[j]);
            proof {
                vstd::arithmetic::div_mod::lemma_fundamental_div_mod_converse(
                    i * nb + j,
                    nb as int,
                    i as int,
                    j as int,
                );
                assert(i * nb + j < na * nb) by (nonlinear_arith)
                    requires
                        i < na,
                        j < nb,
                ;
                assert(want[i * nb + j] == rows_in(a@)[i as int].push(b@[j as int]));
            }
            out.push(row);
            j = j + 1;
        }
        assert((i + 1) * nb == i * nb + nb) by (nonlinear_arith);
        i = i + 1;
    }
    assert(rows_in(out@) =~= want);
    out
}

/// Every choice of one entry from each list, the last varying fastest.
pub fn all_choices(lists: &Vec<Vec<usize>>) -> (r: Vec<Vec<usize>>)
    ensures
        rows_in(r@) == choices(rows_in(lists@)),
{
    let n: usize = lists.len();
    let ghost all = rows_in(lists@);
    let mut out: Vec<Vec<usize>> = Vec::new();
    out.push(Vec::new());
    let mut i: usize = 0;
    assert(all.take(0) =~= Seq::<Seq<usize>>::empty());
    assert(rows_in(out@) =~= choices(all.take(0)));
    while i < n
        invariant
            i <= n,
            n == lists@.len(),
            all == rows_in(lists@),
            rows_in(out@) == choices(all.take(i as int)),
        decreases n - i,
    {
        assert(all.take(i + 1).drop_last() =~= all.take(i as int));
        assert(all.take(i + 1).last() == lists@[i as int]@);
        out = spread_over(&out, &lists[i]);
        i = i + 1;
    }
    assert(all.take(n as int) =~= all);
    out
}

proof fn lemma_choices_width(lists: Seq<Seq<usize>>)
    ensures
        forall|i: int|
            0 <= i < choices(lists).len() ==> (#[trigger] choices(lists)[i]).len() == lists.len(),
    decreases lists.len(),
{
    if lists.len() > 0 {
        let before = choices(lists.drop_last());
        let last = lists.last();
        lemma_choices_width(lists.drop_last());
        assert forall|i: int| 0 <= i < choices(lists).len() implies (#[trigger] choices(
            lists,
        )[i]).len() == lists.len() by {
            assert(last.len() > 0) by (nonlinear_arith)
                requires
                    0 <= i < before.len() * last.len(),
            ;
            assert(0 <= i / (last.len() as int) < before.len()) by (nonlinear_arith)
                requires
                    0 <= i < before.len() * last.len(),
                    last.len() > 0,
            ;
            assert(before[i / (last.len() as int)].len() == lists.len() - 1);
        }
    }
}

/// The lists that span a sweep of operating points.
pub struct Sweep {
    pub portal_keep: Vec<usize>,
    pub m: Vec<usize>,
    pub kedge: Vec<usize>,
    pub floor: Vec<usize>,
    pub p: Vec<usize>,
    pub tm: Vec<usize>,
    pub k: Vec<usize>,
}

impl Sweep {
    /// The lists, from the one that varies slowest to the one that varies fastest.
    pub open spec fn lists(&self) -> Seq<Seq<usize>> {
        seq![
            self.portal_keep@,
            self.m@,
            self.kedge@,
            self.floor@,
            self.p@,
            self.tm@,
            self.k@,
        ]
    }

    /// The operating points of a sweep: every choice of one entry from each list, the number of
    /// edges held to those that the graph has.
    pub fn points(
        self,
        graph_k: Option<usize>,
        hops: usize,
        bestfirst: bool,
        sq4_int8k: usize,
    ) -> (out: Result<Vec<SearchPoint>, PlanError>)
        ensures
            match out {
                Ok(v) => {
                    let all = choices(self.lists());
                    &&& v@.len() == all.len()
                    &&& v@.len() > 0
                    &&& forall|i: int|
                        0 <= i < v@.len() ==> {
                            let c = all[i];
                            &&& (#[trigger] v@[i]).is_point(
                                c[0],
                                c[1],
                                held(c[2], graph_k),
                                c[3],
                                c[4],
                                c[5],
                                c[6],
                            )
                            &&& v@[i].hops == hops
                            &&& v@[i].bestfirst == bestfirst
                            &&& v@[i].sq4_int8k == sq4_int8k
                        }
                },
                Err(e) => choices(self.lists()).len() == 0 && e == PlanError::Empty,
            },
    {
        let ghost all = choices(self.lists());
        let ghost spans = self.lists();
        let mut lists: Vec<Vec<usize>> = Vec::new();
        lists.push(self.portal_keep);
        lists.push(self.m);
        lists.push(self.kedge);
        lists.push(self.floor);
        lists.push(self.p);
        lists.push(self.tm);
        lists.push(self.k);
        assert(rows_in(lists@) =~= spans);
        let chosen: Vec<Vec<usize>> = all_choices(&lists);
        proof {
            lemma_choices_width(spans);
        }
        let n: usize = chosen.len();
        assert(n == all.len());
        if n == 0 {
            return Err(PlanError::Empty);
        }
        let mut out: Vec<SearchPoint> = Vec::new();
        let mut i: usize = 0;
        while i < n
            invariant
                i <= n,
                n == chosen@.len(),
                rows_in(chosen@) == all,
                forall|j: int| 0 <= j < n ==> (#[trigger] all[j]).len() == 7,
                out@.len() == i,
                forall|j: int|
                    0 <= j < i ==> {
                        let c = all[j];
                        &&& (#[trigger] out@[j]).is_point(
                            c[0],
                            c[1],
                            held(c[2], graph_k),
                            c[3],
                            c[4],
                            c[5],
                            c[6],
                        )
                        &&& out@[j].hops == hops
                        &&& out@[j].bestfirst == bestfirst
                        &&& out@[j].sq4_int8k == sq4_int8k
                    },
            decreases n - i,
        {
            assert(all[i as int] == rows_in(chosen@)[i as int]);
            let c: &Vec<usize> = &chosen[i];
            assert(c@.len() == 7);
            let kedge: usize = match graph_k {
                Some(bound) => if bound < c[2] {
                    bound
                } else {
                    c[2]
                },
                None => c[2],
            };
            out.push(
                SearchPoint {
                    label: Vec::new(),
                    p: c[4],
                    tm: c[5],
                    floor: c[3],
                    k: c[6],
                    m: c[1],
                    kedge,
                    hops,
                    bestfirst,
                    portal_keep: c[0],
                    sq4_int8k,
                },
            );
            i = i + 1;
        }
        Ok(out)
    }
}

/// How many survivors are ranked exactly after `p` probed cells.
pub fn survivors_for(p: usize, tm: usize, floor: usize) -> (r: usize)
    requires
        p * tm <= usize::MAX,
    ensures
        r == (if p * tm < floor {
            floor as int
        } else {
            p * tm
        }),
{
    let t: usize = p * tm;
    if t < floor {
        floor
    } else {
        t
    }
}

/// The number of queries in a chunk: four chunks for each thread, between 125 and 1000 queries.
pub fn chunk_for(nq: usize, threads: usize) -> (r: usize)
    requires
        4 * threads <= usize::MAX,
    ensures
        r == ({
            let even = nq as int / (if threads == 0 {
                1int
            } else {
                4 * threads
            });
            if even < 125 {
                125
            } else if even > 1000 {
                1000
            } else {
                even
            }
        }),
{
    let parts: usize = if threads == 0 {
        1
    } else {
        4 * threads
    };
    let even: usize = nq / parts;
    if even < 125 {
        125
    } else if even > 1000 {
        1000
    } else {
        even
    }
}

/// The chunks that `nq` queries are cut into: consecutive, of `chunk` queries each, the last
/// perhaps shorter.
pub fn chunks(nq: usize, chunk: usize) -> (r: Vec<(usize, usize)>)
    requires
        chunk > 0,
    ensures
        r@.len() == chunk_count(nq as nat, chunk as nat),
        forall|i: int|
            0 <= i < r@.len() ==> #[trigger] r@[i] == chunk_range(nq as nat, chunk as nat, i as nat),
{
    let mut out: Vec<(usize, usize)> = Vec::new();
    let mut s: usize = 0;
    assert(0 * chunk == 0) by (nonlinear_arith);
    while s < nq
        invariant
            chunk > 0,
            s <= nq,
            s == nq || s == out@.len() * chunk,
            out@.len() > 0 ==> (out@.len() - 1) * chunk < nq,
            s == nq ==> out@.len() * chunk >= nq,
            forall|i: int|
                0 <= i < out@.len() ==> #[trigger] out@[i] == chunk_range(
                    nq as nat,
                    chunk as nat,
                    i as nat,
                ),
        decreases nq - s,
    {
        let e: usize = if chunk < nq - s {
            s + chunk
        } else {
            nq
        };
        let ghost i = out@.len();
        assert((i + 1) * chunk == i * chunk + chunk) by (nonlinear_arith);
        out.push((s, e));
        s = e;
    }
    proof {
        let n = out@.len() as int;
        let c = chunk as int;
        if nq == 0 {
            assert(n == 0) by {
                if n > 0 {
                    assert((n - 1) * c >= 0) by (nonlinear_arith)
                        requires
                            n >= 1,
                            c > 0,
                    ;
                }
            }
            assert((0 + c - 1) / c == 0) by (nonlinear_arith)
                requires
                    c > 0,
            ;
        } else {
            assert(n > 0) by {
                if n == 0 {
                    assert(n * c == 0) by (nonlinear_arith)
                        requires
                            n == 0,
                    ;
                }
            }
            assert((nq + c - 1) / c == n) by (nonlinear_arith)
                requires
                    n > 0,
                    c > 0,
                    (n - 1) * c < nq,
                    n * c >= nq,
            ;
        }
    }
    out
}

/// Every query lies in exactly one chunk, the one whose number is the query's divided by the
/// chunk's size.
pub proof fn law_chunks_cover_once(nq: nat, chunk: nat, q: nat, i: nat)
    requires
        0 < chunk,
        nq <= usize::MAX,
        q < nq,
        i < chunk_count(nq, chunk),
    ensures
        (chunk_range(nq, chunk, i).0 <= q < chunk_range(nq, chunk, i).1) <==> i == q / chunk,
{
    assert(i * chunk <= nq && (i * chunk <= q < (i + 1) * chunk <==> i == q / chunk))
        by (nonlinear_arith)
        requires
            0 < chunk,
            q < nq,
            i < (nq + chunk - 1) / chunk as int,
    {
        let n = (nq + chunk - 1) / chunk as int;
        assert(n * chunk <= nq + chunk - 1);
        assert((i + 1) * chunk <= n * chunk);
        assert((i + 1) * chunk == i * chunk + chunk);
        let k = q / chunk;
        assert(k * chunk <= q < (k + 1) * chunk);
        if i < k {
            assert((i + 1) * chunk <= k * chunk);
        }
        if i > k {
            assert((k + 1) * chunk <= i * chunk);
        }
    }
}

/// The number of neighbours in each row of a graph file of `len` bytes over `n` points: four bytes
/// for each, none left over.
pub fn graph_width(len: usize, n: usize) -> (r: Option<usize>)
    ensures
        r == (if n > 0 && len as int % (4 * n) == 0 {
            Some((len as int / (4 * n)) as usize)
        } else {
            None
        }),
{
    if n == 0 {
        return None;
    }
    if n > usize::MAX / 4 {
        proof {
            assert(len < 4 * n);
            vstd::arithmetic::div_mod::lemma_small_mod(len as nat, (4 * n) as nat);
            vstd::arithmetic::div_mod::lemma_basic_div(len as int, 4 * n);
        }
        if len == 0 {
            return Some(0);
        } else {
            return None;
        }
    }
    let row: usize = 4 * n;
    if len % row == 0 {
        Some(len / row)
    } else {
        None
    }
}

/// The knobs of a graph search: those that are given, and for the others the preset's. Best-first
/// order is the default only under the Euclidean distance, and not for the fast preset; no more
/// than 32 edges are followed by default.
pub fn graph_policy(
    preset: SearchPreset,
    inner_product: bool,
    k: usize,
    m: Option<usize>,
    hops: Option<usize>,
    bestfirst: Option<bool>,
    kedge: Option<usize>,
) -> (r: GraphPolicy)
    ensures
        r.m == (match m {
            Some(v) => v,
            None => match preset {
                SearchPreset::Fast => 16,
                SearchPreset::Balanced => 24,
                SearchPreset::Accurate => 48,
            },
        }),
        r.hops == (match hops {
            Some(v) => v,
            None => match preset {
                SearchPreset::Fast => 1,
                SearchPreset::Balanced => 2,
                SearchPreset::Accurate => 3,
            },
        }),
        r.bestfirst == (match bestfirst {
            Some(v) => v,
            None => preset != SearchPreset::Fast && !inner_product,
        }),
        r.kedge == (match kedge {
            Some(v) => v,
            None => held(k, Some(32)),
        }),
{
    GraphPolicy {
        m: match m {
            Some(v) => v,
            None => preset.graph_m(),
        },
        hops: match hops {
            Some(v) => v,
            None => preset.graph_hops(),
        },
        bestfirst: match bestfirst {
            Some(v) => v,
            None => preset != SearchPreset::Fast && !inner_product,
        },
        kedge: match kedge {
            Some(v) => v,
            None => if k < 32 {
                k
            } else {
                32
            },
        },
    }
}

/// Whether blocks of `bb` bytes are scanned with saturating bytes: as it is set, but beyond 128
/// subspaces, where the rounding of the tables drowns the gaps, only where it was asked for.
pub fn byte_scan(bb: usize, asked: bool, set: bool) -> (r: bool)
    ensures
        r == (set && (asked || bb / 8 <= 128)),
{
    set && (asked || bb / 8 <= 128)
}

/// The beams of a router of `levels` levels: those given if there is one for each level but the
/// last, else `b0`, doubled from level to level, and at least 16.
pub fn beams_for(levels: usize, b0: usize, given: Vec<usize>) -> (r: Vec<usize>)
    requires
        levels > 0,
        forall|i: nat| i + 1 < levels ==> b0 * #[trigger] pow2(i) <= usize::MAX,
    ensures
        if given@.len() == levels - 1 {
            r@ == given@
        } else {
            &&& r@.len() == levels - 1
            &&& forall|i: int|
                0 <= i < levels - 1 ==> #[trigger] r@[i] == (if b0 * pow2(i as nat) < 16 {
                    16int
                } else {
                    b0 * pow2(i as nat)
                })
        },
{
    if given.len() == levels - 1 {
        return given;
    }
    let mut out: Vec<usize> = Vec::new();
    let mut i: usize = 0;
    let mut beam: usize = b0;
    proof {
        vstd::arithmetic::power2::lemma2_to64();
        assert(b0 * 1 == b0) by (nonlinear_arith);
    }
    while i + 1 < levels
        invariant
            i + 1 <= levels,
            i + 1 < levels ==> beam == b0 * pow2(i as nat),
            forall|j: nat| j + 1 < levels ==> b0 * #[trigger] pow2(j) <= usize::MAX,
            out@.len() == i,
            forall|j: int|
                0 <= j < i ==> #[trigger] out@[j] == (if b0 * pow2(j as nat) < 16 {
                    16int
                } else {
                    b0 * pow2(j as nat)
                }),
        decreases levels - i,
    {
        out.push(
            if beam < 16 {
                16
            } else {
                beam
            },
        );
        i = i + 1;
        if i + 1 < levels {
            proof {
                vstd::arithmetic::power2::lemma_pow2_unfold(i as nat);
                assert(b0 * pow2(i as nat) == beam * 2) by (nonlinear_arith)
                    requires
                        beam == b0 * pow2((i - 1) as nat),
                        pow2(i as nat) == 2 * pow2((i - 1) as nat),
                ;
            }
            beam = beam * 2;
        }
    }
    out
}

} // verus!
