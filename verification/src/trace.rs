//! Traces of graph searches: for each query the rows that its graph step looked at, behind those of its
//! pool, and the replay of them against the rows.
use vstd::prelude::*;
use crate::bytes::{le32, read_u32};
use crate::ibin::I8Bin;
use crate::order::{ascending, sort_ascending};
use crate::simd::{dot, negdot_i8, DOT_DIM};

verus! {

/// The first four bytes of a trace.
pub const TRACE_MAGIC: [u8; 4] = [0x47, 0x55, 0x4e, 0x31];

/// What keeps a byte string from being a trace.
#[derive(Clone, Copy, Debug, PartialEq, Eq, Structural)]
pub enum TraceError {
    /// The first bytes are others.
    NotATrace,
    /// There are more traced queries than queries.
    TooManyQueries,
    /// A record is cut off, or its pool is larger than the record.
    Truncated,
    /// A record names a row that does not exist.
    IdOutOfRange,
    /// There are bytes behind the last record.
    Trailing,
}

/// The word at a byte offset.
pub open spec fn word(bytes: Seq<u8>, off: int) -> u32 {
    le32(bytes.subrange(off, off + 4))
}

/// Where a row stands: at its rank, or at its own place where there are no ranks.
pub open spec fn placed(id: u32, rank: Option<Seq<u32>>) -> u32 {
    match rank {
        Some(r) => r[id as int],
        None => id,
    }
}

/// The rows that the graph step of the record at `off` looked at.
pub open spec fn graph_rows(bytes: Seq<u8>, off: int, rank: Option<Seq<u32>>, by_place: bool) -> Seq<u32> {
    let pool = word(bytes, off) as int;
    let n = word(bytes, off + 4) as int;
    let rows = Seq::new((n - pool) as nat, |j: int| placed(word(bytes, off + 8 + 4 * (pool + j)), rank));
    if by_place { ascending(rows) } else { rows }
}

/// All the rows of the record exist.
pub open spec fn rows_exist(bytes: Seq<u8>, off: int, nb: nat) -> bool {
    let pool = word(bytes, off) as int;
    let n = word(bytes, off + 4) as int;
    forall|j: int| pool <= j < n ==> word(bytes, #[trigger] at(off, j)) < nb
}

/// The offset of word `j` of the record at `off`.
pub open spec fn at(off: int, j: int) -> int {
    off + 8 + 4 * j
}

/// The rows of `left` records from `off` on, up to the end of the trace.
pub open spec fn records(bytes: Seq<u8>, off: int, left: nat, nb: nat, rank: Option<Seq<u32>>, by_place: bool) -> Result<Seq<Seq<u32>>, TraceError>
    decreases left,
{
    if left == 0 {
        if off == bytes.len() { Ok(Seq::empty()) } else { Err(TraceError::Trailing) }
    } else if off + 8 > bytes.len() {
        Err(TraceError::Truncated)
    } else {
        let pool = word(bytes, off) as int;
        let n = word(bytes, off + 4) as int;
        if pool > n || off + 8 + 4 * n > bytes.len() {
            Err(TraceError::Truncated)
        } else if !rows_exist(bytes, off, nb) {
            Err(TraceError::IdOutOfRange)
        } else {
            match records(bytes, off + 8 + 4 * n, (left - 1) as nat, nb, rank, by_place) {
                Ok(rest) => Ok(seq![graph_rows(bytes, off, rank, by_place)] + rest),
                Err(e) => Err(e),
            }
        }
    }
}

/// What a trace of at most `nq` queries over `nb` rows says.
pub open spec fn traced(bytes: Seq<u8>, nq: nat, nb: nat, rank: Option<Seq<u32>>, by_place: bool) -> Result<Seq<Seq<u32>>, TraceError> {
    if bytes.len() < 8 || bytes.take(4) != TRACE_MAGIC@ {
        Err(TraceError::NotATrace)
    } else if word(bytes, 4) > nq {
        Err(TraceError::TooManyQueries)
    } else {
        records(bytes, 8, word(bytes, 4) as nat, nb, rank, by_place)
    }
}

/// Rows in front of those of a result.
pub open spec fn behind(rows: Seq<Seq<u32>>, rest: Result<Seq<Seq<u32>>, TraceError>) -> Result<Seq<Seq<u32>>, TraceError> {
    match rest {
        Ok(r) => Ok(rows + r),
        Err(e) => Err(e),
    }
}

/// The contents of a vector of rows.
pub open spec fn row_ids(v: Seq<Vec<u32>>) -> Seq<Seq<u32>> {
    Seq::new(v.len(), |i: int| v[i]@)
}

/// The rows of the record at `off`, or none where one of them does not exist.
fn read_record(bytes: &[u8], off: usize, pool: usize, n: usize, nb: usize, rank: Option<&Vec<u32>>, by_place: bool) -> (r: Option<Vec<u32>>)
    requires
        off + 8 + 4 * n <= bytes@.len(),
        pool <= n,
        pool == word(bytes@, off as int),
        n == word(bytes@, off + 4),
        rank matches Some(v) ==> v@.len() == nb,
    ensures
        match r {
            Some(v) => rows_exist(bytes@, off as int, nb as nat) && v@ == graph_rows(bytes@, off as int, ranks(rank), by_place),
            None => !rows_exist(bytes@, off as int, nb as nat),
        },
{
    let len: usize = bytes.len();
    let mut out: Vec<u32> = Vec::new();
    let mut j: usize = pool;
    while j < n
        invariant
            pool <= j <= n,
            len == bytes@.len(),
            off + 8 + 4 * n <= len,
            pool == word(bytes@, off as int),
            n == word(bytes@, off + 4),
            rank matches Some(v) ==> v@.len() == nb,
            out@.len() == j - pool,
            forall|t: int| pool <= t < j ==> word(bytes@, #[trigger] at(off as int, t)) < nb,
            forall|t: int| 0 <= t < j - pool ==> #[trigger] out@[t] == placed(word(bytes@, off + 8 + 4 * (pool + t)), ranks(rank)),
        decreases n - j,
    {
        let id: u32 = read_u32(bytes, off + 8 + 4 * j);
        assert(id == word(bytes@, at(off as int, j as int)));
        if id as usize >= nb {
            return None;
        }
        match rank {
            Some(v) => {
                out.push(v[id as usize]);
            },
            None => {
                out.push(id);
            },
        }
        j = j + 1;
    }
    let ghost plain = Seq::new((n - pool) as nat, |t: int| placed(word(bytes@, off + 8 + 4 * (pool + t)), ranks(rank)));
    assert(out@ =~= plain);
    if by_place {
        sort_ascending(&mut out);
    }
    Some(out)
}

/// The ranks of the rows, where there are any.
pub open spec fn ranks(rank: Option<&Vec<u32>>) -> Option<Seq<u32>> {
    match rank {
        Some(v) => Some(v@),
        None => None,
    }
}

/// Read a trace of at most `nq` queries over `nb` rows: for each query the rows that its graph step
/// looked at, by their ranks where ranks are given, and in their order where that is asked for.
pub fn read_trace(bytes: &[u8], nq: usize, nb: usize, rank: Option<&Vec<u32>>, by_place: bool) -> (r: Result<Vec<Vec<u32>>, TraceError>)
    requires
        rank matches Some(v) ==> v@.len() == nb,
    ensures
        match r {
            Ok(v) => traced(bytes@, nq as nat, nb as nat, ranks(rank), by_place) == Ok::<Seq<Seq<u32>>, TraceError>(row_ids(v@)),
            Err(e) => traced(bytes@, nq as nat, nb as nat, ranks(rank), by_place) == Err::<Seq<Seq<u32>>, TraceError>(e),
        },
{
    let len: usize = bytes.len();
    if len < 8 {
        return Err(TraceError::NotATrace);
    }
    let mut j: usize = 0;
    while j < 4
        invariant
            j <= 4,
            len == bytes@.len(),
            len >= 8,
            forall|i: int| 0 <= i < j ==> bytes@[i] == TRACE_MAGIC@[i],
        decreases 4 - j,
    {
        if bytes[j] != TRACE_MAGIC[j] {
            assert(bytes@.take(4)[j as int] != TRACE_MAGIC@[j as int]);
            return Err(TraceError::NotATrace);
        }
        j = j + 1;
    }
    assert(bytes@.take(4) =~= TRACE_MAGIC@);
    let count: u32 = read_u32(bytes, 4);
    if count as usize > nq {
        return Err(TraceError::TooManyQueries);
    }
    let ghost want = records(bytes@, 8, count as nat, nb as nat, ranks(rank), by_place);
    let mut rows: Vec<Vec<u32>> = Vec::new();
    let mut off: usize = 8;
    let mut left: u32 = count;
    proof {
        assert(row_ids(rows@) =~= Seq::<Seq<u32>>::empty());
        match want {
            Ok(w) => {
                assert(row_ids(rows@) + w =~= w);
            },
            Err(_) => {},
        }
    }
    while left > 0
        invariant
            len == bytes@.len(),
            off <= len,
            rank matches Some(v) ==> v@.len() == nb,
            want == traced(bytes@, nq as nat, nb as nat, ranks(rank), by_place),
            want == behind(row_ids(rows@), records(bytes@, off as int, left as nat, nb as nat, ranks(rank), by_place)),
        decreases left,
    {
        if len - off < 8 {
            return Err(TraceError::Truncated);
        }
        let pool: usize = read_u32(bytes, off) as usize;
        let n: usize = read_u32(bytes, off + 4) as usize;
        if pool > n || n > (len - off - 8) / 4 {
            return Err(TraceError::Truncated);
        }
        match read_record(bytes, off, pool, n, nb, rank, by_place) {
            None => {
                return Err(TraceError::IdOutOfRange);
            },
            Some(row) => {
                let ghost before = row_ids(rows@);
                let ghost one = row@;
                rows.push(row);
                proof {
                    let next = records(bytes@, off + 8 + 4 * n, (left - 1) as nat, nb as nat, ranks(rank), by_place);
                    assert(row_ids(rows@) =~= before + seq![one]);
                    match next {
                        Ok(w) => {
                            assert(before + (seq![one] + w) =~= row_ids(rows@) + w);
                        },
                        Err(_) => {},
                    }
                }
            },
        }
        off = off + 8 + 4 * n;
        left = left - 1;
    }
    if off != len {
        return Err(TraceError::Trailing);
    }
    assert(row_ids(rows@) + Seq::<Seq<u32>>::empty() =~= row_ids(rows@));
    Ok(rows)
}

/// The sum, wrapping around, of the negated inner products of a query with the first `n` rows named.
pub open spec fn row_sum(data: I8Bin<'_>, q: Seq<i8>, ids: Seq<u32>, n: nat) -> i64
    decreases n,
{
    if n == 0 {
        0
    } else {
        row_sum(data, q, ids, (n - 1) as nat).wrapping_add((-dot(q, data.spec_row(ids[n - 1] as int))) as i64)
    }
}

/// The sums of the first `n` queries, wrapping around.
pub open spec fn replay_sum(data: I8Bin<'_>, queries: I8Bin<'_>, rows: Seq<Seq<u32>>, n: nat) -> i64
    decreases n,
{
    if n == 0 {
        0
    } else {
        replay_sum(data, queries, rows, (n - 1) as nat).wrapping_add(row_sum(data, queries.spec_row(n - 1), rows[n - 1], rows[n - 1].len()))
    }
}

/// Score the traced rows of every query once more, and return the sum of the scores.
pub fn replay(ds: &I8Bin<'_>, queries: &I8Bin<'_>, rows: &Vec<Vec<u32>>) -> (r: i64)
    requires
        ds.wf(),
        queries.wf(),
        ds.d == queries.d,
        ds.d <= DOT_DIM,
        rows@.len() <= queries.nb,
        forall|i: int, j: int| 0 <= i < rows@.len() && 0 <= j < rows@[i]@.len() ==> #[trigger] rows@[i]@[j] < ds.nb,
    ensures
        r == replay_sum(*ds, *queries, row_ids(rows@), rows@.len()),
{
    let n: usize = rows.len();
    let mut sum: i64 = 0;
    let mut i: usize = 0;
    while i < n
        invariant
            i <= n,
            n == rows@.len(),
            ds.wf(),
            queries.wf(),
            ds.d == queries.d,
            ds.d <= DOT_DIM,
            n <= queries.nb,
            forall|x: int, j: int| 0 <= x < rows@.len() && 0 <= j < rows@[x]@.len() ==> #[trigger] rows@[x]@[j] < ds.nb,
            sum == replay_sum(*ds, *queries, row_ids(rows@), i as nat),
        decreases n - i,
    {
        let q: &[i8] = queries.row(i);
        let m: usize = rows[i].len();
        let mut part: i64 = 0;
        let mut j: usize = 0;
        while j < m
            invariant
                j <= m,
                i < rows@.len(),
                m == rows@[i as int]@.len(),
                ds.wf(),
                ds.d <= DOT_DIM,
                q@.len() == ds.d,
                forall|x: int, y: int| 0 <= x < rows@.len() && 0 <= y < rows@[x]@.len() ==> #[trigger] rows@[x]@[y] < ds.nb,
                part == row_sum(*ds, q@, rows@[i as int]@, j as nat),
            decreases m - j,
        {
            let id: u32 = rows[i][j];
            assert(rows@[i as int]@[j as int] < ds.nb);
            let s: i32 = negdot_i8(q, ds.row(id as usize));
            part = part.wrapping_add(s as i64);
            j = j + 1;
        }
        assert(row_ids(rows@)[i as int] == rows@[i as int]@);
        sum = sum.wrapping_add(part);
        i = i + 1;
    }
    sum
}

} // verus!
