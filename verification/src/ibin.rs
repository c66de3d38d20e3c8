//! The `.i8bin` vector file: an 8-byte header (row count, dimension, both little-endian words), then
//! the rows, one signed byte per coordinate. The rows are read in place.
use vstd::prelude::*;
use vstd::slice::slice_subrange;
use crate::bytes::{as_signed, le32, read_u32, signed_seq};
use crate::simd::{lemma_row_in_range, row_of};

verus! {

/// What keeps a byte string from being a vector file.
#[derive(Clone, Copy, Debug, PartialEq, Eq, Structural)]
pub enum BinError {
    /// The rows would start inside the header.
    OffsetInHeader,
    /// There is no whole header.
    TooSmall,
    /// The wanted range goes beyond the row count of the header.
    RangeBeyondFile,
    /// There are fewer bytes than the header promises.
    Truncated,
}

/// Row count of a header.
pub open spec fn header_rows(bytes: Seq<u8>) -> int {
    le32(bytes.subrange(0, 4)) as int
}

/// Dimension of a header.
pub open spec fn header_dim(bytes: Seq<u8>) -> int {
    le32(bytes.subrange(4, 8)) as int
}

/// A set of int8 rows.
pub struct I8Bin<'a> {
    pub nb: usize,
    pub d: usize,
    pub data: &'a [i8],
}

impl<'a> I8Bin<'a> {
    /// The data holds exactly the rows.
    pub open spec fn wf(&self) -> bool {
        self.data@.len() == self.nb * self.d
    }

    /// Row `i`.
    pub open spec fn spec_row(&self, i: int) -> Seq<i8> {
        row_of(self.data@, self.d as nat, i)
    }

    /// Rows that stand right behind the header.
    pub fn open(bytes: &'a [u8]) -> (r: Result<Self, BinError>)
        ensures
            match r {
                Ok(f) => {
                    &&& bytes@.len() >= 8
                    &&& f.wf()
                    &&& f.nb == header_rows(bytes@)
                    &&& f.d == header_dim(bytes@)
                    &&& 8 + f.nb * f.d <= bytes@.len()
                    &&& f.data@ == signed_seq(bytes@.subrange(8, 8 + f.nb * f.d))
                },
                Err(BinError::TooSmall) => bytes@.len() < 8,
                Err(BinError::Truncated) => bytes@.len() >= 8 && bytes@.len() < 8 + header_rows(bytes@) * header_dim(bytes@),
                Err(_) => false,
            },
    {
        Self::open_with_data_offset(bytes, 8)
    }

    /// Rows that start at byte `data_offset`, behind padding that follows the header.
    pub fn open_with_data_offset(bytes: &'a [u8], data_offset: usize) -> (r: Result<Self, BinError>)
        ensures
            match r {
                Ok(f) => {
                    &&& data_offset >= 8
                    &&& bytes@.len() >= 8
                    &&& f.wf()
                    &&& f.nb == header_rows(bytes@)
                    &&& f.d == header_dim(bytes@)
                    &&& data_offset + f.nb * f.d <= bytes@.len()
                    &&& f.data@ == signed_seq(bytes@.subrange(data_offset as int, data_offset + f.nb * f.d))
                },
                Err(BinError::OffsetInHeader) => data_offset < 8,
                Err(BinError::TooSmall) => data_offset >= 8 && bytes@.len() < 8,
                Err(BinError::Truncated) => data_offset >= 8 && bytes@.len() >= 8 && bytes@.len() < data_offset + header_rows(bytes@) * header_dim(bytes@),
                Err(_) => false,
            },
    {
        if data_offset < 8 {
            return Err(BinError::OffsetInHeader);
        }
        let len: usize = bytes.len();
        if len < 8 {
            return Err(BinError::TooSmall);
        }
        let nb: u32 = read_u32(bytes, 0);
        let d: u32 = read_u32(bytes, 4);
        match rows_within(len, data_offset, nb, d) {
            None => Err(BinError::Truncated),
            Some(total) => {
                let data: &'a [i8] = as_signed(slice_subrange(bytes, data_offset, data_offset + total));
                Ok(I8Bin { nb: nb as usize, d: d as usize, data })
            },
        }
    }

    /// `count` rows from row `start` on, as a set of their own: its row `i` is row `start + i`.
    pub fn open_range(bytes: &'a [u8], start: usize, count: usize) -> (r: Result<Self, BinError>)
        ensures
            match r {
                Ok(f) => {
                    &&& bytes@.len() >= 8
                    &&& start + count <= header_rows(bytes@)
                    &&& f.wf()
                    &&& f.nb == count
                    &&& f.d == header_dim(bytes@)
                    &&& 8 + (start + count) * f.d <= bytes@.len()
                    &&& f.data@ == signed_seq(bytes@.subrange(8 + start * f.d, 8 + (start + count) * f.d))
                },
                Err(BinError::TooSmall) => bytes@.len() < 8,
                Err(BinError::RangeBeyondFile) => bytes@.len() >= 8 && start + count > header_rows(bytes@),
                Err(BinError::Truncated) => bytes@.len() >= 8 && start + count <= header_rows(bytes@) && bytes@.len() < 8 + (start + count) * header_dim(bytes@),
                Err(_) => false,
            },
    {
        let len: usize = bytes.len();
        if len < 8 {
            return Err(BinError::TooSmall);
        }
        let nb: u32 = read_u32(bytes, 0);
        let d: u32 = read_u32(bytes, 4);
        if start > nb as usize || count > nb as usize - start {
            return Err(BinError::RangeBeyondFile);
        }
        let end: u32 = (start + count) as u32;
        match rows_within(len, 8, end, d) {
            None => Err(BinError::Truncated),
            Some(total) => {
                proof {
                    let (s, c, dd) = (start as int, count as int, d as int);
                    assert(s * dd + c * dd == (s + c) * dd && 0 <= s * dd && 0 <= c * dd) by (nonlinear_arith)
                        requires
                            0 <= s,
                            0 <= c,
                            0 <= dd,
                    ;
                }
                let data: &'a [i8] = as_signed(slice_subrange(bytes, 8 + start * d as usize, 8 + total));
                Ok(I8Bin { nb: count, d: d as usize, data })
            },
        }
    }

    /// Row `i`.
    pub fn row(&self, i: usize) -> (r: &'a [i8])
        requires
            self.wf(),
            i < self.nb,
        ensures
            r@ == self.spec_row(i as int),
            r@.len() == self.d,
    {
        let len: usize = self.data.len();
        proof {
            lemma_row_in_range(i as int, self.d as int, self.nb as int, len as int);
        }
        slice_subrange(self.data, i * self.d, i * self.d + self.d)
    }

    /// A copy of all rows, to be held in memory of one's own.
    pub fn make_resident(&self) -> (r: Vec<i8>)
        ensures
            r@ == self.data@,
    {
        vstd::slice::slice_to_vec(self.data)
    }
}

/// Bytes that `nb` rows of dimension `d` take, if they fit behind `offset` in `len` bytes.
pub(crate) fn rows_within(len: usize, offset: usize, nb: u32, d: u32) -> (r: Option<usize>)
    ensures
        match r {
            Some(total) => total == nb * d && offset + total <= len,
            None => offset + nb * d > len,
        },
{
    proof {
        assert(nb * d <= 0xffff_ffff * 0xffff_ffff && 0 <= nb * d) by (nonlinear_arith)
            requires
                0 <= nb <= 0xffff_ffff,
                0 <= d <= 0xffff_ffff,
        ;
    }
    let need: u128 = offset as u128 + nb as u128 * d as u128;
    if need > len as u128 {
        None
    } else {
        Some((need - offset as u128) as usize)
    }
}

/// A range opened by itself holds the rows that the whole file holds there.
pub proof fn law_range_rows_are_file_rows(whole: I8Bin<'_>, part: I8Bin<'_>, bytes: Seq<u8>, start: int, i: int)
    requires
        whole.wf(),
        part.wf(),
        whole.d == part.d,
        0 <= start,
        start + part.nb <= whole.nb,
        8 + whole.nb * whole.d <= bytes.len(),
        whole.data@ == signed_seq(bytes.subrange(8, 8 + whole.nb * whole.d)),
        part.data@ == signed_seq(bytes.subrange(8 + start * part.d, 8 + (start + part.nb) * part.d)),
        0 <= i < part.nb,
    ensures
        part.spec_row(i) == whole.spec_row(start + i),
{
    let d = part.d as int;
    let (nw, np) = (whole.nb as int, part.nb as int);
    assert(start * d + i * d == (start + i) * d && (start + np) * d <= nw * d && i * d + d <= np * d && start * d + np * d == (start + np) * d && (start + i) * d + d <= nw * d && 0 <= i * d && 0 <= start * d) by (nonlinear_arith)
        requires
            0 <= start,
            0 <= d,
            0 <= i < np,
            start + np <= nw,
    ;
    assert(part.spec_row(i) =~= whole.spec_row(start + i));
}

} // verus!
