//! The `.fbin` vector file: the header of an `.i8bin` file, then the rows, one little-endian
//! single-precision value per coordinate. Values are handed out as bit patterns.
use vstd::prelude::*;
use vstd::slice::slice_subrange;
use crate::bytes::{read_u32, read_words, word_at};
use crate::ibin::{header_dim, header_rows, rows_within, BinError};

verus! {

/// A set of single-precision rows.
pub struct FBin<'a> {
    pub nb: usize,
    pub d: usize,
    pub data: &'a [u8],
}

/// Rows that are opened: all that the header names, or at most `limit` where that is not 0.
pub open spec fn limited(rows: int, limit: int) -> int {
    if limit == 0 || limit > rows {
        rows
    } else {
        limit
    }
}

impl<'a> FBin<'a> {
    /// The data holds exactly the rows.
    pub open spec fn wf(&self) -> bool {
        self.data@.len() == 4 * (self.nb * self.d)
    }

    /// Bit pattern of coordinate `j` of row `i`.
    pub open spec fn coordinate(&self, i: int, j: int) -> u32 {
        word_at(self.data@, i * self.d + j)
    }

    /// The rows behind the header; a `limit` other than 0 keeps the first `limit` rows.
    pub fn open(bytes: &'a [u8], limit: usize) -> (r: Result<Self, BinError>)
        ensures
            match r {
                Ok(f) => {
                    &&& bytes@.len() >= 8
                    &&& f.wf()
                    &&& f.nb == limited(header_rows(bytes@), limit as int)
                    &&& f.d == header_dim(bytes@)
                    &&& 8 + 4 * (f.nb * f.d) <= bytes@.len()
                    &&& f.data@ == bytes@.subrange(8, 8 + 4 * (f.nb * f.d))
                },
                Err(BinError::TooSmall) => bytes@.len() < 8,
                Err(BinError::Truncated) => bytes@.len() >= 8 && bytes@.len() < 8 + 4 * (limited(header_rows(bytes@), limit as int) * header_dim(bytes@)),
                Err(_) => false,
            },
    {
        let len: usize = bytes.len();
        if len < 8 {
            return Err(BinError::TooSmall);
        }
        let rows: u32 = read_u32(bytes, 0);
        let d: u32 = read_u32(bytes, 4);
        let nb: u32 = if limit == 0 || limit > rows as usize { rows } else { limit as u32 };
        match rows_within((len - 8) / 4, 0, nb, d) {
            None => Err(BinError::Truncated),
            Some(total) => {
                Ok(FBin { nb: nb as usize, d: d as usize, data: slice_subrange(bytes, 8, 8 + 4 * total) })
            },
        }
    }

    /// Row `i`, one bit pattern per coordinate.
    pub fn row(&self, i: usize) -> (r: Vec<u32>)
        requires
            self.wf(),
            i < self.nb,
        ensures
            r@.len() == self.d,
            forall|j: int| 0 <= j < self.d ==> #[trigger] r@[j] == self.coordinate(i as int, j),
    {
        let len: usize = self.data.len();
        let d: usize = self.d;
        proof {
            let (ii, dd, nn) = (i as int, d as int, self.nb as int);
            assert(0 <= ii * dd && ii * dd + dd <= nn * dd) by (nonlinear_arith)
                requires
                    0 <= ii < nn,
                    0 <= dd,
            ;
        }
        let start: usize = i * d;
        let part: &[u8] = slice_subrange(self.data, 4 * start, 4 * (start + d));
        let r: Vec<u32> = read_words(part, d);
        proof {
            assert forall|j: int| 0 <= j < d implies #[trigger] r@[j] == self.coordinate(i as int, j) by {
                assert(part@.subrange(4 * j, 4 * j + 4) =~= self.data@.subrange(4 * (start + j), 4 * (start + j) + 4));
            }
        }
        r
    }
}

} // verus!
