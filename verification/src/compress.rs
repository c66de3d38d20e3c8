//! Compressed blocks: how 16 points are stored and how a query scores them.
use vstd::prelude::*;
use crate::pq::{adc_i8, adc_i16, adc_saturating, block_adc_i16, block_adc_i8_i16acc, block_adc_sse, fits, MAX_M};
use crate::simd::{l2, l2_i8, L2_DIM};

verus! {

/// A query prepared for scanning. Single-precision values are kept as bit patterns.
pub enum QueryCtx {
    /// Exact scan of the raw rows.
    Scalar,
    /// Int8 table, saturating sum.
    Pq { lut: Vec<i8> },
    /// Int8 table, plain sum.
    Pq8 { lut: Vec<i8>, scale: u32 },
    /// Int16 table, plain sum.
    Pq16 { lut16: Vec<i16>, scale: u32 },
    /// The rotated query of a bit-quantised scan.
    RaBitQ { qrot: Vec<u32>, ip: bool },
}

/// The candidate-scan slot of the index. Where an implementation leaves a spec function out, it is a
/// compressor that stores nothing and scans the raw rows.
pub trait Compressor {
    /// The compressor is fit for use.
    open spec fn ready(&self) -> bool {
        true
    }

    /// Dimension of the points.
    open spec fn dim(&self) -> nat {
        0
    }

    /// Subspaces of a product-quantised block.
    open spec fn subspaces(&self) -> nat {
        0
    }

    /// Bytes per block of 16 points; 0 where nothing is stored.
    open spec fn block_len(&self) -> nat {
        0
    }

    /// The scan reads the raw rows in place of a block.
    open spec fn raw_rows(&self) -> bool {
        true
    }

    /// The block that stores up to 16 rows of a cell; `cent` is the cell's centroid, or empty.
    open spec fn encoded(&self, rows: Seq<Seq<i8>>, cent: Seq<i8>) -> Seq<u8> {
        Seq::empty()
    }

    /// The prepared query.
    open spec fn prepared(&self, q: Seq<i8>) -> QueryCtx {
        QueryCtx::Scalar
    }

    /// Scores of a block under a context that is neither exact nor a table.
    open spec fn own_scores(&self, ctx: QueryCtx, block: Seq<u8>) -> Seq<i32> {
        Seq::empty()
    }

    /// What a cell whose centroid has inner product `dot` with the query takes off the scores of its
    /// points; `None` where the context carries no scale.
    open spec fn cell_offset(&self, ctx: QueryCtx, dot: int) -> Option<i32> {
        None
    }

    fn block_bytes(&self) -> (r: usize)
        requires
            self.ready(),
        ensures
            r == self.block_len(),
    ;

    fn needs_raw_rows(&self) -> (r: bool)
        requires
            self.ready(),
        ensures
            r == self.raw_rows(),
    ;

    /// Dimension of the points.
    fn dimension(&self) -> (r: usize)
        requires
            self.ready(),
        ensures
            r == self.dim(),
    ;

    fn encode_block(&self, rows: &Vec<&[i8]>, cell_cent: &[i8], out: &mut Vec<u8>)
        requires
            self.ready(),
            1 <= rows@.len() <= 16,
            forall|i: int| 0 <= i < rows@.len() ==> (#[trigger] rows@[i])@.len() == self.dim(),
            cell_cent@.len() == 0 || cell_cent@.len() == self.dim(),
        ensures
            final(out)@ == old(out)@ + self.encoded(row_views(rows@), cell_cent@),
            self.encoded(row_views(rows@), cell_cent@).len() == self.block_len(),
    ;

    fn prepare_query(&self, q: &[i8]) -> (r: QueryCtx)
        requires
            self.ready(),
            q@.len() == self.dim(),
        ensures
            r == self.prepared(q@),
            ctx_ok(self.raw_rows(), self.dim(), self.subspaces(), self.block_len(), r),
    ;

    /// Scores of the 16 points of a block. `rows16` are the raw rows of its points, empty for a slot
    /// without a point; they are read only in an exact scan.
    fn scan_block(&self, block: &[u8], ctx: &QueryCtx, q: &[i8], rows16: &Vec<&[i8]>, out16: &mut [i32; 16])
        requires
            self.ready(),
            ctx_ok(self.raw_rows(), self.dim(), self.subspaces(), self.block_len(), *ctx),
            block@.len() == self.block_len(),
            self.raw_rows() ==> q@.len() == self.dim() && rows16@.len() == 16 && forall|i: int| 0 <= i < 16 ==> (#[trigger] rows16@[i])@.len() == 0 || rows16@[i]@.len() == self.dim(),
        ensures
            final(out16)@ == block_scores(self.dim(), self.subspaces(), *ctx, self.own_scores(*ctx, block@), block@, q@, row_views(rows16@)),
    ;

    /// Scores of two blocks, one behind the other, where the raw rows are not read.
    fn scan_block_x2(&self, b0: &[u8], b1: &[u8], ctx: &QueryCtx, out: &mut [i32; 32])
        requires
            self.ready(),
            !self.raw_rows(),
            ctx_ok(self.raw_rows(), self.dim(), self.subspaces(), self.block_len(), *ctx),
            b0@.len() == self.block_len(),
            b1@.len() == self.block_len(),
        ensures
            final(out)@.take(16) == block_scores(self.dim(), self.subspaces(), *ctx, self.own_scores(*ctx, b0@), b0@, Seq::empty(), Seq::empty()),
            final(out)@.skip(16) == block_scores(self.dim(), self.subspaces(), *ctx, self.own_scores(*ctx, b1@), b1@, Seq::empty(), Seq::empty()),
    {
        let mut o0: [i32; 16] = [0; 16];
        let mut o1: [i32; 16] = [0; 16];
        let none: [i8; 0] = [];
        let no_rows: Vec<&[i8]> = Vec::new();
        self.scan_block(b0, ctx, none.as_slice(), &no_rows, &mut o0);
        self.scan_block(b1, ctx, none.as_slice(), &no_rows, &mut o1);
        let mut j: usize = 0;
        while j < 16
            invariant
                j <= 16,
                forall|i: int| 0 <= i < j ==> #[trigger] out@[i] == o0@[i],
                forall|i: int| 16 <= i < 16 + j ==> #[trigger] out@[i] == o1@[i - 16],
            decreases 16 - j,
        {
            out[j] = o0[j];
            out[16 + j] = o1[j];
            j = j + 1;
        }
        assert(none@ =~= Seq::<i8>::empty());
        assert(row_views(no_rows@) =~= Seq::<Seq<i8>>::empty());
        assert(out@.take(16) =~= o0@);
        assert(out@.skip(16) =~= o1@);
    }

    fn residual_offset(&self, ctx: &QueryCtx, dot: i32) -> (r: Option<i32>)
        requires
            self.ready(),
            ctx_ok(self.raw_rows(), self.dim(), self.subspaces(), self.block_len(), *ctx),
        ensures
            r == self.cell_offset(*ctx, dot as int),
    ;
}

/// The contents of borrowed rows.
pub open spec fn row_views(rows: Seq<&[i8]>) -> Seq<Seq<i8>> {
    Seq::new(rows.len(), |i: int| rows[i]@)
}

/// A context that a compressor of these measures can scan with.
pub open spec fn ctx_ok(raw_rows: bool, d: nat, m: nat, block_len: nat, ctx: QueryCtx) -> bool {
    match ctx {
        QueryCtx::Scalar => raw_rows && d <= L2_DIM,
        QueryCtx::Pq { lut } => !raw_rows && m <= MAX_M && block_len == (m / 2) * 16 && fits(block_len, m, lut@.len()),
        QueryCtx::Pq8 { lut, scale } => !raw_rows && m <= MAX_M && block_len == (m / 2) * 16 && fits(block_len, m, lut@.len()),
        QueryCtx::Pq16 { lut16, scale } => !raw_rows && m <= MAX_M && block_len == (m / 2) * 16 && fits(block_len, m, lut16@.len()),
        QueryCtx::RaBitQ { qrot, ip } => !raw_rows,
    }
}

/// Score of a raw row in an exact scan; a slot without a point has the largest score.
pub open spec fn exact_score(q: Seq<i8>, row: Seq<i8>, d: nat) -> i32 {
    if row.len() == d {
        l2(q, row) as i32
    } else {
        i32::MAX
    }
}

/// Scores of the 16 points of a block; `own` are the scores under a context without a table.
pub open spec fn block_scores(d: nat, m: nat, ctx: QueryCtx, own: Seq<i32>, block: Seq<u8>, q: Seq<i8>, rows: Seq<Seq<i8>>) -> Seq<i32> {
    match ctx {
        QueryCtx::Scalar => Seq::new(16, |j: int| exact_score(q, rows[j], d)),
        QueryCtx::Pq { lut } => Seq::new(16, |j: int| adc_saturating(lut@, block, j as nat, m / 2) as i32),
        QueryCtx::Pq8 { lut, scale } => Seq::new(16, |j: int| adc_i8(lut@, block, 16, j as nat, m / 2) as i32),
        QueryCtx::Pq16 { lut16, scale } => Seq::new(16, |j: int| adc_i16(lut16@, block, 16, j as nat, m / 2) as i32),
        QueryCtx::RaBitQ { qrot, ip } => own,
    }
}

/// Scan a block with a table context: the kernel that the kind of table calls for. Contexts without
/// a table leave `out16` as it is.
pub fn scan_table(block: &[u8], m: usize, ctx: &QueryCtx, out16: &mut [i32; 16])
    requires
        m <= MAX_M,
        match *ctx {
            QueryCtx::Pq { lut } => fits(block@.len(), m as nat, lut@.len()),
            QueryCtx::Pq8 { lut, scale } => fits(block@.len(), m as nat, lut@.len()),
            QueryCtx::Pq16 { lut16, scale } => fits(block@.len(), m as nat, lut16@.len()),
            _ => true,
        },
    ensures
        match *ctx {
            QueryCtx::Pq { lut } => final(out16)@ =~= Seq::new(16, |j: int| adc_saturating(lut@, block@, j as nat, (m / 2) as nat) as i32),
            QueryCtx::Pq8 { lut, scale } => final(out16)@ =~= Seq::new(16, |j: int| adc_i8(lut@, block@, 16, j as nat, (m / 2) as nat) as i32),
            QueryCtx::Pq16 { lut16, scale } => final(out16)@ =~= Seq::new(16, |j: int| adc_i16(lut16@, block@, 16, j as nat, (m / 2) as nat) as i32),
            _ => final(out16)@ == old(out16)@,
        },
{
    match ctx {
        QueryCtx::Pq { lut } => {
            let mut o: [i8; 16] = [0; 16];
            block_adc_sse(block, m, lut.as_slice(), &mut o);
            let mut i: usize = 0;
            while i < 16
                invariant
                    i <= 16,
                    forall|j: int| 0 <= j < 16 ==> #[trigger] o@[j] == adc_saturating(lut@, block@, j as nat, (m / 2) as nat),
                    forall|j: int| 0 <= j < i ==> #[trigger] out16@[j] == adc_saturating(lut@, block@, j as nat, (m / 2) as nat),
                decreases 16 - i,
            {
                out16[i] = o[i] as i32;
                i = i + 1;
            }
        },
        QueryCtx::Pq8 { lut, scale } => block_adc_i8_i16acc(block, m, lut.as_slice(), out16),
        QueryCtx::Pq16 { lut16, scale } => block_adc_i16(block, m, lut16.as_slice(), out16),
        _ => {},
    }
}

/// No compression: the scan computes the true squared distance from the raw rows.
pub struct ScalarI8 {
    pub d: usize,
}

impl ScalarI8 {
    pub fn new(d: usize) -> (r: Self)
        ensures
            r.d == d,
    {
        ScalarI8 { d }
    }
}

impl Compressor for ScalarI8 {
    open spec fn ready(&self) -> bool {
        self.d <= L2_DIM
    }

    open spec fn dim(&self) -> nat {
        self.d as nat
    }

    open spec fn subspaces(&self) -> nat {
        0
    }

    open spec fn block_len(&self) -> nat {
        0
    }

    open spec fn raw_rows(&self) -> bool {
        true
    }

    open spec fn encoded(&self, rows: Seq<Seq<i8>>, cent: Seq<i8>) -> Seq<u8> {
        Seq::empty()
    }

    open spec fn prepared(&self, q: Seq<i8>) -> QueryCtx {
        QueryCtx::Scalar
    }

    open spec fn own_scores(&self, ctx: QueryCtx, block: Seq<u8>) -> Seq<i32> {
        Seq::empty()
    }

    open spec fn cell_offset(&self, ctx: QueryCtx, dot: int) -> Option<i32> {
        None
    }

    fn block_bytes(&self) -> (r: usize) {
        0
    }

    fn needs_raw_rows(&self) -> (r: bool) {
        true
    }

    fn dimension(&self) -> (r: usize) {
        self.d
    }

    fn encode_block(&self, rows: &Vec<&[i8]>, cell_cent: &[i8], out: &mut Vec<u8>) {
        assert(out@ =~= out@ + Seq::<u8>::empty());
    }

    fn prepare_query(&self, q: &[i8]) -> (r: QueryCtx) {
        QueryCtx::Scalar
    }

    fn scan_block(&self, block: &[u8], ctx: &QueryCtx, q: &[i8], rows16: &Vec<&[i8]>, out16: &mut [i32; 16]) {
        let ghost want = block_scores(self.dim(), self.subspaces(), *ctx, self.own_scores(*ctx, block@), block@, q@, row_views(rows16@));
        let mut i: usize = 0;
        while i < 16
            invariant
                i <= 16,
                self.d <= L2_DIM,
                ctx_ok(self.raw_rows(), self.dim(), self.subspaces(), self.block_len(), *ctx),
                q@.len() == self.d,
                rows16@.len() == 16,
                want == block_scores(self.dim(), self.subspaces(), *ctx, self.own_scores(*ctx, block@), block@, q@, row_views(rows16@)),
                forall|j: int| 0 <= j < i ==> #[trigger] out16@[j] == want[j],
            decreases 16 - i,
        {
            let row: &[i8] = rows16[i];
            let s: i32 = if row.len() == self.d { l2_i8(q, row) } else { i32::MAX };
            assert(want[i as int] == exact_score(q@, row_views(rows16@)[i as int], self.dim()));
            out16[i] = s;
            i = i + 1;
        }
        assert(out16@ =~= want);
    }

    fn residual_offset(&self, ctx: &QueryCtx, dot: i32) -> (r: Option<i32>) {
        None
    }
}

} // verus!
