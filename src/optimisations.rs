use vstd::prelude::*;
use vstd::arithmetic::power2::{pow2, lemma_pow2_pos};
use vstd::arithmetic::div_mod::{
    lemma_fundamental_div_mod, lemma_fundamental_div_mod_converse, lemma_div_is_ordered,
};
use crate::convolution::{Bound, all_wf, layout_ok};
use crate::weight::{
    Weight, clamp, round_scaled, round_scaled_clamped, pow2_u64, lemma_round_scaled_grows,
    lemma_round_scaled_nonpositive,
};

verus! {

/// Fractional bits available with 8-bit results in an `i32` accumulator: two
/// bits are kept for sums that go negative or above one.
pub const PRECISION_BITS: u8 = 22;

/// Coefficients for 8-bit results are stored as `i16`.
pub const MAX_COEFS_PRECISION: u8 = 15;

/// Fractional bits available with 16-bit results in an `i64` accumulator.
pub const PRECISION16_BITS: u8 = 46;

/// Coefficients for 16-bit results are stored as `i32`.
pub const MAX_COEFS_PRECISION16: u8 = 31;

/// The entry of the saturation table at `i`: `i - 640` limited to `[0, 255]`.
pub open spec fn clip_table_entry(i: int) -> int {
    clamp(i - 640, 0, 255)
}

/// The saturation table for 8-bit results, over raw values from -640 to 639.
pub fn get_clip_table() -> (table: [u8; 1280])
    ensures
        forall|i: int| 0 <= i < 1280 ==> #[trigger] table@[i] as int == clip_table_entry(i),
{
    let mut table = [0u8; 1280];
    let mut i: usize = 640;
    while i < 640 + 255
        invariant
            640 <= i <= 895,
            table@.len() == 1280,
            forall|j: int| 0 <= j < i ==> #[trigger] table@[j] as int == clip_table_entry(j),
        decreases 895 - i,
    {
        table[i] = (i - 640) as u8;
        i += 1;
    }
    while i < 1280
        invariant
            895 <= i <= 1280,
            table@.len() == 1280,
            forall|j: int| 0 <= j < i ==> #[trigger] table@[j] as int == clip_table_entry(j),
        decreases 1280 - i,
    {
        table[i] = 255;
        i += 1;
    }
    table
}

/// `v` shifted right by `p` bits, keeping its sign: `floor(v / 2^p)`.
pub open spec fn shr(v: int, p: nat) -> int {
    v / pow2(p) as int
}

/// Arithmetic right shift of `v` by `p` bits.
fn shr_i64(v: i64, p: u8) -> (r: i64)
    requires
        p < 63,
    ensures
        r == shr(v as int, p as nat),
{
    let d = pow2_u64(p as u32);
    proof {
        lemma_pow2_pos(p as nat);
    }
    if v >= 0 {
        ((v as u64) / d) as i64
    } else {
        let a = (-(v + 1)) as u64;
        let q = a / d;
        proof {
            lemma_fundamental_div_mod(a as int, d as int);
            let r = a as int % d as int;
            let qi = q as int;
            let di = d as int;
            assert(v as int == (-qi - 1) * di + (di - r - 1)) by (nonlinear_arith)
                requires a as int == qi * di + r, v as int == -(a as int) - 1;
            lemma_fundamental_div_mod_converse(v as int, d as int, -q - 1, d - r - 1);
        }
        -(q as i64) - 1
    }
}

/// Clipping is monotonic and saturating: a larger sum never clips to a lower
/// value, every result lies in `[0, max]`, and sums whose shift is at most 0
/// or at least `max` clip to 0 or to `max`.
pub proof fn lemma_clip_monotonic(v1: int, v2: int, p: nat, max: int)
    requires
        v1 <= v2,
        max >= 0,
    ensures
        clamp(shr(v1, p), 0, max) <= clamp(shr(v2, p), 0, max),
        0 <= clamp(shr(v1, p), 0, max) <= max,
        shr(v1, p) <= 0 ==> clamp(shr(v1, p), 0, max) == 0,
        shr(v1, p) >= max ==> clamp(shr(v1, p), 0, max) == max,
{
    lemma_pow2_pos(p);
    lemma_div_is_ordered(v1, v2, pow2(p) as int);
}

/// The chunks of two bounds take disjoint parts of the coefficients: the
/// chunk of bound `i` ends before the block of any later bound `j` begins.
pub proof fn lemma_chunks_disjoint(len: int, window_size: int, bounds: Seq<Bound>, i: int, j: int)
    requires
        layout_ok(len, window_size, bounds),
        0 <= i < j < bounds.len(),
        window_size >= 0,
    ensures
        i * window_size + bounds[i].size <= j * window_size,
{
    assert(bounds[i].size <= window_size);
    assert((i + 1) * window_size <= j * window_size) by (nonlinear_arith)
        requires i + 1 <= j, window_size >= 0;
    assert((i + 1) * window_size == i * window_size + window_size) by (nonlinear_arith);
}

/// Some weight, scaled by `2^k` and rounded, reaches `limit`.
pub open spec fn overflows(ws: Seq<Weight>, k: int, limit: int) -> bool {
    exists|i: int| 0 <= i < ws.len() && round_scaled(ws[i], k) >= limit
}

/// `p` is the number of fractional bits derived for `ws` within a budget of
/// `budget` bits and coefficients below `limit`: the first shift whose next
/// one would make some coefficient reach `limit`, or the last of the budget.
pub open spec fn is_derived_precision(ws: Seq<Weight>, p: int, budget: int, limit: int) -> bool {
    &&& 0 <= p < budget
    &&& forall|q: int| 0 <= q < p ==> !#[trigger] overflows(ws, q + 1, limit)
    &&& (p == budget - 1 || overflows(ws, p + 1, limit))
}

/// The number of fractional bits derived for `ws` (see `is_derived_precision`).
pub open spec fn derived_precision(ws: Seq<Weight>, budget: int, limit: int) -> int {
    choose|p: int| is_derived_precision(ws, p, budget, limit)
}

/// At most one number of fractional bits meets `is_derived_precision`.
pub proof fn lemma_derived_precision_unique(ws: Seq<Weight>, p: int, budget: int, limit: int)
    requires
        is_derived_precision(ws, p, budget, limit),
    ensures
        derived_precision(ws, budget, limit) == p,
{
    let c = derived_precision(ws, budget, limit);
    if c < p {
        assert(!overflows(ws, c + 1, limit));
    } else if c > p {
        assert(!overflows(ws, p + 1, limit));
    }
}

/// Every weight, scaled by `2^k` and rounded, stays below `limit`.
pub open spec fn fits(ws: Seq<Weight>, k: int, limit: int) -> bool {
    forall|i: int| 0 <= i < ws.len() ==> #[trigger] round_scaled(ws[i], k) < limit
}

/// The fixed-point coefficients of `ws` with `p` fractional bits, each
/// saturated to `[lo, hi]`.
pub open spec fn fixed_point(ws: Seq<Weight>, p: int, lo: int, hi: int) -> Seq<int> {
    Seq::new(ws.len(), |i: int| clamp(round_scaled(ws[i], p), lo, hi))
}

/// Where every weight stays below a positive `limit` at `k` bits, it does so
/// at fewer bits too.
pub proof fn lemma_fits_fewer_bits(ws: Seq<Weight>, j: int, k: int, limit: int)
    requires
        all_wf(ws),
        0 <= j <= k <= 64,
        limit > 0,
        fits(ws, k, limit),
    ensures
        fits(ws, j, limit),
    decreases k - j,
{
    if j < k {
        assert forall|i: int| 0 <= i < ws.len() implies #[trigger] round_scaled(ws[i], k - 1)
            < limit by {
            assert(ws[i].wf());
            if ws[i].mantissa >= 0 {
                lemma_round_scaled_grows(ws[i], k - 1);
            } else {
                lemma_round_scaled_nonpositive(ws[i], k - 1);
            }
        }
        lemma_fits_fewer_bits(ws, j, k - 1, limit);
    }
}

/// The precision derived for weights that fit at 4 bits is at least 4, and
/// every weight fits at that precision.
pub proof fn lemma_derived_precision_fits(ws: Seq<Weight>, p: int, budget: int, limit: int)
    requires
        all_wf(ws),
        5 <= budget <= 64,
        limit > 0,
        fits(ws, 4, limit),
        is_derived_precision(ws, p, budget, limit),
    ensures
        p >= 4,
        fits(ws, p, limit),
{
    if p < 4 {
        lemma_fits_fewer_bits(ws, p + 1, 4, limit);
        assert(!overflows(ws, p + 1, limit));
    }
    assert(!overflows(ws, (p - 1) + 1, limit));
}

/// Tells whether some weight, scaled by `2^k` and rounded, reaches `limit`.
fn any_overflows(ws: &Vec<Weight>, k: u32, limit: i64) -> (r: bool)
    requires
        all_wf(ws@),
        k <= 64,
        0 < limit <= 0x4000_0000_0000_0000,
    ensures
        r == overflows(ws@, k as int, limit as int),
{
    let mut i: usize = 0;
    while i < ws.len()
        invariant
            i <= ws.len(),
            all_wf(ws@),
            k <= 64,
            0 < limit <= 0x4000_0000_0000_0000,
            forall|j: int| 0 <= j < i ==> #[trigger] round_scaled(ws@[j], k as int) < limit,
        decreases ws.len() - i,
    {
        let v = round_scaled_clamped(&ws[i], k, -limit, limit);
        if v >= limit {
            return true;
        }
        i += 1;
    }
    proof {
        assert(!overflows(ws@, k as int, limit as int));
    }
    false
}

/// Derives the number of fractional bits for `ws` (see `is_derived_precision`).
fn derive_precision(ws: &Vec<Weight>, budget: u8, limit: i64) -> (p: u8)
    requires
        all_wf(ws@),
        1 <= budget <= 63,
        0 < limit <= 0x4000_0000_0000_0000,
    ensures
        is_derived_precision(ws@, p as int, budget as int, limit as int),
{
    let mut cur: u8 = 0;
    loop
        invariant
            all_wf(ws@),
            1 <= budget <= 63,
            0 < limit <= 0x4000_0000_0000_0000,
            cur < budget,
            forall|q: int| 0 <= q < cur ==> !#[trigger] overflows(ws@, q + 1, limit as int),
        decreases budget - cur,
    {
        if cur + 1 == budget {
            return cur;
        }
        if any_overflows(ws, (cur + 1) as u32, limit) {
            return cur;
        }
        cur += 1;
    }
}

/// Converts the scaled weights `ws` to `i16` or `i32` coefficients.
fn to_fixed_point(ws: &Vec<Weight>, p: u8, lo: i64, hi: i64) -> (r: Vec<i64>)
    requires
        all_wf(ws@),
        p <= 64,
        -0x4000_0000_0000_0000 <= lo <= 0 <= hi <= 0x4000_0000_0000_0000,
    ensures
        r@.len() == ws@.len(),
        forall|i: int| 0 <= i < ws@.len() ==> #[trigger] r@[i] as int == clamp(
            round_scaled(ws@[i], p as int),
            lo as int,
            hi as int,
        ),
{
    let mut r: Vec<i64> = Vec::with_capacity(ws.len());
    let mut i: usize = 0;
    while i < ws.len()
        invariant
            i <= ws.len(),
            r@.len() == i,
            all_wf(ws@),
            p <= 64,
            -0x4000_0000_0000_0000 <= lo <= 0 <= hi <= 0x4000_0000_0000_0000,
            forall|j: int| 0 <= j < i ==> #[trigger] r@[j] as int == clamp(
                round_scaled(ws@[j], p as int),
                lo as int,
                hi as int,
            ),
        decreases ws.len() - i,
    {
        r.push(round_scaled_clamped(&ws[i], p as u32, lo, hi));
        i += 1;
    }
    r
}

/// Fixed-point coefficients for 8-bit results: `i16` values with a derived
/// number of fractional bits, and the saturation table that clips sums.
pub struct NormalizerGuard16 {
    values: Vec<i16>,
    precision: u8,
    clip_table: [u8; 1280],
}

/// The coefficients of one destination element, from `start` on.
#[derive(Debug, Clone, Copy)]
pub struct CoefficientsI16Chunk<'a> {
    pub start: u32,
    pub values: &'a [i16],
}

impl NormalizerGuard16 {
    /// The fixed-point coefficients.
    pub closed spec fn coefficients(&self) -> Seq<i16> {
        self.values@
    }

    /// The number of fractional bits of the coefficients.
    pub closed spec fn spec_precision(&self) -> u8 {
        self.precision
    }

    /// A well-formed guard has between 4 and 21 fractional bits.
    pub proof fn lemma_precision_range(&self)
        requires
            self.wf(),
        ensures
            4 <= self.spec_precision() < 22,
    {
    }

    /// The precision lies in `[4, 22)` and the saturation table is filled.
    pub closed spec fn wf(&self) -> bool {
        &&& 4 <= self.precision < PRECISION_BITS
        &&& forall|i: int| 0 <= i < 1280 ==> #[trigger] self.clip_table@[i] as int
            == clip_table_entry(i)
    }

    /// Converts the weights to `i16` coefficients with the largest number of
    /// fractional bits under which the largest weight still fits.
    pub fn new(values: Vec<Weight>) -> (r: Self)
        requires
            all_wf(values@),
            fits(values@, 4, 0x8000),
        ensures
            r.wf(),
            is_derived_precision(values@, r.spec_precision() as int, 22, 0x8000),
            r.spec_precision() == derived_precision(values@, 22, 0x8000),
            r.spec_precision() >= 4,
            fits(values@, r.spec_precision() as int, 0x8000),
            r.coefficients().len() == values@.len(),
            forall|i: int| 0 <= i < values@.len() ==> #[trigger] r.coefficients()[i] as int
                == clamp(round_scaled(values@[i], r.spec_precision() as int), -0x8000, 0x7fff),
    {
        let precision = derive_precision(&values, PRECISION_BITS, 0x8000);
        proof {
            lemma_derived_precision_fits(values@, precision as int, 22, 0x8000);
            lemma_derived_precision_unique(values@, precision as int, 22, 0x8000);
        }
        let wide = to_fixed_point(&values, precision, -0x8000, 0x7fff);
        let mut coefs: Vec<i16> = Vec::with_capacity(wide.len());
        let mut i: usize = 0;
        while i < wide.len()
            invariant
                i <= wide@.len(),
                coefs@.len() == i,
                forall|j: int| 0 <= j < wide@.len() ==> -0x8000 <= #[trigger] wide@[j] <= 0x7fff,
                forall|j: int| 0 <= j < i ==> #[trigger] coefs@[j] as int == wide@[j] as int,
            decreases wide.len() - i,
        {
            coefs.push(wide[i] as i16);
            i += 1;
        }
        NormalizerGuard16 { values: coefs, precision, clip_table: get_clip_table() }
    }

    /// Splits the coefficients into one chunk per bound: the block of
    /// `window_size` values of the bound, cut to the bound's size.
    pub fn normalized_chunks(&self, window_size: usize, bounds: &[Bound]) -> (r: Vec<
        CoefficientsI16Chunk,
    >)
        requires
            layout_ok(self.coefficients().len() as int, window_size as int, bounds@),
        ensures
            r@.len() == bounds@.len(),
            forall|i: int|
                0 <= i < bounds@.len() ==> {
                    &&& (#[trigger] r@[i]).start == bounds@[i].start
                    &&& r@[i].values@ == self.coefficients().subrange(
                        i * window_size,
                        i * window_size + bounds@[i].size,
                    )
                },
    {
        let mut coefs: &[i16] = self.values.as_slice();
        let mut res: Vec<CoefficientsI16Chunk> = Vec::with_capacity(bounds.len());
        let mut i: usize = 0;
        while i < bounds.len()
            invariant
                i <= bounds@.len(),
                res@.len() == i,
                layout_ok(self.coefficients().len() as int, window_size as int, bounds@),
                coefs@ == self.coefficients().subrange(
                    i * window_size,
                    self.coefficients().len() as int,
                ),
                forall|j: int|
                    0 <= j < i ==> {
                        &&& (#[trigger] res@[j]).start == bounds@[j].start
                        &&& res@[j].values@ == self.coefficients().subrange(
                            j * window_size,
                            j * window_size + bounds@[j].size,
                        )
                    },
            decreases bounds@.len() - i,
        {
            proof {
                assert((i + 1) * window_size <= window_size * bounds@.len()) by (nonlinear_arith)
                    requires i + 1 <= bounds@.len(), window_size >= 0;
                assert(bounds@[i as int].size <= window_size);
                assert((i + 1) * window_size == i * window_size + window_size) by (nonlinear_arith);
            }
            let bound = bounds[i];
            let (left, right) = coefs.split_at(window_size);
            coefs = right;
            let size = bound.size as usize;
            res.push(CoefficientsI16Chunk { start: bound.start, values: &left[0..size] });
            i += 1;
        }
        res
    }

    /// The number of fractional bits of the coefficients.
    pub fn precision(&self) -> (r: u8)
        ensures
            r == self.spec_precision(),
    {
        self.precision
    }

    /// Saturates an accumulated sum: `v >> precision` limited to `[0, 255]`.
    /// The shifted value must lie in `[-512, 511]`.
    pub fn clip(&self, v: i32) -> (r: u8)
        requires
            self.wf(),
            -512 <= shr(v as int, self.spec_precision() as nat) <= 511,
        ensures
            r as int == clamp(shr(v as int, self.spec_precision() as nat), 0, 255),
    {
        let index = (640 + shr_i64(v as i64, self.precision)) as usize;
        self.clip_table[index]
    }
}

/// Fixed-point coefficients for 16-bit results: `i32` values with a derived
/// number of fractional bits.
pub struct NormalizerGuard32 {
    values: Vec<i32>,
    precision: u8,
}

/// The coefficients of one destination element, from `start` on.
#[derive(Debug, Clone, Copy)]
pub struct CoefficientsI32Chunk<'a> {
    pub start: u32,
    pub values: &'a [i32],
}

impl NormalizerGuard32 {
    /// The fixed-point coefficients.
    pub closed spec fn coefficients(&self) -> Seq<i32> {
        self.values@
    }

    /// The number of fractional bits of the coefficients.
    pub closed spec fn spec_precision(&self) -> u8 {
        self.precision
    }

    /// A well-formed guard has between 4 and 45 fractional bits.
    pub proof fn lemma_precision_range(&self)
        requires
            self.wf(),
        ensures
            4 <= self.spec_precision() < 46,
    {
    }

    /// The precision lies in `[4, 46)`.
    pub closed spec fn wf(&self) -> bool {
        4 <= self.precision < PRECISION16_BITS
    }

    /// Converts the weights to `i32` coefficients with the largest number of
    /// fractional bits under which the largest weight still fits.
    pub fn new(values: Vec<Weight>) -> (r: Self)
        requires
            all_wf(values@),
            fits(values@, 4, 0x8000_0000),
        ensures
            r.wf(),
            is_derived_precision(values@, r.spec_precision() as int, 46, 0x8000_0000),
            r.spec_precision() == derived_precision(values@, 46, 0x8000_0000),
            r.spec_precision() >= 4,
            fits(values@, r.spec_precision() as int, 0x8000_0000),
            r.coefficients().len() == values@.len(),
            forall|i: int| 0 <= i < values@.len() ==> #[trigger] r.coefficients()[i] as int
                == clamp(round_scaled(values@[i], r.spec_precision() as int), -0x8000_0000, 0x7fff_ffff),
    {
        let precision = derive_precision(&values, PRECISION16_BITS, 0x8000_0000);
        proof {
            lemma_derived_precision_fits(values@, precision as int, 46, 0x8000_0000);
            lemma_derived_precision_unique(values@, precision as int, 46, 0x8000_0000);
        }
        let wide = to_fixed_point(&values, precision, -0x8000_0000, 0x7fff_ffff);
        let mut coefs: Vec<i32> = Vec::with_capacity(wide.len());
        let mut i: usize = 0;
        while i < wide.len()
            invariant
                i <= wide@.len(),
                coefs@.len() == i,
                forall|j: int| 0 <= j < wide@.len() ==> -0x8000_0000 <= #[trigger] wide@[j] <= 0x7fff_ffff,
                forall|j: int| 0 <= j < i ==> #[trigger] coefs@[j] as int == wide@[j] as int,
            decreases wide.len() - i,
        {
            coefs.push(wide[i] as i32);
            i += 1;
        }
        NormalizerGuard32 { values: coefs, precision }
    }

    /// Splits the coefficients into one chunk per bound: the block of
    /// `window_size` values of the bound, cut to the bound's size.
    pub fn normalized_chunks(&self, window_size: usize, bounds: &[Bound]) -> (r: Vec<
        CoefficientsI32Chunk,
    >)
        requires
            layout_ok(self.coefficients().len() as int, window_size as int, bounds@),
        ensures
            r@.len() == bounds@.len(),
            forall|i: int|
                0 <= i < bounds@.len() ==> {
                    &&& (#[trigger] r@[i]).start == bounds@[i].start
                    &&& r@[i].values@ == self.coefficients().subrange(
                        i * window_size,
                        i * window_size + bounds@[i].size,
                    )
                },
    {
        let mut coefs: &[i32] = self.values.as_slice();
        let mut res: Vec<CoefficientsI32Chunk> = Vec::with_capacity(bounds.len());
        let mut i: usize = 0;
        while i < bounds.len()
            invariant
                i <= bounds@.len(),
                res@.len() == i,
                layout_ok(self.coefficients().len() as int, window_size as int, bounds@),
                coefs@ == self.coefficients().subrange(
                    i * window_size,
                    self.coefficients().len() as int,
                ),
                forall|j: int|
                    0 <= j < i ==> {
                        &&& (#[trigger] res@[j]).start == bounds@[j].start
                        &&& res@[j].values@ == self.coefficients().subrange(
                            j * window_size,
                            j * window_size + bounds@[j].size,
                        )
                    },
            decreases bounds@.len() - i,
        {
            proof {
                assert((i + 1) * window_size <= window_size * bounds@.len()) by (nonlinear_arith)
                    requires i + 1 <= bounds@.len(), window_size >= 0;
                assert(bounds@[i as int].size <= window_size);
                assert((i + 1) * window_size == i * window_size + window_size) by (nonlinear_arith);
            }
            let bound = bounds[i];
            let (left, right) = coefs.split_at(window_size);
            coefs = right;
            let size = bound.size as usize;
            res.push(CoefficientsI32Chunk { start: bound.start, values: &left[0..size] });
            i += 1;
        }
        res
    }

    /// The number of fractional bits of the coefficients.
    pub fn precision(&self) -> (r: u8)
        ensures
            r == self.spec_precision(),
    {
        self.precision
    }

    /// Saturates an accumulated sum: `v >> precision` limited to `[0, 65535]`.
    pub fn clip(&self, v: i64) -> (r: u16)
        requires
            self.wf(),
        ensures
            r as int == clamp(shr(v as int, self.spec_precision() as nat), 0, 65535),
    {
        let shifted = shr_i64(v, self.precision);
        if shifted > 65535 {
            65535
        } else if shifted < 0 {
            0
        } else {
            shifted as u16
        }
    }
}

} // verus!
