use vstd::prelude::*;
use vstd::arithmetic::power2::{pow2, lemma_pow2_pos, lemma_pow2_strictly_increases, lemma_pow2_adds};
use vstd::arithmetic::div_mod::{lemma_fundamental_div_mod, lemma_fundamental_div_mod_converse};
use crate::convolution::{Bound, Coefficients, layout_ok};
use crate::optimisations::{
    NormalizerGuard16, CoefficientsI16Chunk, derived_precision, fixed_point, fits, shr,
    is_derived_precision, overflows, lemma_derived_precision_unique,
};
use crate::weight::{Weight, clamp, pow2_u64, round_scaled};

verus! {

/// A pixel of three 8-bit components.
#[derive(Clone, Copy, Debug, PartialEq, Eq)]
pub struct U8x3(pub [u8; 3]);

/// The number of fractional bits of the 8-bit coefficients derived from `ws`.
pub open spec fn precision8(ws: Seq<Weight>) -> int {
    derived_precision(ws, 22, 0x8000)
}

/// The `i16` fixed-point coefficients derived from `ws`.
pub open spec fn coefficients8(ws: Seq<Weight>) -> Seq<int> {
    fixed_point(ws, precision8(ws), -0x8000, 0x7fff)
}

/// `sum of row[start + j].c * ks[j]` over the taps `ks`.
pub open spec fn tap_sum(row: Seq<U8x3>, start: int, ks: Seq<int>, c: int) -> int
    decreases ks.len(),
{
    if ks.len() == 0 {
        0
    } else {
        tap_sum(row, start, ks.drop_last(), c) + row[start + ks.len() - 1].0@[c] as int
            * ks.last()
    }
}

/// The coefficients of destination column `x`.
pub open spec fn column_taps(ws: Seq<Weight>, window_size: int, bounds: Seq<Bound>, x: int) -> Seq<
    int,
> {
    coefficients8(ws).subrange(x * window_size, x * window_size + bounds[x].size)
}

/// The accumulated sum for component `c` of destination column `x`, with the
/// rounding bias, over the source row `row`.
pub open spec fn horiz_acc(
    row: Seq<U8x3>,
    ws: Seq<Weight>,
    window_size: int,
    bounds: Seq<Bound>,
    x: int,
    c: int,
) -> int {
    pow2((precision8(ws) - 1) as nat) + tap_sum(
        row,
        bounds[x].start as int,
        column_taps(ws, window_size, bounds, x),
        c,
    )
}

/// Component `c` of destination column `x`: the sum shifted back and saturated.
pub open spec fn horiz_component(
    row: Seq<U8x3>,
    ws: Seq<Weight>,
    window_size: int,
    bounds: Seq<Bound>,
    x: int,
    c: int,
) -> int {
    clamp(shr(horiz_acc(row, ws, window_size, bounds, x, c), precision8(ws) as nat), 0, 255)
}

/// What the horizontal pass asks of its inputs: the weights fit at 4 bits,
/// every window stays inside its source row, and every shifted sum lies in the
/// range of the saturation table.
pub open spec fn horiz_requires(
    src: Seq<Vec<U8x3>>,
    dst_height: int,
    offset: int,
    coeffs: Coefficients,
) -> bool {
    &&& coeffs.wf()
    &&& fits(coeffs.values@, 4, 0x8000)
    &&& dst_height + offset <= src.len()
    &&& forall|y: int, x: int|
        #![trigger src[y + offset], coeffs.bounds@[x]]
        0 <= y < dst_height && 0 <= x < coeffs.bounds@.len() ==> coeffs.bounds@[x].start
            + coeffs.bounds@[x].size <= src[y + offset]@.len()
    &&& forall|y: int, x: int, c: int|
        0 <= y < dst_height && 0 <= x < coeffs.bounds@.len() && 0 <= c < 3 ==> -512 <= #[trigger] shr(
            horiz_acc(src[y + offset]@, coeffs.values@, coeffs.window_size as int, coeffs.bounds@, x, c),
            precision8(coeffs.values@) as nat,
        ) <= 511
}

proof fn lemma_tap_sum_step(row: Seq<U8x3>, start: int, ks: Seq<int>, j: int, c: int)
    requires
        0 <= j < ks.len(),
    ensures
        tap_sum(row, start, ks.take(j + 1), c) == tap_sum(row, start, ks.take(j), c) + row[start
            + j].0@[c] as int * ks[j],
{
    assert(ks.take(j + 1).drop_last() =~= ks.take(j));
}

proof fn lemma_tap_term_bound(p: int, k: int)
    requires
        0 <= p <= 255,
        -0x8000 <= k <= 0x7fff,
    ensures
        -0x80_0000 <= p * k <= 0x80_0000,
{
    assert(-0x80_0000 <= p * k <= 0x80_0000) by (nonlinear_arith)
        requires 0 <= p <= 255, -0x8000 <= k <= 0x7fff;
}

/// A sum whose shift by `p` bits lies in `[-512, 511]` lies in `[-512 * 2^p, 512 * 2^p)`.
proof fn lemma_shr_range(v: int, p: nat)
    requires
        -512 <= shr(v, p) <= 511,
    ensures
        -512 * pow2(p) <= v < 512 * pow2(p),
{
    lemma_pow2_pos(p);
    let d = pow2(p) as int;
    lemma_fundamental_div_mod(v, d);
    let q = v / d;
    let r = v % d;
    assert(-512 * d <= v < 512 * d) by (nonlinear_arith)
        requires v == d * q + r, 0 <= r < d, -512 <= q <= 511, d > 0;
}

/// Convolves one destination pixel.
fn convolve_pixel(
    guard: &NormalizerGuard16,
    row: &Vec<U8x3>,
    chunk: &CoefficientsI16Chunk,
    bias: i64,
    Ghost(taps): Ghost<Seq<int>>,
) -> (r: U8x3)
    requires
        guard.wf(),
        chunk.values@.len() == taps.len(),
        taps.len() < 0x1_0000_0000,
        forall|j: int| 0 <= j < taps.len() ==> #[trigger] taps[j] == chunk.values@[j] as int,
        chunk.start + taps.len() <= row@.len(),
        bias == pow2((guard.spec_precision() - 1) as nat),
        forall|c: int|
            0 <= c < 3 ==> -512 <= #[trigger] shr(
                bias + tap_sum(row@, chunk.start as int, taps, c),
                guard.spec_precision() as nat,
            ) <= 511,
    ensures
        forall|c: int|
            0 <= c < 3 ==> #[trigger] r.0@[c] as int == clamp(
                shr(bias + tap_sum(row@, chunk.start as int, taps, c), guard.spec_precision() as nat),
                0,
                255,
            ),
{
    let start = chunk.start as usize;
    let n = chunk.values.len();
    let mut s0: i64 = bias;
    let mut s1: i64 = bias;
    let mut s2: i64 = bias;
    let row_len = row.len();
    let mut j: usize = 0;
    proof {
        assert(taps.take(0) =~= Seq::<int>::empty());
        guard.lemma_precision_range();
        lemma_pow2_strictly_increases((guard.spec_precision() - 1) as nat, 21);
        vstd::arithmetic::power2::lemma2_to64();
    }
    while j < n
        invariant
            j <= n,
            n == taps.len(),
            taps.len() < 0x1_0000_0000,
            chunk.values@.len() == taps.len(),
            forall|i: int| 0 <= i < taps.len() ==> #[trigger] taps[i] == chunk.values@[i] as int,
            start + n <= row_len,
            row_len == row@.len(),
            start == chunk.start,
            0 <= bias < 0x20_0000,
            s0 == bias + tap_sum(row@, start as int, taps.take(j as int), 0),
            s1 == bias + tap_sum(row@, start as int, taps.take(j as int), 1),
            s2 == bias + tap_sum(row@, start as int, taps.take(j as int), 2),
            -0x80_0000 * j <= s0 - bias <= 0x80_0000 * j,
            -0x80_0000 * j <= s1 - bias <= 0x80_0000 * j,
            -0x80_0000 * j <= s2 - bias <= 0x80_0000 * j,
        decreases n - j,
    {
        let k = chunk.values[j] as i64;
        let px = row[start + j];
        proof {
            lemma_tap_sum_step(row@, start as int, taps, j as int, 0);
            lemma_tap_sum_step(row@, start as int, taps, j as int, 1);
            lemma_tap_sum_step(row@, start as int, taps, j as int, 2);
            lemma_tap_term_bound(px.0@[0] as int, k as int);
            lemma_tap_term_bound(px.0@[1] as int, k as int);
            lemma_tap_term_bound(px.0@[2] as int, k as int);
        }
        s0 = s0 + px.0[0] as i64 * k;
        s1 = s1 + px.0[1] as i64 * k;
        s2 = s2 + px.0[2] as i64 * k;
        j += 1;
    }
    proof {
        assert(taps.take(n as int) =~= taps);
        let p = guard.spec_precision() as nat;
        lemma_pow2_strictly_increases(p, 22);
        lemma_pow2_pos(p);
        vstd::arithmetic::power2::lemma2_to64();
        lemma_shr_range(s0 as int, p);
        lemma_shr_range(s1 as int, p);
        lemma_shr_range(s2 as int, p);
        assert(shr(s0 as int, p) == shr(bias + tap_sum(row@, start as int, taps, 0), p));
        assert(shr(s1 as int, p) == shr(bias + tap_sum(row@, start as int, taps, 1), p));
        assert(shr(s2 as int, p) == shr(bias + tap_sum(row@, start as int, taps, 2), p));
    }
    U8x3([guard.clip(s0 as i32), guard.clip(s1 as i32), guard.clip(s2 as i32)])
}

/// Block `x` of a table laid out as `layout_ok` says lies inside the table.
pub proof fn lemma_block_inside(len: int, window_size: int, bounds: Seq<Bound>, x: int)
    requires
        layout_ok(len, window_size, bounds),
        0 <= x < bounds.len(),
        window_size >= 0,
    ensures
        0 <= x * window_size,
        x * window_size + bounds[x].size <= x * window_size + window_size <= len,
{
    assert(0 <= x * window_size) by (nonlinear_arith)
        requires x >= 0, window_size >= 0;
    assert(x * window_size + window_size <= window_size * bounds.len()) by (nonlinear_arith)
        requires x + 1 <= bounds.len(), window_size >= 0;
}

/// Convolves every destination row with source row `y + offset`: component
/// `c` of destination pixel `x` becomes the sum of the window's source pixels
/// weighted by the fixed-point coefficients of column `x`, plus the rounding
/// bias, shifted back by the precision and saturated to `[0, 255]`.
pub fn horiz_convolution(
    src_image: &Vec<Vec<U8x3>>,
    dst_image: &mut Vec<Vec<U8x3>>,
    offset: u32,
    coeffs: Coefficients,
)
    requires
        horiz_requires(src_image@, old(dst_image)@.len() as int, offset as int, coeffs),
        forall|y: int|
            0 <= y < old(dst_image)@.len() ==> (#[trigger] old(dst_image)@[y])@.len()
                == coeffs.bounds@.len(),
    ensures
        final(dst_image)@.len() == old(dst_image)@.len(),
        forall|y: int|
            0 <= y < final(dst_image)@.len() ==> (#[trigger] final(dst_image)@[y])@.len()
                == coeffs.bounds@.len(),
        forall|y: int, x: int, c: int|
            0 <= y < final(dst_image)@.len() && 0 <= x < coeffs.bounds@.len() && 0 <= c < 3
                ==> #[trigger] final(dst_image)@[y]@[x].0@[c] as int == horiz_component(
                src_image@[y + offset]@,
                coeffs.values@,
                coeffs.window_size as int,
                coeffs.bounds@,
                x,
                c,
            ),
{
    let ghost ws = coeffs.values@;
    let ghost old_dst = dst_image@;
    let Coefficients { values, window_size, bounds } = coeffs;
    let normalizer_guard = NormalizerGuard16::new(values);
    let precision = normalizer_guard.precision();
    let coefficients_chunks = normalizer_guard.normalized_chunks(window_size, bounds.as_slice());
    proof {
        normalizer_guard.lemma_precision_range();
        lemma_pow2_strictly_increases((precision - 1) as nat, 21);
        vstd::arithmetic::power2::lemma2_to64();
    }
    let initial = pow2_u64((precision - 1) as u32) as i64;
    let height = dst_image.len();
    let src_height = src_image.len();
    let mut y: usize = 0;
    while y < height
        invariant
            y <= height,
            height == dst_image@.len(),
            src_height == src_image@.len(),
            dst_image@.len() == old_dst.len(),
            horiz_requires(src_image@, height as int, offset as int, coeffs),
            ws == coeffs.values@,
            window_size == coeffs.window_size,
            bounds@ == coeffs.bounds@,
            normalizer_guard.wf(),
            normalizer_guard.spec_precision() == precision8(ws),
            normalizer_guard.coefficients().len() == ws.len(),
            forall|i: int|
                0 <= i < ws.len() ==> #[trigger] normalizer_guard.coefficients()[i] as int
                    == coefficients8(ws)[i],
            initial == pow2((precision8(ws) - 1) as nat),
            coefficients_chunks@.len() == bounds@.len(),
            forall|i: int|
                0 <= i < bounds@.len() ==> {
                    &&& (#[trigger] coefficients_chunks@[i]).start == bounds@[i].start
                    &&& coefficients_chunks@[i].values@ == normalizer_guard.coefficients().subrange(
                        i * window_size,
                        i * window_size + bounds@[i].size,
                    )
                },
            forall|j: int|
                y <= j < height ==> (#[trigger] dst_image@[j])@.len() == bounds@.len(),
            forall|j: int|
                0 <= j < y ==> (#[trigger] dst_image@[j])@.len() == bounds@.len(),
            forall|j: int, x: int, c: int|
                0 <= j < y && 0 <= x < bounds@.len() && 0 <= c < 3
                    ==> #[trigger] dst_image@[j]@[x].0@[c] as int == horiz_component(
                    src_image@[j + offset]@,
                    ws,
                    window_size as int,
                    bounds@,
                    x,
                    c,
                ),
        decreases height - y,
    {
        let src_row = &src_image[y + offset as usize];
        let mut row: Vec<U8x3> = Vec::with_capacity(coefficients_chunks.len());
        let mut x: usize = 0;
        while x < coefficients_chunks.len()
            invariant
                x <= coefficients_chunks@.len(),
                row@.len() == x,
                y < height,
                horiz_requires(src_image@, height as int, offset as int, coeffs),
                *src_row == src_image@[y + offset],
                ws == coeffs.values@,
                window_size == coeffs.window_size,
                bounds@ == coeffs.bounds@,
                normalizer_guard.wf(),
                normalizer_guard.spec_precision() == precision8(ws),
                normalizer_guard.coefficients().len() == ws.len(),
                forall|i: int|
                    0 <= i < ws.len() ==> #[trigger] normalizer_guard.coefficients()[i] as int
                        == coefficients8(ws)[i],
                initial == pow2((precision8(ws) - 1) as nat),
                coefficients_chunks@.len() == bounds@.len(),
                forall|i: int|
                    0 <= i < bounds@.len() ==> {
                        &&& (#[trigger] coefficients_chunks@[i]).start == bounds@[i].start
                        &&& coefficients_chunks@[i].values@
                            == normalizer_guard.coefficients().subrange(
                            i * window_size,
                            i * window_size + bounds@[i].size,
                        )
                    },
                forall|i: int, c: int|
                    0 <= i < x && 0 <= c < 3 ==> #[trigger] row@[i].0@[c] as int
                        == horiz_component(
                        src_image@[y + offset]@,
                        ws,
                        window_size as int,
                        bounds@,
                        i,
                        c,
                    ),
            decreases coefficients_chunks@.len() - x,
        {
            let ghost taps = column_taps(ws, window_size as int, bounds@, x as int);
            proof {
                lemma_block_inside(ws.len() as int, window_size as int, bounds@, x as int);
                let b = bounds@[x as int];
                assert(b.start + b.size <= src_image@[y + offset]@.len());
                assert forall|c: int| 0 <= c < 3 implies -512 <= #[trigger] shr(
                    initial + tap_sum(src_row@, coefficients_chunks@[x as int].start as int, taps, c),
                    normalizer_guard.spec_precision() as nat,
                ) <= 511 by {
                    assert(-512 <= shr(
                        horiz_acc(src_row@, ws, window_size as int, bounds@, x as int, c),
                        precision8(ws) as nat,
                    ) <= 511);
                }
            }
            let pixel = convolve_pixel(
                &normalizer_guard,
                src_row,
                &coefficients_chunks[x],
                initial,
                Ghost(taps),
            );
            row.push(pixel);
            x += 1;
        }
        dst_image.set(y, row);
        y += 1;
    }
}

/// A weight equal to one, scaled by `2^k`, is exactly `2^k`.
proof fn lemma_unit_weight_scaled(w: Weight, k: nat)
    requires
        w.exponent <= 0,
        w.mantissa == pow2((-w.exponent) as nat),
    ensures
        round_scaled(w, k as int) == pow2(k),
{
    let e = (-w.exponent) as nat;
    if k >= e {
        lemma_pow2_adds(e, (k - e) as nat);
    } else {
        let t = (e - k) as nat;
        lemma_pow2_adds(k, t);
        lemma_pow2_pos(t);
        lemma_pow2_pos(k);
        let d = pow2(t) as int;
        let q = pow2(k) as int;
        assert(pow2(e) as int == q * d);
        assert(0 <= d / 2 < d);
        lemma_fundamental_div_mod_converse(q * d + d / 2, d, q, d / 2);
    }
}

/// The identity kernel: a single weight of one over a window of one pixel
/// reproduces every component of that pixel.
pub proof fn lemma_identity_kernel(pixel: U8x3, w: Weight, c: int)
    requires
        w.wf(),
        w.exponent <= 0,
        w.mantissa == pow2((-w.exponent) as nat),
        0 <= c < 3,
    ensures
        horiz_component(seq![pixel], seq![w], 1, seq![Bound { start: 0, size: 1 }], 0, c)
            == pixel.0@[c] as int,
{
    let ws = seq![w];
    let bounds = seq![Bound { start: 0, size: 1 }];
    vstd::arithmetic::power2::lemma2_to64();
    assert forall|q: int| 0 <= q < 14 implies !#[trigger] overflows(ws, q + 1, 0x8000) by {
        lemma_unit_weight_scaled(w, (q + 1) as nat);
        lemma_pow2_strictly_increases((q + 1) as nat, 15);
    }
    lemma_unit_weight_scaled(w, 15);
    assert(round_scaled(ws[0], 15) >= 0x8000);
    assert(overflows(ws, 15, 0x8000));
    assert(is_derived_precision(ws, 14, 22, 0x8000));
    lemma_derived_precision_unique(ws, 14, 22, 0x8000);
    lemma_unit_weight_scaled(w, 14);
    let taps = column_taps(ws, 1, bounds, 0);
    assert(taps =~= seq![0x4000int]);
    assert(taps.drop_last() =~= Seq::<int>::empty());
    let v = pixel.0@[c] as int;
    assert(tap_sum(seq![pixel], 0, taps.drop_last(), c) == 0);
    assert(seq![pixel][0] == pixel);
    assert(taps.last() == 0x4000);
    assert(tap_sum(seq![pixel], 0, taps, c) == v * 0x4000);
    lemma_fundamental_div_mod_converse(0x2000 + v * 0x4000, 0x4000, v, 0x2000);
}

} // verus!
