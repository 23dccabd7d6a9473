use vstd::prelude::*;
use vstd::arithmetic::power2::{pow2, lemma_pow2_strictly_increases};
use crate::convolution::{Bound, Coefficients};
use crate::horizontal::lemma_block_inside;
use crate::optimisations::{NormalizerGuard32, derived_precision, fixed_point, fits, shr};
use crate::weight::{Weight, clamp, pow2_u64};

verus! {

/// Largest number of taps in one window: with `i32` coefficients and 16-bit
/// components the sum then fits in an `i64`.
pub const MAX_TAPS: u32 = 0x8000;

/// The number of fractional bits of the 16-bit coefficients derived from `ws`.
pub open spec fn precision16(ws: Seq<Weight>) -> int {
    derived_precision(ws, 46, 0x8000_0000)
}

/// The `i32` fixed-point coefficients derived from `ws`.
pub open spec fn coefficients16(ws: Seq<Weight>) -> Seq<int> {
    fixed_point(ws, precision16(ws), -0x8000_0000, 0x7fff_ffff)
}

/// The coefficients of destination row `y`.
pub open spec fn row_taps(ws: Seq<Weight>, window_size: int, bounds: Seq<Bound>, y: int) -> Seq<int> {
    coefficients16(ws).subrange(y * window_size, y * window_size + bounds[y].size)
}

/// `sum of src[start + j][x] * ks[j]` over the taps `ks`.
pub open spec fn column_sum(src: Seq<Vec<u16>>, start: int, ks: Seq<int>, x: int) -> int
    decreases ks.len(),
{
    if ks.len() == 0 {
        0
    } else {
        column_sum(src, start, ks.drop_last(), x) + src[start + ks.len() - 1]@[x] as int
            * ks.last()
    }
}

/// A 16-bit component from an accumulated sum with `p` fractional bits and
/// the rounding bias.
pub open spec fn clip16(sum: int, p: int) -> int {
    clamp(shr(pow2((p - 1) as nat) + sum, p as nat), 0, 65535)
}

/// Component `x` of destination row `y`.
pub open spec fn vert_component(
    src: Seq<Vec<u16>>,
    ws: Seq<Weight>,
    window_size: int,
    bounds: Seq<Bound>,
    y: int,
    x: int,
) -> int {
    clip16(
        column_sum(src, bounds[y].start as int, row_taps(ws, window_size, bounds, y), x),
        precision16(ws),
    )
}

/// What the vertical pass asks of its inputs: the weights fit at 4 bits, one
/// bound per destination row, rows of the same width in both images, and
/// every window inside the source image with at most `MAX_TAPS` taps.
pub open spec fn vert_requires(src: Seq<Vec<u16>>, dst: Seq<Vec<u16>>, coeffs: Coefficients) -> bool {
    &&& coeffs.wf()
    &&& fits(coeffs.values@, 4, 0x8000_0000)
    &&& coeffs.bounds@.len() == dst.len()
    &&& forall|i: int, j: int|
        0 <= i < src.len() && 0 <= j < dst.len() ==> (#[trigger] src[i])@.len() == (#[trigger] dst[
            j])@.len()
    &&& forall|y: int|
        0 <= y < coeffs.bounds@.len() ==> #[trigger] coeffs.bounds@[y].start
            + coeffs.bounds@[y].size <= src.len() && coeffs.bounds@[y].size <= MAX_TAPS
}

pub proof fn lemma_column_sum_step(src: Seq<Vec<u16>>, start: int, ks: Seq<int>, j: int, x: int)
    requires
        0 <= j < ks.len(),
    ensures
        column_sum(src, start, ks.take(j + 1), x) == column_sum(src, start, ks.take(j), x)
            + src[start + j]@[x] as int * ks[j],
{
    assert(ks.take(j + 1).drop_last() =~= ks.take(j));
}

pub proof fn lemma_term_bound(c: int, k: int)
    requires
        0 <= c <= 0xffff,
        -0x8000_0000 <= k <= 0x7fff_ffff,
    ensures
        -0x8000_0000_0000 <= c * k <= 0x8000_0000_0000,
{
    assert(-0x8000_0000_0000 <= c * k <= 0x8000_0000_0000) by (nonlinear_arith)
        requires 0 <= c <= 0xffff, -0x8000_0000 <= k <= 0x7fff_ffff;
}

/// Fills `dst_components` from index `x_src` on: component `x` becomes the
/// sum of column `x` of the source rows from `first_y_src`, weighted by `ks`,
/// plus `initial`, clipped by the guard. Returns the index after the last one
/// written.
pub fn convolution_by_u16(
    src_image: &Vec<Vec<u16>>,
    normalizer_guard: &NormalizerGuard32,
    initial: i64,
    dst_components: &mut Vec<u16>,
    x_src: usize,
    first_y_src: u32,
    ks: &[i32],
) -> (r: usize)
    requires
        normalizer_guard.wf(),
        initial == pow2((normalizer_guard.spec_precision() - 1) as nat),
        x_src <= old(dst_components)@.len(),
        first_y_src + ks@.len() <= src_image@.len(),
        ks@.len() <= MAX_TAPS,
        forall|j: int|
            0 <= j < ks@.len() ==> old(dst_components)@.len() <= (#[trigger] src_image@[first_y_src
                + j])@.len(),
    ensures
        r == final(dst_components)@.len(),
        final(dst_components)@.len() == old(dst_components)@.len(),
        forall|x: int| 0 <= x < x_src ==> #[trigger] final(dst_components)@[x] == old(dst_components)@[x],
        forall|x: int|
            x_src <= x < final(dst_components)@.len() ==> #[trigger] final(dst_components)@[x] as int
                == clip16(
                column_sum(src_image@, first_y_src as int, ks@.map_values(|k: i32| k as int), x),
                normalizer_guard.spec_precision() as int,
            ),
{
    let ghost taps = ks@.map_values(|k: i32| k as int);
    let ghost old_dst = dst_components@;
    let ghost p = normalizer_guard.spec_precision() as int;
    proof {
        normalizer_guard.lemma_precision_range();
        lemma_pow2_strictly_increases((p - 1) as nat, 45);
        vstd::arithmetic::power2::lemma2_to64();
        vstd::arithmetic::power2::lemma2_to64_rest();
    }
    let width = dst_components.len();
    let src_height = src_image.len();
    let n = ks.len();
    let mut x = x_src;
    while x < width
        invariant
            x_src <= x <= width,
            width == dst_components@.len(),
            dst_components@.len() == old_dst.len(),
            normalizer_guard.wf(),
            p == normalizer_guard.spec_precision(),
            initial == pow2((p - 1) as nat),
            0 <= initial < 0x2000_0000_0000,
            n == ks@.len(),
            taps == ks@.map_values(|k: i32| k as int),
            first_y_src + n <= src_image@.len(),
            src_height == src_image@.len(),
            n <= MAX_TAPS,
            forall|j: int|
                0 <= j < n ==> width <= (#[trigger] src_image@[first_y_src + j])@.len(),
            forall|i: int| 0 <= i < x_src ==> #[trigger] dst_components@[i] == old_dst[i],
            forall|i: int|
                x_src <= i < x ==> #[trigger] dst_components@[i] as int == clip16(
                    column_sum(src_image@, first_y_src as int, taps, i),
                    p,
                ),
        decreases width - x,
    {
        let mut ss: i64 = initial;
        let mut j: usize = 0;
        proof {
            assert(taps.take(0) =~= Seq::<int>::empty());
        }
        while j < n
            invariant
                j <= n,
                x < width,
                n == ks@.len(),
                taps == ks@.map_values(|k: i32| k as int),
                first_y_src + n <= src_image@.len(),
                src_height == src_image@.len(),
                n <= MAX_TAPS,
                forall|i: int|
                    0 <= i < n ==> width <= (#[trigger] src_image@[first_y_src + i])@.len(),
                0 <= initial < 0x2000_0000_0000,
                ss == initial + column_sum(src_image@, first_y_src as int, taps.take(j as int), x as int),
                -0x8000_0000_0000 * j <= ss - initial <= 0x8000_0000_0000 * j,
            decreases n - j,
        {
            let row = &src_image[first_y_src as usize + j];
            let k = ks[j];
            let component = row[x];
            proof {
                lemma_column_sum_step(src_image@, first_y_src as int, taps, j as int, x as int);
                lemma_term_bound(component as int, k as int);
            }
            ss = ss + component as i64 * (k as i64);
            j += 1;
        }
        proof {
            assert(taps.take(n as int) =~= taps);
        }
        dst_components.set(x, normalizer_guard.clip(ss));
        x += 1;
    }
    x
}

/// Convolves every destination row `y` with its window of source rows:
/// component `x` becomes `vert_component(src, .., y, x)`.
pub fn vert_convolution(src_image: &Vec<Vec<u16>>, dst_image: &mut Vec<Vec<u16>>, coeffs: Coefficients)
    requires
        vert_requires(src_image@, old(dst_image)@, coeffs),
    ensures
        final(dst_image)@.len() == old(dst_image)@.len(),
        forall|y: int|
            0 <= y < final(dst_image)@.len() ==> (#[trigger] final(dst_image)@[y])@.len() == old(
                dst_image,
            )@[y]@.len(),
        forall|y: int, x: int|
            0 <= y < final(dst_image)@.len() && 0 <= x < final(dst_image)@[y]@.len()
                ==> #[trigger] final(dst_image)@[y]@[x] as int == vert_component(
                src_image@,
                coeffs.values@,
                coeffs.window_size as int,
                coeffs.bounds@,
                y,
                x,
            ),
{
    let ghost ws = coeffs.values@;
    let ghost old_dst = dst_image@;
    let Coefficients { values, window_size, bounds } = coeffs;
    let normalizer_guard = NormalizerGuard32::new(values);
    let coefficients_chunks = normalizer_guard.normalized_chunks(window_size, bounds.as_slice());
    let precision = normalizer_guard.precision();
    proof {
        normalizer_guard.lemma_precision_range();
        lemma_pow2_strictly_increases((precision - 1) as nat, 45);
        vstd::arithmetic::power2::lemma2_to64();
        vstd::arithmetic::power2::lemma2_to64_rest();
    }
    let initial = pow2_u64((precision - 1) as u32) as i64;
    let height = dst_image.len();
    let mut y: usize = 0;
    while y < height
        invariant
            y <= height,
            height == dst_image@.len(),
            dst_image@.len() == old_dst.len(),
            vert_requires(src_image@, old_dst, coeffs),
            ws == coeffs.values@,
            window_size == coeffs.window_size,
            bounds@ == coeffs.bounds@,
            normalizer_guard.wf(),
            normalizer_guard.spec_precision() == precision16(ws),
            normalizer_guard.coefficients().len() == ws.len(),
            forall|i: int|
                0 <= i < ws.len() ==> #[trigger] normalizer_guard.coefficients()[i] as int
                    == coefficients16(ws)[i],
            initial == pow2((precision16(ws) - 1) as nat),
            coefficients_chunks@.len() == bounds@.len(),
            forall|i: int|
                0 <= i < bounds@.len() ==> {
                    &&& (#[trigger] coefficients_chunks@[i]).start == bounds@[i].start
                    &&& coefficients_chunks@[i].values@ == normalizer_guard.coefficients().subrange(
                        i * window_size,
                        i * window_size + bounds@[i].size,
                    )
                },
            forall|j: int| y <= j < height ==> #[trigger] dst_image@[j] == old_dst[j],
            forall|j: int| 0 <= j < y ==> (#[trigger] dst_image@[j])@.len() == old_dst[j]@.len(),
            forall|j: int, x: int|
                0 <= j < y && 0 <= x < dst_image@[j]@.len() ==> #[trigger] dst_image@[j]@[x] as int
                    == vert_component(src_image@, ws, window_size as int, bounds@, j, x),
        decreases height - y,
    {
        let chunk = coefficients_chunks[y];
        let ghost taps = row_taps(ws, window_size as int, bounds@, y as int);
        proof {
            lemma_block_inside(ws.len() as int, window_size as int, bounds@, y as int);
            assert(chunk.values@.map_values(|k: i32| k as int) =~= taps);
            assert(bounds@[y as int].start + bounds@[y as int].size <= src_image@.len());
            assert forall|j: int| 0 <= j < chunk.values@.len() implies old_dst[y as int]@.len()
                <= (#[trigger] src_image@[chunk.start + j])@.len() by {
                assert(src_image@[chunk.start + j]@.len() == old_dst[y as int]@.len());
            }
        }
        let mut dst_components: Vec<u16> = Vec::new();
        std::mem::swap(&mut dst_components, &mut dst_image[y]);
        convolution_by_u16(
            src_image,
            &normalizer_guard,
            initial,
            &mut dst_components,
            0,
            chunk.start,
            chunk.values,
        );
        dst_image.set(y, dst_components);
        y += 1;
    }
}

} // verus!
