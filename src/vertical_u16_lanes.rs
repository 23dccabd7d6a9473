use vstd::prelude::*;
use vstd::arithmetic::power2::{pow2, lemma_pow2_strictly_increases};
use crate::convolution::Coefficients;
use crate::horizontal::lemma_block_inside;
use crate::optimisations::{NormalizerGuard32, CoefficientsI32Chunk};
use crate::vertical_u16::{
    MAX_TAPS, clip16, column_sum, coefficients16, precision16, row_taps, vert_component,
    vert_requires, lemma_term_bound,
};
use crate::weight::pow2_u64;

verus! {

// A row is processed in groups of 16 components held in four accumulators of
// four 64-bit lanes each. Accumulator `i` takes the components at positions
// `2i, 2i + 1` of each half of the group: lanes 0 and 1 from the first half,
// lanes 2 and 3 from the second. A last group shorter than 16 is read through
// a zero-filled scratch buffer, and only its valid positions are written back.

/// The position in its group of lane `l` of accumulator `i`.
pub open spec fn lane_position(i: int, l: int) -> int {
    let offset: int = if l == 0 {
        0
    } else if l == 1 {
        1
    } else if l == 2 {
        8
    } else {
        9
    };
    2 * i + offset
}

/// Component `m` of the group of 16 loaded from `row` at `base`: zero past the
/// end of the row.
pub open spec fn loaded(row: Seq<u16>, base: int, m: int) -> int {
    if base + m < row.len() {
        row[base + m] as int
    } else {
        0
    }
}

/// `sum of loaded(src[start + j], base, m) * ks[j]` over the taps `ks`: the
/// sum that the lane of group position `m` holds.
pub open spec fn lane_sum(src: Seq<Vec<u16>>, start: int, ks: Seq<int>, base: int, m: int) -> int
    decreases ks.len(),
{
    if ks.len() == 0 {
        0
    } else {
        lane_sum(src, start, ks.drop_last(), base, m) + loaded(src[start + ks.len() - 1]@, base, m)
            * ks.last()
    }
}

/// The component at `x` as the lanes compute it: from the lane of position
/// `x % 16` in the group that starts at `x - x % 16`.
pub open spec fn lanes_component(src: Seq<Vec<u16>>, start: int, ks: Seq<int>, x: int, p: int) -> int {
    clip16(lane_sum(src, start, ks, x - x % 16, x % 16), p)
}

/// Where every tap's source row reaches past `x = base + m`, the lane of group
/// position `m` holds exactly the column sum of `x`: the grouped lanes and the
/// portable loop compute the same sums.
pub proof fn lemma_lanes_match_columns(
    src: Seq<Vec<u16>>,
    start: int,
    ks: Seq<int>,
    base: int,
    m: int,
)
    requires
        0 <= base,
        0 <= m < 16,
        0 <= start,
        start + ks.len() <= src.len(),
        forall|j: int| 0 <= j < ks.len() ==> base + m < (#[trigger] src[start + j])@.len(),
    ensures
        lane_sum(src, start, ks, base, m) == column_sum(src, start, ks, base + m),
    decreases ks.len(),
{
    if ks.len() > 0 {
        let last = ks.len() - 1;
        assert(base + m < src[start + last]@.len());
        lemma_lanes_match_columns(src, start, ks.drop_last(), base, m);
    }
}

/// Portable and grouped vertical convolution agree: for every component of a
/// row no wider than the source rows, the value the lanes give is the one the
/// portable loop gives.
pub proof fn lemma_lanes_component_is_portable(
    src: Seq<Vec<u16>>,
    start: int,
    ks: Seq<int>,
    x: int,
    p: int,
)
    requires
        0 <= x,
        0 <= start,
        start + ks.len() <= src.len(),
        forall|j: int| 0 <= j < ks.len() ==> x < (#[trigger] src[start + j])@.len(),
    ensures
        lanes_component(src, start, ks, x, p) == clip16(column_sum(src, start, ks, x), p),
{
    assert forall|j: int| 0 <= j < ks.len() implies (x - x % 16) + x % 16 < (#[trigger] src[start
        + j])@.len() by {
        assert(x < src[start + j]@.len());
    }
    lemma_lanes_match_columns(src, start, ks, x - x % 16, x % 16);
}

proof fn lemma_lane_sum_step(src: Seq<Vec<u16>>, start: int, ks: Seq<int>, base: int, m: int, j: int)
    requires
        0 <= j < ks.len(),
    ensures
        lane_sum(src, start, ks.take(j + 1), base, m) == lane_sum(src, start, ks.take(j), base, m)
            + loaded(src[start + j]@, base, m) * ks[j],
{
    assert(ks.take(j + 1).drop_last() =~= ks.take(j));
}

/// Loads 16 components of `row` from `base`, zero past the end of the row.
fn load_group(row: &Vec<u16>, base: usize) -> (r: [u16; 16])
    requires
        base <= row@.len(),
    ensures
        forall|m: int| 0 <= m < 16 ==> #[trigger] r@[m] as int == loaded(row@, base as int, m),
{
    let mut buf = [0u16; 16];
    let len = row.len();
    let mut m: usize = 0;
    while m < 16
        invariant
            m <= 16,
            base <= len,
            len == row@.len(),
            buf@.len() == 16,
            forall|i: int| 0 <= i < m ==> #[trigger] buf@[i] as int == loaded(row@, base as int, i),
            forall|i: int| m <= i < 16 ==> #[trigger] buf@[i] == 0,
        decreases 16 - m,
    {
        if m < len - base {
            buf[m] = row[base + m];
        }
        m += 1;
    }
    buf
}

/// Widens the components of accumulator `i` to four 64-bit lanes.
fn widen(source: &[u16; 16], i: usize) -> (r: [i64; 4])
    requires
        i < 4,
    ensures
        forall|l: int| 0 <= l < 4 ==> #[trigger] r@[l] == source@[lane_position(i as int, l)],
{
    [source[2 * i] as i64, source[2 * i + 1] as i64, source[2 * i + 8] as i64, source[2 * i + 9] as i64]
}

/// The 16 clipped components of the group at `base`.
fn convolve_group(
    src_img: &Vec<Vec<u16>>,
    start: u32,
    coeffs: &[i32],
    base: usize,
    normalizer_guard: &NormalizerGuard32,
    initial: i64,
) -> (r: [u16; 16])
    requires
        normalizer_guard.wf(),
        initial == pow2((normalizer_guard.spec_precision() - 1) as nat),
        start + coeffs@.len() <= src_img@.len(),
        coeffs@.len() <= MAX_TAPS,
        forall|j: int| 0 <= j < coeffs@.len() ==> base <= (#[trigger] src_img@[start + j])@.len(),
    ensures
        forall|m: int|
            0 <= m < 16 ==> #[trigger] r@[m] as int == clip16(
                lane_sum(
                    src_img@,
                    start as int,
                    coeffs@.map_values(|k: i32| k as int),
                    base as int,
                    m,
                ),
                normalizer_guard.spec_precision() as int,
            ),
{
    let ghost taps = coeffs@.map_values(|k: i32| k as int);
    let ghost p = normalizer_guard.spec_precision() as int;
    proof {
        normalizer_guard.lemma_precision_range();
        lemma_pow2_strictly_increases((p - 1) as nat, 45);
        vstd::arithmetic::power2::lemma2_to64();
        vstd::arithmetic::power2::lemma2_to64_rest();
        assert(taps.take(0) =~= Seq::<int>::empty());
    }
    let src_height = src_img.len();
    let n = coeffs.len();
    let mut sum: [[i64; 4]; 4] = [[initial; 4]; 4];
    let mut j: usize = 0;
    while j < n
        invariant
            j <= n,
            n == coeffs@.len(),
            taps == coeffs@.map_values(|k: i32| k as int),
            start + n <= src_img@.len(),
            src_height == src_img@.len(),
            n <= MAX_TAPS,
            forall|t: int| 0 <= t < n ==> base <= (#[trigger] src_img@[start + t])@.len(),
            0 <= initial < 0x2000_0000_0000,
            forall|a: int, l: int|
                0 <= a < 4 && 0 <= l < 4 ==> #[trigger] sum@[a]@[l] == initial + lane_sum(
                    src_img@,
                    start as int,
                    taps.take(j as int),
                    base as int,
                    lane_position(a, l),
                ),
            forall|a: int, l: int|
                0 <= a < 4 && 0 <= l < 4 ==> -0x8000_0000_0000 * j <= #[trigger] sum@[a]@[l]
                    - initial <= 0x8000_0000_0000 * j,
        decreases n - j,
    {
        let row = &src_img[start as usize + j];
        let coeff = coeffs[j] as i64;
        let source = load_group(row, base);
        let mut i: usize = 0;
        while i < 4
            invariant
                i <= 4,
                j < n,
                n == coeffs@.len(),
                taps == coeffs@.map_values(|k: i32| k as int),
                coeff == taps[j as int],
                start + n <= src_img@.len(),
                *row == src_img@[start + j],
                forall|m: int|
                    0 <= m < 16 ==> #[trigger] source@[m] as int == loaded(row@, base as int, m),
                0 <= initial < 0x2000_0000_0000,
                n <= MAX_TAPS,
                forall|a: int, l: int|
                    0 <= a < 4 && 0 <= l < 4 ==> #[trigger] sum@[a]@[l] == initial + lane_sum(
                        src_img@,
                        start as int,
                        taps.take(if a < i {
                            j + 1
                        } else {
                            j as int
                        }),
                        base as int,
                        lane_position(a, l),
                    ),
                forall|a: int, l: int|
                    0 <= a < 4 && 0 <= l < 4 ==> -0x8000_0000_0000 * (if a < i {
                        j + 1
                    } else {
                        j as int
                    }) <= #[trigger] sum@[a]@[l] - initial <= 0x8000_0000_0000 * (if a < i {
                        j + 1
                    } else {
                        j as int
                    }),
            decreases 4 - i,
        {
            let lanes = widen(&source, i);
            let mut acc = sum[i];
            let mut l: usize = 0;
            while l < 4
                invariant
                    l <= 4,
                    i < 4,
                    j < n,
                    n <= MAX_TAPS,
                    coeff == taps[j as int],
                    n == coeffs@.len(),
                    taps == coeffs@.map_values(|k: i32| k as int),
                    0 <= initial < 0x2000_0000_0000,
                    forall|m: int|
                        0 <= m < 4 ==> #[trigger] lanes@[m] == source@[lane_position(i as int, m)],
                    forall|m: int|
                        0 <= m < 16 ==> #[trigger] source@[m] as int == loaded(row@, base as int, m),
                    *row == src_img@[start + j],
                    forall|m: int|
                        0 <= m < l ==> #[trigger] acc@[m] == initial + lane_sum(
                            src_img@,
                            start as int,
                            taps.take(j + 1),
                            base as int,
                            lane_position(i as int, m),
                        ),
                    forall|m: int|
                        l <= m < 4 ==> #[trigger] acc@[m] == initial + lane_sum(
                            src_img@,
                            start as int,
                            taps.take(j as int),
                            base as int,
                            lane_position(i as int, m),
                        ),
                    forall|m: int|
                        0 <= m < l ==> -0x8000_0000_0000 * (j + 1) <= #[trigger] acc@[m] - initial
                            <= 0x8000_0000_0000 * (j + 1),
                    forall|m: int|
                        l <= m < 4 ==> -0x8000_0000_0000 * j <= #[trigger] acc@[m] - initial
                            <= 0x8000_0000_0000 * j,
                decreases 4 - l,
            {
                proof {
                    lemma_lane_sum_step(
                        src_img@,
                        start as int,
                        taps,
                        base as int,
                        lane_position(i as int, l as int),
                        j as int,
                    );
                    lemma_term_bound(lanes@[l as int] as int, coeff as int);
                }
                acc[l] = acc[l] + lanes[l] * coeff;
                l += 1;
            }
            sum[i] = acc;
            i += 1;
        }
        j += 1;
    }
    proof {
        assert(taps.take(n as int) =~= taps);
    }
    let mut out = [0u16; 16];
    let mut i: usize = 0;
    while i < 4
        invariant
            i <= 4,
            normalizer_guard.wf(),
            p == normalizer_guard.spec_precision(),
            initial == pow2((p - 1) as nat),
            forall|a: int, l: int|
                0 <= a < 4 && 0 <= l < 4 ==> #[trigger] sum@[a]@[l] == initial + lane_sum(
                    src_img@,
                    start as int,
                    taps,
                    base as int,
                    lane_position(a, l),
                ),
            forall|a: int, l: int|
                0 <= a < i && 0 <= l < 4 ==> #[trigger] out@[lane_position(a, l)] as int == clip16(
                    lane_sum(src_img@, start as int, taps, base as int, lane_position(a, l)),
                    p,
                ),
        decreases 4 - i,
    {
        let acc = sum[i];
        proof {
            assert(acc@[0] == sum@[i as int]@[0]);
            assert(acc@[1] == sum@[i as int]@[1]);
            assert(acc@[2] == sum@[i as int]@[2]);
            assert(acc@[3] == sum@[i as int]@[3]);
        }
        out[2 * i] = normalizer_guard.clip(acc[0]);
        out[2 * i + 1] = normalizer_guard.clip(acc[1]);
        out[2 * i + 8] = normalizer_guard.clip(acc[2]);
        out[2 * i + 9] = normalizer_guard.clip(acc[3]);
        proof {
            assert(lane_position(i as int, 0) == 2 * i);
            assert(lane_position(i as int, 1) == 2 * i + 1);
            assert(lane_position(i as int, 2) == 2 * i + 8);
            assert(lane_position(i as int, 3) == 2 * i + 9);
            assert forall|a: int, l: int| 0 <= a < i + 1 && 0 <= l < 4 implies #[trigger] out@[lane_position(a, l)] as int
                == clip16(
                lane_sum(src_img@, start as int, taps, base as int, lane_position(a, l)),
                p,
            ) by {
                if a == i {
                    assert(sum@[a]@[l] == initial + lane_sum(
                        src_img@,
                        start as int,
                        taps,
                        base as int,
                        lane_position(a, l),
                    ));
                }
            }
        }
        i += 1;
    }
    proof {
        assert forall|m: int| 0 <= m < 16 implies #[trigger] out@[m] as int == clip16(
            lane_sum(src_img@, start as int, taps, base as int, m),
            p,
        ) by {
            let a = (m % 8) / 2;
            let l = m % 2 + 2 * (m / 8);
            assert(lane_position(a, l) == m);
        }
    }
    out
}

/// Writes the first `count` components of `group` to `dst` from `base` on.
fn store_group(dst: &mut Vec<u16>, base: usize, group: &[u16; 16], count: usize)
    requires
        count <= 16,
        base + count <= old(dst)@.len(),
    ensures
        final(dst)@.len() == old(dst)@.len(),
        forall|x: int|
            0 <= x < final(dst)@.len() ==> #[trigger] final(dst)@[x] == if base <= x < base + count {
                group@[x - base]
            } else {
                old(dst)@[x]
            },
{
    let ghost before = dst@;
    let len = dst.len();
    let mut m: usize = 0;
    while m < count
        invariant
            m <= count <= 16,
            len == dst@.len(),
            base + count <= dst@.len(),
            dst@.len() == before.len(),
            forall|x: int|
                0 <= x < dst@.len() ==> #[trigger] dst@[x] == if base <= x < base + m {
                    group@[x - base]
                } else {
                    before[x]
                },
        decreases count - m,
    {
        dst.set(base + m, group[m]);
        m += 1;
    }
}

/// Convolves one destination row in groups of 16 components: component `x`
/// becomes `lanes_component` of `x`, the value the portable loop gives too
/// (`lemma_lanes_component_is_portable`).
pub fn vert_convolution_into_one_row_u16(
    src_img: &Vec<Vec<u16>>,
    dst_row: &mut Vec<u16>,
    coeffs_chunk: CoefficientsI32Chunk,
    normalizer_guard: &NormalizerGuard32,
)
    requires
        normalizer_guard.wf(),
        coeffs_chunk.start + coeffs_chunk.values@.len() <= src_img@.len(),
        coeffs_chunk.values@.len() <= MAX_TAPS,
        forall|j: int|
            0 <= j < coeffs_chunk.values@.len() ==> old(dst_row)@.len() <= (#[trigger] src_img@[coeffs_chunk.start
                + j])@.len(),
    ensures
        final(dst_row)@.len() == old(dst_row)@.len(),
        forall|x: int|
            0 <= x < final(dst_row)@.len() ==> #[trigger] final(dst_row)@[x] as int == lanes_component(
                src_img@,
                coeffs_chunk.start as int,
                coeffs_chunk.values@.map_values(|k: i32| k as int),
                x,
                normalizer_guard.spec_precision() as int,
            ),
{
    let ghost taps = coeffs_chunk.values@.map_values(|k: i32| k as int);
    let ghost p = normalizer_guard.spec_precision() as int;
    let precision = normalizer_guard.precision();
    proof {
        normalizer_guard.lemma_precision_range();
        lemma_pow2_strictly_increases((precision - 1) as nat, 45);
        vstd::arithmetic::power2::lemma2_to64();
        vstd::arithmetic::power2::lemma2_to64_rest();
    }
    let initial = pow2_u64((precision - 1) as u32) as i64;
    let y_start = coeffs_chunk.start;
    let coeffs = coeffs_chunk.values;
    let width = dst_row.len();
    let mut xx: usize = 0;
    while width - xx >= 16
        invariant
            xx <= width,
            xx % 16 == 0,
            width == dst_row@.len(),
            normalizer_guard.wf(),
            p == normalizer_guard.spec_precision(),
            initial == pow2((p - 1) as nat),
            coeffs@ == coeffs_chunk.values@,
            taps == coeffs_chunk.values@.map_values(|k: i32| k as int),
            y_start == coeffs_chunk.start,
            y_start + coeffs@.len() <= src_img@.len(),
            coeffs@.len() <= MAX_TAPS,
            forall|j: int|
                0 <= j < coeffs@.len() ==> width <= (#[trigger] src_img@[y_start + j])@.len(),
            forall|x: int|
                0 <= x < xx ==> #[trigger] dst_row@[x] as int == lanes_component(
                    src_img@,
                    y_start as int,
                    taps,
                    x,
                    p,
                ),
        decreases width - xx,
    {
        let group = convolve_group(src_img, y_start, coeffs, xx, normalizer_guard, initial);
        store_group(dst_row, xx, &group, 16);
        proof {
            assert forall|x: int| xx <= x < xx + 16 implies #[trigger] dst_row@[x] as int
                == lanes_component(src_img@, y_start as int, taps, x, p) by {
                assert(x - x % 16 == xx && x % 16 == x - xx);
                assert(group@[x - xx] as int == clip16(
                    lane_sum(src_img@, y_start as int, taps, xx as int, x - xx),
                    p,
                ));
            }
        }
        xx += 16;
    }
    if xx < width {
        let group = convolve_group(src_img, y_start, coeffs, xx, normalizer_guard, initial);
        store_group(dst_row, xx, &group, width - xx);
        proof {
            assert forall|x: int| xx <= x < width implies #[trigger] dst_row@[x] as int
                == lanes_component(src_img@, y_start as int, taps, x, p) by {
                assert(x - x % 16 == xx && x % 16 == x - xx);
                assert(group@[x - xx] as int == clip16(
                    lane_sum(src_img@, y_start as int, taps, xx as int, x - xx),
                    p,
                ));
            }
        }
    }
}

/// Convolves every destination row `y` with its window of source rows, in
/// groups of 16 components: component `x` becomes
/// `vert_component(src, .., y, x)`, exactly as the portable pass computes it.
pub fn vert_convolution(src_image: &Vec<Vec<u16>>, dst_image: &mut Vec<Vec<u16>>, coeffs: Coefficients)
    requires
        vert_requires(src_image@, old(dst_image)@, coeffs),
    ensures
        final(dst_image)@.len() == old(dst_image)@.len(),
        forall|y: int|
            0 <= y < final(dst_image)@.len() ==> (#[trigger] final(dst_image)@[y])@.len() == old(
                dst_image,
            )@[y]@.len(),
        forall|y: int, x: int|
            0 <= y < final(dst_image)@.len() && 0 <= x < final(dst_image)@[y]@.len()
                ==> #[trigger] final(dst_image)@[y]@[x] as int == vert_component(
                src_image@,
                coeffs.values@,
                coeffs.window_size as int,
                coeffs.bounds@,
                y,
                x,
            ),
{
    let ghost ws = coeffs.values@;
    let ghost old_dst = dst_image@;
    let Coefficients { values, window_size, bounds } = coeffs;
    let normalizer_guard = NormalizerGuard32::new(values);
    let coefficients_chunks = normalizer_guard.normalized_chunks(window_size, bounds.as_slice());
    let height = dst_image.len();
    let mut y: usize = 0;
    while y < height
        invariant
            y <= height,
            height == dst_image@.len(),
            dst_image@.len() == old_dst.len(),
            vert_requires(src_image@, old_dst, coeffs),
            ws == coeffs.values@,
            window_size == coeffs.window_size,
            bounds@ == coeffs.bounds@,
            normalizer_guard.wf(),
            normalizer_guard.spec_precision() == precision16(ws),
            normalizer_guard.coefficients().len() == ws.len(),
            forall|i: int|
                0 <= i < ws.len() ==> #[trigger] normalizer_guard.coefficients()[i] as int
                    == coefficients16(ws)[i],
            coefficients_chunks@.len() == bounds@.len(),
            forall|i: int|
                0 <= i < bounds@.len() ==> {
                    &&& (#[trigger] coefficients_chunks@[i]).start == bounds@[i].start
                    &&& coefficients_chunks@[i].values@ == normalizer_guard.coefficients().subrange(
                        i * window_size,
                        i * window_size + bounds@[i].size,
                    )
                },
            forall|j: int| y <= j < height ==> #[trigger] dst_image@[j] == old_dst[j],
            forall|j: int| 0 <= j < y ==> (#[trigger] dst_image@[j])@.len() == old_dst[j]@.len(),
            forall|j: int, x: int|
                0 <= j < y && 0 <= x < dst_image@[j]@.len() ==> #[trigger] dst_image@[j]@[x] as int
                    == vert_component(src_image@, ws, window_size as int, bounds@, j, x),
        decreases height - y,
    {
        let chunk = coefficients_chunks[y];
        let ghost taps = row_taps(ws, window_size as int, bounds@, y as int);
        proof {
            lemma_block_inside(ws.len() as int, window_size as int, bounds@, y as int);
            assert(chunk.values@.map_values(|k: i32| k as int) =~= taps);
            assert(bounds@[y as int].start + bounds@[y as int].size <= src_image@.len());
            assert forall|j: int| 0 <= j < chunk.values@.len() implies old_dst[y as int]@.len()
                <= (#[trigger] src_image@[chunk.start + j])@.len() by {
                assert(src_image@[chunk.start + j]@.len() == old_dst[y as int]@.len());
            }
        }
        let mut dst_row: Vec<u16> = Vec::new();
        std::mem::swap(&mut dst_row, &mut dst_image[y]);
        vert_convolution_into_one_row_u16(src_image, &mut dst_row, chunk, &normalizer_guard);
        proof {
            assert forall|x: int| 0 <= x < dst_row@.len() implies #[trigger] dst_row@[x] as int
                == vert_component(src_image@, ws, window_size as int, bounds@, y as int, x) by {
                assert forall|j: int| 0 <= j < taps.len() implies x < (#[trigger] src_image@[chunk.start
                    + j])@.len() by {
                    assert(src_image@[chunk.start + j]@.len() == old_dst[y as int]@.len());
                }
                lemma_lanes_component_is_portable(
                    src_image@,
                    chunk.start as int,
                    taps,
                    x,
                    precision16(ws),
                );
            }
        }
        dst_image.set(y, dst_row);
        y += 1;
    }
}

} // verus!
