use fast_image_resize::convolution::{Bound, Coefficients};
use fast_image_resize::horizontal::{horiz_convolution, U8x3};
use fast_image_resize::optimisations::NormalizerGuard32;
use fast_image_resize::vertical_u16::{convolution_by_u16, vert_convolution};
use fast_image_resize::vertical_u16_lanes::{self, vert_convolution_into_one_row_u16};
use fast_image_resize::weight::Weight;

fn w(x: f64) -> Weight {
    Weight::from_f64_bits(x.to_bits()).unwrap()
}

fn ws(xs: &[f64]) -> Vec<Weight> {
    xs.iter().map(|&x| w(x)).collect()
}

struct Lcg(u64);

impl Lcg {
    fn next(&mut self) -> u64 {
        self.0 = self.0.wrapping_mul(6364136223846793005).wrapping_add(1442695040888963407);
        self.0 >> 33
    }
}

#[test]
fn identity_kernel_reproduces_pixels() {
    let pixels = [[0u8, 0, 0], [255, 255, 255], [1, 128, 254], [17, 200, 3]];
    for p in pixels.iter() {
        let src = vec![vec![U8x3(*p)]];
        let mut dst = vec![vec![U8x3([9, 9, 9])]];
        let coeffs = Coefficients {
            values: ws(&[1.0]),
            window_size: 1,
            bounds: vec![Bound { start: 0, size: 1 }],
        };
        horiz_convolution(&src, &mut dst, 0, coeffs);
        assert_eq!(dst[0][0], U8x3(*p));
    }
}

#[test]
fn horizontal_box_filter_averages_triples() {
    let row: Vec<U8x3> = vec![
        U8x3([10, 20, 30]),
        U8x3([11, 21, 31]),
        U8x3([12, 22, 32]),
        U8x3([0, 255, 100]),
        U8x3([0, 255, 101]),
        U8x3([0, 255, 102]),
        U8x3([200, 1, 7]),
        U8x3([100, 2, 8]),
        U8x3([50, 4, 9]),
    ];
    let third = 1.0 / 3.0;
    let coeffs = Coefficients {
        values: ws(&[third; 9]),
        window_size: 3,
        bounds: vec![
            Bound { start: 0, size: 3 },
            Bound { start: 3, size: 3 },
            Bound { start: 6, size: 3 },
        ],
    };
    let src = vec![row.clone()];
    let mut dst = vec![vec![U8x3([0, 0, 0]); 3]];
    horiz_convolution(&src, &mut dst, 0, coeffs);
    for x in 0..3 {
        for c in 0..3 {
            let sum: i32 = (0..3).map(|j| row[3 * x + j].0[c] as i32).sum();
            let mean = sum as f64 / 3.0;
            let got = dst[0][x].0[c] as f64;
            assert!((got - mean).abs() <= 1.0, "{} {} {} {}", x, c, got, mean);
        }
    }
    assert_eq!(dst[0][0], U8x3([11, 21, 31]));
    assert_eq!(dst[0][1], U8x3([0, 255, 101]));
}

#[test]
fn horizontal_uses_row_offset() {
    let src = vec![
        vec![U8x3([1, 1, 1]), U8x3([2, 2, 2])],
        vec![U8x3([10, 20, 30]), U8x3([40, 50, 60])],
        vec![U8x3([70, 80, 90]), U8x3([100, 110, 120])],
    ];
    let mut dst = vec![vec![U8x3([0, 0, 0])], vec![U8x3([0, 0, 0])]];
    let coeffs = Coefficients {
        values: ws(&[0.5, 0.5]),
        window_size: 2,
        bounds: vec![Bound { start: 0, size: 2 }],
    };
    horiz_convolution(&src, &mut dst, 1, coeffs);
    assert_eq!(dst[0][0], U8x3([25, 35, 45]));
    assert_eq!(dst[1][0], U8x3([85, 95, 105]));
}

#[test]
fn horizontal_saturates_sharpening_kernel() {
    let src = vec![vec![U8x3([250, 0, 100]), U8x3([10, 255, 100]), U8x3([250, 0, 100])]];
    let mut dst = vec![vec![U8x3([0, 0, 0])]];
    let coeffs = Coefficients {
        values: ws(&[-0.5, 2.0, -0.5]),
        window_size: 3,
        bounds: vec![Bound { start: 0, size: 3 }],
    };
    horiz_convolution(&src, &mut dst, 0, coeffs);
    assert_eq!(dst[0][0], U8x3([0, 255, 100]));
}

fn random_case(rng: &mut Lcg, width: usize, src_h: usize, dst_h: usize, max_window: usize) -> (Vec<Vec<u16>>, Coefficients) {
    let src: Vec<Vec<u16>> =
        (0..src_h).map(|_| (0..width).map(|_| (rng.next() & 0xffff) as u16).collect()).collect();
    let window_size = max_window;
    let mut values = Vec::new();
    let mut bounds = Vec::new();
    for _ in 0..dst_h {
        let size = 1 + (rng.next() as usize) % max_window;
        let start = (rng.next() as usize) % (src_h - size + 1);
        for j in 0..window_size {
            let x = if j < size { (rng.next() % 2000) as f64 / 1000.0 - 0.5 } else { 0.0 };
            values.push(w(x));
        }
        bounds.push(Bound { start: start as u32, size: size as u32 });
    }
    (src, Coefficients { values, window_size, bounds })
}

fn clone_coeffs(c: &Coefficients) -> Coefficients {
    Coefficients { values: c.values.clone(), window_size: c.window_size, bounds: c.bounds.clone() }
}

#[test]
fn vertical_lanes_match_portable() {
    let mut rng = Lcg(7);
    for &columns in [1usize, 15, 16, 17, 63].iter() {
        for channels in 1..=4usize {
            for max_window in 1..=8usize {
                let width = columns * channels;
                let (src, coeffs) = random_case(&mut rng, width, 12, 5, max_window);
                let mut dst_portable = vec![vec![0u16; width]; 5];
                let mut dst_lanes = vec![vec![1u16; width]; 5];
                vert_convolution(&src, &mut dst_portable, clone_coeffs(&coeffs));
                vertical_u16_lanes::vert_convolution(&src, &mut dst_lanes, coeffs);
                assert_eq!(dst_portable, dst_lanes, "{} {} {}", columns, channels, max_window);
            }
        }
    }
}

#[test]
fn vertical_box_filter_rounds_mean() {
    let src = vec![vec![1000u16, 0, 65535], vec![2000, 1, 65535], vec![3001, 1, 65535]];
    let mut dst = vec![vec![0u16; 3]];
    let third = 1.0 / 3.0;
    let coeffs = Coefficients {
        values: ws(&[third, third, third]),
        window_size: 3,
        bounds: vec![Bound { start: 0, size: 3 }],
    };
    vert_convolution(&src, &mut dst, coeffs);
    assert_eq!(dst[0], vec![2000, 1, 65535]);
}

#[test]
fn vertical_identity_rows() {
    let src = vec![vec![5u16, 6, 7], vec![50, 60, 70]];
    let mut dst = vec![vec![0u16; 3]; 2];
    let coeffs = Coefficients {
        values: ws(&[1.0, 1.0]),
        window_size: 1,
        bounds: vec![Bound { start: 1, size: 1 }, Bound { start: 0, size: 1 }],
    };
    vert_convolution(&src, &mut dst, coeffs);
    assert_eq!(dst, vec![vec![50, 60, 70], vec![5, 6, 7]]);
}

#[test]
fn convolution_by_u16_starts_at_offset() {
    let src = vec![vec![100u16, 200, 300, 400], vec![300, 400, 500, 600]];
    let guard = NormalizerGuard32::new(ws(&[0.5, 0.5]));
    let p = guard.precision();
    let chunks = guard.normalized_chunks(2, &[Bound { start: 0, size: 2 }]);
    let mut dst = vec![7u16; 4];
    let next = convolution_by_u16(&src, &guard, 1 << (p - 1), &mut dst, 2, 0, chunks[0].values);
    assert_eq!(next, 4);
    assert_eq!(dst, vec![7, 7, 400, 500]);
}

#[test]
fn one_row_lanes_handles_remainder() {
    let width = 21;
    let src: Vec<Vec<u16>> = (0..3).map(|y| (0..width).map(|x| (x * 1000 + y * 7) as u16).collect()).collect();
    let guard = NormalizerGuard32::new(ws(&[0.25, 0.5, 0.25]));
    let chunks = guard.normalized_chunks(3, &[Bound { start: 0, size: 3 }]);
    let mut dst = vec![0u16; width];
    vert_convolution_into_one_row_u16(&src, &mut dst, chunks[0], &guard);
    let expected: Vec<u16> = (0..width).map(|x| (x * 1000 + 7) as u16).collect();
    assert_eq!(dst, expected);
}
