use fast_image_resize::convolution::Bound;
use fast_image_resize::optimisations::{get_clip_table, NormalizerGuard16, NormalizerGuard32};
use fast_image_resize::weight::{round_scaled_clamped, Weight};

fn w(x: f64) -> Weight {
    Weight::from_f64_bits(x.to_bits()).unwrap()
}

fn ws(xs: &[f64]) -> Vec<Weight> {
    xs.iter().map(|&x| w(x)).collect()
}

#[test]
fn test_minimal_precision() {
    // required for some SIMD optimisations
    assert!(NormalizerGuard16::new(ws(&[0.0])).precision() >= 4);
    assert!(NormalizerGuard16::new(ws(&[2.0])).precision() >= 4);
    assert!(NormalizerGuard32::new(ws(&[0.0])).precision() >= 4);
    assert!(NormalizerGuard32::new(ws(&[2.0])).precision() >= 4);
}

#[test]
fn weight_from_f64_bits_decodes_doubles() {
    assert_eq!(w(1.0), Weight { mantissa: 1 << 52, exponent: -52 });
    assert_eq!(w(-0.5), Weight { mantissa: -(1 << 52), exponent: -53 });
    assert_eq!(w(0.0), Weight { mantissa: 0, exponent: -1074 });
    assert_eq!(w(3.0), Weight { mantissa: 3 << 51, exponent: -51 });
    let tiny = f64::from_bits(1);
    assert_eq!(w(tiny), Weight { mantissa: 1, exponent: -1074 });
    assert_eq!(Weight::from_f64_bits(f64::INFINITY.to_bits()), None);
    assert_eq!(Weight::from_f64_bits(f64::NAN.to_bits()), None);
}

#[test]
fn rounding_matches_f64_round() {
    let samples = [0.0, 0.25, 0.5, 1.5, 2.5, -0.5, -1.5, 1.0 / 3.0, -2.0 / 3.0, 0.123456789, 7.75];
    for &x in samples.iter() {
        for k in 0..30u32 {
            let expected = (x * (1i64 << k) as f64).round() as i64;
            assert_eq!(round_scaled_clamped(&w(x), k, -(1 << 40), 1 << 40), expected, "{} {}", x, k);
        }
    }
}

#[test]
fn rounding_saturates() {
    assert_eq!(round_scaled_clamped(&w(1.0e300), 10, -100, 100), 100);
    assert_eq!(round_scaled_clamped(&w(-1.0e300), 10, -100, 100), -100);
    assert_eq!(round_scaled_clamped(&w(1.0e-300), 10, -100, 100), 0);
}

#[test]
fn precision_of_unit_weight() {
    // 2^(p + 1) reaches 2^15 first at p = 14, 2^31 first at p = 30.
    assert_eq!(NormalizerGuard16::new(ws(&[1.0])).precision(), 14);
    assert_eq!(NormalizerGuard32::new(ws(&[1.0])).precision(), 30);
    assert_eq!(NormalizerGuard16::new(ws(&[0.5, 1.0, 0.25])).precision(), 14);
    assert_eq!(NormalizerGuard16::new(ws(&[2.0])).precision(), 13);
}

#[test]
fn precision_of_degenerate_weights() {
    assert_eq!(NormalizerGuard16::new(ws(&[0.0])).precision(), 21);
    assert_eq!(NormalizerGuard16::new(Vec::new()).precision(), 21);
    assert_eq!(NormalizerGuard32::new(ws(&[0.0, -1.0])).precision(), 45);
}

#[test]
fn precision_keeps_largest_weight_in_range() {
    let weights = [0.1, 0.7, 0.2, 1.3, -0.4];
    let g16 = NormalizerGuard16::new(ws(&weights));
    let p = g16.precision() as i32;
    assert!(p >= 4);
    assert!((1.3f64 * 2f64.powi(p)).round() < 32768.0);
    assert!((1.3f64 * 2f64.powi(p + 1)).round() >= 32768.0);
    let g32 = NormalizerGuard32::new(ws(&weights));
    let p = g32.precision() as i32;
    assert!((1.3f64 * 2f64.powi(p)).round() < 2147483648.0);
    assert!((1.3f64 * 2f64.powi(p + 1)).round() >= 2147483648.0);
}

#[test]
fn normalized_chunks_follow_bounds() {
    let weights = [0.25, 0.5, 0.25, 1.0, 0.0, 0.0, 0.5, 0.5, 0.0];
    let guard = NormalizerGuard16::new(ws(&weights));
    assert_eq!(guard.precision(), 14);
    let bounds = vec![
        Bound { start: 0, size: 3 },
        Bound { start: 2, size: 1 },
        Bound { start: 5, size: 2 },
    ];
    let chunks = guard.normalized_chunks(3, &bounds);
    assert_eq!(chunks.len(), 3);
    assert_eq!(chunks[0].start, 0);
    assert_eq!(chunks[0].values, &[4096, 8192, 4096][..]);
    assert_eq!(chunks[1].start, 2);
    assert_eq!(chunks[1].values, &[16384][..]);
    assert_eq!(chunks[2].start, 5);
    assert_eq!(chunks[2].values, &[8192, 8192][..]);

    let guard = NormalizerGuard32::new(ws(&weights));
    let chunks = guard.normalized_chunks(3, &bounds);
    assert_eq!(chunks[0].values, &[1 << 28, 1 << 29, 1 << 28][..]);
    assert_eq!(chunks[1].values, &[1 << 30][..]);
    assert_eq!(chunks[2].values, &[1 << 29, 1 << 29][..]);
}

#[test]
fn coefficients_round_to_nearest() {
    let guard = NormalizerGuard16::new(ws(&[1.0 / 3.0, 1.0 / 3.0, 1.0 / 3.0]));
    // 2^(p + 1) / 3 reaches 2^15 first at p = 16.
    assert_eq!(guard.precision(), 16);
    let chunks = guard.normalized_chunks(3, &[Bound { start: 0, size: 3 }]);
    assert_eq!(chunks[0].values, &[21845, 21845, 21845][..]);
}

#[test]
fn clip_table_saturates() {
    let table = get_clip_table();
    assert_eq!(table.len(), 1280);
    assert_eq!(table[0], 0);
    assert_eq!(table[639], 0);
    assert_eq!(table[640], 0);
    assert_eq!(table[641], 1);
    assert_eq!(table[640 + 254], 254);
    assert_eq!(table[640 + 255], 255);
    assert_eq!(table[1279], 255);
}

#[test]
fn clip8_shifts_and_saturates() {
    let guard = NormalizerGuard16::new(ws(&[1.0]));
    assert_eq!(guard.precision(), 14);
    assert_eq!(guard.clip(100 << 14), 100);
    assert_eq!(guard.clip((100 << 14) + (1 << 14) - 1), 100);
    assert_eq!(guard.clip(-1), 0);
    assert_eq!(guard.clip(-512 << 14), 0);
    assert_eq!(guard.clip(300 << 14), 255);
    assert_eq!(guard.clip(511 << 14), 255);
    assert_eq!(guard.clip(255 << 14), 255);
    assert_eq!(guard.clip(254 << 14), 254);
}

#[test]
fn clip16_shifts_and_saturates() {
    let guard = NormalizerGuard32::new(ws(&[1.0]));
    assert_eq!(guard.precision(), 30);
    assert_eq!(guard.clip(1234 << 30), 1234);
    assert_eq!(guard.clip(-1), 0);
    assert_eq!(guard.clip(i64::MIN), 0);
    assert_eq!(guard.clip(i64::MAX), 65535);
    assert_eq!(guard.clip(65535 << 30), 65535);
    assert_eq!(guard.clip(70000 << 30), 65535);
}

#[test]
fn clip_is_monotonic() {
    let guard = NormalizerGuard32::new(ws(&[1.0]));
    let mut last = 0u16;
    let mut v: i64 = -(1 << 40);
    while v < (1 << 48) {
        let c = guard.clip(v);
        assert!(c >= last);
        last = c;
        v += 1 << 33;
    }
    assert_eq!(last, 65535);
}
