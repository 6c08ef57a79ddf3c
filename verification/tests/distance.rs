use rinha::distance::{distances_to_slice_i16, squared_euclidean_i16, SCALE};

fn naive_i16(a: &[i16; 16], b: &[i16; 16]) -> i64 {
    (0..16).map(|i| (a[i] as i64 - b[i] as i64).pow(2)).sum()
}

fn quantize_i16(v: &[f32; 16]) -> [i16; 16] {
    let mut q = [0i16; 16];
    for i in 0..16 {
        let s = (v[i] * SCALE as f32).round();
        q[i] = s.clamp(-32767.0, 32767.0) as i16;
    }
    q
}

#[test]
fn i16_matches_naive() {
    let mut a = [0i16; 16];
    let mut b = [0i16; 16];
    for i in 0..16 {
        a[i] = (i as i16 - 8) * 1000;
        b[i] = (i as i16) * 700 - 3000;
    }
    assert_eq!(squared_euclidean_i16(&a, &b), naive_i16(&a, &b));
}

#[test]
fn i16_quantize_roundtrip_and_distance() {
    let mut a = [0.0f32; 16];
    let mut b = [0.0f32; 16];
    a[0] = 0.5;
    a[5] = -1.0;
    b[0] = 0.5;
    b[5] = -1.0;
    let qa = quantize_i16(&a);
    let qb = quantize_i16(&b);
    // identical vectors: zero distance, sentinel preserved.
    assert_eq!(qa[5], -10000);
    assert_eq!(squared_euclidean_i16(&qa, &qb), 0);
    // Now b[5] = 0.5 (5000) vs a[5] = -1.0 (-10000): diff 15000.
    // dim0 matches, so distance = 15000^2 = 225_000_000.
    b[5] = 0.5;
    let qb = quantize_i16(&b);
    assert_eq!(squared_euclidean_i16(&qa, &qb), 225_000_000);
}

#[test]
fn i16_no_overflow_extremes() {
    // Worst case: all dims at opposite extremes.
    let a = [10000i16; 16];
    let b = [-10000i16; 16];
    // 16 * 20000^2 = 6.4e9, must be exact in i64.
    assert_eq!(squared_euclidean_i16(&a, &b), 16 * 20000i64 * 20000);
}

#[test]
fn batch_matches_single_i16() {
    let q = [123i16; 16];
    let vecs = [[100i16; 16], [-50i16; 16], [10000i16; 16]];
    let mut out = [0i64; 3];
    distances_to_slice_i16(&q, &vecs, &mut out);
    for i in 0..3 {
        assert_eq!(out[i], squared_euclidean_i16(&q, &vecs[i]));
    }
}

#[test]
fn batch_leaves_the_rest_alone() {
    let mut out = [7i64; 3];
    distances_to_slice_i16(&[3i16; 16], &[[1i16; 16]], &mut out);
    assert_eq!(out, [64, 7, 7]);
}

#[test]
fn distance_is_symmetric_and_covers_the_range() {
    let a = [i16::MIN; 16];
    let b = [i16::MAX; 16];
    assert_eq!(squared_euclidean_i16(&a, &b), 16 * 65535i64 * 65535);
    assert_eq!(squared_euclidean_i16(&b, &a), 16 * 65535i64 * 65535);
    assert_eq!(squared_euclidean_i16(&a, &a), 0);
}
