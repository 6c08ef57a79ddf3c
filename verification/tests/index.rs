use rinha::index::{align_up, BlockBounds, IvfIndex, QueryOptions, RepairMode, MAGIC, VERSION};
use rinha::index::{
    fill_best_centroids, insert_cand, is_ambiguous, is_risky_pattern, lower_bound_block,
    lower_bound_block_scalar,
};
use rinha::layout::{section_offset, SECTION_ALIGN};
use rinha::ranking::insert_sorted;

const SCALE: f32 = 10_000.0;

fn quantize_i16(v: &[f32; 16]) -> [i16; 16] {
    let mut q = [0i16; 16];
    for i in 0..16 {
        let s = (v[i] * SCALE).round();
        q[i] = s.clamp(-32767.0, 32767.0) as i16;
    }
    q
}

/// The key of the exact distance of `vector` from one of the index.
fn exact(vector: &[f32; 16], v: &[i16; 16]) -> Option<u32> {
    let mut d = 0.0f32;
    for i in 0..16 {
        let e = vector[i] - v[i] as f32 / SCALE;
        d += e * e;
    }
    if d.is_nan() {
        None
    } else {
        Some(d.to_bits())
    }
}

fn query(idx: &IvfIndex, vector: &[f32; 16], nprobe: usize) -> (u8, f32) {
    let fraud = idx.query(vector, quantize_i16, exact, nprobe);
    (fraud, fraud as f32 / 5.0)
}

/// Build a tiny valid index in memory: 2 centroids, a few vectors.
fn build_tiny() -> Vec<u8> {
    build_version(VERSION)
}

fn build_version(version: u32) -> Vec<u8> {
    let num_centroids = 2usize;
    let vecs = [
        mk(0.0), // cell 0
        mk(0.1),
        mk(0.2),
        mk(0.9), // cell 1
        mk(1.0),
        mk(0.95),
    ];
    let labels: Vec<u8> = vec![0, 1, 0, 1, 1, 1];
    let centroids = [mk(0.1), mk(0.95)];
    let cells = [(0u32, 3u32, 0u32, 1u32), (3u32, 3u32, 1u32, 1u32)];
    let cell_bounds = [bounds(&vecs[0..3]), bounds(&vecs[3..6])];
    let blocks = [bounds(&vecs[0..3]), bounds(&vecs[3..6])];
    let pad = |out: &mut Vec<u8>| {
        if version >= 4 {
            out.resize(align_up(out.len(), SECTION_ALIGN), 0);
        }
    };

    let mut out = Vec::new();
    out.extend_from_slice(&MAGIC.to_le_bytes());
    out.extend_from_slice(&version.to_le_bytes());
    out.extend_from_slice(&(vecs.len() as u32).to_le_bytes());
    out.extend_from_slice(&(num_centroids as u32).to_le_bytes());
    out.extend_from_slice(&16u32.to_le_bytes());
    pad(&mut out);
    for c in &centroids {
        for x in c {
            out.extend_from_slice(&x.to_le_bytes());
        }
    }
    for (s, c, bs, bc) in &cells {
        out.extend_from_slice(&s.to_le_bytes());
        out.extend_from_slice(&c.to_le_bytes());
        out.extend_from_slice(&bs.to_le_bytes());
        out.extend_from_slice(&bc.to_le_bytes());
    }
    pad(&mut out);
    if version >= 5 {
        for b in &cell_bounds {
            for x in &b.min {
                out.extend_from_slice(&x.to_le_bytes());
            }
            for x in &b.max {
                out.extend_from_slice(&x.to_le_bytes());
            }
        }
        pad(&mut out);
    }
    for b in &blocks {
        for x in &b.min {
            out.extend_from_slice(&x.to_le_bytes());
        }
        for x in &b.max {
            out.extend_from_slice(&x.to_le_bytes());
        }
    }
    pad(&mut out);
    for v in &vecs {
        for x in v {
            out.extend_from_slice(&x.to_le_bytes());
        }
    }
    out.extend_from_slice(&labels);
    out
}

fn bounds(vecs: &[[i16; 16]]) -> BlockBounds {
    let mut min = [i16::MAX; 16];
    let mut max = [i16::MIN; 16];
    for v in vecs {
        for d in 0..16 {
            min[d] = min[d].min(v[d]);
            max[d] = max[d].max(v[d]);
        }
    }
    BlockBounds { min, max }
}

/// Build a quantized vector with a single non-zero leading dim.
fn mk(x: f32) -> [i16; 16] {
    let mut v = [0.0f32; 16];
    v[0] = x;
    quantize_i16(&v)
}

fn qf(x: f32) -> [f32; 16] {
    let mut v = [0.0f32; 16];
    v[0] = x;
    v
}

#[test]
fn rejects_bad_magic() {
    let mut bytes = build_tiny();
    bytes[0] = 0xFF;
    assert!(IvfIndex::from_bytes(&bytes).is_none());
}

#[test]
fn rejects_old_version() {
    let mut bytes = build_tiny();
    bytes[4] = 1; // version 1
    assert!(IvfIndex::from_bytes(&bytes).is_none());
}

#[test]
fn query_finds_legit_cluster() {
    let bytes = build_tiny();
    let idx = IvfIndex::from_bytes(&bytes).unwrap();
    // Query near the legit cluster (cell 0), labels 0,1,0; then fraud 1,1.
    let (fraud, score) = query(&idx, &qf(0.05), 2);
    assert_eq!(fraud, 3);
    assert!((score - 0.6).abs() < 1e-6);
}

#[test]
fn query_pure_fraud_cluster() {
    let bytes = build_tiny();
    let idx = IvfIndex::from_bytes(&bytes).unwrap();
    let (fraud, _) = query(&idx, &qf(0.97), 1);
    assert_eq!(fraud, 3);
}

#[test]
fn rejects_what_is_no_index() {
    let bytes = build_tiny();
    // Cut off anywhere.
    for n in [0, 19, 32, 100, 200, 300, bytes.len() - 1] {
        assert!(IvfIndex::from_bytes(&bytes[..n]).is_none(), "{n}");
    }
    // A version that is too new, and a wrong number of dimensions.
    let mut newer = bytes.clone();
    newer[4] = 6;
    assert!(IvfIndex::from_bytes(&newer).is_none());
    let mut flat = bytes.clone();
    flat[16] = 14;
    assert!(IvfIndex::from_bytes(&flat).is_none());
    // A cell that reaches behind the last vector.
    let mut far = bytes.clone();
    far[32 + 64 + 16 + 4] = 4;
    assert!(IvfIndex::from_bytes(&far).is_none());
    // Bytes behind the end do no harm.
    let mut longer = bytes.clone();
    longer.push(9);
    assert!(IvfIndex::from_bytes(&longer).is_some());
}

#[test]
fn older_layouts_are_read_alike() {
    for version in 3..=5 {
        let bytes = build_version(version);
        let idx = IvfIndex::from_bytes(&bytes).unwrap();
        assert_eq!(idx.num_vectors, 6);
        assert_eq!(idx.num_centroids, 2);
        assert_eq!(idx.vector(4), mk(1.0));
        assert_eq!(idx.label(3), 1);
        assert_eq!(query(&idx, &qf(0.05), 2).0, 3);
    }
}

#[test]
fn ambiguous_counts_are_repaired() {
    let bytes = build_tiny();
    let idx = IvfIndex::from_bytes(&bytes).unwrap();
    let v = qf(0.05);
    let q = quantize_i16(&v);
    let mut options = QueryOptions::new(1);
    assert_eq!(options.repair_mode, RepairMode::Pattern);
    // One cell alone holds one fraud among three.
    assert_eq!(idx.query_quantized_with_options(&v, &q, exact, options), 1);
    options.repair_mode = RepairMode::AmbiguousCentroid;
    assert_eq!(idx.query_quantized_with_options(&v, &q, exact, options), 3);
    options.repair_mode = RepairMode::Bbox;
    assert_eq!(idx.query_quantized_with_options(&v, &q, exact, options), 3);
    // Outside the range that counts as ambiguous nothing is repaired.
    options.repair_min = 2;
    assert_eq!(idx.query_quantized_with_options(&v, &q, exact, options), 1);
    // A file without boxes around its cells cannot be repaired by them.
    let old = build_version(4);
    let idx = IvfIndex::from_bytes(&old).unwrap();
    options.repair_min = 1;
    assert_eq!(idx.query_quantized_with_options(&v, &q, exact, options), 1);
}

#[test]
fn the_entry_points_agree() {
    let bytes = build_tiny();
    let idx = IvfIndex::from_bytes(&bytes).unwrap();
    for x in [0.0, 0.05, 0.5, 0.97] {
        let v = qf(x);
        let q = quantize_i16(&v);
        for n in [0, 1, 2, 10] {
            let found = idx.query(&v, quantize_i16, exact, n);
            let options = QueryOptions::new(n);
            assert_eq!(idx.query_with_options(&v, quantize_i16, exact, options), found);
            assert_eq!(idx.query_quantized(&v, &q, exact, n), found);
            assert_eq!(idx.query_quantized_with_options(&v, &q, exact, options), found);
        }
    }
}

#[test]
fn a_repair_of_every_count_finds_the_nearest() {
    let bytes = build_tiny();
    let idx = IvfIndex::from_bytes(&bytes).unwrap();
    let options = QueryOptions {
        nprobe: 1,
        repair_mode: RepairMode::Bbox,
        repair_min: 0,
        repair_max: 5,
        repair_candidates: 64,
    };
    for (x, frauds) in [(0.05, 3), (0.97, 4), (0.6, 4)] {
        let v = qf(x);
        assert_eq!(idx.query_with_options(&v, quantize_i16, exact, options), frauds, "{x}");
    }
}

#[test]
fn a_search_can_be_taken_in_two_steps() {
    let bytes = build_tiny();
    let idx = IvfIndex::from_bytes(&bytes).unwrap();
    let q = mk(0.97);
    let s = idx.begin_search(&q, QueryOptions::new(2));
    assert_eq!(s.len(), 5);
    let order: Vec<u32> = (0..5).map(|i| s.candidate(i)).collect();
    assert_eq!(order, vec![5, 4, 3, 2, 1]);
    // Keys that are not numbers leave the candidates in their order.
    assert_eq!(idx.conclude_search(s, &[None; 5]), 4);
}

#[test]
fn sections_are_aligned() {
    assert_eq!(align_up(20, 32), 32);
    assert_eq!(align_up(32, 32), 32);
    assert_eq!(align_up(33, 32), 64);
    assert_eq!(align_up(0, 1), 0);
    assert_eq!(section_offset(20, true), 32);
    assert_eq!(section_offset(20, false), 20);
}

#[test]
fn boxes_bound_distances_from_below() {
    let b = bounds(&[mk(0.1), mk(0.2)]);
    assert_eq!(lower_bound_block(&mk(0.15), &b, i64::MAX), 0);
    assert_eq!(lower_bound_block(&mk(0.3), &b, i64::MAX), 1_000_000);
    assert_eq!(lower_bound_block(&mk(0.0), &b, i64::MAX), 1_000_000);
    // Beyond the limit only that it is beyond matters.
    let far = BlockBounds { min: [100; 16], max: [200; 16] };
    assert_eq!(lower_bound_block_scalar(&[0; 16], &far, 25_000), 30_000);
    assert_eq!(lower_bound_block_scalar(&[0; 16], &far, i64::MAX), 160_000);
}

#[test]
fn risky_patterns_have_their_gaps() {
    let at_ten: [(u8, i64); 7] = [
        (0b00110, 500_000),
        (0b01010, 500_000),
        (0b01100, 600_000),
        (0b10010, 1_200_000),
        (0b10011, 500_000),
        (0b10110, 700_000),
        (0b11100, 150_000),
    ];
    for (bits, gap) in at_ten {
        assert!(is_risky_pattern(10, bits, 5, 5 + gap));
        assert!(!is_risky_pattern(10, bits, 5, 6 + gap));
        assert!(!is_risky_pattern(11, bits, 5, 5));
    }
    let at_twelve: [(u8, i64); 6] = [
        (0b00110, 1_600_000),
        (0b01010, 3_800_000),
        (0b01100, 1_000_000),
        (0b10010, 1_800_000),
        (0b10011, 500_000),
        (0b11100, 150_000),
    ];
    for (bits, gap) in at_twelve {
        assert!(is_risky_pattern(12, bits, 5, 5 + gap));
        assert!(!is_risky_pattern(12, bits, 5, 6 + gap));
    }
    assert!(!is_risky_pattern(12, 0b10110, 5, 5));
    assert!(!is_risky_pattern(10, 0b00111, 5, 5));
}

#[test]
fn ambiguity_is_a_range() {
    assert!(is_ambiguous(1, 1, 4) && is_ambiguous(4, 1, 4));
    assert!(!is_ambiguous(0, 1, 4) && !is_ambiguous(5, 1, 4));
    assert!(!is_ambiguous(3, 4, 2));
}

#[test]
fn rankings_keep_the_nearest() {
    let mut arr = [(0i64, 0u32); 3];
    let mut len = 0usize;
    for (dist, payload) in [(5, 1), (3, 2), (5, 3), (9, 4), (1, 5), (3, 6)] {
        insert_sorted(&mut arr, &mut len, 3, dist, payload);
    }
    // Equals stand in the order in which they came.
    assert_eq!(arr, [(1, 5), (3, 2), (3, 6)]);
    assert_eq!(len, 3);
    let mut cand = [(0i64, 0u32); 5];
    let mut filled = 0usize;
    for i in 0..8u32 {
        insert_cand(&mut cand, &mut filled, 10 - i as i64, i);
    }
    assert_eq!(cand, [(3, 7), (4, 6), (5, 5), (6, 4), (7, 3)]);
    let mut best = [(i64::MAX, 0u32); 64];
    fill_best_centroids(&[4, 2, 8, 2], 3, &mut best);
    assert_eq!(best[..3], [(2, 1), (2, 3), (4, 0)]);
}
