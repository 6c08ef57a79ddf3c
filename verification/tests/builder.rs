use rinha::builder::{bounds_i16, build_index, encode, label_of, nearest, write_index, INFINITE};
use rinha::grouping::{group_by_cell, sort_cells_by_centroid_distance, total_order_key};
use rinha::index::IvfIndex;
use rinha::layout::{BlockBounds, Cell};

fn mk(x: i16) -> [i16; 16] {
    let mut v = [0i16; 16];
    v[0] = x;
    v
}

#[test]
fn vectors_are_grouped_in_order() {
    let g = group_by_cell(&[2, 0, 2, 1, 0, 2], 4);
    assert_eq!(g.starts, vec![0, 2, 3, 6]);
    assert_eq!(g.counts, vec![2, 1, 3, 0]);
    assert_eq!(g.order, vec![1, 4, 3, 0, 2, 5]);
    let none = group_by_cell(&[], 2);
    assert_eq!(none.starts, vec![0, 0]);
    assert!(none.order.is_empty());
}

#[test]
fn cells_are_sorted_by_their_keys() {
    let assign = [2, 0, 2, 1, 0, 2];
    let mut g = group_by_cell(&assign, 3);
    sort_cells_by_centroid_distance(&mut g, &assign, &[30, 9, 10, 0, -4, 10]);
    // Equal keys are ordered by number.
    assert_eq!(g.order, vec![4, 1, 3, 2, 5, 0]);
    assert_eq!(g.starts, vec![0, 2, 3]);
    assert_eq!(g.counts, vec![2, 1, 3]);
}

#[test]
fn keys_follow_the_total_order() {
    let values = [
        f32::NEG_INFINITY,
        -2.5f32,
        -0.0,
        0.0,
        1e-20,
        0.75,
        3.0,
        f32::INFINITY,
        f32::NAN,
    ];
    for a in values {
        for b in values {
            let (ka, kb) = (total_order_key(a.to_bits()), total_order_key(b.to_bits()));
            assert_eq!(ka.cmp(&kb), a.total_cmp(&b));
        }
    }
}

#[test]
fn the_first_of_the_nearest_is_taken() {
    let key = |x: f32| Some(x.to_bits());
    assert_eq!(nearest(&[key(3.0), key(1.5), key(1.5), key(2.0)]), 1);
    assert_eq!(nearest(&[None, key(7.0)]), 1);
    assert_eq!(nearest(&[None, key(f32::INFINITY)]), 0);
    assert_eq!(nearest(&[]), 0);
    assert_eq!(INFINITE, f32::INFINITY.to_bits());
}

#[test]
fn labels_are_frauds_or_not() {
    assert_eq!(label_of(b"fraud"), 1);
    assert_eq!(label_of(b"legit"), 0);
    assert_eq!(label_of(b"Fraud"), 0);
    assert_eq!(label_of(b"frauds"), 0);
}

#[test]
fn boxes_are_the_smallest() {
    let b = bounds_i16(&[[1i16; 16], [-7i16; 16], [3i16; 16]]);
    assert_eq!(b.min, [-7i16; 16]);
    assert_eq!(b.max, [3i16; 16]);
    let none = bounds_i16(&[]);
    assert_eq!(none.min, [i16::MAX; 16]);
    assert_eq!(none.max, [i16::MIN; 16]);
}

#[test]
fn what_is_written_is_read_back() {
    let vectors: Vec<[i16; 16]> = (0..300).map(|i| mk(i as i16)).collect();
    let labels: Vec<u8> = (0..300).map(|i| (i % 3 == 0) as u8).collect();
    let centroids = [mk(50), mk(500), mk(200)];
    let file = write_index(&centroids, &[0, 100, 100], &[100, 0, 200], &vectors, &labels);
    // Header, centroids, cells, three boxes around cells, three around blocks.
    assert_eq!(file.len(), 32 + 96 + 48 + 16 + 3 * 64 + 3 * 64 + 300 * 32 + 300);
    let idx = IvfIndex::from_bytes(&file).unwrap();
    assert_eq!(idx.num_vectors, 300);
    assert_eq!(idx.num_centroids, 3);
    for i in 0..300 {
        assert_eq!(idx.vector(i), vectors[i]);
        assert_eq!(idx.label(i), labels[i]);
    }
    assert_eq!(file[0..20], [0x48, 0x4e, 0x49, 0x52, 5, 0, 0, 0, 44, 1, 0, 0, 3, 0, 0, 0, 16, 0, 0, 0]);
    // The second block of the last cell takes what the first leaves.
    let blocks = 32 + 96 + 48 + 16 + 192;
    assert_eq!(file[blocks + 128..blocks + 130], 228i16.to_le_bytes());
    assert_eq!(file[blocks + 160..blocks + 162], 299i16.to_le_bytes());
}

#[test]
fn parts_are_written_one_after_the_other() {
    let cells = vec![Cell { start: 0, count: 1, block_start: 0, block_count: 1 }];
    let boxes = || vec![BlockBounds { min: mk(-5), max: mk(-5) }];
    let file = encode(&[mk(7)], &cells, &boxes(), &boxes(), &[mk(-5)], &[1]);
    assert_eq!(file.len(), 32 + 32 + 16 + 16 + 64 + 64 + 32 + 1);
    assert_eq!(file[32..34], [7, 0]);
    assert_eq!(file[96..98], [0xfb, 0xff]);
    assert_eq!(file[file.len() - 1], 1);
    assert_eq!(file[80..96], [0; 16]);
}

#[test]
fn an_index_is_built_and_searched() {
    // Two clusters, given in mixed order.
    let vectors = [mk(900), mk(0), mk(1000), mk(100), mk(950), mk(200)];
    let labels = [1, 0, 1, 1, 1, 0];
    let centroids = [mk(100), mk(950)];
    let assign = [1, 0, 1, 0, 1, 0];
    let keys = [2500, 10000, 2500, 0, 0, 10000];
    let file = build_index(&centroids, &vectors, &labels, &assign, &keys);
    let idx = IvfIndex::from_bytes(&file).unwrap();
    let order: Vec<i16> = (0..6).map(|i| idx.vector(i)[0]).collect();
    assert_eq!(order, vec![100, 0, 200, 950, 900, 1000]);
    let exact = |x: &f32, v: &[i16; 16]| Some((v[0] as f32 - x).abs().to_bits());
    assert_eq!(idx.query_quantized(&40.0, &mk(40), exact, 2), 3);
    assert_eq!(idx.query_quantized(&40.0, &mk(40), exact, 1), 1);
}
