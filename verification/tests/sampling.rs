use rinha::sampling::{front, reduced, Sampler};

#[test]
fn picks_are_different_and_mixed() {
    let mut sampler = Sampler::new(0x5249_4E48);
    let picks = sampler.start(1000, 1000);
    let mut sorted = picks.clone();
    sorted.sort();
    assert_eq!(sorted, (0..1000).collect::<Vec<usize>>());
    assert_ne!(picks, sorted);
    let few = sampler.start(50, 7);
    assert_eq!(few.len(), 7);
    assert!(few.iter().all(|&i| i < 50));
    assert!(sampler.start(3, 0).is_empty());
}

#[test]
fn single_picks_vary() {
    let mut sampler = Sampler::new(1);
    let picks: Vec<usize> = (0..100).map(|_| sampler.pick(10)).collect();
    assert!(picks.iter().all(|&i| i < 10));
    assert!(picks.iter().any(|&i| i != picks[0]));
}

#[test]
fn numbers_are_reduced() {
    assert_eq!(reduced(23, 10), 3);
    assert_eq!(reduced(9, 10), 9);
    assert_eq!(front(&vec![4, 2, 9], 2), vec![4, 2]);
}
