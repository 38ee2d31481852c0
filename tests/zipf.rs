use collection_generator::zipf::{ZipfGenerator, WEIGHT_SCALE};

#[test]
fn table_is_monotone_and_ends_at_total() {
    for voc in [1usize, 2, 3, 100, 5000] {
        let g = ZipfGenerator::with_seed(voc, 7);
        let table = g.acc_probs();
        assert_eq!(table.len(), voc);
        assert!(table.windows(2).all(|w| w[0] <= w[1]));
        assert_eq!(*table.last().unwrap(), g.total());
    }
}

#[test]
fn table_entries_are_running_weights() {
    let g = ZipfGenerator::with_seed(3, 7);
    let s = WEIGHT_SCALE;
    assert_eq!(g.acc_probs().clone(), vec![s, s + s / 2, s + s / 2 + s / 3]);
}

#[test]
fn pick_returns_first_entry_above() {
    let g = ZipfGenerator::with_seed(3, 7);
    let s = WEIGHT_SCALE;
    assert_eq!(g.pick(0), 0);
    assert_eq!(g.pick(s - 1), 0);
    assert_eq!(g.pick(s), 1);
    assert_eq!(g.pick(s + s / 2 - 1), 1);
    assert_eq!(g.pick(s + s / 2), 2);
    assert_eq!(g.pick(g.total() - 1), 2);
}

#[test]
fn empty_vocabulary_yields_zero() {
    let mut g = ZipfGenerator::with_seed(0, 3);
    assert_eq!(g.voc_size(), 0);
    assert!(g.take(50).iter().all(|&t| t == 0));
    let mut one = ZipfGenerator::with_seed(1, 3);
    assert!(one.take(50).iter().all(|&t| t == 0));
}

#[test]
fn lower_identifiers_are_drawn_more_often() {
    let mut g = ZipfGenerator::with_seed(100, 12345);
    let mut counts = vec![0usize; 100];
    for t in g.take(200_000) {
        counts[t] += 1;
    }
    assert!(counts[0] > counts[1]);
    assert!(counts[1] > counts[2]);
    // Rank weighting 1/r: identifier 0 is about twice as frequent as 1.
    let ratio = counts[0] as f64 / counts[1] as f64;
    assert!((ratio - 2.0).abs() < 0.1, "ratio {}", ratio);
}

#[test]
fn draws_stay_in_vocabulary() {
    let mut g = ZipfGenerator::new(17).expect("the operating system supplies a seed");
    let terms = g.take(1000);
    assert_eq!(terms.len(), 1000);
    assert!(terms.iter().all(|&t| t < 17));
    assert!(g.next() < 17);
}

#[test]
fn same_seed_same_draws() {
    let mut a = ZipfGenerator::with_seed(1000, 99);
    let mut b = ZipfGenerator::with_seed(1000, 99);
    assert_eq!(a.take(100), b.take(100));
}

#[test]
fn each_identifier_outweighs_the_next() {
    let g = ZipfGenerator::with_seed(5000, 1);
    let table = g.acc_probs();
    let weights: Vec<u128> = (0..table.len())
        .map(|i| if i == 0 { table[0] } else { table[i] - table[i - 1] })
        .collect();
    assert!(weights.windows(2).all(|w| w[0] > w[1]));
    assert!(weights[4999] > 0);
}
