use stateful_faas_sim::rv_histo::{BinSampler, HistoError, IntHisto, IntTable, MemHisto, MemTable};

#[test]
fn bins_single_value_always_drawn() {
    let mut s = BinSampler::new(42, &vec![1]).expect("valid weights");
    assert_eq!(1, s.bins());
    for _ in 0..100000 {
        assert_eq!(0, s.draw());
    }
}

#[test]
fn bins_follow_weights() {
    let mut s = BinSampler::new(42, &vec![1, 10, 1, 10]).expect("valid weights");
    let mut counts = vec![0u64; 4];
    for _ in 0..100000 {
        counts[s.draw()] += 1;
    }
    assert_eq!((counts[1] as f64 / counts[0] as f64).round() as u64, 10);
    assert_eq!((counts[3] as f64 / counts[2] as f64).round() as u64, 10);
}

#[test]
fn bins_same_seed_same_draws() {
    let w = vec![3, 1, 4, 1, 5, 9, 2, 6];
    let mut a = BinSampler::new(42, &w).unwrap();
    let mut b = BinSampler::new(42, &w).unwrap();
    let mut c = BinSampler::new(43, &w).unwrap();
    let mut same = 0;
    for _ in 0..1000 {
        let x = a.draw();
        assert_eq!(x, b.draw());
        if x == c.draw() {
            same += 1;
        }
    }
    assert!(same < 500);
}

#[test]
fn bins_errors() {
    assert_eq!(Some(HistoError::NoBins), BinSampler::new(1, &vec![]).err());
    assert_eq!(Some(HistoError::ZeroTotalWeight), BinSampler::new(1, &vec![0, 0]).err());
    assert_eq!(
        Some(HistoError::WeightTooLarge),
        BinSampler::new(1, &vec![usize::MAX, 1]).err()
    );
}

#[test]
fn int_histo_values_and_errors() {
    let mut h = IntHisto::new(7, IntTable { weights: vec![1, 1], values: vec![5, 9] }, 1, 10)
        .expect("valid table");
    for _ in 0..1000 {
        let v = h.sample();
        assert!(v == 5 || v == 9);
    }
    assert!(h.values_within(5, 9));
    assert!(!h.values_within(6, 9));
    assert_eq!(
        Some(HistoError::ValueOutOfRange),
        IntHisto::new(7, IntTable { weights: vec![1], values: vec![11] }, 1, 10).err()
    );
    assert_eq!(
        Some(HistoError::LengthMismatch),
        IntHisto::new(7, IntTable { weights: vec![1, 2], values: vec![1] }, 1, 10).err()
    );
}

#[test]
fn mem_histo_pairs_sizes() {
    let mut h = MemHisto::new(
        3,
        MemTable { weights: vec![1, 0], state_sizes: vec![200, 9], arg_sizes: vec![2, 9] },
        1000,
    )
    .expect("valid table");
    for _ in 0..1000 {
        assert_eq!(200, h.sample_state());
        assert_eq!(2, h.sample_arg());
    }
}

#[test]
fn bins_never_draw_zero_weight() {
    let mut s = BinSampler::new(9, &vec![0, 5, 0, 1]).expect("valid weights");
    for _ in 0..20000 {
        let i = s.draw();
        assert!(i == 1 || i == 3);
    }
}
