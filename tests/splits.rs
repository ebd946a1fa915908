use investments::splits::{get_possible_splits, ConfigError, SplitConfig};

fn all(steps: u64, n: usize) -> Vec<Vec<u64>> {
    let config = SplitConfig::new(steps, n, 1_000_000).unwrap();
    let splits = get_possible_splits(&config);
    (0..splits.len()).map(|i| splits.split(i).clone()).collect()
}

#[test]
fn two_funds_at_tenths() {
    let s = all(10, 2);
    assert_eq!(s.len(), 11);
    assert_eq!(s[0], vec![0, 10]);
    assert_eq!(s[3], vec![3, 7]);
    assert_eq!(s[10], vec![10, 0]);
}

#[test]
fn generation_order_is_lexicographic() {
    let s = all(2, 3);
    let expected: Vec<Vec<u64>> = vec![
        vec![0, 0, 2],
        vec![0, 1, 1],
        vec![0, 2, 0],
        vec![1, 0, 1],
        vec![1, 1, 0],
        vec![2, 0, 0],
    ];
    assert_eq!(s, expected);
}

#[test]
fn every_split_is_complete() {
    for (steps, n) in [(10u64, 3usize), (4, 4), (20, 2), (1, 5)] {
        for split in all(steps, n) {
            assert_eq!(split.len(), n);
            assert_eq!(split.iter().sum::<u64>(), steps);
        }
    }
}

#[test]
fn count_matches_brute_enumeration() {
    for (steps, n) in [(10u64, 3usize), (4, 4), (5, 2), (3, 5), (1, 2)] {
        let k = (n - 1) as u32;
        let base = steps + 1;
        let mut brute = 0u64;
        for code in 0..base.pow(k) {
            let mut c = code;
            let mut total = 0;
            for _ in 0..k {
                total += c % base;
                c /= base;
            }
            if total <= steps {
                brute += 1;
            }
        }
        let config = SplitConfig::new(steps, n, 1_000_000).unwrap();
        assert_eq!(config.candidate_count(), brute);
        assert_eq!(all(steps, n).len() as u64, brute);
    }
}

#[test]
fn count_at_hundredths_with_four_funds() {
    let config = SplitConfig::new(100, 4, 2_000_000).unwrap();
    // (100 + 3) choose 3
    assert_eq!(config.candidate_count(), 176_851);
}

#[test]
fn zero_steps_is_refused() {
    assert!(matches!(SplitConfig::new(0, 3, 100), Err(ConfigError::InvalidGranularity)));
}

#[test]
fn single_fund_is_refused() {
    assert!(matches!(SplitConfig::new(10, 1, 100), Err(ConfigError::InvalidFundCount)));
    assert!(matches!(SplitConfig::new(10, 0, 100), Err(ConfigError::InvalidFundCount)));
}

#[test]
fn combinatorial_blow_up_is_refused() {
    // 101^4 combinations of leading weights
    assert!(matches!(
        SplitConfig::new(100, 5, 100_000_000),
        Err(ConfigError::TooManyCombinations)
    ));
    assert!(SplitConfig::new(100, 5, 104_060_401).is_ok());
    assert!(matches!(
        SplitConfig::new(u64::MAX, 2, u64::MAX),
        Err(ConfigError::TooManyCombinations)
    ));
    assert!(matches!(SplitConfig::new(1, 2, 0), Err(ConfigError::TooManyCombinations)));
}

#[test]
fn config_keeps_its_values() {
    let config = SplitConfig::new(20, 3, 1000).unwrap();
    assert_eq!(config.steps(), 20);
    assert_eq!(config.fund_count(), 3);
    assert_eq!(get_possible_splits(&config).split_len(), 3);
}
