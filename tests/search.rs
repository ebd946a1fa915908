use investments::ieee::Binary64;
use investments::splits::{get_possible_splits, SplitConfig};
use investments::statistics::{CandidateMetrics, Search, Statistics};

fn b(x: f64) -> Binary64 {
    Binary64::from_bits(x.to_bits())
}

fn figures(split: &[u64]) -> CandidateMetrics {
    let w = split[0] as f64;
    CandidateMetrics {
        volatility: b(w * 0.5),
        average_return: b(w * 0.25),
        return_at_end: b(1.0 + w),
        sharpe_ratio: b(if w == 0.0 { f64::NAN } else { w }),
    }
}

fn run(steps: u64, n: usize) -> Statistics {
    let config = SplitConfig::new(steps, n, 10_000).unwrap();
    let mut search = Search::new(get_possible_splits(&config));
    loop {
        let split = match search.next_split() {
            Some(s) => s.clone(),
            None => break,
        };
        search.record(figures(&split));
    }
    search.finish()
}

#[test]
fn positions_stay_aligned() {
    let stats = run(4, 3);
    assert_eq!(stats.len(), 15);
    for i in 0..stats.len() {
        let f = figures(&stats.splits()[i]);
        assert_eq!(stats.volatilities()[i], f.volatility);
        assert_eq!(stats.average_returns()[i], f.average_return);
        assert_eq!(stats.returns_at_end()[i], f.return_at_end);
        assert_eq!(stats.sharpe_ratios()[i], f.sharpe_ratio);
    }
    assert_eq!(stats.splits()[0], vec![0, 0, 4]);
    assert_eq!(stats.splits()[14], vec![4, 0, 0]);
}

#[test]
fn two_runs_give_the_same_statistics() {
    let a = run(5, 3);
    let b = run(5, 3);
    assert_eq!(a.splits(), b.splits());
    assert_eq!(a.volatilities(), b.volatilities());
    assert_eq!(a.average_returns(), b.average_returns());
    assert_eq!(a.returns_at_end(), b.returns_at_end());
    assert_eq!(a.sharpe_ratios(), b.sharpe_ratios());
}

#[test]
fn push_appends_at_the_end() {
    let mut s = Statistics::with_capacity(2);
    s.push(vec![1, 2], figures(&[1, 2]));
    s.push(vec![3, 0], figures(&[3, 0]));
    assert_eq!(s.len(), 2);
    assert_eq!(s.splits()[1], vec![3, 0]);
    assert_eq!(s.volatilities()[1], b(1.5));
}
