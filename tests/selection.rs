use investments::ieee::Binary64;
use investments::selection::{best_allocation, best_funds, best_index, SelectionError};
use investments::splits::{get_possible_splits, SplitConfig};
use investments::statistics::{CandidateMetrics, Search};

fn b(x: f64) -> Binary64 {
    Binary64::from_bits(x.to_bits())
}

#[test]
fn nan_never_wins() {
    let s = vec![b(0.1), b(f64::NAN), b(0.3), b(-1.0)];
    assert_eq!(best_index(&s), Ok(2));
    let s = vec![b(f64::NAN), b(-5.0)];
    assert_eq!(best_index(&s), Ok(1));
}

#[test]
fn last_of_equal_maxima_wins() {
    let s = vec![b(0.3), b(0.1), b(0.3), b(0.2)];
    assert_eq!(best_index(&s), Ok(2));
    let s = vec![b(0.0), b(-0.0)];
    assert_eq!(best_index(&s), Ok(1));
}

#[test]
fn infinity_is_largest() {
    let s = vec![b(1e300), b(f64::INFINITY), b(f64::NEG_INFINITY)];
    assert_eq!(best_index(&s), Ok(1));
}

#[test]
fn all_nan_has_no_winner() {
    let s = vec![b(f64::NAN), b(f64::NAN)];
    assert_eq!(best_index(&s), Err(SelectionError::NoValidCandidate));
    assert_eq!(best_index(&Vec::new()), Err(SelectionError::NoValidCandidate));
}

fn metrics(v: f64, a: f64, e: f64, s: f64) -> CandidateMetrics {
    CandidateMetrics { volatility: b(v), average_return: b(a), return_at_end: b(e), sharpe_ratio: b(s) }
}

fn batch(sharpes: &[f64]) -> investments::statistics::Statistics {
    let config = SplitConfig::new(2, 2, 100).unwrap();
    let mut search = Search::new(get_possible_splits(&config));
    let mut i = 0;
    while search.next_split().is_some() {
        search.record(metrics(i as f64, 10.0 + i as f64, 20.0 + i as f64, sharpes[i]));
        i += 1;
    }
    search.finish()
}

#[test]
fn allocation_of_the_best_candidate() {
    let stats = batch(&[0.5, 0.9, f64::NAN]);
    let ids = vec!["A".to_string(), "B".to_string()];
    let a = best_allocation(&stats, &ids).unwrap();
    assert_eq!(a.allocations, vec![("A".to_string(), 1), ("B".to_string(), 1)]);
    assert_eq!(a.sharpe_ratio, b(0.9));
    assert_eq!(a.volatility, b(1.0));
    assert_eq!(a.average, b(11.0));
    assert_eq!(a.expected_returns_at_end, b(21.0));
}

#[test]
fn allocation_needs_a_valid_candidate() {
    let stats = batch(&[f64::NAN, f64::NAN, f64::NAN]);
    let ids = vec!["A".to_string(), "B".to_string()];
    assert!(matches!(best_allocation(&stats, &ids), Err(SelectionError::NoValidCandidate)));
}

#[test]
fn allocation_needs_one_id_per_weight() {
    let stats = batch(&[0.1, 0.2, 0.3]);
    let ids = vec!["A".to_string()];
    assert!(matches!(best_allocation(&stats, &ids), Err(SelectionError::ArityMismatch)));
}

#[test]
fn funds_ranked_by_average() {
    let averages = vec![b(0.1), b(0.5), b(0.3), b(0.5), b(-0.2)];
    assert_eq!(best_funds(&averages, 3), vec![3, 1, 2]);
    assert_eq!(best_funds(&averages, 5), vec![3, 1, 2, 0, 4]);
    assert_eq!(best_funds(&averages, 0), Vec::<usize>::new());
    let zeros = vec![b(0.0), b(-0.0), b(0.0)];
    assert_eq!(best_funds(&zeros, 3), vec![2, 1, 0]);
}
