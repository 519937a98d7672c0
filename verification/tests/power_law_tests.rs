use graph_stats::power_law::{
    observe_distribution, sorted_degrees, DegreeCount, PowerLawError, EXPONENT_DENOMINATOR,
    EXPONENT_NUMERATOR,
};
use graph_stats::Graph;
use std::collections::HashMap;

fn distribution(entries: &[(usize, usize)]) -> HashMap<usize, usize> {
    let mut map = HashMap::new();
    for (degree, count) in entries {
        map.insert(*degree, *count);
    }
    map
}

fn score(observed: &graph_stats::power_law::Observed) -> f64 {
    let alpha = EXPONENT_NUMERATOR as f64 / EXPONENT_DENOMINATOR as f64;
    let weights: Vec<f64> =
        observed.points.iter().map(|p| 1.0 / (p.degree as f64).powf(alpha)).collect();
    let normalization: f64 = weights.iter().sum();
    let mut error = 0.0;
    for (point, weight) in observed.points.iter().zip(weights.iter()) {
        let seen = point.count as f64 / observed.total as f64;
        error += (seen - weight / normalization).powi(2);
    }
    1.0 / (1.0 + error)
}

#[test]
fn exponent_is_two_and_a_half() {
    assert_eq!(EXPONENT_NUMERATOR as f64 / EXPONENT_DENOMINATOR as f64, 2.5);
}

#[test]
fn degrees_come_out_ascending() {
    let map = distribution(&[(7, 1), (2, 5), (11, 3), (1, 9), (4, 4)]);
    assert_eq!(sorted_degrees(&map), vec![1, 2, 4, 7, 11]);
    assert_eq!(sorted_degrees(&HashMap::new()), Vec::<usize>::new());
}

#[test]
fn observed_entries_are_listed_by_degree_with_their_total() {
    let map = distribution(&[(3, 1), (1, 2), (2, 4)]);
    let observed = observe_distribution(&map).unwrap();
    assert_eq!(observed.total, 7);
    assert_eq!(
        observed.points,
        vec![
            DegreeCount { degree: 1, count: 2 },
            DegreeCount { degree: 2, count: 4 },
            DegreeCount { degree: 3, count: 1 },
        ]
    );
}

#[test]
fn empty_distribution_is_refused() {
    let result = observe_distribution(&HashMap::new());
    assert!(matches!(result, Err(PowerLawError::EmptyDistribution)));
}

#[test]
fn distribution_without_observation_is_refused() {
    let result = observe_distribution(&distribution(&[(1, 0), (3, 0)]));
    assert!(matches!(result, Err(PowerLawError::EmptyDistribution)));
}

#[test]
fn degree_zero_is_refused() {
    let result = observe_distribution(&distribution(&[(0, 2), (1, 3)]));
    assert!(matches!(result, Err(PowerLawError::ZeroDegree)));
    let alone = observe_distribution(&distribution(&[(0, 0)]));
    assert!(matches!(alone, Err(PowerLawError::ZeroDegree)));
}

#[test]
fn large_counts_do_not_overflow_the_total() {
    let map = distribution(&[(1, usize::MAX), (2, usize::MAX)]);
    let observed = observe_distribution(&map).unwrap();
    assert_eq!(observed.total, 2 * (usize::MAX as u128));
}

#[test]
fn single_degree_scores_one() {
    let observed = observe_distribution(&distribution(&[(3, 17)])).unwrap();
    assert_eq!(observed.points, vec![DegreeCount { degree: 3, count: 17 }]);
    assert_eq!(observed.total, 17);
    assert_eq!(score(&observed), 1.0);
}

#[test]
fn score_lies_between_zero_and_one() {
    for entries in [
        vec![(1, 2), (2, 1)],
        vec![(1, 1), (2, 1), (3, 1), (50, 400)],
        vec![(1, 1000), (2, 180), (3, 60), (4, 30)],
    ] {
        let observed = observe_distribution(&distribution(&entries)).unwrap();
        let value = score(&observed);
        assert!(value > 0.0 && value <= 1.0);
    }
}

#[test]
fn score_of_a_star_with_two_leaves() {
    let mut graph = Graph::new();
    graph.add_edge("A".to_string(), "B".to_string());
    graph.add_edge("A".to_string(), "C".to_string());
    let observed = observe_distribution(&graph.degree_distribution()).unwrap();
    assert_eq!(observed.total, 3);
    assert_eq!(
        observed.points,
        vec![DegreeCount { degree: 1, count: 2 }, DegreeCount { degree: 2, count: 1 }]
    );
    // Seen: 2/3 and 1/3. Expected: 1/(1 + 2^-2.5) and 2^-2.5/(1 + 2^-2.5).
    let low = 1.0 / (1.0 + 2f64.powf(-2.5));
    let error = 2.0 * (2.0 / 3.0 - low).powi(2);
    let value = score(&observed);
    assert!((value - 1.0 / (1.0 + error)).abs() < 1e-12);
    assert!((value - 0.937154269).abs() < 1e-8);
}
