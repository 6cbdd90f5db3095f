use actor_apps::latency::{pool_samples, sort_samples, summarize, LatencySummary};

#[test]
fn summary_of_no_samples() {
    let s = summarize(&vec![]);
    assert_eq!(
        s,
        LatencySummary { count: 0, min: None, p50: None, p75: None, p90: None, p99: None, max: None }
    );
}

#[test]
fn summary_of_one_sample() {
    let s = summarize(&vec![42]);
    assert_eq!(
        s,
        LatencySummary {
            count: 1,
            min: Some(42),
            p50: Some(42),
            p75: Some(42),
            p90: Some(42),
            p99: Some(42),
            max: Some(42),
        }
    );
}

#[test]
fn summary_of_one_to_hundred() {
    // samples 100, 99, ..., 1: sorted they are 1..=100, so the value at
    // position i is i + 1.
    let samples: Vec<u64> = (1..=100).rev().collect();
    let s = summarize(&samples);
    assert_eq!(s.count, 100);
    assert_eq!(s.min, Some(1));
    assert_eq!(s.p50, Some(51)); // position 50
    assert_eq!(s.p75, Some(76)); // position 50 + 25
    assert_eq!(s.p90, Some(91)); // position 100 - 10
    assert_eq!(s.p99, Some(100)); // position 100 - 1
    assert_eq!(s.max, Some(100));
}

#[test]
fn summary_positions_for_seven_samples() {
    let s = summarize(&vec![70, 10, 60, 20, 50, 30, 40]);
    // sorted: 10 20 30 40 50 60 70; p50 at 3, p75 at 3 + 1, p90 at 7 - 1, p99 at 7 - 1
    assert_eq!(s.p50, Some(40));
    assert_eq!(s.p75, Some(50));
    assert_eq!(s.p90, Some(70));
    assert_eq!(s.p99, Some(70));
    assert_eq!(s.min, Some(10));
    assert_eq!(s.max, Some(70));
}

#[test]
fn summary_ignores_order() {
    let a = vec![5, 3, 9, 3, 1, 8];
    let b = vec![9, 8, 5, 3, 3, 1];
    assert_eq!(summarize(&a), summarize(&b));
}

#[test]
fn summary_figures_are_ordered() {
    let samples: Vec<u64> = (0..57u64).map(|i| (i * 7919) % 101).collect();
    let s = summarize(&samples);
    let figures = [s.min, s.p50, s.p75, s.p90, s.p99, s.max].map(|f| f.unwrap());
    assert!(figures.windows(2).all(|w| w[0] <= w[1]));
    assert!(samples.iter().all(|x| figures[0] <= *x && *x <= figures[5]));
}

#[test]
fn sorting_agrees_with_std() {
    let samples: Vec<u64> = (0..500u64).map(|i| (i * 2654435761) % 1000).collect();
    let mut expected = samples.clone();
    expected.sort_unstable();
    assert_eq!(sort_samples(&samples), expected);
}

#[test]
fn pooling_keeps_batch_order() {
    let all = pool_samples(vec![vec![1, 2], vec![], vec![3], vec![4, 5, 6]]);
    assert_eq!(all, vec![1, 2, 3, 4, 5, 6]);
}
