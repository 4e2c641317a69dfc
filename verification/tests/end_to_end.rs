use symclass::c12n::C12nResults;
use symclass::mm::{learn, MM};
use symclass::sequence::Sequence;

fn seq_of(name: &str, codebook_size: usize, symbols: Vec<usize>) -> Sequence {
    Sequence::new(name.to_string(), codebook_size, symbols).unwrap()
}

/// Sum of base-10 logarithms of the model's probability factors.
fn log_prob(model: &MM, seq: &Sequence) -> f64 {
    model
        .prob_factors(seq)
        .iter()
        .map(|&(num, den)| (num as f64 / den as f64).log10())
        .sum()
}

/// Order-preserving integer key of a finite score: ranking the keys ranks
/// the scores.
fn score_key(x: f64) -> i64 {
    let b = x.to_bits() as i64;
    b ^ ((b >> 63) & 0x7FFF_FFFF_FFFF_FFFF)
}

#[test]
fn score_key_preserves_order() {
    let samples = [-1000.5, -3.25, -3.0, -0.0, 0.0, 0.5, 2.0, 1e9];
    for w in samples.windows(2) {
        assert!(score_key(w[0]) <= score_key(w[1]));
    }
    assert!(score_key(-3.25) < score_key(-3.0));
}

#[test]
fn two_class_run_classifies_and_reports() {
    // class A strongly favours 0 -> 0 transitions, class B favours 1 -> 1.
    let model_a = learn(&vec![
        seq_of("A", 2, vec![0, 0, 0, 0, 0]),
        seq_of("A", 2, vec![0, 0, 0, 1, 0]),
    ])
    .unwrap();
    let model_b = learn(&vec![
        seq_of("B", 2, vec![1, 1, 1, 1, 1]),
        seq_of("B", 2, vec![1, 1, 0, 1, 1]),
    ])
    .unwrap();

    let probe = seq_of("A", 2, vec![0, 0, 0, 0]);
    let score_a = log_prob(&model_a, &probe);
    let score_b = log_prob(&model_b, &probe);
    assert!(score_a > score_b);

    let mut engine = C12nResults::new(vec!["A".to_string(), "B".to_string()]);
    let outcome = engine.add_case(0, &vec![score_key(score_a), score_key(score_b)]);
    assert_eq!(outcome.best, 0);
    assert_eq!(outcome.rank, 0);

    // one correct classification of class A: identity diagonal only.
    assert_eq!(engine.confusion[0][0], 1);
    assert_eq!(engine.confusion[0][1], 0);
    assert_eq!(engine.confusion[1][0], 0);
    assert_eq!(engine.confusion[1][1], 0);

    let st = engine.report_stats().unwrap();
    assert_eq!(st.total_tests, 1);
    assert_eq!(st.total_correct, 1);
    let accuracy = 100.0f32 * st.total_correct as f32 / st.total_tests as f32;
    assert_eq!(accuracy, 100.0);
}
