use symclass::c12n::{ranked_order, C12nResults};

fn engine(names: &[&str]) -> C12nResults {
    C12nResults::new(names.iter().map(|n| n.to_string()).collect())
}

#[test]
fn new_engine_is_zeroed() {
    let r = engine(&["a", "b"]);
    assert_eq!(r.result.len(), 3);
    assert_eq!(r.confusion.len(), 3);
    for i in 0..3 {
        assert_eq!(r.result[i], vec![0, 0, 0]);
        assert_eq!(r.confusion[i], vec![0, 0, 0]);
    }
}

#[test]
fn add_case_correct_updates_rank_one() {
    let mut r = engine(&["a", "b"]);
    let outcome = r.add_case(0, &vec![10, 5]);
    assert_eq!(outcome.best, 0);
    assert_eq!(outcome.rank, 0);
    // totals row and true-class row: one test, one rank-1 hit.
    assert_eq!(r.result[2][0], 1);
    assert_eq!(r.result[0][0], 1);
    assert_eq!(r.result[2][1], 1);
    assert_eq!(r.result[0][1], 1);
    // identity-diagonal confusion entry.
    assert_eq!(r.confusion[0][0], 1);
    assert_eq!(r.confusion[0][1], 0);
    assert_eq!(r.confusion[1][0], 0);
}

#[test]
fn add_case_records_true_class_rank() {
    // five models; the true class (2) is beaten by models 0, 1 and 3, so
    // it comes out at 0-based rank 3 and column 4 is incremented.
    let mut r = engine(&["a", "b", "c", "d", "e"]);
    let outcome = r.add_case(2, &vec![9, 8, 5, 7, 1]);
    assert_eq!(outcome.best, 0);
    assert_eq!(outcome.rank, 3);
    assert_eq!(r.result[5][0], 1);
    assert_eq!(r.result[2][0], 1);
    assert_eq!(r.result[5][4], 1);
    assert_eq!(r.result[2][4], 1);
    assert_eq!(r.result[5][1], 0);
    assert_eq!(r.confusion[2][0], 1);
}

#[test]
fn add_case_breaks_ties_by_lowest_index() {
    let mut r = engine(&["a", "b"]);
    let outcome = r.add_case(1, &vec![7, 7]);
    assert_eq!(outcome.best, 0);
    assert_eq!(outcome.rank, 1);
    assert_eq!(r.confusion[1][0], 1);
    assert_eq!(r.result[1][2], 1);
}

#[test]
fn ranked_order_sorts_best_first() {
    assert_eq!(ranked_order(&vec![9, 8, 5, 7, 1]), vec![0, 1, 3, 2, 4]);
    assert_eq!(ranked_order(&vec![1, 5, 9]), vec![2, 1, 0]);
    // equal scores keep the lower model index first.
    assert_eq!(ranked_order(&vec![7, 7, 8]), vec![2, 0, 1]);
}

#[test]
fn report_stats_is_none_without_cases() {
    let r = engine(&["a", "b"]);
    assert!(r.report_stats().is_none());
}

#[test]
fn report_stats_counts_per_class_and_total() {
    let mut r = engine(&["a", "b"]);
    r.add_case(0, &vec![10, 5]); // class 0, correct
    r.add_case(0, &vec![9, 2]); // class 0, correct
    r.add_case(1, &vec![8, 3]); // class 1, misclassified as 0
    let st = r.report_stats().unwrap();
    assert_eq!(st.total_tests, 3);
    assert_eq!(st.total_correct, 2);
    assert_eq!(st.classes.len(), 2);
    assert_eq!(st.classes[0].class_id, 0);
    assert_eq!(st.classes[0].tests, 2);
    assert_eq!(st.classes[0].correct, 2);
    assert_eq!(st.classes[1].class_id, 1);
    assert_eq!(st.classes[1].tests, 1);
    assert_eq!(st.classes[1].correct, 0);
    // the two deliberately different accuracy statistics:
    let overall = st.total_correct as f32 / st.total_tests as f32;
    let avg = (1.0f32 + 0.0f32) / 2.0f32;
    assert!((overall - 2.0 / 3.0).abs() < 1e-6);
    assert_eq!(avg, 0.5);
}

#[test]
fn report_stats_skips_untested_classes() {
    let mut r = engine(&["a", "b", "c"]);
    r.add_case(1, &vec![1, 9, 2]);
    let st = r.report_stats().unwrap();
    assert_eq!(st.classes.len(), 1);
    assert_eq!(st.classes[0].class_id, 1);
}

#[test]
fn row_errors_count_only_tested_columns() {
    let mut r = engine(&["a", "b", "c"]);
    // class 0 misclassified as class 2, which has no test cases of its
    // own, so its column is left out of the rendered matrix and of the
    // error count.
    r.add_case(0, &vec![1, 0, 9]);
    assert_eq!(r.confusion[0][2], 1);
    assert_eq!(r.row_errors(0), 0);
    // once class 2 has a test case its column counts.
    r.add_case(2, &vec![1, 0, 9]);
    assert_eq!(r.row_errors(0), 1);
    assert_eq!(r.row_errors(2), 0);
}
