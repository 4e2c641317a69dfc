use symclass::mm::{find_class_id, learn, ConformityError};
use symclass::sequence::Sequence;

fn seq_of(name: &str, codebook_size: usize, symbols: Vec<usize>) -> Sequence {
    Sequence::new(name.to_string(), codebook_size, symbols).unwrap()
}

#[test]
fn sequence_new_checks_symbols() {
    assert!(Sequence::new("x".to_string(), 2, vec![0, 1, 1, 0]).is_some());
    assert!(Sequence::new("x".to_string(), 2, vec![0, 2]).is_none());
    assert!(Sequence::new("x".to_string(), 0, vec![]).is_none());
}

#[test]
fn learn_single_sequence_counts() {
    // codebook size 3, one sequence [0, 1, 2]: the observed initial symbol
    // is counted twice (once from the add-one prior, once observed), the
    // denominators are count + codebook size.
    let s = seq_of("cls", 3, vec![0, 1, 2]);
    let model = learn(&vec![s]).unwrap();

    assert_eq!(model.class_name, "cls");
    assert_eq!(model.codebook_size, 3);
    assert_eq!(model.pi_num, vec![2, 1, 1]);
    assert_eq!(model.pi_den, 4);
    assert_eq!(model.pi_num[0] as f64 / model.pi_den as f64, 0.5);
    assert_eq!(model.pi_num[1] as f64 / model.pi_den as f64, 0.25);
    assert_eq!(model.pi_num[2] as f64 / model.pi_den as f64, 0.25);

    // transitions 0->1 and 1->2 observed once each; every other entry is
    // the bare prior 1. Rows 0 and 1 have one outgoing transition (+3 for
    // the smoothing), row 2 has none.
    assert_eq!(model.a_num, vec![vec![1, 2, 1], vec![1, 1, 2], vec![1, 1, 1]]);
    assert_eq!(model.a_den, vec![4, 4, 3]);
}

#[test]
fn learn_accumulates_over_sequences() {
    let s1 = seq_of("c", 2, vec![0, 0, 1]);
    let s2 = seq_of("c", 2, vec![1, 0]);
    let model = learn(&vec![s1, s2]).unwrap();

    // initial symbols: one 0 and one 1; denominators: 2 sequences + 2.
    assert_eq!(model.pi_num, vec![2, 2]);
    assert_eq!(model.pi_den, 4);
    // pairs: (0,0), (0,1) from s1 and (1,0) from s2.
    assert_eq!(model.a_num, vec![vec![2, 2], vec![2, 1]]);
    assert_eq!(model.a_den, vec![4, 3]);
}

#[test]
fn learn_rejects_codebook_size_mismatch() {
    let s1 = seq_of("c", 4, vec![0, 1]);
    let s2 = seq_of("c", 6, vec![2, 3]);
    let err = learn(&vec![s1, s2]).unwrap_err();
    assert_eq!(err, ConformityError::CodebookSize { expected: 4, found: 6 });
}

#[test]
fn learn_rejects_class_name_mismatch() {
    let s1 = seq_of("alpha", 3, vec![0, 1]);
    let s2 = seq_of("beta", 3, vec![1, 2]);
    let err = learn(&vec![s1, s2]).unwrap_err();
    assert_eq!(
        err,
        ConformityError::ClassName { expected: "alpha".to_string(), found: "beta".to_string() }
    );
}

#[test]
fn learn_reports_first_mismatch() {
    // the codebook check of the offending sequence comes before its label
    // check, and the first offender wins.
    let s1 = seq_of("a", 3, vec![0]);
    let s2 = seq_of("b", 5, vec![1]);
    let s3 = seq_of("c", 3, vec![2]);
    let err = learn(&vec![s1, s2, s3]).unwrap_err();
    assert_eq!(err, ConformityError::CodebookSize { expected: 3, found: 5 });
}

#[test]
fn prob_factors_walk_the_tables() {
    let s = seq_of("cls", 3, vec![0, 1, 2]);
    let model = learn(&vec![s]).unwrap();
    let probe = seq_of("cls", 3, vec![0, 1, 1]);
    let factors = model.prob_factors(&probe);
    // initial probability of symbol 0, then transitions 0->1 and 1->1.
    assert_eq!(factors, vec![(2, 4), (2, 4), (1, 4)]);
}

#[test]
fn trained_rows_sum_to_denominators() {
    // the smoothed tables are exact distributions: numerators sum to the
    // denominator, for the initial distribution and for every row.
    let s1 = seq_of("c", 3, vec![0, 2, 2, 1]);
    let s2 = seq_of("c", 3, vec![1, 1, 0]);
    let model = learn(&vec![s1, s2]).unwrap();
    assert_eq!(model.pi_num.iter().sum::<u64>(), model.pi_den);
    for i in 0..3 {
        assert_eq!(model.a_num[i].iter().sum::<u64>(), model.a_den[i]);
    }
}

#[test]
fn find_class_id_picks_first_match() {
    let names = vec!["a".to_string(), "b".to_string(), "b".to_string()];
    assert_eq!(find_class_id(&names, &"b".to_string()), Some(1));
    assert_eq!(find_class_id(&names, &"a".to_string()), Some(0));
    assert_eq!(find_class_id(&names, &"z".to_string()), None);
}
