use aima::classification::decision_list::{TrainError, Trainer};
use aima::classification::{class_count, Example};

const INPUT_SCHEME: [u32; 10] = [2, 2, 2, 2, 3, 3, 2, 2, 4, 4];

// The restaurant examples: alternate, bar, fri/sat, hungry, patrons
// (none/some/full), price ($/$$/$$$), raining, reservation, type
// (french/thai/burger/italian), wait estimate (0-10/10-30/30-60/>60).
fn examples() -> Vec<Example> {
    vec![
        Example::new(vec![1, 0, 0, 1, 1, 2, 0, 1, 0, 0], true),
        Example::new(vec![1, 0, 0, 1, 2, 0, 0, 0, 1, 2], false),
        Example::new(vec![0, 1, 0, 0, 1, 0, 0, 0, 2, 0], true),
        Example::new(vec![1, 0, 1, 1, 2, 0, 1, 0, 1, 1], true),
        Example::new(vec![1, 0, 1, 0, 2, 2, 0, 1, 0, 3], false),
        Example::new(vec![0, 1, 0, 1, 1, 1, 1, 1, 3, 0], true),
        Example::new(vec![0, 1, 0, 0, 0, 0, 1, 0, 2, 0], false),
        Example::new(vec![0, 0, 0, 1, 1, 1, 1, 1, 1, 0], true),
        Example::new(vec![0, 1, 1, 0, 2, 0, 1, 0, 2, 3], false),
        Example::new(vec![1, 1, 1, 1, 2, 2, 0, 1, 3, 1], false),
        Example::new(vec![0, 0, 0, 0, 0, 0, 0, 0, 1, 0], false),
        Example::new(vec![1, 1, 1, 1, 2, 0, 0, 0, 2, 2], true),
    ]
}

#[test]
fn decision_list_consistency_test() -> Result<(), TrainError> {
    let input_scheme = INPUT_SCHEME.to_vec();
    let examples = examples();

    let trainer = Trainer::new(input_scheme, &examples);
    let decision_list = trainer.train()?;

    // as long as the training set is free of noise and error
    // trained decision list should be consistent to the training set
    for example in examples {
        assert_eq!(decision_list.classify(example.input()), example.output());
    }

    Ok(())
}

#[test]
fn decision_list_fails_on_contradiction() {
    let examples = vec![Example::new(vec![0], true), Example::new(vec![0], false)];
    let trainer = Trainer::new(vec![1], &examples);
    assert!(matches!(trainer.train(), Err(TrainError::NonUniform)));
}

#[test]
fn decision_list_empty_training_set() {
    let examples: Vec<Example> = vec![];
    let list = Trainer::new(vec![2], &examples).train().ok().unwrap();
    assert!(!list.classify(&[0]));
    assert!(!list.classify(&[1]));
}

#[test]
fn decision_list_single_test() {
    let examples = vec![Example::new(vec![1], true)];
    let list = Trainer::new(vec![2], &examples).train().ok().unwrap();
    assert!(list.classify(&[1]));
    // no test matches: the opposite of the last test's class
    assert!(!list.classify(&[0]));
}

#[test]
fn class_count_counts() {
    assert_eq!(class_count(&examples()), (6, 6));
    assert_eq!(class_count(&[]), (0, 0));
}

#[test]
fn log_test() {
    // make sure that only 0.0 overflows log2
    assert!(std::f64::MIN_POSITIVE.log2().is_finite());
}
