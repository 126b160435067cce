use naive_bayes::classifier::NaiveBayesClassifier;
use naive_bayes::harness::ConfusionMatrix;
use naive_bayes::harness::split;
use naive_bayes::harness::evaluate;

fn example(label: bool, tokens: &[&str]) -> (bool, Vec<String>) {
    (label, tokens.iter().map(|t| t.to_string()).collect())
}

fn ratio_as_f64(r: &naive_bayes::harness::Ratio) -> f64 {
    (r.numerator as f64) / (r.denominator as f64)
}

#[test]
fn split_three_quarters_of_eight_is_six_and_two() {
    let examples: Vec<(bool, Vec<String>)> = (1..=8)
        .map(|i| example(i % 2 == 0, &[&format!("e{}", i)]))
        .collect();
    let (training, validation) = split(examples, 3, 4);
    assert_eq!(training.len(), 6);
    assert_eq!(validation.len(), 2);
    for (i, e) in training.iter().enumerate() {
        assert_eq!(e.1[0], format!("e{}", i + 1));
    }
    assert_eq!(validation[0].1[0], "e7");
    assert_eq!(validation[1].1[0], "e8");
}

#[test]
fn split_takes_the_floor() {
    let examples: Vec<(bool, Vec<String>)> =
        (0..5).map(|i| example(true, &[&format!("t{}", i)])).collect();
    let (training, validation) = split(examples, 1, 2);
    assert_eq!(training.len(), 2);
    assert_eq!(validation.len(), 3);
}

#[test]
fn evaluate_fills_exactly_one_cell_per_example() {
    let mut m = NaiveBayesClassifier::new();
    m.train(&vec![
        example(true, &["buy", "now"]),
        example(false, &["meeting", "today"]),
    ]);
    let validation = vec![
        example(true, &["buy"]),      // classified positive: true positive
        example(false, &["meeting"]), // classified negative: true negative
        example(false, &["buy"]),     // classified positive: false positive
        example(true, &["today"]),    // classified negative: false negative
    ];
    let cm = evaluate(&m, &validation);
    assert_eq!(cm.true_positive, 1);
    assert_eq!(cm.true_negative, 1);
    assert_eq!(cm.false_positive, 1);
    assert_eq!(cm.false_negative, 1);
}

#[test]
fn metrics_scenario_matches_the_formulas() {
    let cm = ConfusionMatrix {
        true_positive: 3,
        true_negative: 2,
        false_positive: 1,
        false_negative: 0,
    };
    let precision = cm.precision().unwrap();
    assert_eq!((precision.numerator, precision.denominator), (3, 4));
    assert_eq!(ratio_as_f64(&precision), 0.75);

    let recall = cm.recall().unwrap();
    assert_eq!((recall.numerator, recall.denominator), (3, 3));
    assert_eq!(ratio_as_f64(&recall), 1.0);

    let specificity = cm.specificity().unwrap();
    assert_eq!((specificity.numerator, specificity.denominator), (2, 3));
    assert!((ratio_as_f64(&specificity) - 0.667).abs() < 0.001);

    let accuracy = cm.accuracy().unwrap();
    assert_eq!((accuracy.numerator, accuracy.denominator), (5, 6));
    assert!((ratio_as_f64(&accuracy) - 0.833).abs() < 0.001);
}

#[test]
fn zero_denominators_are_reported_as_undefined() {
    let cm = ConfusionMatrix {
        true_positive: 0,
        true_negative: 0,
        false_positive: 0,
        false_negative: 5,
    };
    assert!(cm.precision().is_none()); // nothing predicted positive
    assert!(cm.specificity().is_none()); // nothing actually negative
    let recall = cm.recall().unwrap();
    assert_eq!((recall.numerator, recall.denominator), (0, 5));
    let accuracy = cm.accuracy().unwrap();
    assert_eq!((accuracy.numerator, accuracy.denominator), (0, 5));

    let empty = ConfusionMatrix {
        true_positive: 0,
        true_negative: 0,
        false_positive: 0,
        false_negative: 0,
    };
    assert!(empty.accuracy().is_none());
}

#[test]
fn accuracy_stays_between_zero_and_one() {
    let cases = [
        (3u64, 2u64, 1u64, 0u64),
        (0, 0, 4, 9),
        (7, 0, 0, 0),
        (1, 1, 1, 1),
    ];
    for (tp, tn, fp, fal_n) in cases {
        let cm = ConfusionMatrix {
            true_positive: tp,
            true_negative: tn,
            false_positive: fp,
            false_negative: fal_n,
        };
        let a = cm.accuracy().unwrap();
        let value = ratio_as_f64(&a);
        assert!((0.0..=1.0).contains(&value));
        assert!(a.numerator <= a.denominator);
    }
}

#[test]
fn whole_pipeline_on_a_small_corpus() {
    let corpus = vec![
        example(true, &["win", "cash", "now"]),
        example(true, &["cheap", "pills", "now"]),
        example(true, &["win", "prize"]),
        example(false, &["meeting", "at", "noon"]),
        example(false, &["project", "update"]),
        example(false, &["lunch", "today"]),
        example(true, &["cash", "prize", "now"]),
        example(false, &["see", "you", "at", "noon"]),
    ];
    let (training, validation) = split(corpus, 3, 4);
    assert_eq!(training.len(), 6);
    let mut model = NaiveBayesClassifier::new();
    model.train(&training);
    let cm = evaluate(&model, &validation);
    let total = cm.true_positive + cm.true_negative + cm.false_positive + cm.false_negative;
    assert_eq!(total, 2);
    // Both held-out examples are classified correctly.
    assert_eq!(cm.true_positive, 1);
    assert_eq!(cm.true_negative, 1);
    let accuracy = cm.accuracy().unwrap();
    assert_eq!((accuracy.numerator, accuracy.denominator), (2, 2));
}
