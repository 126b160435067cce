use naive_bayes::classifier::NaiveBayesClassifier;

fn example(label: bool, tokens: &[&str]) -> (bool, Vec<String>) {
    (label, tokens.iter().map(|t| t.to_string()).collect())
}

fn features(tokens: &[&str]) -> Vec<String> {
    tokens.iter().map(|t| t.to_string()).collect()
}

#[test]
fn untrained_model_classifies_everything_negative() {
    let m = NaiveBayesClassifier::new();
    assert!(!m.classify(&features(&[])));
    assert!(!m.classify(&features(&["buy"])));
    assert!(!m.classify(&features(&["buy", "now", "cheap"])));
}

#[test]
fn training_scenario_accumulates_and_classifies() {
    let mut m = NaiveBayesClassifier::new();
    let batch = vec![
        example(true, &["buy", "now"]),
        example(false, &["meeting", "today"]),
    ];
    m.train(&batch);
    assert_eq!(m.positive_label.document_count, 1);
    assert_eq!(m.negative_label.document_count, 1);
    assert_eq!(m.positive_label.feature_count, 2);
    assert_eq!(m.negative_label.feature_count, 2);
    assert_eq!(m.positive_label.feature_lookup.get("buy"), 1);
    assert_eq!(m.positive_label.feature_lookup.get("meeting"), 0);
    assert_eq!(m.negative_label.feature_lookup.get("meeting"), 1);
    assert_eq!(m.total_feature_count.get("buy"), 1);
    assert_eq!(m.total_feature_count.get("meeting"), 1);
    // Smoothed P("buy"|positive) = 2/3 against 1/3: positive wins.
    assert!(m.classify(&features(&["buy"])));
    assert!(!m.classify(&features(&["meeting"])));
}

#[test]
fn duplicate_tokens_count_individually() {
    let mut m = NaiveBayesClassifier::new();
    m.train(&vec![example(true, &["x", "x", "y"])]);
    assert_eq!(m.positive_label.feature_lookup.get("x"), 2);
    assert_eq!(m.positive_label.feature_lookup.get("y"), 1);
    assert_eq!(m.positive_label.feature_count, 3);
    assert_eq!(m.total_feature_count.get("x"), 2);
}

#[test]
fn global_counter_is_sum_of_per_class_counts() {
    let mut m = NaiveBayesClassifier::new();
    m.train(&vec![
        example(true, &["w", "w"]),
        example(false, &["w"]),
        example(false, &["v"]),
    ]);
    for tok in ["w", "v", "unseen"] {
        assert_eq!(
            m.total_feature_count.get(tok),
            m.positive_label.feature_lookup.get(tok) + m.negative_label.feature_lookup.get(tok)
        );
    }
}

#[test]
fn training_in_batches_and_in_any_order_gives_the_same_counts() {
    let a = example(true, &["buy", "now"]);
    let b = example(false, &["meeting", "today"]);
    let c = example(true, &["buy", "cheap", "now"]);

    let mut m1 = NaiveBayesClassifier::new();
    m1.train(&vec![a.clone(), b.clone()]);
    m1.train(&vec![c.clone()]);

    let mut m2 = NaiveBayesClassifier::new();
    m2.train(&vec![c, a, b]);

    assert_eq!(
        m1.positive_label.document_count,
        m2.positive_label.document_count
    );
    assert_eq!(
        m1.negative_label.document_count,
        m2.negative_label.document_count
    );
    assert_eq!(m1.positive_label.feature_count, m2.positive_label.feature_count);
    assert_eq!(m1.negative_label.feature_count, m2.negative_label.feature_count);
    for tok in ["buy", "now", "meeting", "today", "cheap", "other"] {
        assert_eq!(
            m1.positive_label.feature_lookup.get(tok),
            m2.positive_label.feature_lookup.get(tok)
        );
        assert_eq!(
            m1.negative_label.feature_lookup.get(tok),
            m2.negative_label.feature_lookup.get(tok)
        );
        assert_eq!(m1.total_feature_count.get(tok), m2.total_feature_count.get(tok));
    }
    assert_eq!(
        m1.classify(&features(&["buy", "today"])),
        m2.classify(&features(&["buy", "today"]))
    );
}

#[test]
fn perfectly_balanced_evidence_ties_to_negative() {
    let mut m = NaiveBayesClassifier::new();
    m.train(&vec![example(true, &["a"]), example(false, &["a"])]);
    // Both classes saw one document and one "a": the score is exactly zero.
    assert!(!m.classify(&features(&["a"])));
}

#[test]
fn prior_alone_decides_an_empty_feature_list() {
    let mut m = NaiveBayesClassifier::new();
    m.train(&vec![
        example(true, &[]),
        example(true, &[]),
        example(false, &[]),
    ]);
    // prior = log2(3/2) > 0 with no feature evidence.
    assert!(m.classify(&features(&[])));

    let mut n = NaiveBayesClassifier::new();
    n.train(&vec![example(true, &[]), example(false, &[])]);
    // prior = log2(2/2) == 0: the tie resolves to negative.
    assert!(!n.classify(&features(&[])));
}

#[test]
fn many_features_are_compared_exactly() {
    let mut m = NaiveBayesClassifier::new();
    m.train(&vec![
        example(true, &["spamword"; 40]),
        example(false, &["hamword"; 40]),
    ]);
    let mut mixed: Vec<&str> = vec!["spamword"; 41];
    mixed.extend_from_slice(&["hamword"; 40]);
    // 41 positive tokens against 40 negative ones: the products are huge,
    // but the comparison is exact, so the single extra token decides.
    assert!(m.classify(&features(&mixed)));
    let mut balanced: Vec<&str> = vec!["spamword"; 40];
    balanced.extend_from_slice(&["hamword"; 40]);
    assert!(!m.classify(&features(&balanced)));
}
