use litsea::segmenter::Segmenter;

#[test]
fn test_get_type() {
    let segmenter = Segmenter::new(None);

    assert_eq!(segmenter.get_type("あ"), "I"); // Hiragana
    assert_eq!(segmenter.get_type("漢"), "H"); // Kanji
    assert_eq!(segmenter.get_type("A"), "A"); // Latin
    assert_eq!(segmenter.get_type("1"), "N"); // Digit
    assert_eq!(segmenter.get_type("@"), "O"); // Not matching any pattern
}

#[test]
fn segmenter_test_get_type() {
    let segmenter = Segmenter::new(None);

    assert_eq!(segmenter.get_type("あ"), "I"); // Hiragana
    assert_eq!(segmenter.get_type("漢"), "H"); // Kanji
    assert_eq!(segmenter.get_type("A"), "A"); // Latin
    assert_eq!(segmenter.get_type("1"), "N"); // Digit
}

#[test]
fn test_add_corpus_with_writer() {
    let segmenter = Segmenter::new(None);
    let sentence = "テスト です";

    let collected = segmenter.corpus_instances(sentence);

    // There should be instances for the line's characters.
    assert!(!collected.is_empty());

    // Check that labels are either 1 or -1
    for (_, label) in &collected {
        assert!(*label == 1 || *label == -1);
    }

    // Check that attributes contain expected keys
    let (attrs, _) = &collected[0];
    assert!(attrs.iter().any(|a| a.starts_with("UW")));
    assert!(attrs.iter().any(|a| a.starts_with("UC")));
}

#[test]
fn test_add_corpus() {
    let mut segmenter = Segmenter::new(None);
    let sentence = "テスト です";
    segmenter.add_corpus(sentence);
    // Should not panic or add anything, just a smoke test
}

#[test]
fn test_segment() {
    let sentence = "これはテストです。";

    // Train a model on the gold segmentation of the same sentence and
    // segment it back.
    let mut segmenter = Segmenter::new(None);
    segmenter.add_corpus("これ は テスト です 。");
    segmenter.learner.train();

    let result = segmenter.segment(sentence);

    assert!(!result.is_empty());
    assert_eq!(result.len(), 5);
    assert_eq!(result[0], "これ");
    assert_eq!(result[1], "は");
    assert_eq!(result[2], "テスト");
    assert_eq!(result[3], "です");
    assert_eq!(result[4], "。");
}

#[test]
fn test_add_sentence_empty() {
    let mut segmenter = Segmenter::new(None);
    segmenter.add_corpus("");
    // Should not panic or add anything
    assert_eq!(segmenter.learner.get_num_instances(), 0);
}

#[test]
fn test_blank_corpus_line() {
    let segmenter = Segmenter::new(None);
    assert!(segmenter.corpus_instances("").is_empty());
    assert!(segmenter.corpus_instances("   ").is_empty());
}

#[test]
fn test_segment_empty_sentence() {
    let segmenter = Segmenter::new(None);
    let result = segmenter.segment("");
    assert!(result.is_empty());
}

#[test]
fn test_get_attributes() {
    let segmenter = Segmenter::new(None);

    let tags = vec!["U".to_string(); 7];

    let chars = vec![
        "B3".to_string(), // index 0
        "B2".to_string(), // index 1
        "B1".to_string(), // index 2
        "あ".to_string(), // index 3
        "い".to_string(), // index 4
        "う".to_string(), // index 5
        "E1".to_string(), // index 6
    ];

    let types = vec![
        "O".to_string(), // index 0
        "O".to_string(), // index 1
        "O".to_string(), // index 2
        "O".to_string(), // index 3
        "I".to_string(), // index 4
        "I".to_string(), // index 5
        "O".to_string(), // index 6
    ];

    let attrs = segmenter.get_attributes(4, &tags, &chars, &types);
    assert!(attrs.iter().any(|a| a == "UW4:い"));
    assert!(attrs.iter().any(|a| a == "UC4:I"));
    assert!(attrs.iter().any(|a| a == "UP3:U"));
}

#[test]
fn test_instance_count_is_chars_minus_one() {
    let segmenter = Segmenter::new(None);
    // Five real characters across the two words: four decisions.
    let collected = segmenter.corpus_instances("テスト です");
    assert_eq!(collected.len(), 4);
    // A single character needs no decision.
    assert_eq!(segmenter.corpus_instances("あ").len(), 0);
}

#[test]
fn test_format_instance_line() {
    let attrs = vec!["UW1:a".to_string(), "UW2:b".to_string()];
    let line = litsea::segmenter::format_instance_line(1, &attrs);
    assert_eq!(line, "1\tUW1:a\tUW2:b");
    let line2 = litsea::segmenter::format_instance_line(-1, &attrs);
    assert_eq!(line2, "-1\tUW1:a\tUW2:b");
}

#[test]
fn test_segment_mixed_scripts() {
    // Train on a mixed-script line and reproduce its segmentation.
    let mut segmenter = Segmenter::new(None);
    segmenter.add_corpus("Rust で 書く 2024");
    segmenter.learner.train();

    let result = segmenter.segment("Rustで書く2024");
    assert_eq!(result, vec!["Rust", "で", "書く", "2024"]);
}
