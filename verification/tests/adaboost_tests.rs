use litsea::adaboost::{AdaBoost, InstanceParseError, ModelLoadError};
use litsea::numeric::SCALE;

fn lines(xs: &[&str]) -> Vec<String> {
    xs.iter().map(|s| s.to_string()).collect()
}

#[test]
fn test_initialize_features() {
    let mut learner = AdaBoost::new(10_000_000_000, 10, 1);
    learner.initialize_features(&lines(&["1 feat1 feat2", "0 feat3"]));

    // Features is an ordered set that should contain "" (empty string),
    // "feat1", "feat2", "feat3".
    assert!(learner.get_features().contains(&"".to_string()));
    assert!(learner.get_features().contains(&"feat1".to_string()));
    assert!(learner.get_features().contains(&"feat2".to_string()));
    assert!(learner.get_features().contains(&"feat3".to_string()));
}

#[test]
fn test_initialize_instances() {
    let mut learner = AdaBoost::new(10_000_000_000, 10, 1);
    learner.initialize_features(&lines(&["1 feat1 feat2"]));
    learner.initialize_instances(&lines(&["1 feat1"])).unwrap();

    assert_eq!(learner.get_num_instances(), 1);
    assert_eq!(learner.get_labels().len(), 1);
    assert_eq!(learner.get_instance_weights().len(), 1);
    assert_eq!(learner.get_instances().len(), 1);
}

#[test]
fn adaboost_test_train() {
    let mut learner = AdaBoost::new(10_000_000_000, 3, 1);
    learner.initialize_features(&lines(&["1 feat1 feat2"]));
    learner.initialize_instances(&lines(&["1 feat1"])).unwrap();

    learner.train();

    // The instance weights must be normalized: they sum to one within
    // the fixed-point tolerance.
    let weight_sum: i128 = learner.get_instance_weights().iter().map(|w| *w as i128).sum();
    assert!((weight_sum - SCALE as i128).abs() < 1_000_000);
}

#[test]
fn test_save_and_load_model() {
    let mut learner = AdaBoost::new(10_000_000_000, 10, 1);
    learner.set_model(
        vec!["feat1".to_string(), "feat2".to_string()],
        vec![SCALE / 2, -3 * (SCALE / 10)],
    );

    let saved = learner.save_model();

    let mut learner2 = AdaBoost::new(10_000_000_000, 10, 1);
    learner2.load_model(&saved).unwrap();

    assert_eq!(learner2.get_features().len(), learner.get_features().len());
    assert_eq!(learner2.get_model().len(), learner.get_model().len());
}

#[test]
fn test_round_trip_preserves_predictions() {
    // A sorted vocabulary with the empty bias feature at slot 0.
    let mut learner = AdaBoost::new(10_000_000_000, 10, 1);
    learner.set_model(
        vec!["".to_string(), "x1".to_string(), "x2".to_string(), "x3".to_string()],
        vec![-SCALE / 4, SCALE / 2, 0, -SCALE],
    );

    let saved = learner.save_model();
    let mut learner2 = AdaBoost::new(10_000_000_000, 10, 1);
    learner2.load_model(&saved).unwrap();

    for attrs in [
        vec![],
        vec!["x1".to_string()],
        vec!["x2".to_string()],
        vec!["x3".to_string()],
        vec!["x1".to_string(), "x3".to_string()],
        vec!["nope".to_string()],
    ] {
        assert_eq!(learner.predict(&attrs), learner2.predict(&attrs));
    }
    assert_eq!(learner.get_bias(), learner2.get_bias());
}

#[test]
fn test_add_instance_and_predict() {
    let mut learner = AdaBoost::new(10_000_000_000, 10, 1);

    let attrs = vec!["A".to_string()];
    learner.add_instance(&attrs, 1);

    // On the all-zero starting model the score is zero, so the
    // prediction is positive.
    let prediction = learner.predict(&attrs);
    assert_eq!(prediction, 1);
}

#[test]
fn test_get_bias() {
    let mut learner = AdaBoost::new(10_000_000_000, 10, 1);

    // bias = -sum(model)/2 = -(0.2 + 0.3 - 0.1)/2 = -0.2
    learner.set_model(
        vec![],
        vec![2 * (SCALE / 10), 3 * (SCALE / 10), -(SCALE / 10)],
    );

    assert_eq!(learner.get_bias(), -(2 * (SCALE as i128) / 10));
}

#[test]
fn test_get_metrics() {
    let mut learner = AdaBoost::new(10_000_000_000, 10, 1);
    learner.set_model(
        vec!["A".to_string(), "B".to_string()],
        vec![SCALE / 2, -SCALE],
    );

    learner.add_instance(&vec!["A".to_string()], 1);
    learner.add_instance(&vec!["B".to_string()], -1);

    let metrics = learner.get_metrics();
    assert_eq!(metrics.true_positives, 1);
    assert_eq!(metrics.true_negatives, 1);
    assert_eq!(metrics.false_positives, 0);
    assert_eq!(metrics.false_negatives, 0);
    assert_eq!(metrics.num_instances, 2);

    // Accuracy is 100 percent, in fixed-point units.
    assert_eq!(metrics.accuracy, 100 * SCALE);
}

#[test]
fn test_load_model() {
    let mut learner = AdaBoost::new(10_000_000_000, 10, 1);
    learner.initialize_features(&lines(&["1 feature1"]));
    learner.initialize_instances(&lines(&["1 feature1"])).unwrap();

    // The feature line is "BW1:こん\t-0.1262" and the last line is the
    // bias value "100.0".
    learner
        .load_model(&lines(&["BW1:こん\t-0.1262", "100.0"]))
        .unwrap();
}

#[test]
fn trainer_test_train() {
    let mut learner = AdaBoost::new(10_000_000_000, 5, 1);
    learner.initialize_features(&lines(&["1 feature1"]));
    learner.initialize_instances(&lines(&["1 feature1"])).unwrap();

    learner.train();
    let saved = learner.save_model();
    assert!(!saved.is_empty());

    let metrics = learner.get_metrics();
    assert!(metrics.accuracy >= 0);
    assert!(metrics.precision >= 0);
    assert!(metrics.recall >= 0);
}

#[test]
fn test_toy_model_score() {
    // A single-feature model: feature "BW1:こん" with weight -0.1262
    // and a halved bias line of 100.0.  The reconstructed bias is 100,
    // so the score of an instance holding only that feature is
    // 100 - 0.1262, which is positive.
    let mut learner = AdaBoost::new(10_000_000_000, 10, 1);
    learner
        .load_model(&lines(&["BW1:こん\t-0.1262", "100.0"]))
        .unwrap();

    assert_eq!(learner.get_bias(), 100 * SCALE as i128);
    let prediction = learner.predict(&vec!["BW1:こん".to_string()]);
    assert_eq!(prediction, 1);
}

#[test]
fn test_load_model_bad_line() {
    let mut learner = AdaBoost::new(10_000_000_000, 10, 1);
    let r = learner.load_model(&lines(&["not-a-number"]));
    assert_eq!(r, Err(ModelLoadError::BadLine));
    let r2 = learner.load_model(&lines(&["feat abc"]));
    assert_eq!(r2, Err(ModelLoadError::BadLine));
    let r3 = learner.load_model(&lines(&[""]));
    assert_eq!(r3, Err(ModelLoadError::BadLine));
}

#[test]
fn test_load_model_out_of_range() {
    let mut learner = AdaBoost::new(10_000_000_000, 10, 1);
    // A weight of ten million whole units is beyond the representable
    // band.
    let r = learner.load_model(&lines(&["feat\t10000000.0"]));
    assert_eq!(r, Err(ModelLoadError::OutOfRange));
}

#[test]
fn test_initialize_instances_bad_label() {
    let mut learner = AdaBoost::new(10_000_000_000, 10, 1);
    learner.initialize_features(&lines(&["1 feat1"]));
    let r = learner.initialize_instances(&lines(&["x feat1"]));
    assert_eq!(r, Err(InstanceParseError::BadLabel));
    let r2 = learner.initialize_instances(&lines(&[""]));
    assert_eq!(r2, Err(InstanceParseError::BadLabel));
}

#[test]
fn test_warm_start_weights() {
    // With a loaded model, instance weights start at exp(-2 y score);
    // a correctly classified positive instance starts below one unit.
    let mut learner = AdaBoost::new(10_000_000_000, 10, 1);
    learner.initialize_features(&lines(&["1 feat1"]));
    learner
        .load_model(&lines(&["feat1\t1.0", "0.0"]))
        .unwrap();
    learner.initialize_instances(&lines(&["1 feat1"])).unwrap();
    let w = learner.get_instance_weights()[0];
    assert!(w < SCALE);
    assert!(w >= 1);
}

#[test]
fn test_load_model_duplicate_feature() {
    // On a repeated feature name the later line wins, as a map insert.
    let mut learner = AdaBoost::new(10_000_000_000, 10, 1);
    learner
        .load_model(&lines(&["feat\t1.0", "feat\t2.0", "0.0"]))
        .unwrap();
    let idx = learner
        .get_features()
        .iter()
        .position(|f| f == "feat")
        .unwrap();
    assert_eq!(learner.get_model()[idx], 2 * SCALE);
}

#[test]
fn test_load_model_extra_tokens() {
    // Only the first two whitespace-separated tokens of a line count.
    let mut learner = AdaBoost::new(10_000_000_000, 10, 1);
    learner
        .load_model(&lines(&["feat\t1.5\tnoise more", "0.0"]))
        .unwrap();
    let idx = learner
        .get_features()
        .iter()
        .position(|f| f == "feat")
        .unwrap();
    assert_eq!(learner.get_model()[idx], SCALE + SCALE / 2);
}
