use crfsuite::data::{AttrVal, Attribute, Dataset, Instance, Item};
use crfsuite::dict::Dictionary;
use crfsuite::errors::CrfError;
use crfsuite::fixed::SCALE;
use crfsuite::trainer::train_averaged_perceptron;

fn item(ids: &[usize]) -> Item {
    Item { attrs: ids.iter().map(|&id| AttrVal { id, value: SCALE }).collect() }
}

/// A toy corpus over labels O and B-X with one attribute per position:
/// attribute 0 ("plain") is always tagged O, attribute 1 ("marker") B-X.
fn toy_training() -> (Dictionary, Dictionary, Dataset) {
    let mut attrs = Dictionary::new();
    attrs.intern(b"plain".to_vec());
    attrs.intern(b"marker".to_vec());
    let mut labels = Dictionary::new();
    labels.intern(b"O".to_vec());
    labels.intern(b"B-X".to_vec());
    let mut ds = Dataset::new();
    ds.push(Instance { items: vec![item(&[0]), item(&[1])], gold: vec![0, 1] });
    ds.push(Instance { items: vec![item(&[1]), item(&[0])], gold: vec![1, 0] });
    ds.push(Instance { items: vec![item(&[0]), item(&[0])], gold: vec![0, 0] });
    (attrs, labels, ds)
}

#[test]
fn averaged_perceptron_learns_the_toy_model() {
    let (attrs, labels, ds) = toy_training();
    let m = train_averaged_perceptron(attrs, labels, &ds, 10, 1).unwrap();
    // the held-in instance must decode to its gold labels exactly
    let input = vec![
        vec![Attribute { name: b"plain".to_vec(), value: SCALE }],
        vec![Attribute { name: b"marker".to_vec(), value: SCALE }],
    ];
    let out = m.tag(&input).unwrap();
    assert_eq!(out, vec![b"O".to_vec(), b"B-X".to_vec()]);
    let input2 = vec![
        vec![Attribute { name: b"marker".to_vec(), value: SCALE }],
        vec![Attribute { name: b"plain".to_vec(), value: SCALE }],
    ];
    assert_eq!(m.tag(&input2).unwrap(), vec![b"B-X".to_vec(), b"O".to_vec()]);
}

#[test]
fn trained_model_round_trips_through_serialization() {
    let (attrs, labels, ds) = toy_training();
    let m = train_averaged_perceptron(attrs, labels, &ds, 10, 1).unwrap();
    let bytes = m.serialize().unwrap();
    let back = crfsuite::model::Model::load(&bytes).unwrap();
    assert_eq!(back.weights, m.weights);
    assert_eq!(back.label_names(), m.label_names());
}

#[test]
fn malformed_datasets_are_rejected() {
    let (attrs, labels, _) = toy_training();
    // a gold sequence of the wrong length
    let mut ds = Dataset::new();
    ds.push(Instance { items: vec![item(&[0])], gold: vec![0, 1] });
    let r = train_averaged_perceptron(attrs, labels, &ds, 5, 1);
    assert!(matches!(r, Err(CrfError::TrainingDiverged)));
}

#[test]
fn too_many_epochs_are_rejected() {
    let (attrs, labels, ds) = toy_training();
    let r = train_averaged_perceptron(attrs, labels, &ds, 1_001, 1);
    assert!(matches!(r, Err(CrfError::TrainingDiverged)));
}

#[test]
fn feature_cutoff_prunes_rare_features() {
    let (attrs, labels, ds) = toy_training();
    // attribute 1 under label B-X appears twice; a cutoff of three prunes it
    let m = train_averaged_perceptron(attrs, labels, &ds, 5, 3).unwrap();
    for f in &m.catalog.state_feats {
        assert!(!(f.label == 1 && f.attr == 1));
    }
}

#[test]
fn passive_aggressive_learns_the_toy_model() {
    let (attrs, labels, ds) = toy_training();
    // aggressiveness bound of one unit
    let m = crfsuite::trainer::train_passive_aggressive(attrs, labels, &ds, 10, 1, 1_000_000)
        .unwrap();
    let input = vec![
        vec![Attribute { name: b"plain".to_vec(), value: SCALE }],
        vec![Attribute { name: b"marker".to_vec(), value: SCALE }],
    ];
    assert_eq!(m.tag(&input).unwrap(), vec![b"O".to_vec(), b"B-X".to_vec()]);
}

#[test]
fn passive_aggressive_rejects_a_bad_aggressiveness_bound() {
    let (attrs, labels, ds) = toy_training();
    let r = crfsuite::trainer::train_passive_aggressive(attrs, labels, &ds, 5, 1, 0);
    assert!(matches!(r, Err(CrfError::TrainingDiverged)));
}

#[test]
fn arow_learns_the_toy_model() {
    let (attrs, labels, ds) = toy_training();
    // variance parameter of one unit
    let m = crfsuite::trainer::train_arow(attrs, labels, &ds, 10, 1, 1_000_000).unwrap();
    let input = vec![
        vec![Attribute { name: b"plain".to_vec(), value: SCALE }],
        vec![Attribute { name: b"marker".to_vec(), value: SCALE }],
    ];
    assert_eq!(m.tag(&input).unwrap(), vec![b"O".to_vec(), b"B-X".to_vec()]);
}

#[test]
fn arow_rejects_a_bad_variance_parameter() {
    let (attrs, labels, ds) = toy_training();
    let r = crfsuite::trainer::train_arow(attrs, labels, &ds, 5, 1, 0);
    assert!(matches!(r, Err(CrfError::TrainingDiverged)));
}
