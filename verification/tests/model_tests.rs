use crfsuite::data::Attribute;
use crfsuite::dict::Dictionary;
use crfsuite::errors::CrfError;
use crfsuite::features::{FeatureCatalog, StateFeature, TransFeature};
use crfsuite::fixed::SCALE;
use crfsuite::model::Model;

fn attr(name: &str, value: f64) -> Attribute {
    Attribute { name: name.as_bytes().to_vec(), value: (value * 1e6) as i64 }
}

fn toy_model() -> Model {
    let mut attrs = Dictionary::new();
    attrs.intern(b"w".to_vec());
    attrs.intern(b"x".to_vec());
    let mut labels = Dictionary::new();
    labels.intern(b"O".to_vec());
    labels.intern(b"B".to_vec());
    let catalog = FeatureCatalog {
        state_feats: vec![
            StateFeature { label: 0, attr: 0 },
            StateFeature { label: 0, attr: 1 },
            StateFeature { label: 1, attr: 0 },
            StateFeature { label: 1, attr: 1 },
        ],
        trans_feats: vec![
            TransFeature { from: 0, to: 0 },
            TransFeature { from: 0, to: 1 },
            TransFeature { from: 1, to: 0 },
            TransFeature { from: 1, to: 1 },
        ],
    };
    // state weights: O likes "w", B likes "x"; transitions mildly prefer O->B
    let weights = vec![
        2_000_000i64, 0, 1_000_000, 3_000_000,  // state (label, attr) weights
        100_000, 200_000, 50_000, 0,  // transition weights
    ];
    Model { attrs, labels, catalog, weights }
}

#[test]
fn tag_picks_the_best_labels() {
    let m = toy_model();
    let input = vec![vec![attr("w", 1.0)], vec![attr("x", 1.0)]];
    let out = m.tag(&input).unwrap();
    assert_eq!(out, vec![b"O".to_vec(), b"B".to_vec()]);
}

#[test]
fn unknown_attributes_are_skipped() {
    let m = toy_model();
    let input = vec![
        vec![attr("w", 1.0), attr("never_seen", 1.0)],
        vec![attr("x", 1.0)],
    ];
    let out = m.tag(&input).unwrap();
    assert_eq!(out, vec![b"O".to_vec(), b"B".to_vec()]);
}

#[test]
fn tagging_empty_sequence_returns_empty_labels_and_probability_one() {
    let m = toy_model();
    let out = m.tag(&vec![]).unwrap();
    assert!(out.is_empty());
    let p = m.probability(&vec![], &vec![]).unwrap();
    assert_eq!(p, SCALE);
}

#[test]
fn probability_errors_are_distinct() {
    let m = toy_model();
    let input = vec![vec![attr("w", 1.0)], vec![attr("x", 1.0)]];
    // wrong candidate length
    let r = m.probability(&input, &vec![b"O".to_vec()]);
    assert_eq!(r, Err(CrfError::LengthMismatch));
    // unknown label name
    let r = m.probability(&input, &vec![b"O".to_vec(), b"Z".to_vec()]);
    assert_eq!(r, Err(CrfError::DictionaryLookupFailed));
    // a value outside the admitted range
    let bad = vec![vec![attr("w", -1.0)], vec![attr("x", 1.0)]];
    let r = m.probability(&bad, &vec![b"O".to_vec(), b"B".to_vec()]);
    assert_eq!(r, Err(CrfError::TrainingDiverged));
}

#[test]
fn probabilities_of_all_labellings_sum_to_one() {
    let m = toy_model();
    let input = vec![vec![attr("w", 1.0)], vec![attr("x", 1.0)]];
    let names = [b"O".to_vec(), b"B".to_vec()];
    let mut total: i64 = 0;
    for a in 0..2usize {
        for b in 0..2usize {
            let cand = vec![names[a].clone(), names[b].clone()];
            total += m.probability(&input, &cand).unwrap();
        }
    }
    assert!((total - SCALE).abs() < 1_000, "total was {total}");
}

#[test]
fn labels_lists_names_in_id_order() {
    let m = toy_model();
    assert_eq!(m.label_names(), vec![b"O".to_vec(), b"B".to_vec()]);
}

#[test]
fn serialized_model_round_trips() {
    let m = toy_model();
    let bytes = m.serialize().unwrap();
    let back = Model::load(&bytes).unwrap();
    assert_eq!(back.label_names(), m.label_names());
    assert_eq!(back.weights, m.weights);
    assert_eq!(back.catalog.state_feats, m.catalog.state_feats);
    assert_eq!(back.catalog.trans_feats, m.catalog.trans_feats);
    // and the loaded model behaves identically
    let input = vec![vec![attr("w", 1.0)], vec![attr("x", 1.0)]];
    assert_eq!(back.tag(&input).unwrap(), m.tag(&input).unwrap());
}

#[test]
fn corrupt_containers_are_rejected() {
    let m = toy_model();
    let bytes = m.serialize().unwrap();
    // a flipped magic byte
    let mut bad = bytes.clone();
    bad[0] ^= 0xff;
    assert_eq!(Model::load(&bad).map(|_| ()), Err(CrfError::CorruptModel));
    // a truncated container
    let short = bytes[..bytes.len() - 1].to_vec();
    assert_eq!(Model::load(&short).map(|_| ()), Err(CrfError::CorruptModel));
    // an empty buffer
    assert_eq!(Model::load(&vec![]).map(|_| ()), Err(CrfError::CorruptModel));
}
