use crfsuite::data::{AttrVal, Attribute, Dataset, Instance, Item};
use crfsuite::dict::Dictionary;
use crfsuite::errors::CrfError;
use crfsuite::fixed::SCALE;
use crfsuite::tagger::Tagger;
use crfsuite::trainer::train_averaged_perceptron;

fn item(ids: &[usize]) -> Item {
    Item { attrs: ids.iter().map(|&id| AttrVal { id, value: SCALE }).collect() }
}

fn trained_model_bytes() -> Vec<u8> {
    let mut attrs = Dictionary::new();
    attrs.intern(b"plain".to_vec());
    attrs.intern(b"marker".to_vec());
    let mut labels = Dictionary::new();
    labels.intern(b"O".to_vec());
    labels.intern(b"B-X".to_vec());
    let mut ds = Dataset::new();
    ds.push(Instance { items: vec![item(&[0]), item(&[1])], gold: vec![0, 1] });
    ds.push(Instance { items: vec![item(&[1]), item(&[0])], gold: vec![1, 0] });
    ds.push(Instance { items: vec![item(&[0]), item(&[0])], gold: vec![0, 0] });
    let m = train_averaged_perceptron(attrs, labels, &ds, 10, 1).unwrap();
    m.serialize().unwrap()
}

fn named(name: &str) -> Vec<Attribute> {
    vec![Attribute { name: name.as_bytes().to_vec(), value: SCALE }]
}

#[test]
fn tagger_from_memory_decodes_and_scores() {
    let bytes = trained_model_bytes();
    let mut t = Tagger::create_from_memory(bytes).unwrap();
    assert_eq!(t.labels(), vec![b"O".to_vec(), b"B-X".to_vec()]);

    let input = vec![named("plain"), named("marker")];
    let out = t.tag(&input).unwrap();
    assert_eq!(out, vec![b"O".to_vec(), b"B-X".to_vec()]);

    // the decoded labelling is the most probable one
    let p_best = t.probability(&out).unwrap();
    let other = vec![b"B-X".to_vec(), b"O".to_vec()];
    let p_other = t.probability(&other).unwrap();
    assert!(p_best > p_other);
    assert!(0 <= p_other && p_best <= SCALE);

    // a candidate of the wrong length is a distinct failure
    assert_eq!(t.probability(&vec![b"O".to_vec()]), Err(CrfError::LengthMismatch));
    // an unknown label name is a distinct failure
    let unknown = vec![b"O".to_vec(), b"Z".to_vec()];
    assert_eq!(t.probability(&unknown), Err(CrfError::DictionaryLookupFailed));
}

#[test]
fn tagger_on_empty_sequence() {
    let bytes = trained_model_bytes();
    let mut t = Tagger::create_from_memory(bytes).unwrap();
    let out = t.tag(&vec![]).unwrap();
    assert!(out.is_empty());
    // the empty labelling of the empty sequence has probability one
    assert_eq!(t.probability(&vec![]), Ok(SCALE));
}

#[test]
fn tagger_rejects_corrupt_containers() {
    let mut bytes = trained_model_bytes();
    bytes[3] ^= 0x40;
    assert!(matches!(
        Tagger::create_from_memory(bytes),
        Err(CrfError::CorruptModel)
    ));
}
