use crfsuite::dict::Dictionary;
use crfsuite::errors::CrfError;

#[test]
fn intern_is_idempotent() {
    let mut d = Dictionary::new();
    let first = d.intern(b"is_first".to_vec());
    let second = d.intern(b"is_first".to_vec());
    assert_eq!(first, second);
    assert_eq!(d.count(), 1);
}

#[test]
fn count_after_distinct_interns() {
    let mut d = Dictionary::new();
    let names: Vec<&[u8]> = vec![b"a", b"b", b"c", b"d", b"e"];
    for (i, n) in names.iter().enumerate() {
        let id = d.intern(n.to_vec());
        assert_eq!(id, i);
    }
    assert_eq!(d.count(), 5);
    // interning them again changes nothing
    for (i, n) in names.iter().enumerate() {
        let id = d.intern(n.to_vec());
        assert_eq!(id, i);
    }
    assert_eq!(d.count(), 5);
}

#[test]
fn ids_are_never_renumbered() {
    let mut d = Dictionary::new();
    let a = d.intern(b"alpha".to_vec());
    let b = d.intern(b"beta".to_vec());
    let a2 = d.intern(b"alpha".to_vec());
    assert_eq!(a, 0);
    assert_eq!(b, 1);
    assert_eq!(a2, 0);
    assert_eq!(d.name_of(0).unwrap(), &b"alpha".to_vec());
    assert_eq!(d.name_of(1).unwrap(), &b"beta".to_vec());
}

#[test]
fn lookups_on_unknown_names_fail() {
    let mut d = Dictionary::new();
    d.intern(b"known".to_vec());
    assert_eq!(d.id_of(&b"unknown".to_vec()), Err(CrfError::DictionaryLookupFailed));
    assert!(d.name_of(7).is_err());
    assert_eq!(d.id_of(&b"known".to_vec()), Ok(0));
}
