use std::collections::BTreeMap;

use sentence2vec::word2vec::{Word2Vec, Word2VecTrait, WordVec};

fn wv(comps: &[f32]) -> WordVec {
    WordVec::new(comps.iter().map(|c| c.to_bits()).collect())
}

fn floats(v: &WordVec) -> Vec<f32> {
    v.get_vec().iter().map(|b| f32::from_bits(*b)).collect()
}

fn sample_store() -> Word2Vec {
    let word_vecs = vec![
        ("chat".to_string(), wv(&[1.0, -2.5, 0.25])),
        ("chien".to_string(), wv(&[0.0, 3.5, -1.0])),
        ("étoile".to_string(), wv(&[4.0, 5.0, 6.0])),
    ];
    Word2Vec::from_word_vecs(word_vecs, 3)
}

#[test]
fn test_save_and_load_round_trip() {
    let store = sample_store();
    let bytes = store.save_to_bytes();
    let loaded = Word2Vec::load_from_bytes(&bytes, 3).expect("own encoding must load");
    assert_eq!(loaded.len(), store.len());
    assert_eq!(loaded.dim(), 3);
    for word in ["chat", "chien", "étoile"] {
        assert_eq!(
            floats(loaded.get_vec(word).unwrap()),
            floats(store.get_vec(word).unwrap())
        );
    }
}

#[test]
fn test_round_trip_empty_store() {
    let store = Word2Vec::from_word_vecs(Vec::new(), 7);
    let bytes = store.save_to_bytes();
    let loaded = Word2Vec::load_from_bytes(&bytes, 7).expect("empty store must load");
    assert_eq!(loaded.len(), 0);
    assert_eq!(loaded.dim(), 7);
}

#[test]
fn test_load_rejects_malformed_bytes() {
    let store = sample_store();
    let bytes = store.save_to_bytes();

    // wrong dimension
    assert!(Word2Vec::load_from_bytes(&bytes, 2).is_none());

    // truncated
    let mut truncated = bytes.clone();
    truncated.pop();
    assert!(Word2Vec::load_from_bytes(&truncated, 3).is_none());

    // trailing garbage
    let mut trailing = bytes.clone();
    trailing.push(0);
    assert!(Word2Vec::load_from_bytes(&trailing, 3).is_none());

    // too short for a header
    assert!(Word2Vec::load_from_bytes(&vec![1, 2, 3], 3).is_none());

    // plain text is not a store
    let text: Vec<u8> = b"word 1.0 2.0 3.0".to_vec();
    assert!(Word2Vec::load_from_bytes(&text, 3).is_none());
}

#[test]
fn test_load_accepts_unsorted_entries() {
    // a snapshot written by any map serializer may list its entries in any
    // order; the entries are one (word, components) pair after another, which
    // is also how bincode lays out a vector of pairs
    let unsorted: Vec<(String, Vec<f32>)> = vec![
        ("chien".to_string(), vec![0.0, 3.5, -1.0]),
        ("chat".to_string(), vec![1.0, -2.5, 0.25]),
    ];
    let bytes = bincode::serialize(&unsorted).unwrap();
    let loaded = Word2Vec::load_from_bytes(&bytes, 3).expect("any entry order must load");
    assert_eq!(loaded.len(), 2);
    assert_eq!(floats(loaded.get_vec("chat").unwrap()), vec![1.0, -2.5, 0.25]);
    assert_eq!(floats(loaded.get_vec("chien").unwrap()), vec![0.0, 3.5, -1.0]);
}

#[test]
fn test_load_repeated_word_keeps_later_record() {
    let repeated: Vec<(String, Vec<f32>)> = vec![
        ("w".to_string(), vec![1.0]),
        ("w".to_string(), vec![2.0]),
    ];
    let bytes = bincode::serialize(&repeated).unwrap();
    let loaded = Word2Vec::load_from_bytes(&bytes, 1).unwrap();
    assert_eq!(loaded.len(), 1);
    assert_eq!(floats(loaded.get_vec("w").unwrap()), vec![2.0]);
}

#[test]
fn test_binary_format_matches_bincode() {
    // the on-disk format is bincode's legacy encoding of a map from word to a
    // record holding one vector of f32 components; a BTreeMap serializes its
    // entries in sorted order, as the store does
    let mut map: BTreeMap<String, Vec<f32>> = BTreeMap::new();
    map.insert("chat".to_string(), vec![1.0, -2.5, 0.25]);
    map.insert("chien".to_string(), vec![0.0, 3.5, -1.0]);
    map.insert("étoile".to_string(), vec![4.0, 5.0, 6.0]);
    let reference = bincode::serialize(&map).unwrap();

    let store = sample_store();
    assert_eq!(store.save_to_bytes(), reference);

    // and bytes written that way load back
    let loaded = Word2Vec::load_from_bytes(&reference, 3).unwrap();
    assert_eq!(loaded.len(), 3);
    assert_eq!(floats(loaded.get_vec("chat").unwrap()), vec![1.0, -2.5, 0.25]);
}
