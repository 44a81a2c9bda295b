use sentence2vec::sentence2vec::Sentence2Vec;
use sentence2vec::word2vec::{Word2Vec, Word2VecTrait, WordVec};

fn wv(comps: &[f32]) -> WordVec {
    WordVec::new(comps.iter().map(|c| c.to_bits()).collect())
}

fn floats(v: &WordVec) -> Vec<f32> {
    v.get_vec().iter().map(|b| f32::from_bits(*b)).collect()
}

fn provider() -> Word2Vec {
    let word_vecs = vec![
        ("cat".to_string(), wv(&[1.0, 0.0])),
        ("dog".to_string(), wv(&[0.0, 1.0])),
    ];
    Word2Vec::from_word_vecs(word_vecs, 2)
}

#[test]
fn test_sentence_vector_single_match() {
    let s2v = Sentence2Vec::new(provider(), 2);
    // lower-cased and trimmed of punctuation, "The Cat!" matches only "cat"
    let vec = s2v.get_vec("The Cat!").unwrap();
    assert_eq!(floats(&vec), vec![1.0, 0.0]);
}

#[test]
fn test_sentence_vector_empty_sentence() {
    let s2v = Sentence2Vec::new(provider(), 2);
    assert!(s2v.get_vec("").is_none());
    assert!(s2v.get_vec("unknown words only").is_none());
}

#[test]
fn test_sentence_vector_average() {
    let s2v = Sentence2Vec::new(provider(), 2);
    let vec = s2v.get_vec("cat dog").unwrap();
    assert_eq!(floats(&vec), vec![0.5, 0.5]);
}

#[test]
fn test_sentence_cosine() {
    let s2v = Sentence2Vec::new(provider(), 2);
    let same = s2v.cosine("The cat.", "a cat").unwrap();
    assert_eq!(f32::from_bits(same), 1.0);
    let orthogonal = s2v.cosine("the cat", "the dog").unwrap();
    assert_eq!(f32::from_bits(orthogonal), 0.0);
    assert!(s2v.cosine("the cat", "nothing known").is_none());
}

#[test]
fn test_sentence_token_trimming() {
    let s2v = Sentence2Vec::new(provider(), 2);
    // punctuation is stripped from each token, so "cat," and "(dog)" match
    let vec = s2v.get_vec("cat, (dog)").unwrap();
    assert_eq!(floats(&vec), vec![0.5, 0.5]);
}
