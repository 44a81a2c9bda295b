use sentence2vec::W2vError;
use sentence2vec::word2vec::{Word2Vec, Word2VecTrait, WordVec};

fn wv(comps: &[f32]) -> WordVec {
    WordVec::new(comps.iter().map(|c| c.to_bits()).collect())
}

fn floats(v: &WordVec) -> Vec<f32> {
    v.get_vec().iter().map(|b| f32::from_bits(*b)).collect()
}

#[test]
fn test_wordvec() {
    let vec1 = wv(&[1.0, 0.0]);
    let vec2 = wv(&[1.0, 0.0]);
    let vec3 = wv(&[0.0, 1.0]);

    // Get the vector as component values.
    assert_eq!(floats(&vec1), vec![1.0, 0.0]);

    // Calculate the cosine similarity of two vectors.
    assert_eq!(f32::from_bits(vec1.cosine(&vec2)), 1.0);
    assert_eq!(f32::from_bits(vec1.cosine(&vec3)), 0.0);

    // Test with norm 0.
    let vec1 = wv(&[0.0, 0.0]);
    assert!(f32::from_bits(vec1.cosine(&vec2)).is_nan());
}

#[test]
fn test_word2vec() {
    let mut word_vecs = Vec::new();
    word_vecs.push(("word1".to_string(), wv(&[1.0, 0.0])));
    word_vecs.push(("word2".to_string(), wv(&[0.0, 1.0])));
    let word2vec = Word2Vec::from_word_vecs(word_vecs, 2);

    assert_eq!(f32::from_bits(word2vec.cosine("word1", "word2").unwrap()), 0.0);
    assert_eq!(f32::from_bits(word2vec.cosine("word1", "word1").unwrap()), 1.0);
}

#[test]
fn test_word2vec_subset() {
    let mut word_vecs = Vec::new();
    word_vecs.push(("word1".to_string(), wv(&[1.0, 2.0, 3.0])));
    word_vecs.push(("word2".to_string(), wv(&[1.0, 2.0, 4.0])));
    let word2vec = Word2Vec::from_word_vecs(word_vecs, 3);

    let subset = word2vec.get_subset(&["word1".to_string(), "word3".to_string()]);

    assert_eq!(subset.len(), 1);
    assert_eq!(floats(subset.get_vec("word1").unwrap()), vec![1.0, 2.0, 3.0]);
}

#[test]
fn test_cosine_absent_word() {
    let word2vec = Word2Vec::from_word_vecs(vec![("a".to_string(), wv(&[1.0]))], 1);
    assert!(word2vec.cosine("a", "b").is_none());
    assert!(word2vec.cosine("b", "a").is_none());
    assert!(word2vec.get_vec("b").is_none());
}

#[test]
fn test_subset_duplicates_and_unknowns() {
    let word_vecs = vec![
        ("a".to_string(), wv(&[1.0, 0.0])),
        ("b".to_string(), wv(&[0.0, 1.0])),
        ("c".to_string(), wv(&[1.0, 1.0])),
    ];
    let store = Word2Vec::from_word_vecs(word_vecs, 2);
    let list = vec![
        "b".to_string(),
        "zebra".to_string(),
        "b".to_string(),
        "a".to_string(),
        "b".to_string(),
    ];
    let subset = store.get_subset(&list);
    // exactly the intersection: a and b, nothing else, no duplicates
    assert_eq!(subset.len(), 2);
    assert_eq!(floats(subset.get_vec("a").unwrap()), vec![1.0, 0.0]);
    assert_eq!(floats(subset.get_vec("b").unwrap()), vec![0.0, 1.0]);
    assert!(subset.get_vec("c").is_none());
    assert!(subset.get_vec("zebra").is_none());
}

#[test]
fn test_subset_from_wordlist() {
    let word_vecs = vec![
        ("a".to_string(), wv(&[1.0])),
        ("b".to_string(), wv(&[2.0])),
    ];
    let store = Word2Vec::from_word_vecs(word_vecs, 1);
    let lines = vec!["b".to_string(), "missing".to_string()];
    let subset = store.get_subset_from_wordlist(&lines);
    assert_eq!(subset.len(), 1);
    assert_eq!(floats(subset.get_vec("b").unwrap()), vec![2.0]);
}

#[test]
fn test_load_from_txt() {
    let lines: Vec<String> = vec![
        "5 3".to_string(),
        "chat 1.0 0.0 0.0".to_string(),
        "chien 0.0 1.0 0.0".to_string(),
        "oiseau 0.0 0.0 1.0".to_string(),
    ];
    let store = Word2Vec::load_from_txt(&lines, 3);
    assert_eq!(store.len(), 3);
    assert_eq!(store.dim(), 3);
    assert_eq!(f32::from_bits(store.cosine("chien", "chat").unwrap()), 0.0);
    assert_eq!(floats(store.get_vec("oiseau").unwrap()), vec![0.0, 0.0, 1.0]);
}

#[test]
fn test_load_from_txt_skips_malformed_line() {
    // lines with the wrong token count — too many components, too few, a
    // surplus non-numeric token, or nothing at all — are skipped one by one;
    // their neighbours are untouched
    let lines: Vec<String> = vec![
        "header".to_string(),
        "good1 1.0 2.0".to_string(),
        "broken 1.0 2.0 3.0 4.0".to_string(),
        "good2 3.0 4.0".to_string(),
        "surplus 1.0 2.0 junk".to_string(),
        "".to_string(),
        "short 1.0".to_string(),
    ];
    let store = Word2Vec::load_from_txt(&lines, 2);
    assert_eq!(store.len(), 2);
    assert_eq!(floats(store.get_vec("good1").unwrap()), vec![1.0, 2.0]);
    assert_eq!(floats(store.get_vec("good2").unwrap()), vec![3.0, 4.0]);
    assert!(store.get_vec("broken").is_none());
    assert!(store.get_vec("surplus").is_none());
    assert!(store.get_vec("short").is_none());
}

#[test]
fn test_load_from_txt_last_line_wins() {
    let lines: Vec<String> = vec![
        "header".to_string(),
        "w 1.0".to_string(),
        "w 2.0".to_string(),
    ];
    let store = Word2Vec::load_from_txt(&lines, 1);
    assert_eq!(store.len(), 1);
    assert_eq!(floats(store.get_vec("w").unwrap()), vec![2.0]);
}

#[test]
fn test_load_from_txt_skips_unparsable_token() {
    // the token count is right, but "x" does not parse as a number, so the
    // line is dropped
    let lines: Vec<String> = vec![
        "header".to_string(),
        "odd 1.0 x".to_string(),
        "fine 1.0 2.0".to_string(),
    ];
    let store = Word2Vec::load_from_txt(&lines, 2);
    assert_eq!(store.len(), 1);
    assert!(store.get_vec("odd").is_none());
    assert!(store.get_vec("fine").is_some());
}

#[test]
fn test_partition_plan() {
    let word_vecs = vec![
        ("a".to_string(), wv(&[1.0])),
        ("b".to_string(), wv(&[2.0])),
        ("c".to_string(), wv(&[3.0])),
        ("d".to_string(), wv(&[4.0])),
        ("e".to_string(), wv(&[5.0])),
    ];
    let store = Word2Vec::from_word_vecs(word_vecs, 1);
    // five words, two files, two folders: group sizes 5/2 = 2
    let plan = store.partition(2, 2).unwrap();

    // folders start at indices 0, 2, 4
    let folders: Vec<&str> = plan.folders.iter().map(|s| s.as_str()).collect();
    assert_eq!(folders, vec!["a", "c", "e"]);

    // flushes at indices 0, 2, 4 (multiples of 2; 4 is also the last index)
    assert_eq!(plan.shards.len(), 3);
    assert_eq!(plan.shards[0].folder, "a");
    assert_eq!(plan.shards[0].name, "a");
    assert_eq!(plan.shards[0].store.len(), 1);
    assert_eq!(plan.shards[1].folder, "c");
    assert_eq!(plan.shards[1].name, "c");
    assert_eq!(plan.shards[1].store.len(), 2);
    assert_eq!(plan.shards[2].folder, "e");
    assert_eq!(plan.shards[2].name, "e");
    assert_eq!(plan.shards[2].store.len(), 2);

    // every word appears in exactly one shard
    for word in ["a", "b", "c", "d", "e"] {
        let hits = plan
            .shards
            .iter()
            .filter(|s| s.store.get_vec(word).is_some())
            .count();
        assert_eq!(hits, 1, "word {} must land in exactly one shard", word);
    }
    let total: usize = plan.shards.iter().map(|s| s.store.len()).sum();
    assert_eq!(total, 5);
    assert_eq!(floats(plan.shards[1].store.get_vec("b").unwrap()), vec![2.0]);
    assert_eq!(floats(plan.shards[1].store.get_vec("c").unwrap()), vec![3.0]);
}

#[test]
fn test_partition_fewer_words_than_folders() {
    let word_vecs = vec![("only".to_string(), wv(&[1.0]))];
    let store = Word2Vec::from_word_vecs(word_vecs, 1);
    let plan = store.partition(4, 4).unwrap();
    // a store with fewer words than folders still produces a folder
    assert_eq!(plan.folders.len(), 1);
    assert_eq!(plan.shards.len(), 1);
    assert_eq!(plan.shards[0].store.len(), 1);
}

#[test]
fn test_partition_zero_counts_rejected() {
    let store = Word2Vec::from_word_vecs(vec![("a".to_string(), wv(&[1.0]))], 1);
    assert!(matches!(store.partition(0, 3), Err(W2vError::InvalidArgument)));
    assert!(matches!(store.partition(3, 0), Err(W2vError::InvalidArgument)));
    assert!(matches!(store.partition(0, 0), Err(W2vError::InvalidArgument)));
}

#[test]
fn test_partition_empty_store() {
    let store = Word2Vec::from_word_vecs(Vec::new(), 1);
    let plan = store.partition(2, 2).unwrap();
    assert_eq!(plan.folders.len(), 0);
    assert_eq!(plan.shards.len(), 0);
}
