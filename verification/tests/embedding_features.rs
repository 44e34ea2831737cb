use docversion::embedding::{EmbeddingError, OnnxEmbeddingProvider, TfIdfFallbackProvider, VECTOR_DIM};
use std::collections::hash_map::DefaultHasher;
use std::hash::{Hash, Hasher};

fn std_hash<T: Hash + ?Sized>(x: &T) -> u64 {
    let mut h = DefaultHasher::new();
    x.hash(&mut h);
    h.finish()
}

#[test]
fn onnx_provider_is_configured_but_disabled() {
    let p = OnnxEmbeddingProvider::new("models/minilm.onnx").unwrap();
    assert_eq!(p.model_path(), "models/minilm.onnx");
    assert_eq!(p.dimension(), 384);
    assert_eq!(p.generate_status(), Err(EmbeddingError::OnnxDisabled));
}

#[test]
fn fallback_dimension() {
    let p = TfIdfFallbackProvider::new();
    assert_eq!(p.dimension(), VECTOR_DIM);
    assert_eq!(VECTOR_DIM, 384);
}

#[test]
fn ngrams() {
    assert_eq!(TfIdfFallbackProvider::char_ngrams("abcd", 2), vec!["ab", "bc", "cd"]);
    assert_eq!(TfIdfFallbackProvider::char_ngrams("abcd", 4), vec!["abcd"]);
    assert_eq!(TfIdfFallbackProvider::char_ngrams("ab", 3), vec!["ab"]);
    assert!(TfIdfFallbackProvider::char_ngrams("", 2).is_empty());
    assert_eq!(TfIdfFallbackProvider::char_ngrams("héllo", 4), vec!["héll", "éllo"]);
}

#[test]
fn words() {
    assert_eq!(
        TfIdfFallbackProvider::word_tokens("Hello, World! fn_main 42x"),
        vec!["hello", "world", "fn", "main", "42x"]
    );
    assert!(TfIdfFallbackProvider::word_tokens("  ,,; ").is_empty());
    assert_eq!(TfIdfFallbackProvider::word_tokens("Ünïcode ДОМ"), vec!["ünïcode", "дом"]);
}

#[test]
fn slots_and_signs() {
    assert_eq!(TfIdfFallbackProvider::hash_to_index("word", 384), (std_hash("word") as usize) % 384);
    assert_eq!(TfIdfFallbackProvider::hash_to_index("word", 1), 0);
    let expected = if std_hash(&("sign", "word")) % 2 == 0 { 1 } else { -1 };
    assert_eq!(TfIdfFallbackProvider::hash_sign("word"), expected);
}

#[test]
fn keys() {
    assert_eq!(TfIdfFallbackProvider::ngram_key(3, "abc"), "ng3:abc");
    assert_eq!(TfIdfFallbackProvider::ngram_key(12, ""), "ng12:");
    assert_eq!(TfIdfFallbackProvider::token_key("fn"), "tk:fn");
}

#[test]
fn features() {
    let f = TfIdfFallbackProvider::word_features("one two");
    assert_eq!(f.len(), 2);
    assert_eq!(f[0], (TfIdfFallbackProvider::hash_to_index("one", 384), TfIdfFallbackProvider::hash_sign("one")));
    let g = TfIdfFallbackProvider::ngram_features("abc", 2);
    assert_eq!(g.len(), 2);
    assert_eq!(g[1], (TfIdfFallbackProvider::hash_to_index("ng2:bc", 384), TfIdfFallbackProvider::hash_sign("ng2:bc")));
    assert_eq!(
        TfIdfFallbackProvider::token_feature("pub fn main", "fn"),
        Some((TfIdfFallbackProvider::hash_to_index("tk:fn", 384), TfIdfFallbackProvider::hash_sign("fn")))
    );
    assert_eq!(TfIdfFallbackProvider::token_feature("pub main", "fn"), None);
    assert!(TfIdfFallbackProvider::token_feature("anything", "").is_some());
}
