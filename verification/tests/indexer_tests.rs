use kbsearch::indexer::{InvertedIndex, SimpleTokenizer, Tokenizer};
use kbsearch::parser::{DocId, Document};

fn make_doc(id: DocId, content: &str) -> Document {
    Document {
        id,
        path: format!("/test/doc_{}.txt", id),
        title: format!("doc_{}", id),
        content: content.to_string(),
    }
}

/// TF-IDF from its integer ingredients:
/// term_freq / length_norm * (1 + ln(doc_count / (1 + doc_freq))).
fn tfidf(index: &InvertedIndex, token: &str, doc_id: DocId) -> f64 {
    match index.tfidf_inputs(token, doc_id) {
        None => 0.0,
        Some(i) => {
            let tf = i.term_freq as f64 / i.length_norm as f64;
            let idf = 1.0 + (i.doc_count as f64 / (1.0 + i.doc_freq as f64)).ln();
            tf * idf
        }
    }
}

#[test]
fn indexer_test_simple_tokenizer() {
    let tokenizer = SimpleTokenizer::new();

    let tokens = tokenizer.tokenize("Hello, World! This is a test.");
    assert!(tokens.contains(&"hello".to_string()));
    assert!(tokens.contains(&"world".to_string()));
    assert!(tokens.contains(&"test".to_string()));
    assert!(!tokens.contains(&"this".to_string()));
    assert!(!tokens.contains(&"is".to_string()));
    assert!(!tokens.contains(&"a".to_string()));
}

#[test]
fn test_tokenizer_single_char_filtered() {
    let tokenizer = SimpleTokenizer::new();
    let tokens = tokenizer.tokenize("I am a person");
    assert!(!tokens.iter().any(|t| t.len() == 1));
}

#[test]
fn test_add_document() {
    let tokenizer = SimpleTokenizer::new();
    let mut index = InvertedIndex::new();

    let doc = make_doc(1, "Rust programming language");
    index.add_document(&doc, &tokenizer);

    assert_eq!(index.doc_count, 1);
    assert!(index.postings.contains_key("rust"));
    assert!(index.postings.contains_key("programming"));
    assert!(index.postings.contains_key("language"));
}

#[test]
fn test_build_from_documents() {
    let tokenizer = SimpleTokenizer::new();
    let docs = vec![
        make_doc(1, "Rust is a programming language"),
        make_doc(2, "Python is another programming language"),
    ];

    let index = InvertedIndex::build_from_documents(&docs, &tokenizer);

    assert_eq!(index.doc_count, 2);
    assert_eq!(index.postings.get("programming").unwrap().len(), 2);
}

#[test]
fn test_tfidf_calculation() {
    let tokenizer = SimpleTokenizer::new();
    let docs = vec![
        make_doc(1, "rust rust rust programming"),
        make_doc(2, "python programming language"),
        make_doc(3, "cooking recipes food"),
    ];

    let index = InvertedIndex::build_from_documents(&docs, &tokenizer);

    let score_rust_doc1 = tfidf(&index, "rust", 1);
    assert!(score_rust_doc1 > 0.0);

    let score_prog_doc1 = tfidf(&index, "programming", 1);
    assert!(score_prog_doc1 > 0.0);
    assert!(score_prog_doc1 < score_rust_doc1);

    let score_missing = tfidf(&index, "nonexistent", 1);
    assert_eq!(score_missing, 0.0);
}

#[test]
fn test_index_stats() {
    let tokenizer = SimpleTokenizer::new();
    let docs = vec![make_doc(1, "hello world"), make_doc(2, "hello rust")];

    let index = InvertedIndex::build_from_documents(&docs, &tokenizer);
    let stats = index.stats();

    assert_eq!(stats.doc_count, 2);
    assert!(stats.vocab_size > 0);
}

#[test]
fn test_posting_positions() {
    let tokenizer = SimpleTokenizer::new();
    let mut index = InvertedIndex::new();

    let doc = make_doc(1, "rust programming rust language");
    index.add_document(&doc, &tokenizer);

    let posting = index.postings.get("rust").unwrap().first().unwrap();
    assert_eq!(posting.term_freq, 2);
    assert_eq!(posting.positions, vec![0, 2]);
}
