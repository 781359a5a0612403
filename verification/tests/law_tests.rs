use kbsearch::indexer::{InvertedIndex, PostingTable};
use kbsearch::parser::{DocId, Document};
use kbsearch::tokenizer::{segment_by_cjk, MixedTokenizer, SimpleTokenizer, TextSegment, Tokenizer};

fn make_doc(id: DocId, content: &str) -> Document {
    Document {
        id,
        path: format!("/test/doc_{}.txt", id),
        title: format!("doc_{}", id),
        content: content.to_string(),
    }
}

#[test]
fn test_segments_concatenate_to_text() {
    let text = "Rust语言 and ひらがな, カタカナ！end";
    let segments = segment_by_cjk(text);
    let mut joined = String::new();
    let mut previous: Option<bool> = None;
    for s in &segments {
        let (cjk, t) = match s {
            TextSegment::Cjk(t) => (true, t),
            TextSegment::NonCjk(t) => (false, t),
        };
        assert!(!t.is_empty());
        assert_ne!(previous, Some(cjk));
        previous = Some(cjk);
        joined.push_str(t);
    }
    assert_eq!(joined, text);
}

#[test]
fn test_mixed_matches_simple_on_english() {
    let mixed = MixedTokenizer::new();
    let simple = SimpleTokenizer::new();
    let text = "The quick brown fox -- jumps over the lazy dog's ÉTÉ café 42";
    assert_eq!(mixed.tokenize(text), simple.tokenize(text));
}

#[test]
fn test_mixed_tokens_are_never_stop_words() {
    let mixed = MixedTokenizer::new();
    let tokens = mixed.tokenize("The 搜索引擎 and the 我的 search 的 engine is here");
    for t in &tokens {
        assert!(!t.is_empty());
        assert!(!["the", "and", "is", "here"].contains(&t.as_str()));
        assert!(!["的", "我"].contains(&t.as_str()));
    }
    assert!(tokens.contains(&"search".to_string()));
    assert!(tokens.contains(&"engine".to_string()));
}

#[test]
fn test_english_token_properties() {
    let simple = SimpleTokenizer::new();
    let tokens = simple.tokenize("A b cd, é! über-cool x1 the THE 9");
    // One-character words (whatever their byte length) and stop words go.
    assert_eq!(tokens, vec!["cd", "über", "cool", "x1"]);
    assert_eq!(simple.tokenize("café é"), vec!["café"]);
}

#[test]
fn test_postings_count_documents_with_token() {
    let tokenizer = SimpleTokenizer::new();
    let docs = vec![
        make_doc(1, "alpha beta alpha"),
        make_doc(2, "beta gamma"),
        make_doc(3, "delta"),
    ];
    let index = InvertedIndex::build_from_documents(&docs, &tokenizer);
    assert_eq!(index.postings.get("alpha").unwrap().len(), 1);
    assert_eq!(index.postings.get("alpha").unwrap()[0].positions, vec![0, 2]);
    let beta = index.postings.get("beta").unwrap();
    assert_eq!(beta.len(), 2);
    assert_eq!((beta[0].doc_id, beta[0].positions.clone()), (1, vec![1]));
    assert_eq!((beta[1].doc_id, beta[1].positions.clone()), (2, vec![0]));
    assert!(index.postings.get("epsilon").is_none());
    for (_, list) in index.postings.entries() {
        for p in list {
            assert_eq!(p.term_freq, p.positions.len());
            assert!(p.positions.windows(2).all(|w| w[0] < w[1]));
            assert!(index.documents.contains_key(&p.doc_id));
        }
    }
    assert_eq!(index.doc_count, index.documents.len());
}

#[test]
fn test_stats_counts() {
    let tokenizer = SimpleTokenizer::new();
    let docs = vec![make_doc(1, "hello world"), make_doc(2, "hello rust")];
    let index = InvertedIndex::build_from_documents(&docs, &tokenizer);
    let stats = index.stats();
    assert_eq!(stats.doc_count, 2);
    assert_eq!(stats.vocab_size, 3);
    assert_eq!(stats.total_postings, 4);
}

#[test]
fn test_readding_a_document() {
    let tokenizer = SimpleTokenizer::new();
    let mut index = InvertedIndex::new();
    let doc = make_doc(5, "apple pears");
    index.add_document(&doc, &tokenizer);
    index.add_document(&doc, &tokenizer);
    assert_eq!(index.doc_count, 1);
    assert_eq!(index.postings.get("apple").unwrap().len(), 2);
}

#[test]
fn test_posting_table_round_trip() {
    let tokenizer = SimpleTokenizer::new();
    let docs = vec![make_doc(1, "one two two"), make_doc(2, "two three")];
    let index = InvertedIndex::build_from_documents(&docs, &tokenizer);
    let copy = PostingTable::from_entries(index.postings.entries().clone());
    assert_eq!(copy.len(), index.postings.len());
    for (token, list) in index.postings.entries() {
        let other = copy.get(token).unwrap();
        assert_eq!(other.len(), list.len());
        for (a, b) in other.iter().zip(list.iter()) {
            assert_eq!(a.doc_id, b.doc_id);
            assert_eq!(a.positions, b.positions);
        }
    }
}

#[test]
fn test_tfidf_inputs_absent_cases() {
    let tokenizer = SimpleTokenizer::new();
    let docs = vec![make_doc(1, "alpha"), make_doc(2, "beta")];
    let index = InvertedIndex::build_from_documents(&docs, &tokenizer);
    assert!(index.tfidf_inputs("gamma", 1).is_none());
    assert!(index.tfidf_inputs("alpha", 2).is_none());
    let i = index.tfidf_inputs("alpha", 1).unwrap();
    assert_eq!((i.term_freq, i.length_norm, i.doc_freq, i.doc_count), (1, 1, 1, 2));
}

#[test]
fn test_later_document_with_same_id_replaces_metadata() {
    let tokenizer = SimpleTokenizer::new();
    let mut second = make_doc(7, "rust programming language");
    second.title = "renamed".to_string();
    let docs = vec![make_doc(7, "hello world"), make_doc(8, "other text"), second];
    let index = InvertedIndex::build_from_documents(&docs, &tokenizer);

    assert_eq!(index.doc_count, 2);
    let meta = index.documents.get(&7).unwrap();
    assert_eq!(meta.title, "renamed");
    assert_eq!(meta.doc_length, 3);
    assert_eq!(index.documents.get(&8).unwrap().title, "doc_8");
}

#[test]
fn test_documents_by_title() {
    let tokenizer = SimpleTokenizer::new();
    let mut docs = vec![
        make_doc(1, "one"),
        make_doc(2, "two"),
        make_doc(3, "three"),
        make_doc(4, "four"),
    ];
    docs[0].title = "zeta".to_string();
    docs[1].title = "Alpha".to_string();
    docs[2].title = "alpha".to_string();
    docs[3].title = "Émile".to_string();
    let index = InvertedIndex::build_from_documents(&docs, &tokenizer);
    let listed = index.documents_by_title();
    let titles: Vec<&str> = listed.iter().map(|(_, m)| m.title.as_str()).collect();
    assert_eq!(titles, vec!["Alpha", "alpha", "zeta", "Émile"]);
    let ids: Vec<DocId> = listed.iter().map(|(id, _)| *id).collect();
    assert_eq!(ids, vec![2, 3, 1, 4]);
    assert!(InvertedIndex::new().documents_by_title().is_empty());
}

#[test]
fn test_index_invariant_frequencies_add_up() {
    let tokenizer = SimpleTokenizer::new();
    let docs = vec![
        make_doc(1, "rust rust language of systems"),
        make_doc(2, "language design and rust"),
        make_doc(3, "the"),
    ];
    let index = InvertedIndex::build_from_documents(&docs, &tokenizer);
    for (id, meta) in &index.documents {
        let mut total = 0;
        let mut seen = vec![false; meta.doc_length];
        for (_, list) in index.postings.entries() {
            let mine: Vec<_> = list.iter().filter(|p| p.doc_id == *id).collect();
            assert!(mine.len() <= 1);
            for p in mine {
                total += p.term_freq;
                for &k in &p.positions {
                    assert!(k < meta.doc_length);
                    assert!(!seen[k]);
                    seen[k] = true;
                }
            }
        }
        assert_eq!(total, meta.doc_length);
        assert!(seen.iter().all(|s| *s));
    }
}
