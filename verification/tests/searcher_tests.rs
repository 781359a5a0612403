use kbsearch::error::KbError;
use kbsearch::indexer::{InvertedIndex, TfIdfInputs};
use kbsearch::parser::{DocId, Document, ParserRegistry};
use kbsearch::searcher::{candidate_documents, IndexSearcher, ScoreTerm};
use kbsearch::snippet::highlight;
use kbsearch::tokenizer::{MixedTokenizer, SimpleTokenizer};

fn make_doc(id: DocId, content: &str) -> Document {
    Document {
        id,
        path: format!("/test/doc_{}.txt", id),
        title: format!("doc_{}", id),
        content: content.to_string(),
    }
}

#[test]
fn test_score_terms_only_matching_documents() {
    let tokenizer = SimpleTokenizer::new();
    let docs = vec![
        make_doc(1, "rust rust rust programming"),
        make_doc(2, "rust programming"),
        make_doc(3, "programming language"),
    ];
    let index = InvertedIndex::build_from_documents(&docs, &tokenizer);
    let registry = ParserRegistry::with_defaults();
    let searcher = IndexSearcher::new(&index, &tokenizer, &registry);

    let tokens = searcher.query_tokens("Rust");
    assert_eq!(tokens, vec!["rust".to_string()]);
    let terms = searcher.score_terms(&tokens);
    assert_eq!(
        terms,
        vec![
            ScoreTerm {
                doc_id: 1,
                inputs: Some(TfIdfInputs { term_freq: 3, length_norm: 4, doc_freq: 2, doc_count: 3 }),
            },
            ScoreTerm {
                doc_id: 2,
                inputs: Some(TfIdfInputs { term_freq: 1, length_norm: 2, doc_freq: 2, doc_count: 3 }),
            },
        ]
    );
    assert!(!terms.iter().any(|t| t.doc_id == 3));
}

#[test]
fn test_score_terms_empty_and_unknown_query() {
    let tokenizer = MixedTokenizer::new();
    let docs = vec![make_doc(1, "Hello world")];
    let index = InvertedIndex::build_from_documents(&docs, &tokenizer);
    let registry = ParserRegistry::with_defaults();
    let searcher = IndexSearcher::new(&index, &tokenizer, &registry);

    let empty = searcher.query_tokens("");
    assert!(empty.is_empty());
    assert!(searcher.score_terms(&empty).is_empty());
    let unknown = searcher.query_tokens("quantum");
    assert!(searcher.score_terms(&unknown).is_empty());
}

#[test]
fn test_score_terms_repeated_query_token() {
    let tokenizer = SimpleTokenizer::new();
    let docs = vec![make_doc(7, "golang concurrency")];
    let index = InvertedIndex::build_from_documents(&docs, &tokenizer);
    let registry = ParserRegistry::with_defaults();
    let searcher = IndexSearcher::new(&index, &tokenizer, &registry);
    let tokens = searcher.query_tokens("golang golang");
    assert_eq!(searcher.score_terms(&tokens).len(), 2);
}

#[test]
fn test_snippet_normalizes_lines() {
    let tokenizer = SimpleTokenizer::new();
    let index = InvertedIndex::new();
    let registry = ParserRegistry::with_defaults();
    let searcher = IndexSearcher::new(&index, &tokenizer, &registry);
    let tokens = vec!["rust".to_string()];
    let snippet = searcher.generate_snippet("  Rust is\r\n\n   fast  \nand safe ", &tokens);
    assert_eq!(snippet, "Rust is fast and safe");
}

#[test]
fn test_snippet_generation_long_chinese_text() {
    let tokenizer = MixedTokenizer::new();
    let index = InvertedIndex::new();
    let registry = ParserRegistry::with_defaults();
    let searcher = IndexSearcher::new(&index, &tokenizer, &registry);
    let long_text = "这是一段很长的中文文本，".repeat(20)
        + "搜索引擎是信息检索的核心工具，"
        + &"后面还有很多内容用于测试截断。".repeat(20);
    let tokens = searcher.query_tokens("搜索引擎");
    let snippet = searcher.generate_snippet(&long_text, &tokens);
    assert!(snippet.contains("搜索引擎"));
    assert!(snippet.len() < long_text.len());
    assert!(snippet.starts_with("... "));
    assert!(snippet.ends_with("..."));
    // At most 150 bytes of text between the markers.
    assert!(snippet.len() <= 150 + 4 + 3);
}

#[test]
fn test_snippet_cuts_at_spaces() {
    let tokenizer = SimpleTokenizer::new();
    let index = InvertedIndex::new();
    let registry = ParserRegistry::with_defaults();
    let searcher = IndexSearcher::new(&index, &tokenizer, &registry);
    let words: Vec<String> = (0..60).map(|i| format!("w{:03}", i)).collect();
    let text = words.join(" ");
    let tokens = vec!["w030".to_string()];
    let snippet = searcher.generate_snippet(&text, &tokens);
    // The match is at byte 150; the window is bytes 100..250, moved inward
    // to the nearest spaces.
    assert_eq!(
        snippet,
        "... w021 w022 w023 w024 w025 w026 w027 w028 w029 w030 w031 w032 w033 w034 w035 w036 w037 w038 w039 w040 w041 w042 w043 w044 w045 w046 w047 w048 w049..."
    );
}

#[test]
fn test_snippet_compresses_spaces() {
    let tokenizer = SimpleTokenizer::new();
    let index = InvertedIndex::new();
    let registry = ParserRegistry::with_defaults();
    let searcher = IndexSearcher::new(&index, &tokenizer, &registry);
    let tokens = vec!["rust".to_string()];
    assert_eq!(searcher.generate_snippet("rust  is   fast", &tokens), "rust is fast");
    assert_eq!(
        searcher.generate_snippet("  rust \t\t is\r\n\n  fast  ", &tokens),
        "rust is fast"
    );
}

#[test]
fn test_snippet_never_cuts_a_word() {
    let tokenizer = SimpleTokenizer::new();
    let index = InvertedIndex::new();
    let registry = ParserRegistry::with_defaults();
    let searcher = IndexSearcher::new(&index, &tokenizer, &registry);
    let none: Vec<String> = Vec::new();
    // One word longer than the window: it is kept whole.
    let word = "a".repeat(101);
    assert_eq!(searcher.generate_snippet(&word, &none), word);
    // A long word after the window's end is left out whole.
    let text = format!("start {}", "b".repeat(200));
    assert_eq!(searcher.generate_snippet(&text, &none), "start...");
    // A long word around the window's start is skipped whole.
    let text = format!("{} x rust y", "c".repeat(80));
    let tokens = vec!["rust".to_string()];
    assert_eq!(searcher.generate_snippet(&text, &tokens), "... x rust y");
}

#[test]
fn test_snippet_no_match_starts_at_beginning() {
    let tokenizer = SimpleTokenizer::new();
    let index = InvertedIndex::new();
    let registry = ParserRegistry::with_defaults();
    let searcher = IndexSearcher::new(&index, &tokenizer, &registry);
    let tokens = vec!["absent".to_string()];
    assert_eq!(searcher.generate_snippet("short text", &tokens), "short text");
}

#[test]
fn test_try_snippet_when_lowercase_grows() {
    let tokenizer = SimpleTokenizer::new();
    let index = InvertedIndex::new();
    let registry = ParserRegistry::with_defaults();
    let searcher = IndexSearcher::new(&index, &tokenizer, &registry);
    // 'İ' (2 bytes) lower-cases to 3 bytes, so the match position found in
    // the lower-cased text lies past the end of the text itself.
    let text = "İ".repeat(60) + "x";
    let tokens = vec!["x".to_string()];
    assert_eq!(searcher.try_generate_snippet(&text, &tokens), None);
    let fits = "İ".repeat(10) + "x";
    assert!(searcher.try_generate_snippet(&fits, &tokens).is_some());
}

#[test]
fn test_result_documents_limit_and_missing_metadata() {
    let tokenizer = SimpleTokenizer::new();
    let docs = vec![
        make_doc(1, "rust programming"),
        make_doc(2, "rust language"),
        make_doc(3, "rust compiler"),
    ];
    let index = InvertedIndex::build_from_documents(&docs, &tokenizer);
    let registry = ParserRegistry::with_defaults();
    let searcher = IndexSearcher::new(&index, &tokenizer, &registry);

    let ranked: Vec<DocId> = vec![3, 99, 1, 2];
    let shown = searcher.result_documents(&ranked, 3);
    let ranks: Vec<usize> = shown.iter().map(|(k, _)| *k).collect();
    let ids: Vec<DocId> = shown.iter().map(|(_, m)| m.id).collect();
    assert_eq!(ranks, vec![0, 2]);
    assert_eq!(ids, vec![3, 1]);
    assert_eq!(shown[0].1.title, "doc_3");
    assert_eq!(shown[1].1.doc_length, 2);

    let all = searcher.result_documents(&ranked, 10);
    assert_eq!(all.len(), 3);
    assert!(searcher.result_documents(&ranked, 0).is_empty());
}

#[test]
fn test_result_snippet_parsed_or_title() {
    let tokenizer = SimpleTokenizer::new();
    let docs = vec![make_doc(1, "rust programming")];
    let index = InvertedIndex::build_from_documents(&docs, &tokenizer);
    let registry = ParserRegistry::with_defaults();
    let searcher = IndexSearcher::new(&index, &tokenizer, &registry);
    let meta = searcher.result_documents(&vec![1], 1).remove(0).1;
    let tokens = searcher.query_tokens("rust");

    let parsed = Ok(make_doc(1, "Line one\nrust is here\n"));
    assert_eq!(
        searcher.result_snippet(&parsed, &meta, &tokens),
        Some("Line one rust is here".to_string())
    );
    let failed = Err(KbError::Parse("Failed to read file /test/doc_1.txt: gone".to_string()));
    assert_eq!(searcher.result_snippet(&failed, &meta, &tokens), Some("doc_1".to_string()));
}

#[test]
fn test_candidate_documents_distinct_in_order() {
    let t = |doc_id: DocId| ScoreTerm { doc_id, inputs: None };
    assert_eq!(candidate_documents(&vec![t(3), t(1), t(3), t(2), t(1)]), vec![3, 1, 2]);
    assert!(candidate_documents(&vec![]).is_empty());
}

#[test]
fn test_highlight_matches() {
    let tokens = vec!["rust".to_string(), "go".to_string()];
    assert_eq!(
        highlight("Rust and go, RUSTY gopher", &tokens),
        "\u{1b}[1;31mRust\u{1b}[0m and \u{1b}[1;31mgo\u{1b}[0m, \u{1b}[1;31mRUST\u{1b}[0mY \u{1b}[1;31mgo\u{1b}[0mpher"
    );
    assert_eq!(highlight("nothing here", &tokens), "nothing here");
    assert_eq!(highlight("", &tokens), "");
}

#[test]
fn test_snippet_keeps_the_match() {
    let tokenizer = SimpleTokenizer::new();
    let index = InvertedIndex::new();
    let registry = ParserRegistry::with_defaults();
    let searcher = IndexSearcher::new(&index, &tokenizer, &registry);
    // The only space before the 100-byte limit lies before the match, so
    // the window runs on to the end of the word that holds the match.
    let text = format!("aaa {}", "b".repeat(120));
    let tokens = vec!["bbbb".to_string()];
    let snippet = searcher.generate_snippet(&text, &tokens);
    assert!(snippet.contains("bbbb"));
    assert_eq!(snippet, text);
}

#[test]
fn test_snippet_cuts_cyrillic_at_spaces() {
    let tokenizer = SimpleTokenizer::new();
    let index = InvertedIndex::new();
    let registry = ParserRegistry::with_defaults();
    let searcher = IndexSearcher::new(&index, &tokenizer, &registry);
    let text = format!("{}мир {}", "слово ".repeat(30), "слово ".repeat(30));
    let tokens = vec!["мир".to_string()];
    let snippet = searcher.generate_snippet(&text, &tokens);
    assert!(snippet.starts_with("... "));
    assert!(snippet.ends_with("..."));
    assert!(snippet.contains("мир"));
    let body = &snippet[4..snippet.len() - 3];
    assert!(body.split(' ').all(|w| w == "слово" || w == "мир"));
}
