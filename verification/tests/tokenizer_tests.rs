use kbsearch::tokenizer::{
    segment_by_cjk, JiebaTokenizer, MixedTokenizer, SimpleTokenizer, TextSegment, Tokenizer,
};

#[test]
fn tokenizer_test_simple_tokenizer() {
    let tokenizer = SimpleTokenizer::new();
    let tokens = tokenizer.tokenize("Hello, World! This is a test.");
    assert!(tokens.contains(&"hello".to_string()));
    assert!(tokens.contains(&"world".to_string()));
    assert!(tokens.contains(&"test".to_string()));
    assert!(!tokens.contains(&"this".to_string()));
    assert!(!tokens.contains(&"is".to_string()));
    assert!(!tokens.contains(&"a".to_string()));
}

#[test]
fn test_simple_tokenizer_single_char_filtered() {
    let tokenizer = SimpleTokenizer::new();
    let tokens = tokenizer.tokenize("I am a person");
    assert!(!tokens.iter().any(|t| t.len() == 1));
}

#[test]
fn test_mixed_tokenizer_chinese() {
    let tokenizer = MixedTokenizer::new();
    let tokens = tokenizer.tokenize("Rust语言编程");
    assert!(tokens.contains(&"rust".to_string()));
    assert!(tokens.contains(&"语言".to_string()));
    assert!(tokens.contains(&"编程".to_string()));
}

#[test]
fn test_mixed_tokenizer_mixed() {
    let tokenizer = MixedTokenizer::new();
    let tokens = tokenizer.tokenize("使用Rust开发Web应用");
    assert!(tokens.contains(&"使用".to_string()));
    assert!(tokens.contains(&"rust".to_string()));
    assert!(tokens.contains(&"开发".to_string()));
    assert!(tokens.contains(&"web".to_string()));
    assert!(tokens.contains(&"应用".to_string()));
}

#[test]
fn test_mixed_tokenizer_chinese_single_char_not_filtered() {
    let tokenizer = MixedTokenizer::new();
    // A non-stop-word CJK token is kept whatever its length.
    let tokens = tokenizer.tokenize("山水");
    assert!(tokens.contains(&"山水".to_string()));
}

#[test]
fn test_mixed_tokenizer_english_single_char_filtered() {
    let tokenizer = MixedTokenizer::new();
    let tokens = tokenizer.tokenize("I am a person");
    assert!(!tokens
        .iter()
        .any(|t| t.chars().all(|c| c.is_ascii_alphabetic()) && t.len() == 1));
}

#[test]
fn test_mixed_tokenizer_english_only() {
    let tokenizer = MixedTokenizer::new();
    let tokens = tokenizer.tokenize("Hello, World! This is a test.");
    assert!(tokens.contains(&"hello".to_string()));
    assert!(tokens.contains(&"world".to_string()));
    assert!(tokens.contains(&"test".to_string()));
    assert!(!tokens.contains(&"this".to_string()));
    assert!(!tokens.contains(&"is".to_string()));
}

#[test]
fn test_mixed_tokenizer_chinese_stop_words() {
    let tokenizer = MixedTokenizer::new();
    let tokens = tokenizer.tokenize("这是一个测试");
    assert!(!tokens.contains(&"的".to_string()));
    assert!(!tokens.contains(&"是".to_string()));
    assert!(!tokens.contains(&"一个".to_string()));
    assert!(tokens.contains(&"测试".to_string()));
}

#[test]
fn test_mixed_tokenizer_search_mode() {
    let tokenizer = MixedTokenizer::new();
    let tokens = tokenizer.tokenize("搜索引擎优化");
    assert!(tokens.contains(&"搜索".to_string()));
    assert!(tokens.contains(&"引擎".to_string()));
    assert!(tokens.contains(&"搜索引擎".to_string()));
    assert!(tokens.contains(&"优化".to_string()));
}

#[test]
fn test_segment_by_cjk_mixed() {
    let segments = segment_by_cjk("Rust语言编程guide");
    assert_eq!(
        segments,
        vec![
            TextSegment::NonCjk("Rust".to_string()),
            TextSegment::Cjk("语言编程".to_string()),
            TextSegment::NonCjk("guide".to_string()),
        ]
    );
}

#[test]
fn test_segment_by_cjk_pure_chinese() {
    let segments = segment_by_cjk("中文文本");
    assert_eq!(segments, vec![TextSegment::Cjk("中文文本".to_string())]);
}

#[test]
fn test_segment_by_cjk_pure_english() {
    let segments = segment_by_cjk("Hello World");
    assert_eq!(
        segments,
        vec![TextSegment::NonCjk("Hello World".to_string())]
    );
}

#[test]
fn test_jieba_tokenizer() {
    let tokenizer = JiebaTokenizer::new();
    let tokens = tokenizer.tokenize("搜索引擎优化");
    assert!(tokens.contains(&"搜索引擎".to_string()));
    assert!(tokens.contains(&"优化".to_string()));
}
