use kbsearch::error::KbError;
use kbsearch::storage::{default_index_path, JsonStorage};

#[test]
fn test_default_index_path() {
    let path = default_index_path(Some("/home/user".to_string()), None);
    assert!(path.contains(".kbsearch"));
    assert!(path.contains("index.json"));
}

#[test]
fn test_default_index_path_fallbacks() {
    assert_eq!(
        default_index_path(Some("/home/u".to_string()), Some("C:/Users/u".to_string())),
        "/home/u/.kbsearch/index.json"
    );
    assert_eq!(
        default_index_path(None, Some("/profile".to_string())),
        "/profile/.kbsearch/index.json"
    );
    assert_eq!(default_index_path(None, None), "./.kbsearch/index.json");
}

#[test]
fn test_load_check_missing_index() {
    let storage = JsonStorage::new();
    assert_eq!(storage.check_index_exists("/tmp/index.json", true), Ok(()));
    assert_eq!(
        storage.check_index_exists("/nonexistent/index.json", false),
        Err(KbError::NoIndex("/nonexistent/index.json".to_string()))
    );
}

#[test]
fn test_codec_error_messages() {
    let storage = JsonStorage::default();
    assert_eq!(
        storage.codec_error(true, "key must be a string"),
        KbError::Storage("Failed to serialize index: key must be a string".to_string())
    );
    assert_eq!(
        storage.codec_error(false, "EOF while parsing"),
        KbError::Storage("Failed to deserialize index: EOF while parsing".to_string())
    );
}

#[test]
fn test_load_nonexistent() {
    let storage = JsonStorage::new();
    let path = "/nonexistent/index.json";
    let result = storage.check_index_exists(path, std::path::Path::new(path).exists());

    assert!(result.is_err());
    match result.unwrap_err() {
        KbError::NoIndex(_) => {}
        other => panic!("Expected NoIndex error, got: {:?}", other),
    }
}

#[test]
fn test_error_messages() {
    assert_eq!(
        KbError::NoIndex("/x/index.json".to_string()).message(),
        "No index found at /x/index.json, please run `index` command first"
    );
    assert_eq!(KbError::Io("denied".to_string()).message(), "IO error: denied");
    assert_eq!(KbError::Parse("bad".to_string()).message(), "Parse error: bad");
    assert_eq!(KbError::Index("i".to_string()).message(), "Index error: i");
    assert_eq!(KbError::Search("s".to_string()).message(), "Search error: s");
    assert_eq!(KbError::Storage("j".to_string()).message(), "Storage error: j");
}
