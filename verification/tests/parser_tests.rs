use kbsearch::error::KbError;
use kbsearch::parser::{
    extract_markdown_text, extract_title, generate_doc_id, MarkdownParser, Parser,
    ParserRegistry, TxtParser,
};

#[test]
fn test_generate_doc_id_consistency() {
    let path = "/test/file.md";
    let id1 = generate_doc_id(path);
    let id2 = generate_doc_id(path);
    assert_eq!(id1, id2);
}

#[test]
fn test_generate_doc_id_uniqueness() {
    let id1 = generate_doc_id("/test/file1.md");
    let id2 = generate_doc_id("/test/file2.md");
    assert_ne!(id1, id2);
}

#[test]
fn test_extract_title() {
    assert_eq!(extract_title("/docs/my_notes.md"), "my_notes");
    assert_eq!(extract_title("/docs/readme.txt"), "readme");
}

#[test]
fn test_txt_parser() {
    let file_path = "/tmp/kb/test.txt";
    let parser = TxtParser::new();
    let id = generate_doc_id(file_path);
    let doc = parser
        .parse(file_path, id, Ok(b"Hello, world!".to_vec()))
        .unwrap();

    assert_eq!(doc.id, id);
    assert_eq!(doc.title, "test");
    assert_eq!(doc.content, "Hello, world!");
}

#[test]
fn test_markdown_parser() {
    let file_path = "/tmp/kb/test.md";
    let parser = MarkdownParser::new();
    let id = generate_doc_id(file_path);
    let doc = parser
        .parse(
            file_path,
            id,
            Ok(b"# Title\n\nHello **bold** and `code`".to_vec()),
        )
        .unwrap();

    assert_eq!(doc.title, "test");
    assert!(doc.content.contains("Title"));
    assert!(doc.content.contains("bold"));
    assert!(doc.content.contains("code"));
    assert!(!doc.content.contains("**"));
}

#[test]
fn test_parser_registry_txt() {
    let registry = ParserRegistry::with_defaults();
    let doc = registry
        .parse_file("/tmp/kb/notes.txt", Ok(b"Some notes".to_vec()))
        .unwrap();

    assert_eq!(doc.content, "Some notes");
}

#[test]
fn test_parser_registry_markdown() {
    let registry = ParserRegistry::with_defaults();
    let doc = registry
        .parse_file("/tmp/kb/readme.md", Ok(b"# Hello\nWorld".to_vec()))
        .unwrap();

    assert!(doc.content.contains("Hello"));
    assert!(doc.content.contains("World"));
}

#[test]
fn test_parser_registry_unsupported() {
    let registry = ParserRegistry::with_defaults();
    let result = registry.parse_file("/tmp/kb/data.csv", Ok(b"a,b,c".to_vec()));

    assert!(result.is_err());
}

#[test]
fn test_extract_markdown_text() {
    let md = "# Heading\n\nParagraph with **bold** and *italic*.\n\n- Item 1\n- Item 2";
    let text = extract_markdown_text(md);

    assert!(text.contains("Heading"));
    assert!(text.contains("bold"));
    assert!(text.contains("italic"));
    assert!(text.contains("Item 1"));
    assert!(text.contains("Item 2"));
    assert!(!text.contains("**"));
    assert!(!text.contains("*"));
}

#[test]
fn test_parse_error_messages() {
    let registry = ParserRegistry::with_defaults();
    assert_eq!(
        registry.parse_file("/tmp/kb/noext", Ok(Vec::new())).unwrap_err(),
        KbError::Parse("File has no extension: /tmp/kb/noext".to_string())
    );
    assert_eq!(
        registry.parse_file("/tmp/kb/data.CSV", Ok(Vec::new())).unwrap_err(),
        KbError::Parse("No parser found for extension: .csv".to_string())
    );
    assert_eq!(
        registry
            .parse_file("/tmp/kb/gone.txt", Err("not found".to_string()))
            .unwrap_err(),
        KbError::Parse("Failed to read file /tmp/kb/gone.txt: not found".to_string())
    );
}

#[test]
fn test_parser_registry_upper_case_extension() {
    let registry = ParserRegistry::with_defaults();
    assert_eq!(registry.select_parser("/a/b/NOTES.MD").unwrap(), 1);
    assert_eq!(registry.select_parser("/a/b/notes.Txt").unwrap(), 0);
    let doc = registry
        .parse_file("/a/b/Notes.Markdown", Ok(b"*x* y".to_vec()))
        .unwrap();
    assert_eq!(doc.content, "x  y");
    assert_eq!(doc.title, "Notes");
    assert_eq!(doc.id, generate_doc_id("/a/b/Notes.Markdown"));
}

#[test]
fn test_extract_title_edge_cases() {
    assert_eq!(extract_title("/docs/.bashrc"), ".bashrc");
    assert_eq!(extract_title("/docs/archive.tar.gz"), "archive.tar");
    assert_eq!(extract_title("/"), "untitled");
    assert_eq!(extract_title("/docs/.."), "untitled");
}

#[test]
fn test_markdown_text_separators() {
    // Text events are separated by a space; a soft break is one space.
    assert_eq!(extract_markdown_text("a\nb"), "a  b");
    assert_eq!(extract_markdown_text("`code` and text"), "code  and text");
    assert_eq!(extract_markdown_text(""), "");
}

#[test]
fn test_generate_doc_id_spellings_of_one_path() {
    let id = generate_doc_id("/test/dir/file.md");
    assert_eq!(generate_doc_id("/test//dir/file.md"), id);
    assert_eq!(generate_doc_id("/test/./dir/file.md"), id);
    assert_eq!(generate_doc_id("/test/dir/file.md/"), id);
}

#[test]
fn test_txt_parser_rejects_invalid_utf8() {
    let parser = TxtParser::new();
    let err = parser.parse("/kb/bin.txt", 7, Ok(vec![0x66, 0xFF, 0x6F])).unwrap_err();
    assert_eq!(
        err,
        KbError::Parse("Failed to read file /kb/bin.txt: stream did not contain valid UTF-8".to_string())
    );
}
