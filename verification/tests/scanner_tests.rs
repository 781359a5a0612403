use kbsearch::error::KbError;
use kbsearch::scanner::{check_scan_root, detect_file_type, is_hidden, select_scanned_files, FileType};

#[test]
fn test_detect_file_type() {
    assert_eq!(detect_file_type("test.md"), Some(FileType::Markdown));
    assert_eq!(detect_file_type("test.MD"), Some(FileType::Markdown));
    assert_eq!(detect_file_type("test.markdown"), Some(FileType::Markdown));
    assert_eq!(detect_file_type("test.txt"), Some(FileType::PlainText));
    assert_eq!(detect_file_type("report.pdf"), Some(FileType::Pdf));
    assert_eq!(detect_file_type("document.docx"), Some(FileType::Docx));
    assert_eq!(detect_file_type("report.PDF"), Some(FileType::Pdf));
    assert_eq!(detect_file_type("document.DOCX"), Some(FileType::Docx));
    assert_eq!(detect_file_type("test.csv"), None);
    assert_eq!(detect_file_type("test"), None);
}

#[test]
fn test_is_hidden() {
    assert!(is_hidden("/base/.hidden.md"));
    assert!(is_hidden("/base/.hidden_dir"));
    assert!(!is_hidden("/base/readme.md"));
    assert!(!is_hidden("/base/sub"));
    assert!(!is_hidden("/"));
    assert!(is_hidden("docs/.hidden_dir/secret.md"));
    assert!(is_hidden("docs/.hidden.md"));
    assert!(!is_hidden("docs/readme.md"));
    assert!(!is_hidden("./docs/../readme.md"));
    assert!(!is_hidden(""));
}

#[test]
fn test_select_scanned_files_filters_and_sorts() {
    let entries = vec![
        ("/base/sub/doc.md".to_string(), true),
        ("/base/sub".to_string(), false),
        ("/base/readme.md".to_string(), true),
        ("/base/data.csv".to_string(), true),
        ("/base/notes.txt".to_string(), true),
        ("/base/a-b.txt".to_string(), true),
        ("/base/dir.md".to_string(), false),
    ];
    let files = select_scanned_files(&entries);
    let paths: Vec<&str> = files.iter().map(|f| f.path.as_str()).collect();
    // Path order compares components: "a-b.txt" < "notes.txt" < "readme.md" < "sub".
    assert_eq!(
        paths,
        vec![
            "/base/a-b.txt",
            "/base/notes.txt",
            "/base/readme.md",
            "/base/sub/doc.md"
        ]
    );
    assert_eq!(files[0].file_type, FileType::PlainText);
    assert_eq!(files[2].file_type, FileType::Markdown);
}

#[test]
fn test_select_scanned_files_component_order() {
    // By components "a" < "a-b", although '-' sorts before '/' byte-wise.
    let entries = vec![
        ("/r/a-b.md".to_string(), true),
        ("/r/a/x.md".to_string(), true),
    ];
    let files = select_scanned_files(&entries);
    assert_eq!(files[0].path, "/r/a/x.md");
    assert_eq!(files[1].path, "/r/a-b.md");
    let mut std_order = vec![
        std::path::PathBuf::from("/r/a-b.md"),
        std::path::PathBuf::from("/r/a/x.md"),
    ];
    std_order.sort();
    assert_eq!(std_order[0].to_str().unwrap(), files[0].path);
}

#[test]
fn test_check_scan_root() {
    assert_eq!(check_scan_root("/docs", true, true), Ok(()));
    assert_eq!(
        check_scan_root("/nonexistent/path", false, false),
        Err(KbError::Io("Directory not found: /nonexistent/path".to_string()))
    );
    assert_eq!(
        check_scan_root("/docs/readme.md", true, false),
        Err(KbError::Io("Path is not a directory: /docs/readme.md".to_string()))
    );
}

#[test]
fn test_scan_nonexistent_directory() {
    let dir = std::path::Path::new("/nonexistent/path");
    let result = check_scan_root("/nonexistent/path", dir.exists(), dir.is_dir());
    assert!(result.is_err());
}
