use std::io::Write;
use std::collections::HashMap;

use kbsearch::indexer::{DocumentMeta, InvertedIndex, TfIdfInputs};
use kbsearch::parser::{BuiltinParser, DocId, Document, ParserRegistry};
use kbsearch::searcher::IndexSearcher;
use kbsearch::tokenizer::{MixedTokenizer, Tokenizer};

fn make_doc(id: DocId, content: &str) -> Document {
    Document {
        id,
        path: format!("/test/doc_{}.txt", id),
        title: format!("doc_{}", id),
        content: content.to_string(),
    }
}

/// TF-IDF from its integer ingredients.
fn tfidf_value(i: &TfIdfInputs) -> f64 {
    let tf = i.term_freq as f64 / i.length_norm as f64;
    let idf = 1.0 + (i.doc_count as f64 / (1.0 + i.doc_freq as f64)).ln();
    tf * idf
}

/// A search without snippets: the library's query tokens, score
/// contributions and result selection, with the floating-point scores
/// summed and sorted here, best first.
fn ranked_search<T: Tokenizer>(
    searcher: &IndexSearcher<'_, T, BuiltinParser>,
    query: &str,
    limit: usize,
) -> Vec<(DocumentMeta, f64)> {
    let tokens = searcher.query_tokens(query);
    if tokens.is_empty() {
        return Vec::new();
    }
    let mut scores: HashMap<DocId, f64> = HashMap::new();
    for term in searcher.score_terms(&tokens) {
        *scores.entry(term.doc_id).or_default() += term.inputs.as_ref().map(tfidf_value).unwrap_or(0.0);
    }
    let mut scored: Vec<(DocId, f64)> = scores.into_iter().collect();
    scored.sort_by(|a, b| b.1.partial_cmp(&a.1).unwrap_or(std::cmp::Ordering::Equal));
    let ranked: Vec<DocId> = scored.iter().map(|(id, _)| *id).collect();
    searcher
        .result_documents(&ranked, limit)
        .into_iter()
        .map(|(rank, meta)| (meta, scored[rank].1))
        .collect()
}

#[test]
fn test_search_single_term() {
    let tokenizer = MixedTokenizer::new();
    let docs = vec![
        make_doc(1, "Rust programming language"),
        make_doc(2, "Python programming language"),
        make_doc(3, "Cooking recipes"),
    ];
    let index = InvertedIndex::build_from_documents(&docs, &tokenizer);
    let registry = ParserRegistry::with_defaults();
    let searcher = IndexSearcher::new(&index, &tokenizer, &registry);

    let results = ranked_search(&searcher, "rust", 10);

    assert!(!results.is_empty());
    assert_eq!(results[0].0.id, 1);
    assert!(results[0].1 > 0.0);
}

#[test]
fn test_search_multiple_terms() {
    let tokenizer = MixedTokenizer::new();
    let docs = vec![
        make_doc(1, "Rust programming language"),
        make_doc(2, "Rust is safe and fast"),
        make_doc(3, "Python programming"),
    ];
    let index = InvertedIndex::build_from_documents(&docs, &tokenizer);
    let registry = ParserRegistry::with_defaults();
    let searcher = IndexSearcher::new(&index, &tokenizer, &registry);

    let results = ranked_search(&searcher, "rust programming", 10);

    assert!(!results.is_empty());
    assert_eq!(results[0].0.id, 1);
}

#[test]
fn test_search_no_results() {
    let tokenizer = MixedTokenizer::new();
    let docs = vec![make_doc(1, "Hello world")];
    let index = InvertedIndex::build_from_documents(&docs, &tokenizer);
    let registry = ParserRegistry::with_defaults();
    let searcher = IndexSearcher::new(&index, &tokenizer, &registry);

    let results = ranked_search(&searcher, "quantum", 10);
    assert!(results.is_empty());
}

#[test]
fn test_search_empty_query() {
    let tokenizer = MixedTokenizer::new();
    let docs = vec![make_doc(1, "Hello world")];
    let index = InvertedIndex::build_from_documents(&docs, &tokenizer);
    let registry = ParserRegistry::with_defaults();
    let searcher = IndexSearcher::new(&index, &tokenizer, &registry);

    let results = ranked_search(&searcher, "", 10);
    assert!(results.is_empty());
}

#[test]
fn searcher_test_search_limit() {
    let tokenizer = MixedTokenizer::new();
    let docs: Vec<Document> = (1..=5)
        .map(|i| make_doc(i, &format!("rust programming doc number {}", i)))
        .collect();
    let index = InvertedIndex::build_from_documents(&docs, &tokenizer);
    let registry = ParserRegistry::with_defaults();
    let searcher = IndexSearcher::new(&index, &tokenizer, &registry);

    let results = ranked_search(&searcher, "rust", 2);
    assert_eq!(results.len(), 2);
}

#[test]
fn test_search_ranking() {
    let tokenizer = MixedTokenizer::new();
    let docs = vec![
        make_doc(1, "rust rust rust programming"),
        make_doc(2, "rust programming"),
        make_doc(3, "programming language"),
    ];
    let index = InvertedIndex::build_from_documents(&docs, &tokenizer);
    let registry = ParserRegistry::with_defaults();
    let searcher = IndexSearcher::new(&index, &tokenizer, &registry);

    let results = ranked_search(&searcher, "rust", 10);

    assert_eq!(results[0].0.id, 1);
    assert!(!results.iter().any(|r| r.0.id == 3));
}

#[test]
fn test_search_chinese() {
    let tokenizer = MixedTokenizer::new();
    let docs = vec![
        make_doc(1, "Rust语言编程入门"),
        make_doc(2, "Python编程指南"),
        make_doc(3, "搜索引擎优化"),
    ];
    let index = InvertedIndex::build_from_documents(&docs, &tokenizer);
    let registry = ParserRegistry::with_defaults();
    let searcher = IndexSearcher::new(&index, &tokenizer, &registry);

    let results = ranked_search(&searcher, "语言", 10);
    assert!(!results.is_empty());
    assert_eq!(results[0].0.id, 1);
}

/// A minimal one-page PDF showing `text`.
fn minimal_pdf(text: &str) -> Vec<u8> {
    let mut buf: Vec<u8> = Vec::new();
    let mut offsets: Vec<usize> = Vec::new();
    buf.extend_from_slice(b"%PDF-1.0\n");
    let stream = format!("BT /F1 12 Tf 100 700 Td ({}) Tj ET", text);
    let objects = vec![
        "<< /Type /Catalog /Pages 2 0 R >>".to_string(),
        "<< /Type /Pages /Kids [3 0 R] /Count 1 >>".to_string(),
        "<< /Type /Page /Parent 2 0 R /MediaBox [0 0 612 792] /Contents 4 0 R /Resources << /Font << /F1 5 0 R >> >> >>".to_string(),
        format!("<< /Length {} >>\nstream\n{}\nendstream", stream.len(), stream),
        "<< /Type /Font /Subtype /Type1 /BaseFont /Helvetica >>".to_string(),
    ];
    for (i, body) in objects.iter().enumerate() {
        offsets.push(buf.len());
        buf.extend_from_slice(format!("{} 0 obj\n{}\nendobj\n", i + 1, body).as_bytes());
    }
    let xref = buf.len();
    buf.extend_from_slice(b"xref\n0 6\n0000000000 65535 f \n");
    for off in &offsets {
        buf.extend_from_slice(format!("{:010} 00000 n \n", off).as_bytes());
    }
    buf.extend_from_slice(format!("trailer\n<< /Size 6 /Root 1 0 R >>\nstartxref\n{}\n%%EOF\n", xref).as_bytes());
    buf
}

/// A minimal DOCX file holding one paragraph of `text`.
fn minimal_docx(text: &str) -> Vec<u8> {
    let content = format!(
        "<?xml version=\"1.0\" encoding=\"UTF-8\" standalone=\"yes\"?>\n<w:document xmlns:w=\"http://schemas.openxmlformats.org/wordprocessingml/2006/main\"><w:body><w:p><w:r><w:t>{}</w:t></w:r></w:p></w:body></w:document>",
        text
    );
    let types = "<?xml version=\"1.0\" encoding=\"UTF-8\" standalone=\"yes\"?>\n<Types xmlns=\"http://schemas.openxmlformats.org/package/2006/content-types\"><Default Extension=\"rels\" ContentType=\"application/vnd.openxmlformats-package.relationships+xml\"/><Default Extension=\"xml\" ContentType=\"application/xml\"/><Override PartName=\"/word/document.xml\" ContentType=\"application/vnd.openxmlformats-officedocument.wordprocessingml.document.main+xml\"/></Types>";
    let rels = "<?xml version=\"1.0\" encoding=\"UTF-8\" standalone=\"yes\"?>\n<Relationships xmlns=\"http://schemas.openxmlformats.org/package/2006/relationships\"><Relationship Id=\"rId1\" Type=\"http://schemas.openxmlformats.org/officeDocument/2006/relationships/officeDocument\" Target=\"word/document.xml\"/></Relationships>";
    let doc_rels = "<?xml version=\"1.0\" encoding=\"UTF-8\" standalone=\"yes\"?>\n<Relationships xmlns=\"http://schemas.openxmlformats.org/package/2006/relationships\"></Relationships>";
    let mut zip = zip::ZipWriter::new(std::io::Cursor::new(Vec::new()));
    let options = zip::write::FileOptions::default().compression_method(zip::CompressionMethod::Deflated);
    for (name, body) in [
        ("word/document.xml", content.as_str()),
        ("[Content_Types].xml", types),
        ("_rels/.rels", rels),
        ("word/_rels/document.xml.rels", doc_rels),
    ] {
        zip.start_file(name, options).unwrap();
        zip.write_all(body.as_bytes()).unwrap();
    }
    zip.finish().unwrap().into_inner()
}

#[test]
fn test_pdf_docx_search() {
    let registry = ParserRegistry::with_defaults();
    // The text is extracted at the edge, as the application does.
    let pdf_text = pdf_extract::extract_text_from_mem(&minimal_pdf("Machine learning algorithms"))
        .map(String::into_bytes)
        .map_err(|e| e.to_string());
    let docx_text = docx_lite::extract_text_from_bytes(&minimal_docx("Database system optimization"))
        .map(String::into_bytes)
        .map_err(|e| e.to_string());
    let pdf = registry.parse_file("/kb/paper.pdf", pdf_text).unwrap();
    let docx = registry.parse_file("/kb/report.docx", docx_text).unwrap();
    assert_eq!(pdf.title, "paper");
    assert_eq!(pdf.id, kbsearch::parser::generate_doc_id("/kb/paper.pdf"));
    assert_eq!(docx.title, "report");
    let documents = vec![pdf, docx];

    let tokenizer = MixedTokenizer::new();
    let index = InvertedIndex::build_from_documents(&documents, &tokenizer);
    let searcher = IndexSearcher::new(&index, &tokenizer, &registry);

    let results = ranked_search(&searcher, "machine", 10);
    assert!(!results.is_empty());
    assert!(results[0].0.title.contains("paper"));

    let results = ranked_search(&searcher, "database", 10);
    assert!(!results.is_empty());
    assert!(results[0].0.title.contains("report"));
}

#[test]
fn test_broken_pdf_and_docx_are_parse_errors() {
    let registry = ParserRegistry::with_defaults();
    let extracted = docx_lite::extract_text_from_bytes(b"not a zip")
        .map(String::into_bytes)
        .map_err(|e| e.to_string());
    assert!(extracted.is_err());
    let err = registry.parse_file("/kb/bad.docx", extracted).unwrap_err();
    assert!(matches!(err, kbsearch::error::KbError::Parse(m) if m.starts_with("Failed to read file /kb/bad.docx: ")));
}
