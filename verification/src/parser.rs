//! Documents and document parsers: plain text, Markdown, PDF and DOCX, and a
//! registry that picks a parser by file extension.
use vstd::prelude::*;
use std::hash::{Hash, Hasher};
use pulldown_cmark::Event;
use crate::error::KbError;
use crate::paths::{extension, file_stem, path_extension, path_stem};
use crate::scanner::path_components;
use crate::text::{chars_of, lowercase_of, string_of, to_lowercase, utf8_text, views};
use vstd::utf8::{decode_utf8, valid_utf8};

verus! {

/// Document identifier.
pub type DocId = u64;

/// A parsed document: its identifier, path, title and plain-text content.
#[derive(Debug, Clone)]
pub struct Document {
    pub id: DocId,
    pub path: String,
    pub title: String,
    pub content: String,
}

/// The abstract content of a [`Document`].
pub struct DocumentView {
    pub id: DocId,
    pub path: Seq<char>,
    pub title: Seq<char>,
    pub content: Seq<char>,
}

impl View for Document {
    type V = DocumentView;

    open spec fn view(&self) -> DocumentView {
        DocumentView { id: self.id, path: self.path@, title: self.title@, content: self.content@ }
    }
}

// ========== Identifiers and titles ==========

/// The identifier of the document whose path has the given components
/// (see [`crate::scanner::path_components`]): the hash of such a path by
/// std's `DefaultHasher` as created by `DefaultHasher::new`, for the std
/// release the library is built with. `Path`'s `Hash` agrees with its `Eq`,
/// which compares components, so spellings of one path (`a//b`, `a/./b`,
/// `a/b/`) hash alike.
pub uninterp spec fn doc_id_of(components: Seq<(int, Seq<char>)>) -> DocId;

/// The document identifier of a path: the `DefaultHasher::new()` hash of the
/// path (`Path::hash`), so the same path always gets the same identifier.
/// The result is named by [`doc_id_of`] applied to the path's components;
/// `DefaultHasher::new` uses fixed keys, so it depends on the path alone.
#[verifier::external_body]
pub fn generate_doc_id(path: &str) -> (r: DocId)
    ensures
        r == doc_id_of(path_components(path@)),
{
    let mut hasher = std::collections::hash_map::DefaultHasher::new();
    std::path::Path::new(path).hash(&mut hasher);
    hasher.finish()
}

/// The title of the document at `p`: its file stem, or "untitled".
pub open spec fn title_of(p: Seq<char>) -> Seq<char> {
    match path_stem(p) {
        Some(s) => s,
        None => "untitled"@,
    }
}

/// The title of the document at `path`: the file name without extension,
/// or "untitled" when the path has no file name.
pub fn extract_title(path: &str) -> (r: String)
    ensures
        r@ == title_of(path@),
{
    match file_stem(path) {
        Some(s) => s,
        None => String::from_str("untitled"),
    }
}

/// The message of the parse error for a file that could not be read.
pub open spec fn read_error_message(path: Seq<char>, reason: Seq<char>) -> Seq<char> {
    "Failed to read file "@ + path + ": "@ + reason
}

/// The view of a read attempt: the file's bytes, or why it could not be
/// read.
pub open spec fn raw_view(raw: Result<Vec<u8>, String>) -> Result<Seq<u8>, Seq<char>> {
    match raw {
        Ok(b) => Ok(b@),
        Err(e) => Err(e@),
    }
}

/// What a parser extracts from a read attempt: the text content, or why
/// there is none (the read failed, or the parser could not read the bytes).
pub open spec fn extraction<P: Parser + ?Sized>(p: &P, raw: Result<Vec<u8>, String>) -> Result<Seq<char>, Seq<char>> {
    match raw_view(raw) {
        Ok(b) => p.spec_extract(b),
        Err(e) => Err(e),
    }
}

/// `r` is what parsing the file at `path` with identifier `id` gives when
/// the extraction gave `ex`: the document with that content, or a parse
/// error naming the path and the reason.
pub open spec fn parse_outcome(
    r: Result<Document, KbError>,
    path: Seq<char>,
    id: DocId,
    ex: Result<Seq<char>, Seq<char>>,
) -> bool {
    match ex {
        Ok(content) => r matches Ok(d) && d@ == DocumentView { id, path, title: title_of(path), content },
        Err(e) => r matches Err(KbError::Parse(m)) && m@ == read_error_message(path, e),
    }
}

/// Why bytes that are not UTF-8 cannot be read as text (the message of the
/// error `std::io::Read::read_to_string` gives for them).
pub open spec fn not_utf8_reason() -> Seq<char> {
    "stream did not contain valid UTF-8"@
}

/// The text of bytes, when they are UTF-8.
pub open spec fn text_extraction(b: Seq<u8>) -> Result<Seq<char>, Seq<char>> {
    if valid_utf8(b) {
        Ok(decode_utf8(b))
    } else {
        Err(not_utf8_reason())
    }
}

/// The text of `bytes`, or why they are not text (see [`text_extraction`]).
fn bytes_text(bytes: Vec<u8>) -> (r: Result<String, String>)
    ensures
        match r {
            Ok(t) => text_extraction(bytes@) == Ok::<Seq<char>, Seq<char>>(t@),
            Err(e) => text_extraction(bytes@) == Err::<Seq<char>, Seq<char>>(e@),
        },
{
    let ghost b = bytes@;
    match utf8_text(bytes) {
        Some(t) => Ok(t),
        None => {
            let e = String::from_str("stream did not contain valid UTF-8");
            proof {
                reveal_strlit("stream did not contain valid UTF-8");
            }
            Err(e)
        },
    }
}

/// The outcome of a parse whose extraction gave `ex`.
fn finish(path: &str, id: DocId, ex: Result<String, String>) -> (r: Result<Document, KbError>)
    ensures
        parse_outcome(
            r,
            path@,
            id,
            match ex {
                Ok(c) => Ok(c@),
                Err(e) => Err(e@),
            },
        ),
{
    match ex {
        Ok(content) => Ok(make_document(path, id, content)),
        Err(reason) => Err(read_error(path, &reason)),
    }
}

/// The parse error for a file that could not be read.
fn read_error(path: &str, reason: &String) -> (r: KbError)
    ensures
        r matches KbError::Parse(m) && m@ == read_error_message(path@, reason@),
{
    let mut m = String::from_str("Failed to read file ");
    m.append(path);
    m.append(": ");
    m.append(reason.as_str());
    KbError::Parse(m)
}

/// The document for `path` with the given content.
fn make_document(path: &str, id: DocId, content: String) -> (r: Document)
    ensures
        r@ == (DocumentView { id, path: path@, title: title_of(path@), content: content@ }),
{
    Document { id, path: String::from_str(path), title: extract_title(path), content }
}

// ========== Parsers ==========

/// A document parser for some file extensions. Reading the file is left to
/// the caller, which hands over its content (its bytes; for a PDF or DOCX
/// file, the text extracted from it) or the reason there is none.
pub trait Parser {
    /// The extensions this parser handles.
    spec fn spec_extensions(&self) -> Seq<Seq<char>>;

    /// The plain-text content this parser extracts from a file's bytes, or
    /// why it cannot.
    spec fn spec_extract(&self, bytes: Seq<u8>) -> Result<Seq<char>, Seq<char>>;

    /// Parses the file at `path`, whose read gave `raw`, into a document
    /// with identifier `id`.
    fn parse(&self, path: &str, id: DocId, raw: Result<Vec<u8>, String>) -> (r: Result<
        Document,
        KbError,
    >)
        ensures
            parse_outcome(
                r,
                path@,
                id,
                match raw_view(raw) {
                    Ok(b) => self.spec_extract(b),
                    Err(e) => Err(e),
                },
            ),
    ;

    /// The extensions this parser handles.
    fn supported_extensions(&self) -> (r: Vec<String>)
        ensures
            views(r@) == self.spec_extensions(),
    ;
}

/// Plain-text parser: the content is the file's text.
pub struct TxtParser;

impl TxtParser {
    pub fn new() -> (r: Self)
        ensures
            r == TxtParser,
    {
        TxtParser
    }
}

impl Default for TxtParser {
    fn default() -> (r: Self)
        ensures
            r == TxtParser,
    {
        Self::new()
    }
}

impl Parser for TxtParser {
    open spec fn spec_extensions(&self) -> Seq<Seq<char>> {
        seq!["txt"@]
    }

    open spec fn spec_extract(&self, bytes: Seq<u8>) -> Result<Seq<char>, Seq<char>> {
        text_extraction(bytes)
    }

    fn parse(&self, path: &str, id: DocId, raw: Result<Vec<u8>, String>) -> (r: Result<
        Document,
        KbError,
    >) {
        match raw {
            Ok(bytes) => finish(path, id, bytes_text(bytes)),
            Err(reason) => Err(read_error(path, &reason)),
        }
    }

    fn supported_extensions(&self) -> (r: Vec<String>) {
        let r = vec![String::from_str("txt")];
        assert(views(r@) =~= seq!["txt"@]);
        r
    }
}


// ========== Markdown ==========

/// A Markdown parser event, reduced to what text extraction reads.
#[derive(Debug, Clone, PartialEq)]
pub enum MarkdownEvent {
    Text(String),
    Code(String),
    SoftBreak,
    HardBreak,
    /// Any other event (block starts and ends, HTML, rules, ...).
    Other,
}

/// The abstract content of a [`MarkdownEvent`].
pub enum MarkdownEventView {
    Text(Seq<char>),
    Code(Seq<char>),
    SoftBreak,
    HardBreak,
    Other,
}

impl View for MarkdownEvent {
    type V = MarkdownEventView;

    open spec fn view(&self) -> MarkdownEventView {
        match self {
            MarkdownEvent::Text(t) => MarkdownEventView::Text(t@),
            MarkdownEvent::Code(c) => MarkdownEventView::Code(c@),
            MarkdownEvent::SoftBreak => MarkdownEventView::SoftBreak,
            MarkdownEvent::HardBreak => MarkdownEventView::HardBreak,
            MarkdownEvent::Other => MarkdownEventView::Other,
        }
    }
}

/// The views of a sequence of events.
pub open spec fn event_views(v: Seq<MarkdownEvent>) -> Seq<MarkdownEventView> {
    v.map_values(|e: MarkdownEvent| e@)
}

/// The event stream that pulldown-cmark's `Parser::new` (CommonMark, no
/// extensions) produces for `markdown`, reduced to [`MarkdownEventView`].
pub uninterp spec fn markdown_events(markdown: Seq<char>) -> Seq<MarkdownEventView>;

/// `pulldown_cmark::Parser::new(markdown)`, each event reduced to a
/// [`MarkdownEvent`]; the result is named by [`markdown_events`].
#[verifier::external_body]
fn parse_markdown_events(markdown: &str) -> (r: Vec<MarkdownEvent>)
    ensures
        event_views(r@) == markdown_events(markdown@),
{
    pulldown_cmark::Parser::new(markdown).map(|e| match e {
        Event::Text(t) => MarkdownEvent::Text(t.to_string()),
        Event::Code(c) => MarkdownEvent::Code(c.to_string()),
        Event::SoftBreak => MarkdownEvent::SoftBreak,
        Event::HardBreak => MarkdownEvent::HardBreak,
        _ => MarkdownEvent::Other,
    }).collect()
}

/// The plain text of an event stream: text and inline code, separated by a
/// space from what precedes them (if anything does); each line break becomes
/// a space; other events add nothing.
pub open spec fn events_text(events: Seq<MarkdownEventView>) -> Seq<char>
    decreases events.len(),
{
    if events.len() == 0 {
        Seq::empty()
    } else {
        let r = events_text(events.drop_last());
        match events.last() {
            MarkdownEventView::Text(t) => if r.len() > 0 { r.push(' ') + t } else { r + t },
            MarkdownEventView::Code(t) => if r.len() > 0 { r.push(' ') + t } else { r + t },
            MarkdownEventView::SoftBreak => r.push(' '),
            MarkdownEventView::HardBreak => r.push(' '),
            MarkdownEventView::Other => r,
        }
    }
}

/// Appends the characters of `s` to `out`.
fn push_str(out: &mut Vec<char>, s: &String)
    ensures
        final(out)@ == old(out)@ + s@,
{
    let mut chars = chars_of(s.as_str());
    out.append(&mut chars);
}

/// The plain text of an event stream (see [`events_text`]).
pub fn text_of_events(events: &Vec<MarkdownEvent>) -> (r: String)
    ensures
        r@ == events_text(event_views(events@)),
{
    let mut out: Vec<char> = Vec::new();
    let mut i: usize = 0;
    while i < events.len()
        invariant
            0 <= i <= events.len(),
            out@ == events_text(event_views(events@).take(i as int)),
        decreases events.len() - i,
    {
        assert(event_views(events@).take(i + 1).drop_last() =~= event_views(events@).take(i as int));
        match &events[i] {
            MarkdownEvent::Text(t) => {
                if out.len() > 0 {
                    out.push(' ');
                }
                push_str(&mut out, t);
            },
            MarkdownEvent::Code(c) => {
                if out.len() > 0 {
                    out.push(' ');
                }
                push_str(&mut out, c);
            },
            MarkdownEvent::SoftBreak => {
                out.push(' ');
            },
            MarkdownEvent::HardBreak => {
                out.push(' ');
            },
            MarkdownEvent::Other => {},
        }
        i = i + 1;
    }
    assert(event_views(events@).take(i as int) =~= event_views(events@));
    string_of(out.as_slice())
}

/// The plain text of a Markdown document: the text of its pulldown-cmark
/// events (see [`events_text`]).
pub fn extract_markdown_text(markdown: &str) -> (r: String)
    ensures
        r@ == events_text(markdown_events(markdown@)),
{
    let events = parse_markdown_events(markdown);
    text_of_events(&events)
}

/// Markdown parser: the content is the plain text of the Markdown.
pub struct MarkdownParser;

impl MarkdownParser {
    pub fn new() -> (r: Self)
        ensures
            r == MarkdownParser,
    {
        MarkdownParser
    }
}

impl Default for MarkdownParser {
    fn default() -> (r: Self)
        ensures
            r == MarkdownParser,
    {
        Self::new()
    }
}

impl Parser for MarkdownParser {
    open spec fn spec_extensions(&self) -> Seq<Seq<char>> {
        seq!["md"@, "markdown"@]
    }

    open spec fn spec_extract(&self, bytes: Seq<u8>) -> Result<Seq<char>, Seq<char>> {
        match text_extraction(bytes) {
            Ok(t) => Ok(events_text(markdown_events(t))),
            Err(e) => Err(e),
        }
    }

    fn parse(&self, path: &str, id: DocId, raw: Result<Vec<u8>, String>) -> (r: Result<
        Document,
        KbError,
    >) {
        match raw {
            Ok(bytes) => match bytes_text(bytes) {
                Ok(text) => {
                    let content = extract_markdown_text(text.as_str());
                    Ok(make_document(path, id, content))
                },
                Err(reason) => Err(read_error(path, &reason)),
            },
            Err(reason) => Err(read_error(path, &reason)),
        }
    }

    fn supported_extensions(&self) -> (r: Vec<String>) {
        let r = vec![String::from_str("md"), String::from_str("markdown")];
        assert(views(r@) =~= seq!["md"@, "markdown"@]);
        r
    }
}

// ========== PDF and DOCX ==========

/// PDF parser. Extracting the text of a PDF file (pdf-extract's
/// `extract_text_from_mem`) is left to the caller together with reading
/// it: that crate can abort on hostile input, which a verified function
/// must not. The caller hands over the extracted text as UTF-8 bytes, or
/// the reason there is none; the content is that text.
pub struct PdfParser;

impl PdfParser {
    pub fn new() -> (r: Self)
        ensures
            r == PdfParser,
    {
        PdfParser
    }
}

impl Default for PdfParser {
    fn default() -> (r: Self)
        ensures
            r == PdfParser,
    {
        Self::new()
    }
}

impl Parser for PdfParser {
    open spec fn spec_extensions(&self) -> Seq<Seq<char>> {
        seq!["pdf"@]
    }

    open spec fn spec_extract(&self, bytes: Seq<u8>) -> Result<Seq<char>, Seq<char>> {
        text_extraction(bytes)
    }

    fn parse(&self, path: &str, id: DocId, raw: Result<Vec<u8>, String>) -> (r: Result<
        Document,
        KbError,
    >) {
        match raw {
            Ok(bytes) => finish(path, id, bytes_text(bytes)),
            Err(reason) => Err(read_error(path, &reason)),
        }
    }

    fn supported_extensions(&self) -> (r: Vec<String>) {
        let r = vec![String::from_str("pdf")];
        assert(views(r@) =~= seq!["pdf"@]);
        r
    }
}

/// DOCX parser. Extracting the text of a DOCX file (docx-lite's
/// `extract_text_from_bytes`) is left to the caller together with reading
/// it: that crate can abort on hostile input, which a verified function
/// must not. The caller hands over the extracted text as UTF-8 bytes, or
/// the reason there is none; the content is that text.
pub struct DocxParser;

impl DocxParser {
    pub fn new() -> (r: Self)
        ensures
            r == DocxParser,
    {
        DocxParser
    }
}

impl Default for DocxParser {
    fn default() -> (r: Self)
        ensures
            r == DocxParser,
    {
        Self::new()
    }
}

impl Parser for DocxParser {
    open spec fn spec_extensions(&self) -> Seq<Seq<char>> {
        seq!["docx"@]
    }

    open spec fn spec_extract(&self, bytes: Seq<u8>) -> Result<Seq<char>, Seq<char>> {
        text_extraction(bytes)
    }

    fn parse(&self, path: &str, id: DocId, raw: Result<Vec<u8>, String>) -> (r: Result<
        Document,
        KbError,
    >) {
        match raw {
            Ok(bytes) => finish(path, id, bytes_text(bytes)),
            Err(reason) => Err(read_error(path, &reason)),
        }
    }

    fn supported_extensions(&self) -> (r: Vec<String>) {
        let r = vec![String::from_str("docx")];
        assert(views(r@) =~= seq!["docx"@]);
        r
    }
}

// ========== The registry ==========

/// Some extension of `exts`, lower-cased, equals `ext`.
pub open spec fn supports(exts: Seq<Seq<char>>, ext: Seq<char>) -> bool {
    exists|j: int| 0 <= j < exts.len() && lowercase_of(#[trigger] exts[j]) == ext
}

/// The first of `parsers` that supports the (lower-cased) extension `ext`.
pub open spec fn first_supporting<P: Parser>(parsers: Seq<P>, ext: Seq<char>) -> Option<int>
    decreases parsers.len(),
{
    if parsers.len() == 0 {
        None
    } else {
        match first_supporting(parsers.drop_last(), ext) {
            Some(i) => Some(i),
            None => if supports(parsers.last().spec_extensions(), ext) {
                Some(parsers.len() - 1)
            } else {
                None
            },
        }
    }
}

/// The message of the error for a path without extension.
pub open spec fn no_extension_message(path: Seq<char>) -> Seq<char> {
    "File has no extension: "@ + path
}

/// The message of the error for an extension no parser handles.
pub open spec fn no_parser_message(ext: Seq<char>) -> Seq<char> {
    "No parser found for extension: ."@ + ext
}

/// Which parser of `parsers` handles the file at `path`: `Ok(i)` for the
/// first one that lists its extension (compared lower-cased), or the error.
pub open spec fn selection<P: Parser>(parsers: Seq<P>, path: Seq<char>) -> Result<int, Seq<char>> {
    match path_extension(path) {
        None => Err(no_extension_message(path)),
        Some(ext) => match first_supporting(parsers, lowercase_of(ext)) {
            Some(i) => Ok(i),
            None => Err(no_parser_message(lowercase_of(ext))),
        },
    }
}

/// The parsers the library provides.
pub enum BuiltinParser {
    Txt(TxtParser),
    Markdown(MarkdownParser),
    Pdf(PdfParser),
    Docx(DocxParser),
}

impl Parser for BuiltinParser {
    open spec fn spec_extensions(&self) -> Seq<Seq<char>> {
        match self {
            BuiltinParser::Txt(p) => p.spec_extensions(),
            BuiltinParser::Markdown(p) => p.spec_extensions(),
            BuiltinParser::Pdf(p) => p.spec_extensions(),
            BuiltinParser::Docx(p) => p.spec_extensions(),
        }
    }

    open spec fn spec_extract(&self, bytes: Seq<u8>) -> Result<Seq<char>, Seq<char>> {
        match self {
            BuiltinParser::Txt(p) => p.spec_extract(bytes),
            BuiltinParser::Markdown(p) => p.spec_extract(bytes),
            BuiltinParser::Pdf(p) => p.spec_extract(bytes),
            BuiltinParser::Docx(p) => p.spec_extract(bytes),
        }
    }

    fn parse(&self, path: &str, id: DocId, raw: Result<Vec<u8>, String>) -> (r: Result<
        Document,
        KbError,
    >) {
        match self {
            BuiltinParser::Txt(p) => p.parse(path, id, raw),
            BuiltinParser::Markdown(p) => p.parse(path, id, raw),
            BuiltinParser::Pdf(p) => p.parse(path, id, raw),
            BuiltinParser::Docx(p) => p.parse(path, id, raw),
        }
    }

    fn supported_extensions(&self) -> (r: Vec<String>) {
        match self {
            BuiltinParser::Txt(p) => p.supported_extensions(),
            BuiltinParser::Markdown(p) => p.supported_extensions(),
            BuiltinParser::Pdf(p) => p.supported_extensions(),
            BuiltinParser::Docx(p) => p.supported_extensions(),
        }
    }
}

/// Parser registry: picks a parser by file extension.
pub struct ParserRegistry<P> {
    parsers: Vec<P>,
}

impl ParserRegistry<BuiltinParser> {
    /// A registry with the plain-text, Markdown, PDF and DOCX parsers, in
    /// that order.
    pub fn with_defaults() -> (r: Self)
        ensures
            r.parser_seq() == seq![
                BuiltinParser::Txt(TxtParser),
                BuiltinParser::Markdown(MarkdownParser),
                BuiltinParser::Pdf(PdfParser),
                BuiltinParser::Docx(DocxParser),
            ],
    {
        let mut registry = Self::new();
        registry.register(BuiltinParser::Txt(TxtParser::new()));
        registry.register(BuiltinParser::Markdown(MarkdownParser::new()));
        registry.register(BuiltinParser::Pdf(PdfParser::new()));
        registry.register(BuiltinParser::Docx(DocxParser::new()));
        registry
    }
}

impl Default for ParserRegistry<BuiltinParser> {
    fn default() -> (r: Self)
        ensures
            r.parser_seq() == seq![
                BuiltinParser::Txt(TxtParser),
                BuiltinParser::Markdown(MarkdownParser),
                BuiltinParser::Pdf(PdfParser),
                BuiltinParser::Docx(DocxParser),
            ],
    {
        Self::with_defaults()
    }
}

impl<P: Parser> ParserRegistry<P> {
    /// The registered parsers, in registration order.
    pub closed spec fn parser_seq(&self) -> Seq<P> {
        self.parsers@
    }

    /// An empty registry.
    pub fn new() -> (r: Self)
        ensures
            r.parser_seq() == Seq::<P>::empty(),
    {
        ParserRegistry { parsers: Vec::new() }
    }

    /// Adds `parser` after the registered ones.
    pub fn register(&mut self, parser: P)
        ensures
            final(self).parser_seq() == old(self).parser_seq().push(parser),
    {
        self.parsers.push(parser);
    }

    /// Whether some extension in `exts`, lower-cased, equals `ext`.
    fn lists_extension(exts: &Vec<String>, ext: &String) -> (r: bool)
        ensures
            r == supports(views(exts@), ext@),
    {
        let mut j: usize = 0;
        while j < exts.len()
            invariant
                0 <= j <= exts.len(),
                forall|k: int| 0 <= k < j ==> lowercase_of(#[trigger] views(exts@)[k]) != ext@,
            decreases exts.len() - j,
        {
            let lower = to_lowercase(exts[j].as_str());
            assert(views(exts@)[j as int] == exts@[j as int]@);
            if lower == *ext {
                return true;
            }
            j = j + 1;
        }
        false
    }

    /// Which parser handles the file at `path` (see [`selection`]): the
    /// index of the first parser that lists the path's extension, compared
    /// lower-cased; an error when the path has no extension or no parser
    /// lists it.
    pub fn select_parser(&self, path: &str) -> (r: Result<usize, KbError>)
        ensures
            match selection(self.parser_seq(), path@) {
                Ok(i) => r matches Ok(k) && k == i && i < self.parser_seq().len(),
                Err(m) => r matches Err(KbError::Parse(e)) && e@ == m,
            },
    {
        let ext = match extension(path) {
            Some(e) => e,
            None => {
                let mut m = String::from_str("File has no extension: ");
                m.append(path);
                return Err(KbError::Parse(m));
            },
        };
        let lower = to_lowercase(ext.as_str());
        let ghost e = lower@;
        let mut i: usize = 0;
        while i < self.parsers.len()
            invariant
                0 <= i <= self.parsers.len(),
                e == lower@,
                path_extension(path@) == Some(ext@),
                lower@ == lowercase_of(ext@),
                first_supporting(self.parsers@.take(i as int), e) is None,
            decreases self.parsers.len() - i,
        {
            assert(self.parsers@.take(i + 1).drop_last() =~= self.parsers@.take(i as int));
            let exts = self.parsers[i].supported_extensions();
            if Self::lists_extension(&exts, &lower) {
                proof {
                    assert(views(exts@) == self.parsers@[i as int].spec_extensions());
                    assert(self.parsers@.take(i + 1).last() == self.parsers@[i as int]);
                    lemma_first_supporting_prefix(self.parsers@, i + 1, e);
                    assert(first_supporting(self.parsers@.take(i + 1), e) == Some(i as int));
                    assert(first_supporting(self.parsers@, e) == Some(i as int));
                    assert(path_extension(path@) == Some(ext@));
                    assert(lowercase_of(ext@) == e);
                    assert(selection(self.parser_seq(), path@) == Ok::<int, Seq<char>>(i as int));
                }
                return Ok(i);
            }
            i = i + 1;
        }
        assert(self.parsers@.take(i as int) =~= self.parsers@);
        let mut m = String::from_str("No parser found for extension: .");
        m.append(lower.as_str());
        Err(KbError::Parse(m))
    }

    /// Parses the file at `path`, whose read gave `raw`, with the parser
    /// that handles its extension and the identifier of its path; the
    /// selection error when no parser handles it.
    pub fn parse_file(&self, path: &str, raw: Result<Vec<u8>, String>) -> (r: Result<Document, KbError>)
        ensures
            match selection(self.parser_seq(), path@) {
                Ok(i) => parse_outcome(
                    r,
                    path@,
                    doc_id_of(path_components(path@)),
                    extraction(&self.parser_seq()[i], raw),
                ),
                Err(m) => r matches Err(KbError::Parse(e)) && e@ == m,
            },
    {
        let i = match self.select_parser(path) {
            Ok(i) => i,
            Err(e) => return Err(e),
        };
        let id = generate_doc_id(path);
        self.parsers[i].parse(path, id, raw)
    }
}

/// A parser found in a prefix is the one found in the whole sequence.
proof fn lemma_first_supporting_prefix<P: Parser>(parsers: Seq<P>, n: int, ext: Seq<char>)
    requires
        0 <= n <= parsers.len(),
        first_supporting(parsers.take(n), ext) is Some,
    ensures
        first_supporting(parsers, ext) == first_supporting(parsers.take(n), ext),
    decreases parsers.len() - n,
{
    if n < parsers.len() {
        assert(parsers.take(n + 1).drop_last() =~= parsers.take(n));
        lemma_first_supporting_prefix(parsers, n + 1, ext);
    } else {
        assert(parsers.take(n) =~= parsers);
    }
}

} // verus!
