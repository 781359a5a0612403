# kbsearch

A local knowledge-base search library with Chinese/English tokenisation, an
inverted index, TF-IDF ranking inputs and result snippets, verified with
Verus, and a small command-line tool around it.

## Layout

- `src/` — the verified library:
  - `tokenizer.rs`: CJK classification, splitting text into CJK and non-CJK
    runs, the English, jieba-based Chinese and mixed tokenizers;
  - `indexer.rs`: the posting table, the inverted index, its statistics and
    the integer ingredients of TF-IDF scores;
  - `parser.rs`: documents, the plain-text, Markdown (through
    pulldown-cmark), PDF and DOCX parsers, and the registry that picks a
    parser by extension. The PDF and DOCX parsers take text that the caller
    has already extracted: pdf-extract and docx-lite can abort the process on
    malformed or hostile files, so the tool calls them in `app/` at its I/O
    edge and hands the library the text or the error;
  - `scanner.rs`: file types, hidden paths, and the selection and path
    ordering of the files a directory walk finds;
  - `searcher.rs` and `snippet.rs`: score contributions of a query, the
    documents shown for a ranking, snippets and highlighting. A snippet always
    contains the first match of the query, and is cut only at a space or
    between two CJK characters, never inside a word;
  - `storage.rs`, `paths.rs`, `text.rs`, `error.rs`: storage decisions, path
    and text helpers, errors.
- `tests/` — tests of the library.
- `app/` — the command-line tool: argument parsing, file and directory I/O,
  PDF and DOCX text extraction, JSON persistence of the index, and the
  floating-point TF-IDF ranking.

Each public function of `src/` states what it returns in its `ensures`
clause; the laws that relate several functions are public proof functions
named `lemma_*`.
