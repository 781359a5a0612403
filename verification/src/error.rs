//! The library's error type.
use vstd::prelude::*;

verus! {

/// Errors of the knowledge-base library, each with its message.
#[derive(Debug, Clone, PartialEq)]
pub enum KbError {
    /// An I/O failure (file access, directory access), with the system's
    /// description of it.
    Io(String),
    /// A document could not be parsed.
    Parse(String),
    /// The index could not be built.
    Index(String),
    /// A search failed.
    Search(String),
    /// The index could not be stored or read back.
    Storage(String),
    /// No index file exists at the given path.
    NoIndex(String),
}

/// The text shown for an error: a heading for its kind and its message.
pub open spec fn error_text(e: KbError) -> Seq<char> {
    match e {
        KbError::Io(m) => "IO error: "@ + m@,
        KbError::Parse(m) => "Parse error: "@ + m@,
        KbError::Index(m) => "Index error: "@ + m@,
        KbError::Search(m) => "Search error: "@ + m@,
        KbError::Storage(m) => "Storage error: "@ + m@,
        KbError::NoIndex(m) => "No index found at "@ + m@ + ", please run `index` command first"@,
    }
}

impl KbError {
    /// The text shown for this error (see [`error_text`]).
    pub fn message(&self) -> (r: String)
        ensures
            r@ == error_text(*self),
    {
        let (mut out, m) = match self {
            KbError::Io(m) => (String::from_str("IO error: "), m),
            KbError::Parse(m) => (String::from_str("Parse error: "), m),
            KbError::Index(m) => (String::from_str("Index error: "), m),
            KbError::Search(m) => (String::from_str("Search error: "), m),
            KbError::Storage(m) => (String::from_str("Storage error: "), m),
            KbError::NoIndex(m) => (String::from_str("No index found at "), m),
        };
        out.append(m.as_str());
        if let KbError::NoIndex(_) = self {
            out.append(", please run `index` command first");
        }
        out
    }
}

} // verus!
