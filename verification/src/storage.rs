//! Index storage: the JSON storage handle, the checks and messages around
//! loading and saving an index, and where the index is stored by default.
use vstd::prelude::*;
use crate::error::KbError;
use crate::paths::{join, path_joined};

verus! {

/// JSON index storage. Writing and reading the file, and the JSON encoding
/// itself, happen outside the library; the decisions around them are here.
pub struct JsonStorage;

impl JsonStorage {
    /// The JSON storage.
    pub fn new() -> (r: Self)
        ensures
            r == JsonStorage,
    {
        JsonStorage
    }

    /// Whether an index can be loaded from `path`, given whether a file
    /// exists there: a `NoIndex` error naming the path when it does not.
    pub fn check_index_exists(&self, path: &str, exists: bool) -> (r: Result<(), KbError>)
        ensures
            exists <==> r is Ok,
            !exists ==> (r matches Err(KbError::NoIndex(p)) && p@ == path@),
    {
        if exists {
            Ok(())
        } else {
            Err(KbError::NoIndex(String::from_str(path)))
        }
    }

    /// The storage error for a failed encoding (`encoding`) or decoding of
    /// the index, with the encoder's description of the failure.
    pub fn codec_error(&self, encoding: bool, detail: &str) -> (r: KbError)
        ensures
            r matches KbError::Storage(m) && m@ == codec_message(encoding, detail@),
    {
        let mut m = if encoding {
            String::from_str("Failed to serialize index: ")
        } else {
            String::from_str("Failed to deserialize index: ")
        };
        m.append(detail);
        KbError::Storage(m)
    }
}

impl Default for JsonStorage {
    fn default() -> (r: Self)
        ensures
            r == JsonStorage,
    {
        Self::new()
    }
}

/// The message of a storage error for a failed encoding or decoding.
pub open spec fn codec_message(encoding: bool, detail: Seq<char>) -> Seq<char> {
    (if encoding {
        "Failed to serialize index: "@
    } else {
        "Failed to deserialize index: "@
    }) + detail
}

/// The home directory: `HOME` when set, else `USERPROFILE`, else ".".
pub open spec fn home_dir(home: Option<Seq<char>>, user_profile: Option<Seq<char>>) -> Seq<char> {
    match home {
        Some(h) => h,
        None => match user_profile {
            Some(u) => u,
            None => "."@,
        },
    }
}

/// The home directory from the values of the `HOME` and `USERPROFILE`
/// variables (`None` when unset).
pub fn home_directory(home: Option<String>, user_profile: Option<String>) -> (r: String)
    ensures
        r@ == home_dir(
            match home {
                Some(h) => Some(h@),
                None => None,
            },
            match user_profile {
                Some(u) => Some(u@),
                None => None,
            },
        ),
{
    match home {
        Some(h) => h,
        None => match user_profile {
            Some(u) => u,
            None => String::from_str("."),
        },
    }
}

/// The default index file, `<home>/.kbsearch/index.json`, given the values
/// of the `HOME` and `USERPROFILE` variables.
pub fn default_index_path(home: Option<String>, user_profile: Option<String>) -> (r: String)
    ensures
        r@ == path_joined(
            path_joined(
                home_dir(
                    match home {
                        Some(h) => Some(h@),
                        None => None,
                    },
                    match user_profile {
                        Some(u) => Some(u@),
                        None => None,
                    },
                ),
                ".kbsearch"@,
            ),
            "index.json"@,
        ),
{
    let dir = home_directory(home, user_profile);
    let base = join(dir.as_str(), ".kbsearch");
    join(base.as_str(), "index.json")
}

} // verus!
