//! Character-level helpers shared by the tokenizers, the parsers and the
//! snippet builder, and the few std string operations whose Unicode tables
//! the library relies on.
use vstd::prelude::*;

verus! {

/// The character sequences of a sequence of strings.
pub open spec fn views(v: Seq<String>) -> Seq<Seq<char>> {
    v.map_values(|s: String| s@)
}

/// Result of `str::to_lowercase` (Unicode lower-case mapping, including the
/// final-sigma rule), as a function of the input characters.
pub uninterp spec fn lowercase_of(s: Seq<char>) -> Seq<char>;

/// Result of `char::is_alphanumeric` (Unicode Alphabetic or Numeric).
pub uninterp spec fn alphanumeric(c: char) -> bool;

/// The Unicode `White_Space` property, which `char::is_whitespace` and
/// `str::trim` use.
pub open spec fn whitespace(c: char) -> bool {
    let u = c as u32;
    ||| 0x09 <= u <= 0x0D
    ||| u == 0x20
    ||| u == 0x85
    ||| u == 0xA0
    ||| u == 0x1680
    ||| 0x2000 <= u <= 0x200A
    ||| u == 0x2028
    ||| u == 0x2029
    ||| u == 0x202F
    ||| u == 0x205F
    ||| u == 0x3000
}

/// The characters of `s`, in order (`str::chars`).
#[verifier::external_body]
pub(crate) fn chars_of(s: &str) -> (r: Vec<char>)
    ensures
        r@ == s@,
{
    s.chars().collect()
}

/// The string made of the characters `v` (`FromIterator<&char> for String`).
#[verifier::external_body]
pub(crate) fn string_of(v: &[char]) -> (r: String)
    ensures
        r@ == v@,
{
    v.iter().collect()
}

/// Every character of `s` is ASCII.
pub open spec fn ascii_chars(s: Seq<char>) -> bool {
    forall|i: int| 0 <= i < s.len() ==> (#[trigger] s[i] as u32) < 128
}

/// The ASCII lower-case of a character: 'A'..='Z' become 'a'..='z', every
/// other character stays.
pub open spec fn ascii_lower_char(c: char) -> char {
    if 'A' <= c && c <= 'Z' {
        ((c as u32) + 32) as char
    } else {
        c
    }
}

/// The ASCII lower-case of each character of `s`.
pub open spec fn ascii_lower(s: Seq<char>) -> Seq<char> {
    s.map_values(|c: char| ascii_lower_char(c))
}

/// `String::from_utf8`: the text of `bytes` when they are valid UTF-8, and
/// `None` when they are not.
#[verifier::external_body]
pub(crate) fn utf8_text(bytes: Vec<u8>) -> (r: Option<String>)
    ensures
        r is Some <==> vstd::utf8::valid_utf8(bytes@),
        r matches Some(s) ==> s@ == vstd::utf8::decode_utf8(bytes@),
{
    String::from_utf8(bytes).ok()
}

/// `str::to_lowercase`; its result is named by [`lowercase_of`]. As its
/// documentation and the Unicode case mapping it follows give, each
/// character maps to one or more characters (so only the empty string maps
/// to the empty string), and an ASCII string is lower-cased letter by letter
/// as `str::to_ascii_lowercase` does.
#[verifier::external_body]
pub(crate) fn to_lowercase(s: &str) -> (r: String)
    ensures
        r@ == lowercase_of(s@),
        r@.len() == 0 <==> s@.len() == 0,
        ascii_chars(s@) ==> r@ == ascii_lower(s@),
{
    s.to_lowercase()
}

/// `char::is_alphanumeric`; its result is named by [`alphanumeric`]. As its
/// documentation (Unicode Alphabetic or Numeric) gives, an ASCII character
/// is alphanumeric exactly when it is a letter or a digit.
#[verifier::external_body]
pub(crate) fn is_alphanumeric(c: char) -> (r: bool)
    ensures
        r == alphanumeric(c),
        (c as u32) < 128 ==> (r <==> ('0' <= c <= '9' || 'A' <= c <= 'Z' || 'a' <= c <= 'z')),
{
    c.is_alphanumeric()
}

/// Whether `c` is Unicode white space (see [`whitespace`]).
pub fn is_whitespace(c: char) -> (r: bool)
    ensures
        r == whitespace(c),
{
    let u = c as u32;
    (0x09 <= u && u <= 0x0D) || u == 0x20 || u == 0x85 || u == 0xA0 || u == 0x1680 || (0x2000
        <= u && u <= 0x200A) || u == 0x2028 || u == 0x2029 || u == 0x202F || u == 0x205F || u
        == 0x3000
}

/// Whether `w` is one of the strings in `list`.
pub fn contains_string(list: &Vec<String>, w: &String) -> (r: bool)
    ensures
        r == views(list@).contains(w@),
{
    let mut i: usize = 0;
    while i < list.len()
        invariant
            0 <= i <= list.len(),
            forall|j: int| 0 <= j < i ==> list@[j]@ != w@,
        decreases list.len() - i,
    {
        if list[i] == *w {
            assert(views(list@)[i as int] == w@);
            return true;
        }
        i = i + 1;
    }
    assert forall|j: int| 0 <= j < views(list@).len() implies views(list@)[j] != w@ by {
        assert(views(list@)[j] == list@[j]@);
    }
    false
}

/// Owned copies of string literals.
pub fn strings_of(words: &[&str]) -> (r: Vec<String>)
    ensures
        views(r@) == words@.map_values(|s: &str| s@),
{
    let mut out: Vec<String> = Vec::new();
    let mut i: usize = 0;
    while i < words.len()
        invariant
            0 <= i <= words.len(),
            views(out@) =~= words@.take(i as int).map_values(|s: &str| s@),
        decreases words.len() - i,
    {
        let s = String::from_str(words[i]);
        let ghost prev = out@;
        out.push(s);
        assert(views(out@) =~= views(prev).push(s@));
        i = i + 1;
        assert(words@.take(i as int) =~= words@.take(i - 1).push(words@[i - 1]));
    }
    assert(words@.take(words.len() as int) =~= words@);
    out
}

} // verus!
