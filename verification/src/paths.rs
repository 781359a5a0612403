//! File-path helpers: the final component of a path (from std), and its
//! stem and extension by the rules that `std::path::Path` documents.
use vstd::prelude::*;
use std::path::Path;

verus! {

/// The final component of the path `p` (`Path::file_name`): `None` when the
/// path ends in `..` or has no component. Paths are read with the syntax of
/// the platform the library is built for.
pub uninterp spec fn path_file_name(p: Seq<char>) -> Option<Seq<char>>;

/// The result of `Path::join(base, part)`, converted back to a string, with
/// the path syntax of the platform the library is built for.
pub uninterp spec fn path_joined(base: Seq<char>, part: Seq<char>) -> Seq<char>;

/// `Path::file_name`, converted to a string; its result is named by
/// [`path_file_name`]. The conversion is lossless: the component is a slice
/// of the UTF-8 text of `path`.
#[verifier::external_body]
pub(crate) fn file_name(path: &str) -> (r: Option<String>)
    ensures
        match r {
            Some(s) => path_file_name(path@) == Some(s@),
            None => path_file_name(path@) is None,
        },
{
    Path::new(path).file_name().map(|n| n.to_string_lossy().into_owned())
}

/// `Path::join(base, part)`, converted to a string; its result is named by
/// [`path_joined`].
#[verifier::external_body]
pub(crate) fn join(base: &str, part: &str) -> (r: String)
    ensures
        r@ == path_joined(base@, part@),
{
    Path::new(base).join(part).to_string_lossy().into_owned()
}

/// The index of the last '.' in `name`, if any.
pub open spec fn last_dot(name: Seq<char>) -> Option<int>
    decreases name.len(),
{
    if name.len() == 0 {
        None
    } else if name.last() == '.' {
        Some(name.len() - 1)
    } else {
        last_dot(name.drop_last())
    }
}

/// The last '.' lies inside the name.
pub proof fn lemma_last_dot(name: Seq<char>)
    ensures
        last_dot(name) matches Some(i) ==> 0 <= i < name.len() && name[i] == '.',
    decreases name.len(),
{
    if name.len() > 0 && name.last() != '.' {
        lemma_last_dot(name.drop_last());
    }
}

/// The stem of a file name: the whole name when it has no '.' other than a
/// leading one, otherwise the part before the last '.'.
pub open spec fn stem_of_name(name: Seq<char>) -> Seq<char> {
    match last_dot(name) {
        Some(i) => if i == 0 { name } else { name.take(i) },
        None => name,
    }
}

/// The extension of a file name: none when it has no '.' other than a
/// leading one, otherwise the part after the last '.'.
pub open spec fn extension_of_name(name: Seq<char>) -> Option<Seq<char>> {
    match last_dot(name) {
        Some(i) => if i == 0 { None } else { Some(name.skip(i + 1)) },
        None => None,
    }
}

/// The stem of the path `p` (as `Path::file_stem`).
pub open spec fn path_stem(p: Seq<char>) -> Option<Seq<char>> {
    match path_file_name(p) {
        Some(name) => Some(stem_of_name(name)),
        None => None,
    }
}

/// The extension of the path `p` (as `Path::extension`).
pub open spec fn path_extension(p: Seq<char>) -> Option<Seq<char>> {
    match path_file_name(p) {
        Some(name) => extension_of_name(name),
        None => None,
    }
}

/// The index of the last '.' in `name`.
fn find_last_dot(name: &Vec<char>) -> (r: Option<usize>)
    ensures
        match r {
            Some(i) => last_dot(name@) == Some(i as int),
            None => last_dot(name@) is None,
        },
{
    let mut i: usize = name.len();
    assert(name@.take(i as int) =~= name@);
    while i > 0
        invariant
            0 <= i <= name.len(),
            last_dot(name@) == last_dot(name@.take(i as int)),
        decreases i,
    {
        assert(name@.take(i as int).drop_last() =~= name@.take(i - 1));
        if name[i - 1] == '.' {
            return Some(i - 1);
        }
        i = i - 1;
    }
    None
}

/// Copies `v[from..to]` into a new vector.
pub fn copy_range(v: &Vec<char>, from: usize, to: usize) -> (r: Vec<char>)
    requires
        from <= to <= v.len(),
    ensures
        r@ == v@.subrange(from as int, to as int),
{
    let mut out: Vec<char> = Vec::new();
    let mut i = from;
    while i < to
        invariant
            from <= i <= to <= v.len(),
            out@ == v@.subrange(from as int, i as int),
        decreases to - i,
    {
        out.push(v[i]);
        i = i + 1;
        assert(out@ =~= v@.subrange(from as int, i as int));
    }
    out
}

/// The stem of the final component of `path` (see [`path_stem`]).
pub fn file_stem(path: &str) -> (r: Option<String>)
    ensures
        match r {
            Some(s) => path_stem(path@) == Some(s@),
            None => path_stem(path@) is None,
        },
{
    match file_name(path) {
        None => None,
        Some(name) => {
            let chars = crate::text::chars_of(name.as_str());
            let found = find_last_dot(&chars);
            proof {
                lemma_last_dot(chars@);
            }
            match found {
                Some(i) => {
                    if i == 0 {
                        Some(name)
                    } else {
                        let stem = copy_range(&chars, 0, i);
                        assert(stem@ =~= name@.take(i as int));
                        Some(crate::text::string_of(stem.as_slice()))
                    }
                },
                None => Some(name),
            }
        },
    }
}

/// The extension of the final component of `path` (see [`path_extension`]).
pub fn extension(path: &str) -> (r: Option<String>)
    ensures
        match r {
            Some(s) => path_extension(path@) == Some(s@),
            None => path_extension(path@) is None,
        },
{
    match file_name(path) {
        None => None,
        Some(name) => {
            let chars = crate::text::chars_of(name.as_str());
            let found = find_last_dot(&chars);
            proof {
                lemma_last_dot(chars@);
            }
            match found {
                Some(i) => {
                    if i == 0 {
                        None
                    } else {
                        let ext = copy_range(&chars, i + 1, chars.len());
                        assert(ext@ =~= name@.skip(i + 1));
                        Some(crate::text::string_of(ext.as_slice()))
                    }
                },
                None => None,
            }
        },
    }
}


/// Appending characters other than '.' does not move the last '.'.
proof fn lemma_last_dot_append(s: Seq<char>, t: Seq<char>)
    requires
        !t.contains('.'),
    ensures
        last_dot(s + t) == last_dot(s),
    decreases t.len(),
{
    if t.len() == 0 {
        assert(s + t =~= s);
    } else {
        assert((s + t).drop_last() =~= s + t.drop_last());
        assert((s + t).last() == t[t.len() - 1]);
        assert(!t.drop_last().contains('.')) by {
            if t.drop_last().contains('.') {
                let j = choose|j: int| 0 <= j < t.drop_last().len() && t.drop_last()[j] == '.';
                assert(t[j] == '.');
            }
        }
        lemma_last_dot_append(s, t.drop_last());
    }
}

/// How a file name splits into stem and extension (as `Path::file_stem` and
/// `Path::extension` document): a name `a.b`, where `b` holds no '.' and `a`
/// is not empty, has extension `b` and stem `a`, so the extension is the
/// part after the last '.' (`notes.v2.md` has extension `md`); a name
/// without '.', or whose only '.' leads it, has no extension and is its own
/// stem.
pub proof fn lemma_name_parts(a: Seq<char>, b: Seq<char>)
    ensures
        a.len() > 0 && !b.contains('.') ==> extension_of_name(a + seq!['.'] + b) == Some(b) && stem_of_name(
            a + seq!['.'] + b,
        ) == a,
        !b.contains('.') ==> extension_of_name(b) is None && stem_of_name(b) == b,
        !b.contains('.') ==> extension_of_name(seq!['.'] + b) is None && stem_of_name(seq!['.'] + b) == seq!['.']
            + b,
{
    if !b.contains('.') {
        lemma_last_dot_append(a + seq!['.'], b);
        assert((a + seq!['.']).drop_last() =~= a);
        assert((a + seq!['.'] + b).skip(a.len() + 1int) =~= b);
        assert((a + seq!['.'] + b).take(a.len() as int) =~= a);
        lemma_last_dot_append(Seq::<char>::empty(), b);
        assert(Seq::<char>::empty() + b =~= b);
        lemma_last_dot_append(seq!['.'], b);
    }
}

/// The extension and stem of a path are those of its final component (see
/// [`lemma_name_parts`]): when that component is `a.b`, with `b` free of '.'
/// and `a` not empty, the extension is `b` and the stem `a`.
pub proof fn lemma_path_parts(p: Seq<char>, a: Seq<char>, b: Seq<char>)
    requires
        path_file_name(p) == Some(a + seq!['.'] + b),
        a.len() > 0,
        !b.contains('.'),
    ensures
        path_extension(p) == Some(b),
        path_stem(p) == Some(a),
{
    lemma_name_parts(a, b);
}

} // verus!
