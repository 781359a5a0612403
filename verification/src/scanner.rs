//! File types by extension, hidden paths, and the selection and ordering of
//! the files a directory walk found.
use vstd::prelude::*;
use crate::error::KbError;
use crate::paths::{extension, path_extension};
use crate::text::{ascii_chars, ascii_lower, lowercase_of, to_lowercase};

verus! {

/// Supported file types.
#[derive(Debug, Clone, Copy, PartialEq, Eq, Structural)]
pub enum FileType {
    Markdown,
    PlainText,
    Pdf,
    Docx,
}

/// A file found by a directory scan.
#[derive(Debug, Clone)]
pub struct ScannedFile {
    pub path: String,
    pub file_type: FileType,
}

/// The file type of a lower-cased extension.
pub open spec fn file_type_of_extension(ext: Seq<char>) -> Option<FileType> {
    if ext == "md"@ || ext == "markdown"@ {
        Some(FileType::Markdown)
    } else if ext == "txt"@ {
        Some(FileType::PlainText)
    } else if ext == "pdf"@ {
        Some(FileType::Pdf)
    } else if ext == "docx"@ {
        Some(FileType::Docx)
    } else {
        None
    }
}

/// The file type of the path `p`, by its extension compared lower-cased.
pub open spec fn detected_type(p: Seq<char>) -> Option<FileType> {
    match path_extension(p) {
        Some(ext) => file_type_of_extension(lowercase_of(ext)),
        None => None,
    }
}

/// The file type of `path` by its extension, compared lower-cased (so an
/// ASCII extension is matched whatever the case of its letters):
/// `.md`/`.markdown` → Markdown, `.txt` → PlainText, `.pdf` → Pdf,
/// `.docx` → Docx, anything else → `None`.
pub fn detect_file_type(path: &str) -> (r: Option<FileType>)
    ensures
        r == detected_type(path@),
        path_extension(path@) is Some && ascii_chars(path_extension(path@)->0) ==> r
            == file_type_of_extension(ascii_lower(path_extension(path@)->0)),
{
    let ext = match extension(path) {
        Some(e) => e,
        None => return None,
    };
    let lower = to_lowercase(ext.as_str());
    if lower == String::from_str("md") || lower == String::from_str("markdown") {
        Some(FileType::Markdown)
    } else if lower == String::from_str("txt") {
        Some(FileType::PlainText)
    } else if lower == String::from_str("pdf") {
        Some(FileType::Pdf)
    } else if lower == String::from_str("docx") {
        Some(FileType::Docx)
    } else {
        None
    }
}

/// A path component naming a hidden file or directory: it starts with '.'
/// and is neither "." nor "..".
pub open spec fn hidden_component(piece: Seq<char>) -> bool {
    piece.len() > 0 && piece[0] == '.' && piece != seq!['.'] && piece != seq!['.', '.']
}

/// Some of the first `n` pieces is a hidden component.
pub open spec fn hidden_among(pieces: Seq<Seq<char>>, n: int) -> bool {
    exists|k: int| 0 <= k < n && hidden_component(#[trigger] pieces[k])
}

/// The path is hidden: a file or directory whose name starts with '.', or
/// anything inside such a directory (some component of the path starts
/// with '.').
pub open spec fn hidden(p: Seq<char>) -> bool {
    hidden_among(split_slash(p), split_slash(p).len() as int)
}

/// Whether `piece` is a hidden component.
fn hidden_piece(piece: &Vec<char>) -> (r: bool)
    ensures
        r == hidden_component(piece@),
{
    if piece.len() == 0 || piece[0] != '.' {
        return false;
    }
    if piece.len() == 1 {
        assert(piece@ =~= seq!['.']);
        return false;
    }
    if piece.len() == 2 && piece[1] == '.' {
        assert(piece@ =~= seq!['.', '.']);
        return false;
    }
    assert(piece@ != seq!['.'] && piece@ != seq!['.', '.']) by {
        if piece@ == seq!['.', '.'] {
            assert(piece@[1] == '.');
        }
    }
    true
}

/// Whether `path` is hidden: whether some component of it starts with '.'
/// (a hidden file or directory, or something inside a hidden directory).
pub fn is_hidden(path: &str) -> (r: bool)
    ensures
        r == hidden(path@),
{
    let chars = crate::text::chars_of(path);
    let mut found = false;
    let mut current: Vec<char> = Vec::new();
    let mut i: usize = 0;
    proof {
        assert(chars@.take(0) =~= Seq::<char>::empty());
    }
    while i < chars.len()
        invariant
            0 <= i <= chars.len(),
            chars@ == path@,
            split_slash(chars@.take(i as int)).len() >= 1,
            current@ == split_slash(chars@.take(i as int)).last(),
            found == hidden_among(
                split_slash(chars@.take(i as int)),
                split_slash(chars@.take(i as int)).len() - 1,
            ),
        decreases chars.len() - i,
    {
        let c = chars[i];
        let ghost p = split_slash(chars@.take(i as int));
        assert(chars@.take(i + 1).drop_last() =~= chars@.take(i as int));
        assert(chars@.take(i + 1).last() == c);
        if c == '/' {
            let h = hidden_piece(&current);
            proof {
                let q = split_slash(chars@.take(i + 1));
                assert(q == p.push(Seq::empty()));
                assert(hidden_among(q, q.len() - 1) == (found || h)) by {
                    if hidden_among(q, q.len() - 1) && !found {
                        let k = choose|k: int| 0 <= k < q.len() - 1 && hidden_component(#[trigger] q[k]);
                        assert(k == p.len() - 1) by {
                            if k < p.len() - 1 {
                                assert(q[k] == p[k]);
                            }
                        }
                    }
                    if found {
                        let k = choose|k: int| 0 <= k < p.len() - 1 && hidden_component(#[trigger] p[k]);
                        assert(q[k] == p[k]);
                    }
                    if h {
                        assert(q[p.len() - 1] == p.last());
                    }
                }
            }
            found = found || h;
            current = Vec::new();
        } else {
            current.push(c);
            proof {
                let q = split_slash(chars@.take(i + 1));
                assert(q == p.update(p.len() - 1, p.last().push(c)));
                assert(hidden_among(q, q.len() - 1) == found) by {
                    if found {
                        let k = choose|k: int| 0 <= k < p.len() - 1 && hidden_component(#[trigger] p[k]);
                        assert(q[k] == p[k]);
                    }
                    if hidden_among(q, q.len() - 1) {
                        let k = choose|k: int| 0 <= k < q.len() - 1 && hidden_component(#[trigger] q[k]);
                        assert(q[k] == p[k]);
                    }
                }
            }
        }
        i = i + 1;
    }
    assert(chars@.take(i as int) =~= chars@);
    let h = hidden_piece(&current);
    proof {
        let p = split_slash(chars@);
        assert(hidden(path@) == (found || h)) by {
            if hidden(path@) && !found {
                let k = choose|k: int| 0 <= k < p.len() && hidden_component(#[trigger] p[k]);
                assert(k == p.len() - 1);
            }
            if found {
                let k = choose|k: int| 0 <= k < p.len() - 1 && hidden_component(#[trigger] p[k]);
                assert(hidden_component(p[k]));
            }
            if h {
                assert(hidden_component(p[p.len() - 1]));
            }
        }
    }
    found || h
}

/// Whether a directory scan can start at `dir`, given whether the path
/// exists and whether it is a directory: an I/O error naming the path when
/// it does not exist or is not a directory.
pub fn check_scan_root(dir: &str, exists: bool, is_dir: bool) -> (r: Result<(), KbError>)
    ensures
        (exists && is_dir) <==> r is Ok,
        !exists ==> (r matches Err(KbError::Io(m)) && m@ == "Directory not found: "@ + dir@),
        exists && !is_dir ==> (r matches Err(KbError::Io(m)) && m@ == "Path is not a directory: "@
            + dir@),
{
    if !exists {
        let mut m = String::from_str("Directory not found: ");
        m.append(dir);
        return Err(KbError::Io(m));
    }
    if !is_dir {
        let mut m = String::from_str("Path is not a directory: ");
        m.append(dir);
        return Err(KbError::Io(m));
    }
    Ok(())
}


// ========== Path order ==========

/// Lexicographic order on sequences, from an order `lt` on their elements.
pub open spec fn lex_lt<A>(a: Seq<A>, b: Seq<A>, lt: spec_fn(A, A) -> bool) -> bool
    decreases a.len(),
{
    if a.len() == 0 {
        b.len() > 0
    } else if b.len() == 0 {
        false
    } else if lt(a[0], b[0]) {
        true
    } else if lt(b[0], a[0]) {
        false
    } else {
        lex_lt(a.drop_first(), b.drop_first(), lt)
    }
}

/// `lt` is a strict total order.
pub open spec fn strict_total<A>(lt: spec_fn(A, A) -> bool) -> bool {
    &&& forall|x: A| !#[trigger] lt(x, x)
    &&& forall|x: A, y: A, z: A| #[trigger] lt(x, y) && #[trigger] lt(y, z) ==> lt(x, z)
    &&& forall|x: A, y: A| x != y ==> #[trigger] lt(x, y) || #[trigger] lt(y, x)
}

/// The lexicographic order of a strict total order is a strict total order.
pub proof fn lemma_lex_strict_total<A>(lt: spec_fn(A, A) -> bool)
    requires
        strict_total(lt),
    ensures
        strict_total(|a: Seq<A>, b: Seq<A>| lex_lt(a, b, lt)),
{
    let l = |a: Seq<A>, b: Seq<A>| lex_lt(a, b, lt);
    assert forall|x: Seq<A>| !#[trigger] l(x, x) by {
        lemma_lex_irreflexive(x, lt);
    }
    assert forall|x: Seq<A>, y: Seq<A>, z: Seq<A>| #[trigger] l(x, y) && #[trigger] l(y, z) implies l(x, z) by {
        lemma_lex_transitive(x, y, z, lt);
    }
    assert forall|x: Seq<A>, y: Seq<A>| x != y implies #[trigger] l(x, y) || #[trigger] l(y, x) by {
        lemma_lex_total(x, y, lt);
    }
}

proof fn lemma_lex_irreflexive<A>(x: Seq<A>, lt: spec_fn(A, A) -> bool)
    requires
        strict_total(lt),
    ensures
        !lex_lt(x, x, lt),
    decreases x.len(),
{
    if x.len() > 0 {
        lemma_lex_irreflexive(x.drop_first(), lt);
    }
}

proof fn lemma_lex_transitive<A>(x: Seq<A>, y: Seq<A>, z: Seq<A>, lt: spec_fn(A, A) -> bool)
    requires
        strict_total(lt),
        lex_lt(x, y, lt),
        lex_lt(y, z, lt),
    ensures
        lex_lt(x, z, lt),
    decreases x.len(),
{
    if x.len() > 0 && y.len() > 0 && z.len() > 0 {
        if !lt(x[0], y[0]) && !lt(y[0], x[0]) && !lt(y[0], z[0]) && !lt(z[0], y[0]) {
            assert(x[0] == y[0]);
            assert(y[0] == z[0]);
            lemma_lex_transitive(x.drop_first(), y.drop_first(), z.drop_first(), lt);
        } else if !lt(x[0], y[0]) && !lt(y[0], x[0]) {
            assert(x[0] == y[0]);
        } else if !lt(y[0], z[0]) && !lt(z[0], y[0]) {
            assert(y[0] == z[0]);
        } else {
            assert(lt(x[0], z[0]));
        }
    }
}

proof fn lemma_lex_total<A>(x: Seq<A>, y: Seq<A>, lt: spec_fn(A, A) -> bool)
    requires
        strict_total(lt),
        x != y,
    ensures
        lex_lt(x, y, lt) || lex_lt(y, x, lt),
    decreases x.len(),
{
    if x.len() > 0 && y.len() > 0 {
        if !lt(x[0], y[0]) && !lt(y[0], x[0]) {
            assert(x[0] == y[0]);
            assert(x.drop_first() != y.drop_first()) by {
                if x.drop_first() == y.drop_first() {
                    assert(x =~= seq![x[0]] + x.drop_first());
                    assert(y =~= seq![y[0]] + y.drop_first());
                }
            }
            lemma_lex_total(x.drop_first(), y.drop_first(), lt);
        }
    } else if x.len() == 0 && y.len() == 0 {
        assert(x =~= y);
    }
}

/// Order of characters by code point.
pub open spec fn char_lt(a: char, b: char) -> bool {
    (a as u32) < (b as u32)
}

/// A path component: its kind (1 root, 2 current directory, 3 parent
/// directory, 4 named) and, for a named one, its name. Kinds are ordered as
/// `std::path::Component`'s variants are.
pub open spec fn component_lt(a: (int, Seq<char>), b: (int, Seq<char>)) -> bool {
    a.0 < b.0 || (a.0 == b.0 && lex_lt(a.1, b.1, char_order()))
}

/// [`char_lt`] as a function value.
pub open spec fn char_order() -> spec_fn(char, char) -> bool {
    |x: char, y: char| char_lt(x, y)
}

/// [`component_lt`] as a function value.
pub open spec fn component_order() -> spec_fn((int, Seq<char>), (int, Seq<char>)) -> bool {
    |x: (int, Seq<char>), y: (int, Seq<char>)| component_lt(x, y)
}

/// The pieces of `s` between '/' characters, empty pieces included.
pub open spec fn split_slash(s: Seq<char>) -> Seq<Seq<char>>
    decreases s.len(),
{
    if s.len() == 0 {
        seq![Seq::empty()]
    } else {
        let p = split_slash(s.drop_last());
        let c = s.last();
        if c == '/' {
            p.push(Seq::empty())
        } else {
            p.update(p.len() - 1, p.last().push(c))
        }
    }
}

/// A piece that is a component: not empty and not ".".
pub open spec fn keeps_piece(piece: Seq<char>) -> bool {
    piece.len() > 0 && piece != seq!['.']
}

/// The component of a kept piece: parent directory for "..", named
/// otherwise.
pub open spec fn component_of(piece: Seq<char>) -> (int, Seq<char>) {
    if piece == seq!['.', '.'] {
        (3, Seq::empty())
    } else {
        (4, piece)
    }
}

/// The leading component: root for an absolute path, current directory for
/// a path that is "." or starts with "./".
pub open spec fn front_component(p: Seq<char>) -> Seq<(int, Seq<char>)> {
    if p.len() > 0 && p[0] == '/' {
        seq![(1, Seq::empty())]
    } else if p.len() > 0 && p[0] == '.' && (p.len() == 1 || p[1] == '/') {
        seq![(2, Seq::empty())]
    } else {
        Seq::empty()
    }
}

/// The components of a Unix path, as `Path::components` yields them.
pub open spec fn path_components(p: Seq<char>) -> Seq<(int, Seq<char>)> {
    front_component(p) + split_slash(p).filter(|x: Seq<char>| keeps_piece(x)).map_values(
        |x: Seq<char>| component_of(x),
    )
}

/// Path order: the lexicographic order of the components (the order of
/// `Path`'s `Ord`).
pub open spec fn path_lt(a: Seq<char>, b: Seq<char>) -> bool {
    lex_lt(path_components(a), path_components(b), component_order())
}


/// Code-point order is a strict total order on characters.
pub proof fn lemma_char_order_total()
    ensures
        strict_total(char_order()),
{
    assert forall|x: char, y: char| x != y implies #[trigger] char_order()(x, y) || #[trigger] char_order()(y, x) by {
        vstd::utf8::char_u32_cast(x, x as u32);
        vstd::utf8::char_u32_cast(y, y as u32);
    }
}

/// Path order is a strict total order on the component sequences.
pub proof fn lemma_path_order_total()
    ensures
        strict_total(
            |a: Seq<(int, Seq<char>)>, b: Seq<(int, Seq<char>)>| lex_lt(a, b, component_order()),
        ),
{
    lemma_char_order_total();
    lemma_lex_strict_total(char_order());
    let l = |a: Seq<char>, b: Seq<char>| lex_lt(a, b, char_order());
    assert(strict_total(component_order())) by {
        assert forall|x: (int, Seq<char>), y: (int, Seq<char>), z: (int, Seq<char>)| #[trigger] component_order()(x, y) && #[trigger] component_order()(y, z) implies component_order()(x, z) by {
            if x.0 == y.0 && y.0 == z.0 {
                assert(l(x.1, y.1) && l(y.1, z.1));
            }
        }
        assert forall|x: (int, Seq<char>), y: (int, Seq<char>)| x != y implies #[trigger] component_order()(x, y) || #[trigger] component_order()(y, x) by {
            if x.0 == y.0 {
                assert(x.1 != y.1);
                assert(l(x.1, y.1) || l(y.1, x.1));
            }
        }
        assert forall|x: (int, Seq<char>)| !#[trigger] component_order()(x, x) by {
            assert(!l(x.1, x.1));
        }
    }
    lemma_lex_strict_total(component_order());
}

// ========== Comparing paths ==========

/// The views of exec components.
pub open spec fn component_views(v: Seq<(u8, Vec<char>)>) -> Seq<(int, Seq<char>)> {
    v.map_values(|c: (u8, Vec<char>)| (c.0 as int, c.1@))
}

/// Lexicographic comparison of two character sequences.
pub(crate) fn chars_less(a: &Vec<char>, b: &Vec<char>) -> (r: bool)
    ensures
        r == lex_lt(a@, b@, char_order()),
{
    let mut i: usize = 0;
    assert(a@.skip(0) =~= a@ && b@.skip(0) =~= b@);
    loop
        invariant
            i <= a.len(),
            i <= b.len(),
            lex_lt(a@, b@, char_order()) == lex_lt(a@.skip(i as int), b@.skip(i as int), char_order()),
        decreases a.len() - i,
    {
        if i == a.len() {
            return i < b.len();
        }
        if i == b.len() {
            return false;
        }
        let x = a[i];
        let y = b[i];
        assert(a@.skip(i as int)[0] == x && b@.skip(i as int)[0] == y);
        if (x as u32) < (y as u32) {
            return true;
        }
        if (y as u32) < (x as u32) {
            return false;
        }
        assert(a@.skip(i as int).drop_first() =~= a@.skip(i + 1));
        assert(b@.skip(i as int).drop_first() =~= b@.skip(i + 1));
        i = i + 1;
    }
}

/// Comparison of two components (see [`component_lt`]).
fn component_less(a: &(u8, Vec<char>), b: &(u8, Vec<char>)) -> (r: bool)
    ensures
        r == component_lt((a.0 as int, a.1@), (b.0 as int, b.1@)),
{
    a.0 < b.0 || (a.0 == b.0 && chars_less(&a.1, &b.1))
}

/// Lexicographic comparison of two component sequences (see [`path_lt`]).
fn components_less(a: &Vec<(u8, Vec<char>)>, b: &Vec<(u8, Vec<char>)>) -> (r: bool)
    ensures
        r == lex_lt(component_views(a@), component_views(b@), component_order()),
{
    let ghost av = component_views(a@);
    let ghost bv = component_views(b@);
    let mut i: usize = 0;
    assert(av.skip(0) =~= av && bv.skip(0) =~= bv);
    loop
        invariant
            i <= a.len(),
            i <= b.len(),
            av == component_views(a@),
            bv == component_views(b@),
            lex_lt(av, bv, component_order()) == lex_lt(av.skip(i as int), bv.skip(i as int), component_order()),
        decreases a.len() - i,
    {
        if i == a.len() {
            return i < b.len();
        }
        if i == b.len() {
            return false;
        }
        assert(av.skip(i as int)[0] == av[i as int] && bv.skip(i as int)[0] == bv[i as int]);
        if component_less(&a[i], &b[i]) {
            return true;
        }
        if component_less(&b[i], &a[i]) {
            return false;
        }
        assert(av.skip(i as int).drop_first() =~= av.skip(i + 1));
        assert(bv.skip(i as int).drop_first() =~= bv.skip(i + 1));
        i = i + 1;
    }
}


proof fn lemma_split_slash_nonempty(s: Seq<char>)
    ensures
        split_slash(s).len() >= 1,
    decreases s.len(),
{
    if s.len() > 0 {
        lemma_split_slash_nonempty(s.drop_last());
    }
}

/// The component of a kept piece (see [`component_of`]).
fn component_from(piece: &Vec<char>) -> (r: (u8, Vec<char>))
    ensures
        (r.0 as int, r.1@) == component_of(piece@),
{
    if piece.len() == 2 && piece[0] == '.' && piece[1] == '.' {
        assert(piece@ =~= seq!['.', '.']);
        (3, Vec::new())
    } else {
        assert(piece@ != seq!['.', '.']) by {
            if piece@ == seq!['.', '.'] {
                assert(piece@[0] == '.' && piece@[1] == '.');
            }
        }
        (4, crate::paths::copy_range(piece, 0, piece.len()))
    }
}

/// Whether a piece is kept (see [`keeps_piece`]).
fn keeps(piece: &Vec<char>) -> (r: bool)
    ensures
        r == keeps_piece(piece@),
{
    if piece.len() == 0 {
        return false;
    }
    if piece.len() == 1 && piece[0] == '.' {
        assert(piece@ =~= seq!['.']);
        return false;
    }
    assert(piece@ != seq!['.']) by {
        if piece@ == seq!['.'] {
            assert(piece@[0] == '.');
        }
    }
    true
}

/// The components of `path` (see [`path_components`]).
fn components_of(path: &str) -> (r: Vec<(u8, Vec<char>)>)
    ensures
        component_views(r@) == path_components(path@),
{
    let chars = crate::text::chars_of(path);
    let ghost kp = |x: Seq<char>| keeps_piece(x);
    let ghost cf = |x: Seq<char>| component_of(x);
    let mut out: Vec<(u8, Vec<char>)> = Vec::new();
    if chars.len() > 0 && chars[0] == '/' {
        out.push((1, Vec::new()));
    } else if chars.len() > 0 && chars[0] == '.' && (chars.len() == 1 || chars[1] == '/') {
        out.push((2, Vec::new()));
    }
    let ghost front = component_views(out@);
    assert(front =~= front_component(path@));
    let mut current: Vec<char> = Vec::new();
    let mut i: usize = 0;
    proof {
        lemma_split_slash_nonempty(chars@.take(0));
        assert(chars@.take(0) =~= Seq::<char>::empty());
        assert(split_slash(chars@.take(0)).drop_last().filter(kp).map_values(cf) =~= Seq::<(int, Seq<char>)>::empty()) by {
            reveal(Seq::filter);
        }
        assert(component_views(out@) =~= front + Seq::<(int, Seq<char>)>::empty());
    }
    while i < chars.len()
        invariant
            0 <= i <= chars.len(),
            chars@ == path@,
            kp == (|x: Seq<char>| keeps_piece(x)),
            cf == (|x: Seq<char>| component_of(x)),
            split_slash(chars@.take(i as int)).len() >= 1,
            component_views(out@) == front + split_slash(chars@.take(i as int)).drop_last().filter(kp).map_values(cf),
            current@ == split_slash(chars@.take(i as int)).last(),
        decreases chars.len() - i,
    {
        let ch = chars[i];
        let ghost p = split_slash(chars@.take(i as int));
        assert(chars@.take(i + 1).drop_last() =~= chars@.take(i as int));
        if ch == '/' {
            let ghost before = out@;
            if keeps(&current) {
                let c = component_from(&current);
                out.push(c);
                assert(component_views(out@) =~= component_views(before).push(component_of(current@)));
            }
            current = Vec::new();
            proof {
                let p2 = split_slash(chars@.take(i + 1));
                assert(p2.drop_last() =~= p);
                assert(p =~= p.drop_last().push(p.last()));
                p.drop_last().lemma_filter_push(p.last(), kp);
                let fd = p.drop_last().filter(kp);
                if keeps_piece(p.last()) {
                    assert(fd.push(p.last()).map_values(cf) =~= fd.map_values(cf).push(component_of(p.last())));
                }
            }
        } else {
            current.push(ch);
            proof {
                let p2 = split_slash(chars@.take(i + 1));
                assert(p2.drop_last() =~= p.drop_last());
            }
        }
        i = i + 1;
    }
    assert(chars@.take(i as int) =~= chars@);
    let ghost p = split_slash(chars@);
    let ghost before = out@;
    if keeps(&current) {
        let c = component_from(&current);
        out.push(c);
        assert(component_views(out@) =~= component_views(before).push(component_of(current@)));
    }
    proof {
        assert(p =~= p.drop_last().push(p.last()));
        p.drop_last().lemma_filter_push(p.last(), kp);
        let fd = p.drop_last().filter(kp);
        if keeps_piece(p.last()) {
            assert(fd.push(p.last()).map_values(cf) =~= fd.map_values(cf).push(component_of(p.last())));
        }
    }
    out
}


// ========== Selecting and ordering scanned files ==========

impl View for ScannedFile {
    type V = (Seq<char>, FileType);

    open spec fn view(&self) -> (Seq<char>, FileType) {
        (self.path@, self.file_type)
    }
}

/// The views of a sequence of scanned files.
pub open spec fn scanned_views(v: Seq<ScannedFile>) -> Seq<(Seq<char>, FileType)> {
    v.map_values(|f: ScannedFile| f@)
}

/// `s` with `x` inserted after every element whose path does not come after
/// `x`'s (a stable insertion).
pub open spec fn insert_by_path(s: Seq<(Seq<char>, FileType)>, x: (Seq<char>, FileType)) -> Seq<
    (Seq<char>, FileType),
>
    decreases s.len(),
{
    if s.len() == 0 {
        seq![x]
    } else if path_lt(x.0, s.last().0) {
        insert_by_path(s.drop_last(), x).push(s.last())
    } else {
        s.push(x)
    }
}

/// `s` sorted by path order, stably (files with equal paths keep their
/// order), as `sort_by` with `Path::cmp` sorts.
pub open spec fn sort_by_path(s: Seq<(Seq<char>, FileType)>) -> Seq<(Seq<char>, FileType)>
    decreases s.len(),
{
    if s.len() == 0 {
        s
    } else {
        insert_by_path(sort_by_path(s.drop_last()), s.last())
    }
}

/// A walk entry is kept when it is a file of a supported type.
pub open spec fn keeps_entry(e: (Seq<char>, bool)) -> bool {
    e.1 && detected_type(e.0) is Some
}

/// The scanned files of the walk entries: the files of a supported type,
/// with their type, sorted by path.
pub open spec fn scanned_files(entries: Seq<(Seq<char>, bool)>) -> Seq<(Seq<char>, FileType)> {
    sort_by_path(
        entries.filter(|e: (Seq<char>, bool)| keeps_entry(e)).map_values(
            |e: (Seq<char>, bool)| (e.0, detected_type(e.0)->0),
        ),
    )
}

/// The views of walk entries (path, whether it is a file).
pub open spec fn entry_views(v: Seq<(String, bool)>) -> Seq<(Seq<char>, bool)> {
    v.map_values(|e: (String, bool)| (e.0@, e.1))
}

/// Moving `x` past an element whose path comes after its own.
proof fn lemma_insert_step(s: Seq<(Seq<char>, FileType)>, x: (Seq<char>, FileType), k: int)
    requires
        0 < k <= s.len(),
        path_lt(x.0, s[k - 1].0),
    ensures
        insert_by_path(s.take(k), x) + s.skip(k) == insert_by_path(s.take(k - 1), x) + s.skip(k - 1),
{
    assert(s.take(k).drop_last() =~= s.take(k - 1));
    assert(s.take(k).last() == s[k - 1]);
    let a = insert_by_path(s.take(k - 1), x);
    assert(a.push(s[k - 1]) + s.skip(k) =~= a + s.skip(k - 1));
}

/// The files of the walk `entries` (path, whether it is a regular file)
/// that have a supported type, with their type, sorted by path (see
/// [`scanned_files`]).
pub fn select_scanned_files(entries: &Vec<(String, bool)>) -> (r: Vec<ScannedFile>)
    ensures
        scanned_views(r@) == scanned_files(entry_views(entries@)),
{
    let ghost ev = entry_views(entries@);
    let ghost keep = |e: (Seq<char>, bool)| keeps_entry(e);
    let ghost conv = |e: (Seq<char>, bool)| (e.0, detected_type(e.0)->0);
    let mut files: Vec<ScannedFile> = Vec::new();
    let mut keys: Vec<Vec<(u8, Vec<char>)>> = Vec::new();
    let mut i: usize = 0;
    proof {
        assert(ev.take(0).filter(keep) =~= Seq::<(Seq<char>, bool)>::empty()) by {
            reveal(Seq::filter);
        }
        assert(ev.take(0).filter(keep).map_values(conv) =~= Seq::<(Seq<char>, FileType)>::empty());
    }
    while i < entries.len()
        invariant
            0 <= i <= entries.len(),
            ev == entry_views(entries@),
            keep == (|e: (Seq<char>, bool)| keeps_entry(e)),
            conv == (|e: (Seq<char>, bool)| (e.0, detected_type(e.0)->0)),
            keys@.len() == files@.len(),
            forall|j: int| 0 <= j < keys@.len() ==> component_views(#[trigger] keys@[j]@) == path_components(files@[j].path@),
            scanned_views(files@) == sort_by_path(ev.take(i as int).filter(keep).map_values(conv)),
        decreases entries.len() - i,
    {
        let ghost e = ev[i as int];
        assert(ev.take(i + 1) =~= ev.take(i as int).push(e));
        proof {
            ev.take(i as int).lemma_filter_push(e, keep);
        }
        let path = &entries[i].0;
        if entries[i].1 {
            match detect_file_type(path.as_str()) {
                Some(file_type) => {
                    let key = components_of(path.as_str());
                    let ghost x = (path@, file_type);
                    let ghost s = scanned_views(files@);
                    let mut k = files.len();
                    assert(s.take(k as int) =~= s && s.skip(k as int) =~= Seq::<(Seq<char>, FileType)>::empty());
                    while k > 0 && components_less(&key, &keys[k - 1])
                        invariant
                            0 <= k <= files@.len(),
                            keys@.len() == files@.len(),
                            s == scanned_views(files@),
                            forall|j: int| 0 <= j < keys@.len() ==> component_views(#[trigger] keys@[j]@) == path_components(files@[j].path@),
                            component_views(key@) == path_components(x.0),
                            insert_by_path(s, x) == insert_by_path(s.take(k as int), x) + s.skip(k as int),
                        decreases k,
                    {
                        proof {
                            assert(component_views(keys@[k - 1]@) == path_components(s[k - 1].0));
                            lemma_insert_step(s, x, k as int);
                        }
                        k = k - 1;
                    }
                    proof {
                        if k > 0 {
                            assert(component_views(keys@[k - 1]@) == path_components(s[k - 1].0));
                            assert(s.take(k as int).drop_last() =~= s.take(k - 1));
                            assert(s.take(k as int).last() == s[k - 1]);
                            assert(insert_by_path(s.take(k as int), x) == s.take(k as int).push(x));
                        }
                        assert(insert_by_path(s, x) =~= s.insert(k as int, x)) by {
                            if k == 0 {
                                assert(s.take(0) =~= Seq::<(Seq<char>, FileType)>::empty());
                            }
                        }
                    }
                    let ghost old_files = files@;
                    let ghost old_keys = keys@;
                    let f = ScannedFile { path: path.clone(), file_type };
                    files.insert(k, f);
                    keys.insert(k, key);
                    proof {
                        assert(scanned_views(files@) =~= s.insert(k as int, x));
                        assert forall|j: int| 0 <= j < keys@.len() implies component_views(#[trigger] keys@[j]@) == path_components(files@[j].path@) by {
                            if j < k {
                                assert(keys@[j] == old_keys[j] && files@[j] == old_files[j]);
                            } else if j > k {
                                assert(keys@[j] == old_keys[j - 1] && files@[j] == old_files[j - 1]);
                            }
                        }
                        let fl = ev.take(i as int).filter(keep);
                        assert(fl.push(e).map_values(conv) =~= fl.map_values(conv).push(x));
                        assert(fl.push(e).map_values(conv).drop_last() =~= fl.map_values(conv));
                    }
                },
                None => {},
            }
        }
        i = i + 1;
    }
    assert(ev.take(i as int) =~= ev);
    files
}


// ========== Laws of the file order ==========

/// No file's path comes before the path of a file listed earlier.
pub open spec fn sorted_by_path(s: Seq<(Seq<char>, FileType)>) -> bool {
    forall|i: int, j: int| 0 <= i < j < s.len() ==> !path_lt(#[trigger] s[j].0, #[trigger] s[i].0)
}

/// Stable insertion adds `x` to the elements of `s` and keeps `s` sorted.
proof fn lemma_insert_by_path(s: Seq<(Seq<char>, FileType)>, x: (Seq<char>, FileType))
    requires
        sorted_by_path(s),
    ensures
        insert_by_path(s, x).to_multiset() == s.to_multiset().insert(x),
        sorted_by_path(insert_by_path(s, x)),
    decreases s.len(),
{
    broadcast use vstd::seq_lib::to_multiset_build;
    lemma_path_order_total();
    let l = |a: Seq<(int, Seq<char>)>, b: Seq<(int, Seq<char>)>| lex_lt(a, b, component_order());
    let r = insert_by_path(s, x);
    if s.len() == 0 {
        assert(r =~= seq![x]);
        assert(s.push(x) =~= seq![x]);
    } else if path_lt(x.0, s.last().0) {
        let d = s.drop_last();
        let last = s.last();
        assert(sorted_by_path(d)) by {
            assert forall|i: int, j: int| 0 <= i < j < d.len() implies !path_lt(#[trigger] d[j].0, #[trigger] d[i].0) by {
                assert(d[i] == s[i] && d[j] == s[j]);
            }
        }
        lemma_insert_by_path(d, x);
        let m = insert_by_path(d, x);
        assert(s =~= d.push(last));
        assert forall|i: int| 0 <= i < m.len() implies !path_lt(last.0, #[trigger] m[i].0) by {
            assert(m.to_multiset().count(m[i]) > 0) by {
                vstd::seq_lib::to_multiset_contains(m, m[i]);
                assert(m.contains(m[i]));
            }
            if m[i] == x {
                assert(l(path_components(x.0), path_components(last.0)));
                assert(!l(path_components(last.0), path_components(x.0))) by {
                    if l(path_components(last.0), path_components(x.0)) {
                        assert(l(path_components(x.0), path_components(x.0)));
                    }
                }
            } else {
                assert(d.to_multiset().count(m[i]) > 0);
                vstd::seq_lib::to_multiset_contains(d, m[i]);
                let k = d.index_of(m[i]);
                assert(s[k] == m[i]);
                assert(!path_lt(s[s.len() - 1].0, s[k].0));
            }
        }
        assert forall|i: int, j: int| 0 <= i < j < r.len() implies !path_lt(#[trigger] r[j].0, #[trigger] r[i].0) by {
            if j < m.len() {
                assert(r[i] == m[i] && r[j] == m[j]);
            } else {
                assert(r[j] == last && r[i] == m[i]);
            }
        }
    } else {
        assert(r == s.push(x));
        let last = s.last();
        assert forall|i: int, j: int| 0 <= i < j < r.len() implies !path_lt(#[trigger] r[j].0, #[trigger] r[i].0) by {
            if j < s.len() {
                assert(r[i] == s[i] && r[j] == s[j]);
            } else {
                assert(r[j] == x && r[i] == s[i]);
                let cx = path_components(x.0);
                let ci = path_components(s[i].0);
                let cl = path_components(last.0);
                if l(cx, ci) {
                    if i < s.len() - 1 {
                        assert(!path_lt(s[s.len() - 1].0, s[i].0));
                    }
                    if cl != cx {
                        assert(!path_lt(x.0, last.0));
                        assert(!l(cx, cl));
                        assert(l(cx, cl) || l(cl, cx));
                        assert(l(cl, cx));
                        assert(l(cl, ci));
                    }
                }
            }
        }
    }
}

/// Sorting by path keeps the elements and sorts them.
pub proof fn lemma_sort_by_path(s: Seq<(Seq<char>, FileType)>)
    ensures
        sort_by_path(s).to_multiset() == s.to_multiset(),
        sorted_by_path(sort_by_path(s)),
    decreases s.len(),
{
    broadcast use vstd::seq_lib::to_multiset_build;
    if s.len() > 0 {
        lemma_sort_by_path(s.drop_last());
        lemma_insert_by_path(sort_by_path(s.drop_last()), s.last());
        assert(s =~= s.drop_last().push(s.last()));
    }
}

/// The scanned files are the supported files among the entries, each with
/// its type, in path order.
pub proof fn lemma_scanned_files(entries: Seq<(Seq<char>, bool)>)
    ensures
        scanned_files(entries).to_multiset() == entries.filter(|e: (Seq<char>, bool)| keeps_entry(e)).map_values(
            |e: (Seq<char>, bool)| (e.0, detected_type(e.0)->0),
        ).to_multiset(),
        sorted_by_path(scanned_files(entries)),
{
    lemma_sort_by_path(
        entries.filter(|e: (Seq<char>, bool)| keeps_entry(e)).map_values(
            |e: (Seq<char>, bool)| (e.0, detected_type(e.0)->0),
        ),
    );
}


/// The scan keeps exactly the regular files of a supported type: each walk
/// entry that is a regular file and whose path has a detected type appears
/// in the result with that type (Markdown, plain text, PDF and DOCX alike),
/// and each file of the result is such an entry.
pub proof fn lemma_scanned_files_exact(entries: Seq<(Seq<char>, bool)>)
    ensures
        forall|k: int|
            0 <= k < entries.len() && (#[trigger] entries[k]).1 ==> match detected_type(entries[k].0) {
                Some(t) => scanned_files(entries).contains((entries[k].0, t)),
                None => true,
            },
        forall|x: (Seq<char>, FileType)|
            #[trigger] scanned_files(entries).contains(x) ==> detected_type(x.0) == Some(x.1) && entries.contains(
                (x.0, true),
            ),
{
    broadcast use vstd::seq_lib::group_to_multiset_ensures;
    let keep = |e: (Seq<char>, bool)| keeps_entry(e);
    let conv = |e: (Seq<char>, bool)| (e.0, detected_type(e.0)->0);
    let kept = entries.filter(keep);
    let picked = kept.map_values(conv);
    lemma_scanned_files(entries);
    assert forall|k: int|
        0 <= k < entries.len() && (#[trigger] entries[k]).1 && detected_type(entries[k].0) is Some
            implies scanned_files(entries).contains((entries[k].0, detected_type(entries[k].0)->0)) by {
        let t = detected_type(entries[k].0)->0;
        assert(keep(entries[k]));
        entries.lemma_filter_contains(keep, k);
        let j = choose|j: int| 0 <= j < kept.len() && kept[j] == entries[k];
        assert(picked[j] == (entries[k].0, t));
        assert(picked.contains((entries[k].0, t)));
        assert(picked.to_multiset().count((entries[k].0, t)) > 0);
    }
    assert forall|x: (Seq<char>, FileType)| #[trigger] scanned_files(entries).contains(x) implies detected_type(x.0)
        == Some(x.1) && entries.contains((x.0, true)) by {
        assert(scanned_files(entries).to_multiset().count(x) > 0);
        assert(picked.contains(x));
        let j = choose|j: int| 0 <= j < picked.len() && picked[j] == x;
        assert(kept.contains(kept[j]));
        entries.lemma_filter_contains_rev(keep, kept[j]);
        entries.lemma_filter_pred(keep, j);
        assert(keeps_entry(kept[j]));
    }
}

} // verus!
