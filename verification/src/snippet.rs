//! Snippet extraction: the text around the first query match, with line
//! breaks and runs of white space folded into single spaces, never cut
//! inside a word; and highlighting of query tokens.
use vstd::prelude::*;
use vstd::utf8::*;
use crate::text::{
    ascii_lower_char, chars_of, is_whitespace, lowercase_of, string_of, to_lowercase, views,
    whitespace,
};
use crate::paths::copy_range;
use crate::tokenizer::{cjk_code, is_cjk_code};

verus! {

// ========== Line normalisation ==========

/// The lines of `s`: the pieces between '\n' and '\r' characters, empty
/// pieces included (as `str::split` with those two characters yields them).
pub open spec fn split_lines(s: Seq<char>) -> Seq<Seq<char>>
    decreases s.len(),
{
    if s.len() == 0 {
        seq![Seq::empty()]
    } else {
        let p = split_lines(s.drop_last());
        let c = s.last();
        if c == '\n' || c == '\r' {
            p.push(Seq::empty())
        } else {
            p.update(p.len() - 1, p.last().push(c))
        }
    }
}

/// `s` without its leading white space.
pub open spec fn trim_start(s: Seq<char>) -> Seq<char>
    decreases s.len(),
{
    if s.len() > 0 && whitespace(s[0]) {
        trim_start(s.drop_first())
    } else {
        s
    }
}

/// `s` without its trailing white space.
pub open spec fn trim_end(s: Seq<char>) -> Seq<char>
    decreases s.len(),
{
    if s.len() > 0 && whitespace(s.last()) {
        trim_end(s.drop_last())
    } else {
        s
    }
}

/// `s` without leading and trailing white space (`str::trim`).
pub open spec fn trim(s: Seq<char>) -> Seq<char> {
    trim_end(trim_start(s))
}

/// The parts joined with single spaces between them.
pub open spec fn join_space(parts: Seq<Seq<char>>) -> Seq<char>
    decreases parts.len(),
{
    if parts.len() == 0 {
        Seq::empty()
    } else if parts.len() == 1 {
        parts[0]
    } else {
        join_space(parts.drop_last()) + seq![' '] + parts.last()
    }
}

/// The kept lines: trimmed, and non-empty after trimming.
pub open spec fn kept_lines(s: Seq<char>) -> Seq<Seq<char>> {
    split_lines(s).map_values(|l: Seq<char>| trim(l)).filter(|l: Seq<char>| l.len() > 0)
}

/// `s` with every run of white space replaced by a single space.
pub open spec fn collapse_spaces(s: Seq<char>) -> Seq<char>
    decreases s.len(),
{
    if s.len() == 0 {
        Seq::empty()
    } else {
        let p = collapse_spaces(s.drop_last());
        if whitespace(s.last()) {
            if p.len() > 0 && p.last() == ' ' {
                p
            } else {
                p.push(' ')
            }
        } else {
            p.push(s.last())
        }
    }
}

/// `s` with its lines trimmed, empty lines dropped, the rest joined by
/// single spaces, and every run of white space compressed to one space.
pub open spec fn normalize_lines(s: Seq<char>) -> Seq<char> {
    collapse_spaces(join_space(kept_lines(s)))
}

proof fn lemma_split_lines_nonempty(s: Seq<char>)
    ensures
        split_lines(s).len() >= 1,
    decreases s.len(),
{
    if s.len() > 0 {
        lemma_split_lines_nonempty(s.drop_last());
    }
}

proof fn lemma_trim_start_suffix(s: Seq<char>, a: int)
    requires
        0 <= a <= s.len(),
        forall|j: int| 0 <= j < a ==> whitespace(#[trigger] s[j]),
    ensures
        trim_start(s) == trim_start(s.subrange(a, s.len() as int)),
    decreases a,
{
    if a > 0 {
        assert(s.drop_first().subrange(a - 1, s.drop_first().len() as int) =~= s.subrange(
            a,
            s.len() as int,
        ));
        lemma_trim_start_suffix(s.drop_first(), a - 1);
    } else {
        assert(s.subrange(0, s.len() as int) =~= s);
    }
}

proof fn lemma_trim_end_prefix(s: Seq<char>, b: int)
    requires
        0 <= b <= s.len(),
        forall|j: int| b <= j < s.len() ==> whitespace(#[trigger] s[j]),
    ensures
        trim_end(s) == trim_end(s.subrange(0, b)),
    decreases s.len() - b,
{
    if b < s.len() {
        assert(s.drop_last().subrange(0, b) =~= s.subrange(0, b));
        lemma_trim_end_prefix(s.drop_last(), b);
    } else {
        assert(s.subrange(0, b) =~= s);
    }
}

/// `s` without leading and trailing white space (see [`trim`]).
pub fn trim_chars(s: &Vec<char>) -> (r: Vec<char>)
    ensures
        r@ == trim(s@),
{
    let mut a: usize = 0;
    while a < s.len() && is_whitespace(s[a])
        invariant
            0 <= a <= s.len(),
            forall|j: int| 0 <= j < a ==> whitespace(#[trigger] s@[j]),
        decreases s.len() - a,
    {
        a = a + 1;
    }
    proof {
        lemma_trim_start_suffix(s@, a as int);
    }
    let ghost rest = s@.subrange(a as int, s@.len() as int);
    assert(trim_start(rest) == rest);
    let mut b: usize = s.len();
    while b > a && is_whitespace(s[b - 1])
        invariant
            a <= b <= s.len(),
            forall|j: int| b <= j < s.len() ==> whitespace(#[trigger] s@[j]),
        decreases b,
    {
        b = b - 1;
    }
    proof {
        let bb = b - a;
        assert forall|j: int| bb <= j < rest.len() implies whitespace(#[trigger] rest[j]) by {
            assert(rest[j] == s@[j + a]);
        }
        lemma_trim_end_prefix(rest, bb);
        assert(rest.subrange(0, bb) =~= s@.subrange(a as int, b as int));
        let t = s@.subrange(a as int, b as int);
        if t.len() > 0 {
            assert(!whitespace(t.last()));
        }
    }
    copy_range(s, a, b)
}


/// Appends the kept line `t` (non-empty) to the joined text `out`.
fn push_line(out: &mut Vec<char>, t: &Vec<char>)
    ensures
        final(out)@ == if old(out)@.len() == 0 {
            t@
        } else {
            old(out)@ + seq![' '] + t@
        },
{
    let ghost before = out@;
    if out.len() > 0 {
        out.push(' ');
    }
    let mut i: usize = 0;
    let ghost mid = out@;
    while i < t.len()
        invariant
            0 <= i <= t.len(),
            out@ == mid + t@.take(i as int),
        decreases t.len() - i,
    {
        out.push(t[i]);
        i = i + 1;
        assert(out@ =~= mid + t@.take(i as int));
    }
    proof {
        assert(t@.take(i as int) =~= t@);
        if before.len() == 0 {
            assert(out@ =~= t@);
        } else {
            assert(out@ =~= before + seq![' '] + t@);
        }
    }
}

/// `s` with every run of white space replaced by a single space (see
/// [`collapse_spaces`]).
fn collapse(s: &Vec<char>) -> (r: Vec<char>)
    ensures
        r@ == collapse_spaces(s@),
{
    let mut out: Vec<char> = Vec::new();
    let mut i: usize = 0;
    while i < s.len()
        invariant
            0 <= i <= s.len(),
            out@ == collapse_spaces(s@.take(i as int)),
        decreases s.len() - i,
    {
        assert(s@.take(i + 1).drop_last() =~= s@.take(i as int));
        let c = s[i];
        if is_whitespace(c) {
            if !(out.len() > 0 && out[out.len() - 1] == ' ') {
                out.push(' ');
            }
        } else {
            out.push(c);
        }
        i = i + 1;
    }
    assert(s@.take(i as int) =~= s@);
    out
}

/// `content` with its lines trimmed, empty lines dropped, the rest joined
/// by single spaces and runs of white space compressed (see
/// [`normalize_lines`]).
pub fn normalize(content: &str) -> (r: Vec<char>)
    ensures
        r@ == normalize_lines(content@),
{
    let joined = join_lines(content);
    collapse(&joined)
}

/// `content` with its lines trimmed, empty lines dropped and the rest joined
/// by single spaces.
fn join_lines(content: &str) -> (r: Vec<char>)
    ensures
        r@ == join_space(kept_lines(content@)),
{
    let chars = crate::text::chars_of(content);
    let ghost tr = |l: Seq<char>| trim(l);
    let ghost ne = |l: Seq<char>| l.len() > 0;
    let mut out: Vec<char> = Vec::new();
    let mut current: Vec<char> = Vec::new();
    let mut i: usize = 0;
    proof {
        lemma_split_lines_nonempty(chars@.take(0));
        assert(chars@.take(0) =~= Seq::<char>::empty());
        assert(split_lines(chars@.take(0)).drop_last().map_values(tr).filter(ne) =~= Seq::<
            Seq<char>,
        >::empty()) by {
            reveal(Seq::filter);
        }
    }
    while i < chars.len()
        invariant
            0 <= i <= chars.len(),
            chars@ == content@,
            tr == (|l: Seq<char>| trim(l)),
            ne == (|l: Seq<char>| l.len() > 0),
            split_lines(chars@.take(i as int)).len() >= 1,
            out@ == join_space(split_lines(chars@.take(i as int)).drop_last().map_values(tr).filter(ne)),
            out@.len() == 0 <==> split_lines(chars@.take(i as int)).drop_last().map_values(tr).filter(ne).len() == 0,
            current@ == split_lines(chars@.take(i as int)).last(),
        decreases chars.len() - i,
    {
        let ch = chars[i];
        let ghost p = split_lines(chars@.take(i as int));
        let ghost k = p.drop_last().map_values(tr).filter(ne);
        assert(chars@.take(i + 1).drop_last() =~= chars@.take(i as int));
        if ch == '\n' || ch == '\r' {
            let t = trim_chars(&current);
            proof {
                let p2 = split_lines(chars@.take(i + 1));
                assert(p2.drop_last() =~= p);
                assert(p =~= p.drop_last().push(p.last()));
                assert(p.map_values(tr) =~= p.drop_last().map_values(tr).push(trim(p.last())));
                p.drop_last().map_values(tr).lemma_filter_push(trim(p.last()), ne);
            }
            if t.len() > 0 {
                push_line(&mut out, &t);
                proof {
                    let k2 = k.push(t@);
                    assert(k2.drop_last() =~= k);
                    if k.len() == 0 {
                        assert(join_space(k2) == k2[0]);
                    }
                }
            }
            current = Vec::new();
        } else {
            current.push(ch);
            proof {
                let p2 = split_lines(chars@.take(i + 1));
                assert(p2.drop_last() =~= p.drop_last());
            }
        }
        i = i + 1;
    }
    assert(chars@.take(i as int) =~= chars@);
    let ghost p = split_lines(chars@);
    let ghost k = p.drop_last().map_values(tr).filter(ne);
    let t = trim_chars(&current);
    proof {
        assert(p =~= p.drop_last().push(p.last()));
        assert(p.map_values(tr) =~= p.drop_last().map_values(tr).push(trim(p.last())));
        p.drop_last().map_values(tr).lemma_filter_push(trim(p.last()), ne);
    }
    if t.len() > 0 {
        push_line(&mut out, &t);
        proof {
            let k2 = k.push(t@);
            assert(k2.drop_last() =~= k);
            if k.len() == 0 {
                assert(join_space(k2) == k2[0]);
            }
        }
    }
    out
}


// ========== Finding the first match ==========

/// `n` occurs in `h` at byte position `p`.
pub open spec fn occurs_at(h: Seq<u8>, n: Seq<u8>, p: int) -> bool {
    0 <= p && p + n.len() <= h.len() && h.subrange(p, p + n.len()) == n
}

/// The first byte position at which `n` occurs in `h` (`str::find`).
#[verifier::opaque]
pub open spec fn first_occurrence(h: Seq<u8>, n: Seq<u8>) -> Option<int> {
    if exists|p: int| occurs_at(h, n, p) {
        Some(choose|p: int| occurs_at(h, n, p) && forall|q: int| 0 <= q < p ==> !occurs_at(h, n, q))
    } else {
        None
    }
}

/// The UTF-8 encodings of a sequence of strings.
pub open spec fn encodings(ts: Seq<Seq<char>>) -> Seq<Seq<u8>> {
    ts.map_values(|t: Seq<char>| encode_utf8(t))
}

/// The position of the first match in `lower` of the first query token that
/// matches at all, or 0 when none does.
pub open spec fn best_position(lower: Seq<u8>, toks: Seq<Seq<u8>>) -> int
    decreases toks.len(),
{
    if toks.len() == 0 {
        0
    } else {
        match first_occurrence(lower, toks[0]) {
            Some(p) => p,
            None => best_position(lower, toks.drop_first()),
        }
    }
}

/// The byte length of the query token whose match [`best_position`] finds
/// (the first token that matches at all), or 0 when none does.
pub open spec fn best_length(lower: Seq<u8>, toks: Seq<Seq<u8>>) -> int
    decreases toks.len(),
{
    if toks.len() == 0 {
        0
    } else {
        match first_occurrence(lower, toks[0]) {
            Some(p) => toks[0].len() as int,
            None => best_length(lower, toks.drop_first()),
        }
    }
}

/// Whether `n` occurs in `h` at `p`.
fn matches_at(h: &[u8], n: &[u8], p: usize) -> (r: bool)
    requires
        p + n.len() <= h.len(),
    ensures
        r == occurs_at(h@, n@, p as int),
{
    let mut j: usize = 0;
    while j < n.len()
        invariant
            0 <= j <= n.len(),
            p + n.len() <= h.len(),
            forall|k: int| 0 <= k < j ==> h@[p + k] == n@[k],
        decreases n@.len() - j,
    {
        if h[p + j] != n[j] {
            assert(h@.subrange(p as int, p + n@.len())[j as int] != n@[j as int]);
            return false;
        }
        j = j + 1;
    }
    assert(h@.subrange(p as int, p + n@.len()) =~= n@);
    true
}

/// A first match found by scanning is the first occurrence.
proof fn lemma_first_occurrence_is(h: Seq<u8>, n: Seq<u8>, p: int)
    requires
        occurs_at(h, n, p),
        forall|q: int| 0 <= q < p ==> !occurs_at(h, n, q),
    ensures
        first_occurrence(h, n) == Some(p),
{
    reveal(first_occurrence);
    let c = choose|x: int| occurs_at(h, n, x) && forall|q: int| 0 <= q < x ==> !occurs_at(h, n, q);
    assert(occurs_at(h, n, c));
    if c < p {
        assert(!occurs_at(h, n, c));
    }
    if p < c {
        assert(!occurs_at(h, n, p));
    }
}

/// When no position up to `last` matches, `n` does not occur in `h`.
proof fn lemma_no_occurrence(h: Seq<u8>, n: Seq<u8>, last: int)
    requires
        last + n.len() >= h.len(),
        forall|q: int| 0 <= q <= last ==> !occurs_at(h, n, q),
    ensures
        first_occurrence(h, n) is None,
{
    reveal(first_occurrence);
    assert forall|p: int| !occurs_at(h, n, p) by {
        if 0 <= p <= last {
        }
    }
}

/// The first position at which `n` occurs in `h` (see [`first_occurrence`]).
fn find_bytes(h: &[u8], n: &[u8]) -> (r: Option<usize>)
    ensures
        match r {
            Some(p) => first_occurrence(h@, n@) == Some(p as int) && p + n@.len() <= h@.len(),
            None => first_occurrence(h@, n@) is None,
        },
{
    if n.len() > h.len() {
        proof {
            lemma_no_occurrence(h@, n@, -1);
        }
        return None;
    }
    let last = h.len() - n.len();
    let mut p: usize = 0;
    while p <= last
        invariant
            last + n@.len() == h@.len(),
            forall|q: int| 0 <= q < p ==> !occurs_at(h@, n@, q),
        ensures
            forall|q: int| 0 <= q <= last ==> !occurs_at(h@, n@, q),
        decreases last + 1 - p,
    {
        if matches_at(h, n, p) {
            proof {
                lemma_first_occurrence_is(h@, n@, p as int);
            }
            return Some(p);
        }
        if p == last {
            break;
        }
        p = p + 1;
    }
    proof {
        lemma_no_occurrence(h@, n@, last as int);
    }
    None
}

/// The position of the first match of the first matching token (see
/// [`best_position`]).
fn best_match_position(lower: &[u8], tokens: &Vec<String>) -> (r: (usize, usize))
    ensures
        r.0 == best_position(lower@, encodings(crate::text::views(tokens@))),
        r.1 == best_length(lower@, encodings(crate::text::views(tokens@))),
        r.0 + r.1 <= lower@.len(),
{
    let ghost all = encodings(crate::text::views(tokens@));
    assert(all.skip(0) =~= all);
    let mut i: usize = 0;
    while i < tokens.len()
        invariant
            0 <= i <= tokens.len(),
            all == encodings(crate::text::views(tokens@)),
            best_position(lower@, all) == best_position(lower@, all.skip(i as int)),
            best_length(lower@, all) == best_length(lower@, all.skip(i as int)),
        decreases tokens.len() - i,
    {
        let t = tokens[i].as_str().as_bytes();
        let ghost rest = all.skip(i as int);
        assert(rest[0] == t@);
        assert(rest.drop_first() =~= all.skip(i + 1));
        match find_bytes(lower, t) {
            Some(p) => {
                return (p, t.len());
            },
            None => {},
        }
        i = i + 1;
    }
    assert(all.skip(i as int) =~= Seq::<Seq<u8>>::empty());
    (0, 0)
}


// ========== The window around the match ==========

/// Bytes of context kept before the match.
pub const CONTEXT_BEFORE: usize = 50;

/// Bytes of context kept after the start of the match.
pub const CONTEXT_AFTER: usize = 100;

/// The first position at or after `s` that is a character boundary (or `s`
/// itself when it is not below the end).
pub open spec fn advance_boundary(b: Seq<u8>, s: int) -> int
    decreases b.len() - s,
{
    if s < b.len() && !is_char_boundary(b, s) {
        advance_boundary(b, s + 1)
    } else {
        s
    }
}

/// The last position at or before `e` that is a character boundary.
pub open spec fn retreat_boundary(b: Seq<u8>, e: int) -> int
    decreases e,
{
    if e > 0 && !is_char_boundary(b, e) {
        retreat_boundary(b, e - 1)
    } else {
        e
    }
}

/// The character whose UTF-8 encoding starts at byte `p` of `b` is a CJK
/// character (see [`cjk_code`]); CJK characters take three or four bytes.
pub open spec fn cjk_starts_at(b: Seq<u8>, p: int) -> bool {
    ||| (0 <= p && p + 3 <= b.len() && is_leading_byte_width_3(b[p]) && cjk_code(
        codepoint_width_3(b[p], b[p + 1], b[p + 2]),
    ))
    ||| (0 <= p && p + 4 <= b.len() && is_leading_byte_width_4(b[p]) && cjk_code(
        codepoint_width_4(b[p], b[p + 1], b[p + 2], b[p + 3]),
    ))
}

/// The character whose UTF-8 encoding ends just before byte `p` of `b` is
/// a CJK character.
pub open spec fn cjk_ends_at(b: Seq<u8>, p: int) -> bool {
    ||| (3 <= p <= b.len() && is_leading_byte_width_3(b[p - 3]) && cjk_code(
        codepoint_width_3(b[p - 3], b[p - 2], b[p - 1]),
    ))
    ||| (4 <= p <= b.len() && is_leading_byte_width_4(b[p - 4]) && cjk_code(
        codepoint_width_4(b[p - 4], b[p - 3], b[p - 2], b[p - 1]),
    ))
}

/// A position strictly inside the text where it can be cut without
/// splitting a word: at a space, or between two CJK characters (Chinese
/// and Japanese text puts no spaces between its words).
pub open spec fn mid_cut(b: Seq<u8>, p: int) -> bool {
    0 < p < b.len() && (b[p] == 32 || (cjk_ends_at(b, p) && cjk_starts_at(b, p)))
}

/// The first cut position (see [`mid_cut`]) in `lo..hi`.
pub open spec fn first_cut_in(b: Seq<u8>, lo: int, hi: int) -> Option<int>
    decreases hi - lo,
{
    if hi <= lo {
        None
    } else {
        match first_cut_in(b, lo, hi - 1) {
            Some(q) => Some(q),
            None => if mid_cut(b, hi - 1) {
                Some(hi - 1)
            } else {
                None
            },
        }
    }
}

/// The last cut position (see [`mid_cut`]) in `lo..hi`.
pub open spec fn last_cut_in(b: Seq<u8>, lo: int, hi: int) -> Option<int>
    decreases hi - lo,
{
    if hi <= lo {
        None
    } else if mid_cut(b, hi - 1) {
        Some(hi - 1)
    } else {
        last_cut_in(b, lo, hi - 1)
    }
}

/// Where the window starts before it is moved to a boundary: 50 bytes
/// before the match, or the beginning.
pub open spec fn start_before(bp: int) -> int {
    if bp >= CONTEXT_BEFORE { bp - CONTEXT_BEFORE } else { 0 }
}

/// Where the window ends before it is moved to a boundary: 100 bytes after
/// the start of the match, or the end.
pub open spec fn end_before(bp: int, len: int) -> int {
    if bp + CONTEXT_AFTER < len { bp + CONTEXT_AFTER } else { len }
}

/// The start of the window: the beginning when the first character
/// boundary at or after [`start_before`] is the beginning; otherwise the
/// first cut position (see [`mid_cut`]) from that boundary up to the start
/// of the match, or failing that the last cut position before both, or
/// failing that the beginning. So the window never starts after the match.
pub open spec fn window_start(b: Seq<u8>, bp: int) -> int {
    let s1 = advance_boundary(b, start_before(bp));
    let hi = if bp < b.len() { bp + 1 } else { b.len() as int };
    if s1 == 0 {
        0
    } else {
        match first_cut_in(b, s1, hi) {
            Some(q) => q,
            None => match last_cut_in(b, 0, if s1 < hi { s1 } else { hi }) {
                Some(q) => q,
                None => 0,
            },
        }
    }
}

/// The end of the window, for a match at `bp` of `ml` bytes: the end of
/// the text when the last character boundary at or before [`end_before`]
/// is the end; otherwise the last cut position (see [`mid_cut`]) that is
/// after the start, not before the end of the match and not after that
/// boundary, or failing that the first cut position after both the boundary
/// and the end of the match, or failing that the end of the text. So the
/// window never ends before the match does.
pub open spec fn window_end(b: Seq<u8>, bp: int, ml: int) -> int {
    let e1 = retreat_boundary(b, end_before(bp, b.len() as int));
    let s = window_start(b, bp);
    let lo = if s + 1 < bp + ml { bp + ml } else { s + 1 };
    if e1 >= b.len() {
        b.len() as int
    } else {
        match last_cut_in(b, lo, e1 + 1) {
            Some(q) => q,
            None => {
                let from = if e1 + 1 < lo { lo } else { e1 + 1 };
                match first_cut_in(b, from, b.len() as int) {
                    Some(q) => q,
                    None => b.len() as int,
                }
            },
        }
    }
}

/// Whether the window can be cut out of the text: its unmoved start is not
/// past the end and its start is not after its end. (Lower-casing can make
/// the text longer, so a match position may lie past the end of the text.)
pub open spec fn window_fits(b: Seq<u8>, bp: int, ml: int) -> bool {
    start_before(bp) <= b.len() && window_start(b, bp) <= window_end(b, bp, ml)
}

proof fn lemma_first_cut_extend(b: Seq<u8>, lo: int, k: int, hi: int)
    requires
        k <= hi,
        first_cut_in(b, lo, k) is Some,
    ensures
        first_cut_in(b, lo, hi) == first_cut_in(b, lo, k),
    decreases hi - k,
{
    if k < hi {
        lemma_first_cut_extend(b, lo, k, hi - 1);
    }
}

proof fn lemma_first_cut_in_range(b: Seq<u8>, lo: int, hi: int)
    ensures
        first_cut_in(b, lo, hi) matches Some(q) ==> lo <= q < hi && mid_cut(b, q),
    decreases hi - lo,
{
    if hi > lo {
        lemma_first_cut_in_range(b, lo, hi - 1);
    }
}

proof fn lemma_last_cut_in_range(b: Seq<u8>, lo: int, hi: int)
    ensures
        last_cut_in(b, lo, hi) matches Some(q) ==> lo <= q < hi && mid_cut(b, q),
    decreases hi - lo,
{
    if hi > lo && !mid_cut(b, hi - 1) {
        lemma_last_cut_in_range(b, lo, hi - 1);
    }
}

/// A cut position of valid UTF-8 is a character boundary.
proof fn lemma_cut_boundary(b: Seq<u8>, p: int)
    requires
        valid_utf8(b),
        mid_cut(b, p),
    ensures
        is_char_boundary(b, p),
{
    vstd::utf8::is_char_boundary_iff_not_is_continuation_byte(b, p);
}

/// The code point of the three-byte encoding at `p`.
fn code_width_3(b: &[u8], p: usize) -> (r: u32)
    requires
        p + 3 <= b@.len(),
    ensures
        r == codepoint_width_3(b@[p as int], b@[p + 1], b@[p + 2]),
{
    (((b[p] & 0x0F) as u32) << 12) | (((b[p + 1] & 0x3F) as u32) << 6) | ((b[p + 2] & 0x3F) as u32)
}

/// The code point of the four-byte encoding at `p`.
fn code_width_4(b: &[u8], p: usize) -> (r: u32)
    requires
        p + 4 <= b@.len(),
    ensures
        r == codepoint_width_4(b@[p as int], b@[p + 1], b@[p + 2], b@[p + 3]),
{
    (((b[p] & 0x07) as u32) << 18) | (((b[p + 1] & 0x3F) as u32) << 12) | (((b[p + 2] & 0x3F)
        as u32) << 6) | ((b[p + 3] & 0x3F) as u32)
}

/// Whether a CJK character starts at `p` (see [`cjk_starts_at`]).
fn cjk_start(b: &[u8], p: usize) -> (r: bool)
    ensures
        r == cjk_starts_at(b@, p as int),
{
    let len = b.len();
    if p < len && len - p >= 3 && 0xE0 <= b[p] && b[p] <= 0xEF {
        if is_cjk_code(code_width_3(b, p)) {
            return true;
        }
    }
    if p < len && len - p >= 4 && 0xF0 <= b[p] && b[p] <= 0xF7 {
        if is_cjk_code(code_width_4(b, p)) {
            return true;
        }
    }
    false
}

/// Whether a CJK character ends just before `p` (see [`cjk_ends_at`]).
fn cjk_end(b: &[u8], p: usize) -> (r: bool)
    ensures
        r == cjk_ends_at(b@, p as int),
{
    let len = b.len();
    if 3 <= p && p <= len && 0xE0 <= b[p - 3] && b[p - 3] <= 0xEF {
        if is_cjk_code(code_width_3(b, p - 3)) {
            return true;
        }
    }
    if 4 <= p && p <= len && 0xF0 <= b[p - 4] && b[p - 4] <= 0xF7 {
        if is_cjk_code(code_width_4(b, p - 4)) {
            return true;
        }
    }
    false
}

/// Whether `p` is a cut position (see [`mid_cut`]).
fn is_cut(b: &[u8], p: usize) -> (r: bool)
    ensures
        r == mid_cut(b@, p as int),
{
    0 < p && p < b.len() && (b[p] == 32 || (cjk_end(b, p) && cjk_start(b, p)))
}

/// The first cut position in `lo..hi` (see [`first_cut_in`]).
fn cut_forward(b: &[u8], lo: usize, hi: usize) -> (r: Option<usize>)
    ensures
        match r {
            Some(q) => first_cut_in(b@, lo as int, hi as int) == Some(q as int),
            None => first_cut_in(b@, lo as int, hi as int) is None,
        },
{
    if hi <= lo {
        return None;
    }
    let mut q = lo;
    while q < hi
        invariant
            lo <= q <= hi,
            first_cut_in(b@, lo as int, q as int) is None,
        decreases hi - q,
    {
        if is_cut(b, q) {
            proof {
                assert(first_cut_in(b@, lo as int, q + 1) == Some(q as int));
                lemma_first_cut_extend(b@, lo as int, q + 1, hi as int);
            }
            return Some(q);
        }
        q = q + 1;
    }
    None
}

/// The last cut position in `lo..hi` (see [`last_cut_in`]).
fn cut_backward(b: &[u8], lo: usize, hi: usize) -> (r: Option<usize>)
    ensures
        match r {
            Some(q) => last_cut_in(b@, lo as int, hi as int) == Some(q as int),
            None => last_cut_in(b@, lo as int, hi as int) is None,
        },
{
    if hi <= lo {
        return None;
    }
    let mut q = hi;
    while q > lo
        invariant
            lo <= q <= hi,
            last_cut_in(b@, lo as int, hi as int) == last_cut_in(b@, lo as int, q as int),
        decreases q,
    {
        if is_cut(b, q - 1) {
            return Some(q - 1);
        }
        q = q - 1;
    }
    None
}

/// The byte bounds of the window (see [`window_start`] and [`window_end`]),
/// and whether it fits (see [`window_fits`]).
fn window(text: &str, bp: usize, ml: usize) -> (r: (usize, usize, bool))
    requires
        bp + ml <= usize::MAX,
    ensures
        r.2 == window_fits(encode_utf8(text@), bp as int, ml as int),
        r.2 ==> r.0 == window_start(encode_utf8(text@), bp as int) && r.1 == window_end(
            encode_utf8(text@),
            bp as int,
            ml as int,
        ) && r.0 <= r.1 <= encode_utf8(text@).len() && is_char_boundary(encode_utf8(text@), r.0 as int)
            && is_char_boundary(encode_utf8(text@), r.1 as int),
{
    let b = text.as_bytes();
    let ghost bs = encode_utf8(text@);
    let len = b.len();
    proof {
        vstd::utf8::encode_utf8_valid_utf8(text@);
        vstd::utf8::is_char_boundary_start_end_of_seq(bs);
    }
    let start0 = if bp >= CONTEXT_BEFORE { bp - CONTEXT_BEFORE } else { 0 };
    let end0 = if bp < len && len - bp > CONTEXT_AFTER { bp + CONTEXT_AFTER } else { len };
    assert(end0 == end_before(bp as int, len as int));
    if start0 > len {
        return (0, 0, false);
    }
    let mut s1 = start0;
    while s1 < len && !text.is_char_boundary(s1)
        invariant
            start0 <= s1 <= len,
            len == bs.len(),
            bs == encode_utf8(text@),
            advance_boundary(bs, s1 as int) == advance_boundary(bs, start0 as int),
        decreases len - s1,
    {
        s1 = s1 + 1;
    }
    let mut e1 = end0;
    while e1 > 0 && !text.is_char_boundary(e1)
        invariant
            0 <= e1 <= end0 <= len,
            len == bs.len(),
            bs == encode_utf8(text@),
            retreat_boundary(bs, e1 as int) == retreat_boundary(bs, end0 as int),
        decreases e1,
    {
        e1 = e1 - 1;
    }
    let hi = if bp < len { bp + 1 } else { len };
    let start = if s1 == 0 {
        0
    } else {
        match cut_forward(b, s1, hi) {
            Some(q) => {
                proof {
                    lemma_first_cut_in_range(bs, s1 as int, hi as int);
                    lemma_cut_boundary(bs, q as int);
                }
                q
            },
            None => match cut_backward(b, 0, if s1 < hi { s1 } else { hi }) {
                Some(q) => {
                    proof {
                        lemma_last_cut_in_range(bs, 0, if s1 < hi { s1 as int } else { hi as int });
                        lemma_cut_boundary(bs, q as int);
                    }
                    q
                },
                None => 0,
            },
        }
    };
    assert(start == window_start(bs, bp as int));
    let end = if e1 >= len {
        len
    } else {
        assert(start < len);
        let me = bp + ml;
        let lo = if start + 1 < me { me } else { start + 1 };
        match cut_backward(b, lo, e1 + 1) {
            Some(q) => {
                proof {
                    lemma_last_cut_in_range(bs, lo as int, e1 + 1);
                    lemma_cut_boundary(bs, q as int);
                }
                q
            },
            None => {
                let from = if e1 + 1 < lo { lo } else { e1 + 1 };
                match cut_forward(b, from, len) {
                    Some(q) => {
                        proof {
                            lemma_first_cut_in_range(bs, from as int, len as int);
                            lemma_cut_boundary(bs, q as int);
                        }
                        q
                    },
                    None => len,
                }
            },
        }
    };
    assert(end == window_end(bs, bp as int, ml as int));
    if start > end {
        return (0, 0, false);
    }
    (start, end, true)
}


// ========== The snippet ==========

/// The byte position in the lower-cased, normalised text of the first match
/// of the first matching query token (0 when none matches).
pub open spec fn match_position(content: Seq<char>, tokens: Seq<Seq<char>>) -> int {
    best_position(encode_utf8(lowercase_of(normalize_lines(content))), encodings(tokens))
}

/// The byte length of that match (0 when no token matches).
pub open spec fn match_length(content: Seq<char>, tokens: Seq<Seq<char>>) -> int {
    best_length(encode_utf8(lowercase_of(normalize_lines(content))), encodings(tokens))
}

/// Whether the snippet window can be cut out of the normalised text (see
/// [`window_fits`]).
pub open spec fn snippet_fits(content: Seq<char>, tokens: Seq<Seq<char>>) -> bool {
    window_fits(
        encode_utf8(normalize_lines(content)),
        match_position(content, tokens),
        match_length(content, tokens),
    )
}

/// The snippet for `content` and the query `tokens`: the text of the window
/// (see [`window_start`], [`window_end`]) of the normalised content,
/// trimmed, with "... " in front when it does not start at the beginning and
/// "..." behind when it does not reach the end.
pub open spec fn snippet_text(content: Seq<char>, tokens: Seq<Seq<char>>) -> Seq<char> {
    let b = encode_utf8(normalize_lines(content));
    let bp = match_position(content, tokens);
    let s = window_start(b, bp);
    let e = window_end(b, bp, match_length(content, tokens));
    let body = trim(decode_utf8(b.subrange(s, e)));
    (if s > 0 { "... "@ } else { Seq::empty() }) + body + (if e < b.len() { "..."@ } else { Seq::empty() })
}

/// A boundary of a valid UTF-8 text, at or after `s`, is a boundary of the
/// text from `s` on.
proof fn lemma_boundary_in_suffix(b: Seq<u8>, s: int, e: int)
    requires
        valid_utf8(b),
        is_char_boundary(b, s),
        is_char_boundary(b, e),
        0 <= s <= e <= b.len(),
    ensures
        valid_utf8(b.subrange(s, b.len() as int)),
        is_char_boundary(b.subrange(s, b.len() as int), e - s),
{
    let rest = b.subrange(s, b.len() as int);
    vstd::utf8::valid_utf8_split(b, s);
    if e == b.len() {
        vstd::utf8::is_char_boundary_start_end_of_seq(rest);
        assert(rest.len() == e - s);
    } else if e == s {
        vstd::utf8::is_char_boundary_start_end_of_seq(rest);
    } else {
        vstd::utf8::is_char_boundary_iff_not_is_continuation_byte(b, e);
        assert(rest[e - s] == b[e]);
        vstd::utf8::is_char_boundary_iff_not_is_continuation_byte(rest, e - s);
    }
}

/// Appends the characters of `s` to `out`.
fn append_chars(out: &mut Vec<char>, s: &Vec<char>)
    ensures
        final(out)@ == old(out)@ + s@,
{
    let mut i: usize = 0;
    let ghost start = out@;
    while i < s.len()
        invariant
            0 <= i <= s.len(),
            out@ == start + s@.take(i as int),
        decreases s.len() - i,
    {
        out.push(s[i]);
        i = i + 1;
        assert(out@ =~= start + s@.take(i as int));
    }
    assert(s@.take(i as int) =~= s@);
}

/// The snippet for `content` and the query tokens (see [`snippet_text`]),
/// or `None` when the window does not fit (see [`snippet_fits`]).
pub fn build_snippet(content: &str, query_tokens: &Vec<String>) -> (r: Option<String>)
    ensures
        r is Some <==> snippet_fits(content@, views(query_tokens@)),
        r matches Some(s) ==> s@ == snippet_text(content@, views(query_tokens@)),
        r matches Some(s) ==> single_line(s@),
{
    let norm = normalize(content);
    let normalized = string_of(norm.as_slice());
    let lower = to_lowercase(normalized.as_str());
    let lower_bytes = lower.as_str().as_bytes();
    let (bp, ml) = best_match_position(lower_bytes, query_tokens);
    assert(bp + ml <= lower_bytes.len());
    let text = normalized.as_str();
    let (s, e, ok) = window(text, bp, ml);
    if !ok {
        return None;
    }
    let ghost b = encode_utf8(text@);
    proof {
        vstd::utf8::encode_utf8_valid_utf8(text@);
        lemma_boundary_in_suffix(b, s as int, e as int);
    }
    let (_, rest) = text.split_at(s);
    let (mid, _) = rest.split_at(e - s);
    proof {
        assert(encode_utf8(mid@) =~= b.subrange(s as int, e as int));
        vstd::utf8::encode_utf8_decode_utf8(mid@);
        lemma_window_text_single_line(content@, b, s as int, e as int);
    }
    let chars = chars_of(mid);
    let body = trim_chars(&chars);
    proof {
        lemma_trim_single(chars@);
    }
    let ghost pre: Seq<char> = if s > 0 { "... "@ } else { Seq::empty() };
    let ghost suf: Seq<char> = if e < b.len() { "..."@ } else { Seq::empty() };
    let mut out: Vec<char> = Vec::new();
    if s > 0 {
        let prefix = chars_of("... ");
        append_chars(&mut out, &prefix);
    }
    assert(out@ =~= pre);
    append_chars(&mut out, &body);
    assert(out@ =~= pre + body@);
    if e < text.as_bytes().len() {
        let suffix = chars_of("...");
        append_chars(&mut out, &suffix);
    }
    assert(out@ =~= pre + body@ + suf);
    proof {
        reveal_strlit("... ");
        reveal_strlit("...");
        assert forall|i: int| 0 <= i < out@.len() implies not_line_break(#[trigger] out@[i]) by {
            if i >= pre.len() && i < pre.len() + body@.len() {
                assert(out@[i] == body@[i - pre.len()]);
            }
        }
    }
    Some(string_of(out.as_slice()))
}

/// The text between two character boundaries of the encoded normalised
/// content has no line break.
proof fn lemma_window_text_single_line(content: Seq<char>, b: Seq<u8>, s: int, e: int)
    requires
        b == encode_utf8(normalize_lines(content)),
        0 <= s <= e <= b.len(),
        is_char_boundary(b, s),
        is_char_boundary(b, e),
    ensures
        single_line(decode_utf8(b.subrange(s, e))),
{
    let n = normalize_lines(content);
    vstd::utf8::encode_utf8_valid_utf8(n);
    vstd::utf8::encode_utf8_decode_utf8(n);
    lemma_normalized_single_line(content);
    lemma_boundary_in_suffix(b, s, e);
    vstd::utf8::decode_utf8_split(b, s);
    let rest = b.subrange(s, b.len() as int);
    vstd::utf8::decode_utf8_split(rest, e - s);
    assert(rest.subrange(0, e - s) =~= b.subrange(s, e));
    let a = decode_utf8(b.subrange(0, s));
    let m = decode_utf8(b.subrange(s, e));
    let z = decode_utf8(rest.subrange(e - s, rest.len() as int));
    assert(n =~= a + (m + z));
    assert forall|i: int| 0 <= i < m.len() implies not_line_break(#[trigger] m[i]) by {
        assert(n[a.len() + i] == m[i]);
    }
}


// ========== Highlighting ==========

/// The terminal escape that starts a highlight (bold red).
pub open spec fn highlight_start() -> Seq<char> {
    seq!['\u{1b}', '[', '1', ';', '3', '1', 'm']
}

/// The terminal escape that ends a highlight.
pub open spec fn highlight_end() -> Seq<char> {
    seq!['\u{1b}', '[', '0', 'm']
}

/// The non-empty token `t` occurs in `s` at `i`, letters compared without
/// regard to ASCII case (query tokens are lower-case).
pub open spec fn token_occurs_at(s: Seq<char>, t: Seq<char>, i: int) -> bool {
    &&& t.len() > 0
    &&& 0 <= i
    &&& i + t.len() <= s.len()
    &&& forall|j: int| 0 <= j < t.len() ==> ascii_lower_char(#[trigger] s[i + j]) == t[j]
}

/// The length of the first of `toks` that occurs in `s` at `i`, or 0.
pub open spec fn match_len(s: Seq<char>, toks: Seq<Seq<char>>, i: int) -> nat
    decreases toks.len(),
{
    if toks.len() == 0 {
        0
    } else if token_occurs_at(s, toks[0], i) {
        toks[0].len()
    } else {
        match_len(s, toks.drop_first(), i)
    }
}

/// `s` from position `i` on, with every occurrence of a query token
/// wrapped in highlight escapes; occurrences are taken left to right, the
/// first matching token winning at each position.
pub open spec fn highlight_from(s: Seq<char>, toks: Seq<Seq<char>>, i: int) -> Seq<char>
    decreases s.len() - i,
{
    if i < 0 || i >= s.len() {
        Seq::empty()
    } else {
        let n = match_len(s, toks, i);
        if n > 0 && i + n <= s.len() {
            highlight_start() + s.subrange(i, i + n) + highlight_end() + highlight_from(s, toks, i + n)
        } else {
            seq![s[i]] + highlight_from(s, toks, i + 1)
        }
    }
}

/// Whether token `t` occurs in `s` at `i` (see [`token_occurs_at`]).
fn token_at(s: &Vec<char>, t: &Vec<char>, i: usize) -> (r: bool)
    requires
        i <= s.len(),
    ensures
        r == token_occurs_at(s@, t@, i as int),
{
    if t.len() == 0 || t.len() > s.len() - i {
        return false;
    }
    let mut j: usize = 0;
    while j < t.len()
        invariant
            0 <= j <= t.len(),
            i + t.len() <= s.len(),
            forall|k: int| 0 <= k < j ==> ascii_lower_char(#[trigger] s@[i + k]) == t@[k],
        decreases t.len() - j,
    {
        let c = s[i + j];
        let d = t[j];
        let same = if 'A' <= c && c <= 'Z' {
            (d as u32) == (c as u32) + 32
        } else {
            d == c
        };
        proof {
            vstd::utf8::char_u32_cast(d, d as u32);
            if 'A' <= c && c <= 'Z' {
                if (d as u32) == (c as u32) + 32 {
                    assert(ascii_lower_char(c) == d);
                } else {
                    let u = (c as u32) + 32;
                    assert(0x61 <= u <= 0x7A);
                    assert((u as char) as u32 == u);
                }
            }
        }
        if !same {
            assert(ascii_lower_char(s@[i + j as int]) != t@[j as int]);
            return false;
        }
        j = j + 1;
    }
    true
}

/// The length of the first token that occurs in `s` at `i` (see
/// [`match_len`]).
fn token_len_at(s: &Vec<char>, toks: &Vec<Vec<char>>, i: usize) -> (r: usize)
    requires
        i <= s.len(),
    ensures
        r == match_len(s@, toks@.map_values(|t: Vec<char>| t@), i as int),
{
    let ghost tv = toks@.map_values(|t: Vec<char>| t@);
    assert(tv.skip(0) =~= tv);
    let mut k: usize = 0;
    while k < toks.len()
        invariant
            0 <= k <= toks.len(),
            i <= s.len(),
            tv == toks@.map_values(|t: Vec<char>| t@),
            match_len(s@, tv, i as int) == match_len(s@, tv.skip(k as int), i as int),
        decreases toks.len() - k,
    {
        let ghost rest = tv.skip(k as int);
        assert(rest[0] == toks@[k as int]@);
        assert(rest.drop_first() =~= tv.skip(k + 1));
        if token_at(s, &toks[k], i) {
            return toks[k].len();
        }
        k = k + 1;
    }
    assert(tv.skip(k as int).len() == 0);
    0
}

/// Appends `s[from..to]` to `out`.
fn append_range(out: &mut Vec<char>, s: &Vec<char>, from: usize, to: usize)
    requires
        from <= to <= s.len(),
    ensures
        final(out)@ == old(out)@ + s@.subrange(from as int, to as int),
{
    let ghost start = out@;
    let mut i = from;
    while i < to
        invariant
            from <= i <= to <= s.len(),
            out@ == start + s@.subrange(from as int, i as int),
        decreases to - i,
    {
        out.push(s[i]);
        i = i + 1;
        assert(out@ =~= start + s@.subrange(from as int, i as int));
    }
}

/// `text` with every occurrence of a query token wrapped in terminal
/// highlight escapes (see [`highlight_from`]).
pub fn highlight(text: &str, query_tokens: &Vec<String>) -> (r: String)
    ensures
        r@ == highlight_from(text@, views(query_tokens@), 0),
{
    let s = chars_of(text);
    let mut toks: Vec<Vec<char>> = Vec::new();
    let mut k: usize = 0;
    while k < query_tokens.len()
        invariant
            0 <= k <= query_tokens.len(),
            toks@.map_values(|t: Vec<char>| t@) == views(query_tokens@).take(k as int),
        decreases query_tokens.len() - k,
    {
        let t = chars_of(query_tokens[k].as_str());
        let ghost before = toks@;
        toks.push(t);
        assert(toks@.map_values(|t: Vec<char>| t@) =~= before.map_values(|t: Vec<char>| t@).push(
            t@,
        ));
        assert(views(query_tokens@).take(k + 1) =~= views(query_tokens@).take(k as int).push(
            query_tokens@[k as int]@,
        ));
        k = k + 1;
    }
    assert(views(query_tokens@).take(k as int) =~= views(query_tokens@));
    let ghost tv = views(query_tokens@);
    let start = chars_of("\u{1b}[1;31m");
    let end = chars_of("\u{1b}[0m");
    proof {
        reveal_strlit("\u{1b}[1;31m");
        reveal_strlit("\u{1b}[0m");
        assert(start@ =~= highlight_start());
        assert(end@ =~= highlight_end());
    }
    let mut out: Vec<char> = Vec::new();
    let mut i: usize = 0;
    while i < s.len()
        invariant
            0 <= i <= s.len(),
            s@ == text@,
            tv == views(query_tokens@),
            toks@.map_values(|t: Vec<char>| t@) == tv,
            start@ == highlight_start(),
            end@ == highlight_end(),
            out@ + highlight_from(s@, tv, i as int) == highlight_from(s@, tv, 0),
        decreases s.len() - i,
    {
        let n = token_len_at(&s, &toks, i);
        let ghost before = out@;
        if n > 0 && n <= s.len() - i {
            append_range(&mut out, &start, 0, start.len());
            append_range(&mut out, &s, i, i + n);
            append_range(&mut out, &end, 0, end.len());
            proof {
                assert(start@.subrange(0, start@.len() as int) =~= start@);
                assert(end@.subrange(0, end@.len() as int) =~= end@);
                assert(out@ =~= before + highlight_start() + s@.subrange(i as int, i + n) + highlight_end());
                assert(highlight_from(s@, tv, i as int) == highlight_start() + s@.subrange(i as int, i + n)
                    + highlight_end() + highlight_from(s@, tv, i + n));
                assert(out@ + highlight_from(s@, tv, i + n) =~= before + highlight_from(s@, tv, i as int));
            }
            i = i + n;
        } else {
            out.push(s[i]);
            proof {
                assert(highlight_from(s@, tv, i as int) == seq![s@[i as int]] + highlight_from(s@, tv, i + 1));
                assert(out@ + highlight_from(s@, tv, i + 1) =~= before + highlight_from(s@, tv, i as int));
            }
            i = i + 1;
        }
    }
    proof {
        assert(highlight_from(s@, tv, i as int) =~= Seq::<char>::empty());
        assert(out@ =~= out@ + highlight_from(s@, tv, i as int));
    }
    string_of(out.as_slice())
}

// ========== Laws ==========

/// A character that is neither '\n' nor '\r'.
pub open spec fn not_line_break(c: char) -> bool {
    c != '\n' && c != '\r'
}

/// No character of `s` is a line break.
pub open spec fn single_line(s: Seq<char>) -> bool {
    forall|i: int| 0 <= i < s.len() ==> not_line_break(#[trigger] s[i])
}

proof fn lemma_trim_single(s: Seq<char>)
    requires
        single_line(s),
    ensures
        single_line(trim(s)),
{
    lemma_trim_start_single(s);
    lemma_trim_end_single(trim_start(s));
}

proof fn lemma_trim_start_single(s: Seq<char>)
    requires
        single_line(s),
    ensures
        single_line(trim_start(s)),
    decreases s.len(),
{
    if s.len() > 0 && whitespace(s[0]) {
        assert forall|i: int| 0 <= i < s.drop_first().len() implies not_line_break(#[trigger] s.drop_first()[i]) by {
            assert(s.drop_first()[i] == s[i + 1]);
        }
        lemma_trim_start_single(s.drop_first());
    }
}

proof fn lemma_trim_end_single(s: Seq<char>)
    requires
        single_line(s),
    ensures
        single_line(trim_end(s)),
    decreases s.len(),
{
    if s.len() > 0 && whitespace(s.last()) {
        assert forall|i: int| 0 <= i < s.drop_last().len() implies not_line_break(#[trigger] s.drop_last()[i]) by {
            assert(s.drop_last()[i] == s[i]);
        }
        lemma_trim_end_single(s.drop_last());
    }
}

/// The normalised text has no line breaks, and its only white space is
/// single spaces.
pub proof fn lemma_normalized_single_line(content: Seq<char>)
    ensures
        single_line(normalize_lines(content)),
        spaces_collapsed(normalize_lines(content)),
{
    lemma_collapse_spaces(join_space(kept_lines(content)));
}

/// The only white space left in `s` is the space character, and no two
/// spaces follow each other.
pub open spec fn spaces_collapsed(s: Seq<char>) -> bool {
    &&& forall|i: int| 0 <= i < s.len() && whitespace(#[trigger] s[i]) ==> s[i] == ' '
    &&& forall|i: int| 0 < i < s.len() && #[trigger] s[i] == ' ' ==> s[i - 1] != ' '
}

proof fn lemma_collapse_spaces(s: Seq<char>)
    ensures
        spaces_collapsed(collapse_spaces(s)),
        single_line(collapse_spaces(s)),
    decreases s.len(),
{
    if s.len() > 0 {
        lemma_collapse_spaces(s.drop_last());
        let p = collapse_spaces(s.drop_last());
        let r = collapse_spaces(s);
        assert(whitespace(' '));
        assert(whitespace('\n') && whitespace('\r'));
        assert forall|i: int| 0 <= i < r.len() implies not_line_break(#[trigger] r[i]) by {
            if i < p.len() {
                assert(r[i] == p[i]);
            }
        }
        assert forall|i: int| 0 <= i < r.len() && whitespace(#[trigger] r[i]) implies r[i] == ' ' by {
            if i < p.len() {
                assert(r[i] == p[i]);
            }
        }
        assert forall|i: int| 0 < i < r.len() && #[trigger] r[i] == ' ' implies r[i - 1] != ' ' by {
            if i < p.len() {
                assert(r[i] == p[i] && r[i - 1] == p[i - 1]);
            } else if i - 1 < p.len() {
                assert(r[i - 1] == p[i - 1]);
            }
        }
    }
}

proof fn lemma_advance_ge(b: Seq<u8>, s: int)
    ensures
        advance_boundary(b, s) >= s,
        s <= b.len() ==> advance_boundary(b, s) <= b.len(),
    decreases b.len() - s,
{
    if s < b.len() && !is_char_boundary(b, s) {
        lemma_advance_ge(b, s + 1);
    }
}

proof fn lemma_retreat_le(b: Seq<u8>, e: int)
    ensures
        retreat_boundary(b, e) <= e,
        e >= 0 ==> retreat_boundary(b, e) >= 0,
    decreases e,
{
    if e > 0 && !is_char_boundary(b, e) {
        lemma_retreat_le(b, e - 1);
    }
}

/// The window never cuts a word and always holds the match: each of its
/// ends is an end of the text or a cut position (a space, or a point
/// between two CJK characters); it starts no later than the match and ends
/// no earlier than the match's end; its start is not after its end. It
/// keeps 50 bytes before the match, moved inward to a cut position, where
/// such a cut position exists before the match.
pub proof fn lemma_window_cuts(b: Seq<u8>, bp: int, ml: int)
    requires
        0 <= bp,
        0 <= ml,
        start_before(bp) <= b.len(),
    ensures
        0 <= window_start(b, bp) <= window_end(b, bp, ml) <= b.len(),
        window_start(b, bp) == 0 || mid_cut(b, window_start(b, bp)),
        window_end(b, bp, ml) == b.len() || mid_cut(b, window_end(b, bp, ml)),
        bp < b.len() ==> window_start(b, bp) <= bp,
        bp + ml <= b.len() ==> window_end(b, bp, ml) >= bp + ml,
        first_cut_in(b, advance_boundary(b, start_before(bp)), if bp < b.len() { bp + 1 } else { b.len() as int }) is Some
            ==> window_start(b, bp) >= start_before(bp),
{
    let s1 = advance_boundary(b, start_before(bp));
    lemma_advance_ge(b, start_before(bp));
    let hi = if bp < b.len() { bp + 1 } else { b.len() as int };
    lemma_first_cut_in_range(b, s1, hi);
    lemma_last_cut_in_range(b, 0, if s1 < hi { s1 } else { hi });
    let s = window_start(b, bp);
    let e1 = retreat_boundary(b, end_before(bp, b.len() as int));
    lemma_retreat_le(b, end_before(bp, b.len() as int));
    let lo = if s + 1 < bp + ml { bp + ml } else { s + 1 };
    lemma_last_cut_in_range(b, lo, e1 + 1);
    let from = if e1 + 1 < lo { lo } else { e1 + 1 };
    lemma_first_cut_in_range(b, from, b.len() as int);
}

} // verus!
