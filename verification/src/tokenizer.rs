//! Tokenizers: an English one (lower-casing, splitting on non-alphanumeric
//! characters, dropping stop words and one-character words), a Chinese one built on
//! jieba's search-mode segmentation, and a mixed one that splits text at CJK
//! boundaries and hands each run to the matching tokenizer.
use vstd::prelude::*;
use crate::text::{
    alphanumeric, chars_of, contains_string, is_alphanumeric, lowercase_of, string_of, strings_of,
    to_lowercase, views,
};
use jieba_rs::Jieba;

verus! {

// ========== The tokenizer interface ==========

/// A tokenizer turns a text into a sequence of tokens.
pub trait Tokenizer {
    /// The tokens of `text`.
    spec fn spec_tokenize(&self, text: Seq<char>) -> Seq<Seq<char>>;

    /// Splits `text` into tokens.
    fn tokenize(&self, text: &str) -> (r: Vec<String>)
        ensures
            views(r@) == self.spec_tokenize(text@),
    ;
}

// ========== CJK classification ==========

/// True when the code point `u` lies in one of the CJK blocks the tokenizer
/// treats as Chinese/Japanese text (ideographs, compatibility ideographs,
/// CJK punctuation, full-width forms, hiragana and katakana).
pub open spec fn cjk_code(u: u32) -> bool {
    ||| 0x4E00 <= u <= 0x9FFF
    ||| 0x3400 <= u <= 0x4DBF
    ||| 0x20000 <= u <= 0x2A6DF
    ||| 0x2A700 <= u <= 0x2B73F
    ||| 0x2B740 <= u <= 0x2B81F
    ||| 0xF900 <= u <= 0xFAFF
    ||| 0x2F800 <= u <= 0x2FA1F
    ||| 0x3000 <= u <= 0x303F
    ||| 0xFF00 <= u <= 0xFFEF
    ||| 0x3040 <= u <= 0x309F
    ||| 0x30A0 <= u <= 0x30FF
}

/// True when `c` is a CJK character (see [`cjk_code`]).
pub open spec fn cjk_char(c: char) -> bool {
    cjk_code(c as u32)
}

/// Whether the code point `u` is CJK (see [`cjk_code`]).
pub fn is_cjk_code(u: u32) -> (r: bool)
    ensures
        r == cjk_code(u),
{
    (0x4E00 <= u && u <= 0x9FFF) || (0x3400 <= u && u <= 0x4DBF) || (0x20000 <= u && u
        <= 0x2A6DF) || (0x2A700 <= u && u <= 0x2B73F) || (0x2B740 <= u && u <= 0x2B81F) || (
    0xF900 <= u && u <= 0xFAFF) || (0x2F800 <= u && u <= 0x2FA1F) || (0x3000 <= u && u
        <= 0x303F) || (0xFF00 <= u && u <= 0xFFEF) || (0x3040 <= u && u <= 0x309F) || (0x30A0
        <= u && u <= 0x30FF)
}

/// Whether `ch` is a CJK character (see [`cjk_char`]).
pub fn is_cjk(ch: char) -> (r: bool)
    ensures
        r == cjk_char(ch),
{
    is_cjk_code(ch as u32)
}

// ========== Splitting at CJK boundaries ==========

/// A run of text, marked as CJK or not.
#[derive(Debug, Clone, PartialEq)]
pub enum TextSegment {
    Cjk(String),
    NonCjk(String),
}

impl View for TextSegment {
    /// Whether the run is CJK, and its characters.
    type V = (bool, Seq<char>);

    open spec fn view(&self) -> (bool, Seq<char>) {
        match self {
            TextSegment::Cjk(s) => (true, s@),
            TextSegment::NonCjk(s) => (false, s@),
        }
    }
}

/// The views of a sequence of segments.
pub open spec fn segment_views(v: Seq<TextSegment>) -> Seq<(bool, Seq<char>)> {
    v.map_values(|s: TextSegment| s@)
}

/// The maximal runs of `s` whose characters are all CJK or all non-CJK, in
/// order.
pub open spec fn cjk_runs(s: Seq<char>) -> Seq<(bool, Seq<char>)>
    decreases s.len(),
{
    if s.len() == 0 {
        Seq::empty()
    } else {
        let prev = cjk_runs(s.drop_last());
        let c = s.last();
        if prev.len() > 0 && prev.last().0 == cjk_char(c) {
            prev.update(prev.len() - 1, (prev.last().0, prev.last().1.push(c)))
        } else {
            prev.push((cjk_char(c), seq![c]))
        }
    }
}

/// Splits `text` into its maximal CJK and non-CJK runs.
///
/// Example: "Rust语言编程guide" gives NonCjk("Rust"), Cjk("语言编程"),
/// NonCjk("guide").
pub fn segment_by_cjk(text: &str) -> (r: Vec<TextSegment>)
    ensures
        segment_views(r@) == cjk_runs(text@),
{
    let chars = chars_of(text);
    let mut segments: Vec<TextSegment> = Vec::new();
    let mut current_cjk: Vec<char> = Vec::new();
    let mut current_non_cjk: Vec<char> = Vec::new();
    let mut in_cjk = false;
    let mut i: usize = 0;
    while i < chars.len()
        invariant
            0 <= i <= chars.len(),
            chars@ == text@,
            i == 0 ==> segments@.len() == 0 && current_cjk@.len() == 0
                && current_non_cjk@.len() == 0,
            i > 0 ==> {
                let runs = cjk_runs(chars@.take(i as int));
                &&& runs.len() > 0
                &&& segment_views(segments@) == runs.drop_last()
                &&& in_cjk == runs.last().0
                &&& in_cjk ==> current_cjk@ == runs.last().1 && current_cjk@.len() > 0
                    && current_non_cjk@.len() == 0
                &&& !in_cjk ==> current_non_cjk@ == runs.last().1 && current_non_cjk@.len() > 0
                    && current_cjk@.len() == 0
            },
        decreases chars.len() - i,
    {
        let ch = chars[i];
        let ghost prev_runs = cjk_runs(chars@.take(i as int));
        let ghost prev_segments = segments@;
        assert(chars@.take(i + 1).drop_last() =~= chars@.take(i as int));
        if is_cjk(ch) {
            if !in_cjk && current_non_cjk.len() > 0 {
                let s = string_of(current_non_cjk.as_slice());
                segments.push(TextSegment::NonCjk(s));
                current_non_cjk = Vec::new();
                assert(segment_views(segments@) =~= segment_views(prev_segments).push(
                    prev_runs.last(),
                ));
            }
            in_cjk = true;
            current_cjk.push(ch);
        } else {
            if in_cjk && current_cjk.len() > 0 {
                let s = string_of(current_cjk.as_slice());
                segments.push(TextSegment::Cjk(s));
                current_cjk = Vec::new();
                assert(segment_views(segments@) =~= segment_views(prev_segments).push(
                    prev_runs.last(),
                ));
            }
            in_cjk = false;
            current_non_cjk.push(ch);
        }
        i = i + 1;
        proof {
            let runs = cjk_runs(chars@.take(i as int));
            if i == 1 {
                assert(runs =~= seq![(cjk_char(ch), seq![ch])]);
                assert(segment_views(segments@) =~= runs.drop_last());
            } else {
                assert(runs.drop_last() =~= segment_views(segments@));
            }
        }
    }
    assert(chars@.take(i as int) =~= text@);
    let ghost runs = cjk_runs(text@);
    let ghost before = segments@;
    if current_cjk.len() > 0 {
        let s = string_of(current_cjk.as_slice());
        segments.push(TextSegment::Cjk(s));
    }
    if current_non_cjk.len() > 0 {
        let s = string_of(current_non_cjk.as_slice());
        segments.push(TextSegment::NonCjk(s));
    }
    proof {
        if i > 0 {
            assert(segment_views(segments@) =~= segment_views(before).push(runs.last()));
            assert(runs =~= runs.drop_last().push(runs.last()));
        } else {
            assert(segment_views(segments@) =~= runs);
        }
    }
    segments
}


// ========== Stop words ==========

/// English stop words.
pub const ENGLISH_STOP_WORDS: [&'static str; 94] = [
    "a", "an", "the", "and", "or", "but", "in", "on", "at", "to", "for", "of", "with", "by",
    "from", "is", "it", "that", "this", "was", "are", "be", "been", "being", "have", "has", "had",
    "do", "does", "did", "will", "would", "could", "should", "may", "might", "can", "shall", "not",
    "no", "nor", "so", "if", "then", "than", "too", "very", "just", "about", "above", "after",
    "again", "all", "also", "am", "as", "because", "before", "between", "both", "each", "few",
    "more", "most", "other", "own", "same", "some", "such", "up", "out", "only", "into", "over",
    "down", "here", "there", "when", "where", "why", "how", "what", "which", "who", "whom", "he",
    "she", "we", "they", "i", "me", "my", "you", "your",
];

/// Chinese stop words.
pub const CHINESE_STOP_WORDS: [&'static str; 77] = [
    "的", "了", "在", "是", "我", "有", "和", "就", "不", "人", "都", "一", "一个", "上", "也", "很",
    "到", "说", "要", "去", "你", "会", "着", "没有", "看", "好", "自己", "这", "他", "她", "它",
    "们", "那", "被", "从", "把", "对", "与", "之", "以", "而", "但", "或", "所", "等", "吗", "吧",
    "呢", "啊", "呀", "哦", "哈", "嗯", "个", "中", "为", "年", "月", "日", "时", "分", "秒", "其",
    "可以", "没", "这个", "那个", "什么", "怎么", "如何", "为什么", "因为", "所以", "如果", "虽然",
    "不过", "然而",
];

/// The English stop words as character sequences.
pub open spec fn english_stop_words() -> Seq<Seq<char>> {
    ENGLISH_STOP_WORDS@.map_values(|s: &str| s@)
}

/// The Chinese stop words as character sequences.
pub open spec fn chinese_stop_words() -> Seq<Seq<char>> {
    CHINESE_STOP_WORDS@.map_values(|s: &str| s@)
}

// ========== English words ==========

/// The pieces of `s` between characters that are not alphanumeric, empty
/// pieces included (as `str::split` with a character predicate yields them).
pub open spec fn split_pieces(s: Seq<char>) -> Seq<Seq<char>>
    decreases s.len(),
{
    if s.len() == 0 {
        seq![Seq::empty()]
    } else {
        let p = split_pieces(s.drop_last());
        let c = s.last();
        if alphanumeric(c) {
            p.update(p.len() - 1, p.last().push(c))
        } else {
            p.push(Seq::empty())
        }
    }
}

/// An English piece is kept when it has more than one character and is not
/// a stop word.
pub open spec fn keep_english(stop: Seq<Seq<char>>, w: Seq<char>) -> bool {
    w.len() > 1 && !stop.contains(w)
}

/// The English tokens of `text`: the kept pieces of its lower-cased form.
pub open spec fn english_tokens(text: Seq<char>, stop: Seq<Seq<char>>) -> Seq<Seq<char>> {
    split_pieces(lowercase_of(text)).filter(|w: Seq<char>| keep_english(stop, w))
}

/// `split_pieces` never yields an empty sequence of pieces.
pub proof fn lemma_split_pieces_nonempty(s: Seq<char>)
    ensures
        split_pieces(s).len() >= 1,
    decreases s.len(),
{
    if s.len() > 0 {
        lemma_split_pieces_nonempty(s.drop_last());
    }
}

/// Whether the piece `w` is kept (see [`keep_english`]).
fn keep_english_piece(stop: &Vec<String>, w: &Vec<char>) -> (r: bool)
    ensures
        r == keep_english(views(stop@), w@),
{
    if w.len() <= 1 {
        return false;
    }
    let s = string_of(w.as_slice());
    !contains_string(stop, &s)
}

/// The English tokens of `text` with the given stop words.
fn english_words(text: &str, stop: &Vec<String>) -> (r: Vec<String>)
    ensures
        views(r@) == english_tokens(text@, views(stop@)),
        text@.len() == 0 ==> r@.len() == 0,
{
    let lowered = to_lowercase(text);
    let chars = chars_of(lowered.as_str());
    let ghost keep = |w: Seq<char>| keep_english(views(stop@), w);
    let mut out: Vec<String> = Vec::new();
    let mut current: Vec<char> = Vec::new();
    let mut i: usize = 0;
    proof {
        lemma_split_pieces_nonempty(chars@.take(0));
        assert(chars@.take(0) =~= Seq::<char>::empty());
    }
    while i < chars.len()
        invariant
            0 <= i <= chars.len(),
            chars@ == lowercase_of(text@),
            keep == (|w: Seq<char>| keep_english(views(stop@), w)),
            split_pieces(chars@.take(i as int)).len() >= 1,
            views(out@) == split_pieces(chars@.take(i as int)).drop_last().filter(keep),
            current@ == split_pieces(chars@.take(i as int)).last(),
        decreases chars.len() - i,
    {
        let ch = chars[i];
        let ghost pieces = split_pieces(chars@.take(i as int));
        assert(chars@.take(i + 1).drop_last() =~= chars@.take(i as int));
        if is_alphanumeric(ch) {
            current.push(ch);
            proof {
                let next = split_pieces(chars@.take(i + 1));
                assert(next.drop_last() =~= pieces.drop_last());
            }
        } else {
            let ghost before = out@;
            if keep_english_piece(stop, &current) {
                let s = string_of(current.as_slice());
                out.push(s);
                assert(views(out@) =~= views(before).push(s@));
            }
            current = Vec::new();
            proof {
                let next = split_pieces(chars@.take(i + 1));
                assert(next.drop_last() =~= pieces);
                assert(pieces =~= pieces.drop_last().push(pieces.last()));
                pieces.drop_last().lemma_filter_push(pieces.last(), keep);
            }
        }
        i = i + 1;
    }
    assert(chars@.take(i as int) =~= chars@);
    let ghost pieces = split_pieces(chars@);
    let ghost before = out@;
    if keep_english_piece(stop, &current) {
        let s = string_of(current.as_slice());
        out.push(s);
        assert(views(out@) =~= views(before).push(s@));
    }
    proof {
        assert(pieces =~= pieces.drop_last().push(pieces.last()));
        pieces.drop_last().lemma_filter_push(pieces.last(), keep);
    }
    out
}

// ========== SimpleTokenizer ==========

/// English tokenizer: lower-cases the text, splits it at characters that are
/// not alphanumeric and drops pieces of fewer than two characters and stop
/// words.
pub struct SimpleTokenizer {
    stop_words: Vec<String>,
}

impl SimpleTokenizer {
    /// The stop words this tokenizer drops.
    pub closed spec fn stop_set(&self) -> Seq<Seq<char>> {
        views(self.stop_words@)
    }

    /// A tokenizer with the English stop words.
    pub fn new() -> (r: Self)
        ensures
            r.stop_set() == english_stop_words(),
    {
        let stop_words = strings_of(&ENGLISH_STOP_WORDS);
        SimpleTokenizer { stop_words }
    }
}

impl Default for SimpleTokenizer {
    fn default() -> (r: Self)
        ensures
            r.stop_set() == english_stop_words(),
    {
        Self::new()
    }
}

impl Tokenizer for SimpleTokenizer {
    open spec fn spec_tokenize(&self, text: Seq<char>) -> Seq<Seq<char>> {
        english_tokens(text, self.stop_set())
    }

    fn tokenize(&self, text: &str) -> (r: Vec<String>)
        ensures
            text@.len() == 0 ==> r@.len() == 0,
    {
        english_words(text, &self.stop_words)
    }
}


// ========== Chinese words (jieba) ==========

#[verifier::external_type_specification]
#[verifier::external_body]
pub struct ExJieba(Jieba);

/// The words that jieba's search mode (`Jieba::cut_for_search` with HMM
/// enabled, default dictionary) cuts `text` into: each word of its cut,
/// preceded, for a word of more than two characters, by the two- and
/// three-character sub-words found in the dictionary.
pub uninterp spec fn jieba_search_words(text: Seq<char>) -> Seq<Seq<char>>;

/// `Jieba::new`: a segmenter loaded with jieba's default dictionary.
/// Nothing is stated of the value, which is opaque here.
#[verifier::external_body]
fn new_jieba() -> Jieba {
    Jieba::new()
}

/// `w` is a non-empty run of consecutive characters of `text`.
pub open spec fn piece_of(w: Seq<char>, text: Seq<char>) -> bool {
    &&& w.len() > 0
    &&& exists|i: int| 0 <= i && i + w.len() <= text.len() && #[trigger] text.subrange(i, i + w.len()) == w
}

/// `Jieba::cut_for_search(text, true)`, each word copied into a `String`.
/// Its result is named by [`jieba_search_words`]: every `Jieba` this library
/// holds comes from [`new_jieba`] and is never modified, so the dictionary
/// behind the call is always the default one.
#[verifier::external_body]
fn cut_for_search(jieba: &Jieba, text: &str) -> (r: Vec<String>)
    ensures
        views(r@) == jieba_search_words(text@),
        forall|k: int| 0 <= k < r@.len() ==> piece_of(#[trigger] r@[k]@, text@),
{
    jieba.cut_for_search(text, true).into_iter().map(|w| w.to_string()).collect()
}

/// A jieba word is kept when it is not empty, is not a stop word and holds
/// at least one alphanumeric or CJK character.
pub open spec fn keep_chinese(stop: Seq<Seq<char>>, w: Seq<char>) -> bool {
    &&& w.len() > 0
    &&& !stop.contains(w)
    &&& exists|i: int| 0 <= i < w.len() && (alphanumeric(#[trigger] w[i]) || cjk_char(w[i]))
}

/// The Chinese tokens of `text`: the kept words of jieba's search mode.
pub open spec fn chinese_tokens(text: Seq<char>, stop: Seq<Seq<char>>) -> Seq<Seq<char>> {
    jieba_search_words(text).filter(|w: Seq<char>| keep_chinese(stop, w))
}

/// Whether some character of `w` is alphanumeric or CJK.
fn has_word_char(w: &String) -> (r: bool)
    ensures
        r == exists|i: int| 0 <= i < w@.len() && (alphanumeric(#[trigger] w@[i]) || cjk_char(
            w@[i],
        )),
{
    let chars = chars_of(w.as_str());
    let mut i: usize = 0;
    while i < chars.len()
        invariant
            0 <= i <= chars.len(),
            chars@ == w@,
            forall|j: int| 0 <= j < i ==> !(alphanumeric(#[trigger] chars@[j]) || cjk_char(chars@[j])),
        decreases chars.len() - i,
    {
        if is_alphanumeric(chars[i]) || is_cjk(chars[i]) {
            return true;
        }
        i = i + 1;
    }
    false
}

/// The Chinese tokens of `text` with the given stop words.
fn chinese_words(jieba: &Jieba, text: &str, stop: &Vec<String>) -> (r: Vec<String>)
    ensures
        views(r@) == chinese_tokens(text@, views(stop@)),
        forall|k: int| 0 <= k < r@.len() ==> piece_of(#[trigger] r@[k]@, text@),
{
    let words = cut_for_search(jieba, text);
    let ghost keep = |w: Seq<char>| keep_chinese(views(stop@), w);
    let mut out: Vec<String> = Vec::new();
    let mut i: usize = 0;
    while i < words.len()
        invariant
            0 <= i <= words.len(),
            views(words@) == jieba_search_words(text@),
            keep == (|w: Seq<char>| keep_chinese(views(stop@), w)),
            views(out@) == views(words@).take(i as int).filter(keep),
            forall|k: int| 0 <= k < words@.len() ==> piece_of(#[trigger] words@[k]@, text@),
            forall|k: int| 0 <= k < out@.len() ==> piece_of(#[trigger] out@[k]@, text@),
        decreases words.len() - i,
    {
        let w = &words[i];
        assert(piece_of(words@[i as int]@, text@));
        let ghost before = out@;
        assert(views(words@).take(i + 1) =~= views(words@).take(i as int).push(w@));
        proof {
            views(words@).take(i as int).lemma_filter_push(w@, keep);
        }
        if !w.as_str().is_empty() && !contains_string(stop, w) && has_word_char(w) {
            let c = w.clone();
            out.push(c);
            assert(views(out@) =~= views(before).push(w@));
            assert forall|k: int| 0 <= k < out@.len() implies piece_of(#[trigger] out@[k]@, text@) by {
                if k < before.len() {
                    assert(out@[k] == before[k]);
                }
            }
        }
        i = i + 1;
    }
    assert(views(words@).take(i as int) =~= views(words@));
    out
}

// ========== JiebaTokenizer ==========

/// Chinese tokenizer: jieba's search-mode words, without Chinese stop words
/// and without words that hold no alphanumeric or CJK character.
pub struct JiebaTokenizer {
    stop_words: Vec<String>,
    jieba: Jieba,
}

impl JiebaTokenizer {
    /// The stop words this tokenizer drops.
    pub closed spec fn stop_set(&self) -> Seq<Seq<char>> {
        views(self.stop_words@)
    }

    /// A tokenizer with the Chinese stop words and jieba's default dictionary.
    pub fn new() -> (r: Self)
        ensures
            r.stop_set() == chinese_stop_words(),
    {
        let stop_words = strings_of(&CHINESE_STOP_WORDS);
        JiebaTokenizer { stop_words, jieba: new_jieba() }
    }
}

impl Default for JiebaTokenizer {
    fn default() -> (r: Self)
        ensures
            r.stop_set() == chinese_stop_words(),
    {
        Self::new()
    }
}

impl Tokenizer for JiebaTokenizer {
    open spec fn spec_tokenize(&self, text: Seq<char>) -> Seq<Seq<char>> {
        chinese_tokens(text, self.stop_set())
    }

    fn tokenize(&self, text: &str) -> (r: Vec<String>) {
        chinese_words(&self.jieba, text, &self.stop_words)
    }
}


// ========== MixedTokenizer ==========

/// The tokens of one run: Chinese tokens for a CJK run, English tokens
/// otherwise.
pub open spec fn run_tokens(
    run: (bool, Seq<char>),
    en: Seq<Seq<char>>,
    zh: Seq<Seq<char>>,
) -> Seq<Seq<char>> {
    if run.0 {
        chinese_tokens(run.1, zh)
    } else {
        english_tokens(run.1, en)
    }
}

/// The tokens of `text`: the tokens of its CJK and non-CJK runs, in order.
pub open spec fn mixed_tokens(
    text: Seq<char>,
    en: Seq<Seq<char>>,
    zh: Seq<Seq<char>>,
) -> Seq<Seq<char>> {
    cjk_runs(text).map_values(|run: (bool, Seq<char>)| run_tokens(run, en, zh)).flatten()
}

/// A token the mixed tokenizer may give: non-empty, and either made of CJK
/// characters only (a jieba word of a CJK run) or of more than one
/// alphanumeric character and not an English stop word.
pub open spec fn mixed_token_ok(w: Seq<char>, en: Seq<Seq<char>>) -> bool {
    &&& w.len() > 0
    &&& (forall|j: int| 0 <= j < w.len() ==> cjk_char(#[trigger] w[j])) || (w.len() > 1
        && !en.contains(w) && forall|j: int| 0 <= j < w.len() ==> alphanumeric(#[trigger] w[j]))
}

/// Mixed Chinese/English tokenizer: splits the text at CJK boundaries, gives
/// CJK runs to jieba (with Chinese stop words) and the other runs to the
/// English rules (with English stop words), and concatenates the tokens.
pub struct MixedTokenizer {
    en_stop_words: Vec<String>,
    zh_stop_words: Vec<String>,
    jieba: Jieba,
}

impl MixedTokenizer {
    /// The English stop words this tokenizer drops.
    pub closed spec fn en_stop_set(&self) -> Seq<Seq<char>> {
        views(self.en_stop_words@)
    }

    /// The Chinese stop words this tokenizer drops.
    pub closed spec fn zh_stop_set(&self) -> Seq<Seq<char>> {
        views(self.zh_stop_words@)
    }

    /// A tokenizer with both stop-word lists and jieba's default dictionary.
    pub fn new() -> (r: Self)
        ensures
            r.en_stop_set() == english_stop_words(),
            r.zh_stop_set() == chinese_stop_words(),
    {
        let en_stop_words = strings_of(&ENGLISH_STOP_WORDS);
        let zh_stop_words = strings_of(&CHINESE_STOP_WORDS);
        MixedTokenizer { en_stop_words, zh_stop_words, jieba: new_jieba() }
    }

    /// The tokens of a CJK run.
    pub fn tokenize_cjk(&self, text: &str) -> (r: Vec<String>)
        ensures
            views(r@) == chinese_tokens(text@, self.zh_stop_set()),
            forall|k: int| 0 <= k < r@.len() ==> piece_of(#[trigger] r@[k]@, text@),
    {
        chinese_words(&self.jieba, text, &self.zh_stop_words)
    }

    /// The tokens of a non-CJK run.
    pub fn tokenize_non_cjk(&self, text: &str) -> (r: Vec<String>)
        ensures
            views(r@) == english_tokens(text@, self.en_stop_set()),
            text@.len() == 0 ==> r@.len() == 0,
    {
        english_words(text, &self.en_stop_words)
    }
}

impl Default for MixedTokenizer {
    fn default() -> (r: Self)
        ensures
            r.en_stop_set() == english_stop_words(),
            r.zh_stop_set() == chinese_stop_words(),
    {
        Self::new()
    }
}

impl Tokenizer for MixedTokenizer {
    open spec fn spec_tokenize(&self, text: Seq<char>) -> Seq<Seq<char>> {
        mixed_tokens(text, self.en_stop_set(), self.zh_stop_set())
    }

    fn tokenize(&self, text: &str) -> (r: Vec<String>)
        ensures
            text@.len() == 0 ==> r@.len() == 0,
            forall|k: int| 0 <= k < r@.len() ==> mixed_token_ok(#[trigger] r@[k]@, self.en_stop_set()),
    {
        let segments = segment_by_cjk(text);
        proof {
            lemma_cjk_runs_partition(text@);
        }
        let ghost en = self.en_stop_set();
        let ghost zh = self.zh_stop_set();
        let ghost f = |run: (bool, Seq<char>)| run_tokens(run, en, zh);
        let mut tokens: Vec<String> = Vec::new();
        let mut i: usize = 0;
        while i < segments.len()
            invariant
                0 <= i <= segments.len(),
                segment_views(segments@) == cjk_runs(text@),
                en == self.en_stop_set(),
                zh == self.zh_stop_set(),
                f == (|run: (bool, Seq<char>)| run_tokens(run, en, zh)),
                views(tokens@) == segment_views(segments@).take(i as int).map_values(f).flatten(),
                forall|j: int, c: int|
                    0 <= j < cjk_runs(text@).len() && 0 <= c < cjk_runs(text@)[j].1.len() ==> cjk_char(
                        #[trigger] cjk_runs(text@)[j].1[c],
                    ) == cjk_runs(text@)[j].0,
                forall|k: int| 0 <= k < tokens@.len() ==> mixed_token_ok(#[trigger] tokens@[k]@, en),
            decreases segments.len() - i,
        {
            let ghost before = tokens@;
            let ghost run = segments@[i as int]@;
            assert(segment_views(segments@)[i as int] == run);
            let mut more = match &segments[i] {
                TextSegment::Cjk(s) => {
                    let m = self.tokenize_cjk(s.as_str());
                    proof {
                        assert forall|k: int| 0 <= k < m@.len() implies mixed_token_ok(
                            #[trigger] m@[k]@,
                            en,
                        ) by {
                            let w = m@[k]@;
                            assert(piece_of(w, s@));
                            let p = choose|p: int|
                                0 <= p && p + w.len() <= s@.len() && #[trigger] s@.subrange(p, p + w.len()) == w;
                            assert forall|c: int| 0 <= c < w.len() implies cjk_char(#[trigger] w[c]) by {
                                assert(w[c] == s@[p + c]);
                                assert(cjk_runs(text@)[i as int].1[p + c] == s@[p + c]);
                            }
                        }
                    }
                    m
                },
                TextSegment::NonCjk(s) => {
                    let m = self.tokenize_non_cjk(s.as_str());
                    proof {
                        lemma_english_token_properties(s@, en);
                        assert forall|k: int| 0 <= k < m@.len() implies mixed_token_ok(
                            #[trigger] m@[k]@,
                            en,
                        ) by {
                            assert(views(m@)[k] == m@[k]@);
                            assert(english_tokens(s@, en)[k] == m@[k]@);
                        }
                    }
                    m
                },
            };
            assert(views(more@) == f(run));
            let ghost added = more@;
            tokens.append(&mut more);
            proof {
                assert forall|k: int| 0 <= k < tokens@.len() implies mixed_token_ok(#[trigger] tokens@[k]@, en) by {
                    if k < before.len() {
                        assert(tokens@[k] == before[k]);
                    } else {
                        assert(tokens@[k] == added[k - before.len()]);
                    }
                }
                let runs = segment_views(segments@);
                assert(runs[i as int] == run);
                assert(views(tokens@) =~= views(before) + views(added));
                assert(runs.take(i + 1).map_values(f) =~= runs.take(i as int).map_values(f).push(
                    f(run),
                ));
                runs.take(i as int).map_values(f).lemma_flatten_push(f(run));
            }
            i = i + 1;
        }
        assert(segment_views(segments@).take(i as int) =~= segment_views(segments@));
        tokens
    }
}


// ========== Laws ==========

/// The runs of a text split it: their texts, concatenated in order, give the
/// text back; no run is empty; every character of a run is CJK exactly when
/// the run is marked CJK; and neighbouring runs differ in kind.
pub proof fn lemma_cjk_runs_partition(s: Seq<char>)
    ensures
        cjk_runs(s).map_values(|r: (bool, Seq<char>)| r.1).flatten() == s,
        forall|i: int| 0 <= i < cjk_runs(s).len() ==> (#[trigger] cjk_runs(s)[i]).1.len() > 0,
        forall|i: int, j: int|
            0 <= i < cjk_runs(s).len() && 0 <= j < cjk_runs(s)[i].1.len() ==> cjk_char(
                #[trigger] cjk_runs(s)[i].1[j],
            ) == cjk_runs(s)[i].0,
        forall|i: int| 0 < i < cjk_runs(s).len() ==> (#[trigger] cjk_runs(s)[i]).0 != cjk_runs(s)[i - 1].0,
    decreases s.len(),
{
    let f = |r: (bool, Seq<char>)| r.1;
    if s.len() == 0 {
        assert(cjk_runs(s).map_values(f) =~= Seq::<Seq<char>>::empty());
        assert(s =~= Seq::<char>::empty());
    } else {
        let d = s.drop_last();
        let c = s.last();
        lemma_cjk_runs_partition(d);
        let prev = cjk_runs(d);
        let runs = cjk_runs(s);
        if prev.len() > 0 && prev.last().0 == cjk_char(c) {
            let last = (prev.last().0, prev.last().1.push(c));
            assert(runs == prev.update(prev.len() - 1, last));
            assert(prev =~= prev.drop_last().push(prev.last()));
            assert(runs =~= prev.drop_last().push(last));
            prev.drop_last().map_values(f).lemma_flatten_push(prev.last().1);
            assert(prev.map_values(f) =~= prev.drop_last().map_values(f).push(prev.last().1));
            assert(runs.map_values(f) =~= prev.drop_last().map_values(f).push(last.1));
            prev.drop_last().map_values(f).lemma_flatten_push(last.1);
            assert(s =~= d.push(c));
            assert(runs.map_values(f).flatten() =~= s);
            assert forall|i: int, j: int|
                0 <= i < runs.len() && 0 <= j < runs[i].1.len() implies cjk_char(
                #[trigger] runs[i].1[j],
            ) == runs[i].0 by {
                if i == runs.len() - 1 && j < prev.last().1.len() {
                    assert(runs[i].1[j] == prev[i].1[j]);
                }
            }
        } else {
            let last = (cjk_char(c), seq![c]);
            assert(runs == prev.push(last));
            assert(runs.map_values(f) =~= prev.map_values(f).push(seq![c]));
            prev.map_values(f).lemma_flatten_push(seq![c]);
            assert(s =~= d + seq![c]);
        }
    }
}

/// A non-empty text without CJK characters is one non-CJK run.
pub proof fn lemma_runs_of_non_cjk(s: Seq<char>)
    requires
        s.len() > 0,
        forall|i: int| 0 <= i < s.len() ==> !cjk_char(#[trigger] s[i]),
    ensures
        cjk_runs(s) == seq![(false, s)],
    decreases s.len(),
{
    if s.len() == 1 {
        assert(s.drop_last() =~= Seq::<char>::empty());
        assert(cjk_runs(s.drop_last()) =~= Seq::<(bool, Seq<char>)>::empty());
        assert(!cjk_char(s[0]));
        assert(seq![s.last()] =~= s);
        assert(cjk_runs(s) =~~= seq![(false, s)]);
    } else {
        lemma_runs_of_non_cjk(s.drop_last());
        assert(s.drop_last().push(s.last()) =~= s);
        let prev = cjk_runs(s.drop_last());
        assert(prev.last() == (false, s.drop_last()));
        assert(cjk_runs(s) =~~= seq![(false, s)]);
    }
}

/// A non-empty text of CJK characters is one CJK run.
pub proof fn lemma_runs_of_cjk(s: Seq<char>)
    requires
        s.len() > 0,
        forall|i: int| 0 <= i < s.len() ==> cjk_char(#[trigger] s[i]),
    ensures
        cjk_runs(s) == seq![(true, s)],
    decreases s.len(),
{
    if s.len() == 1 {
        assert(s.drop_last() =~= Seq::<char>::empty());
        assert(cjk_runs(s.drop_last()) =~= Seq::<(bool, Seq<char>)>::empty());
        assert(cjk_char(s[0]));
        assert(seq![s.last()] =~= s);
        assert(cjk_runs(s) =~~= seq![(true, s)]);
    } else {
        lemma_runs_of_cjk(s.drop_last());
        assert(s.drop_last().push(s.last()) =~= s);
        let prev = cjk_runs(s.drop_last());
        assert(prev.last() == (true, s.drop_last()));
        assert(cjk_runs(s) =~~= seq![(true, s)]);
    }
}

/// On a non-empty text without CJK characters, the mixed tokenizer gives the
/// English tokenizer's tokens; on a non-empty text of CJK characters, the
/// Chinese tokenizer's tokens.
pub proof fn lemma_mixed_single_script(
    text: Seq<char>,
    en: Seq<Seq<char>>,
    zh: Seq<Seq<char>>,
)
    requires
        text.len() > 0,
    ensures
        (forall|i: int| 0 <= i < text.len() ==> !cjk_char(#[trigger] text[i])) ==> mixed_tokens(
            text,
            en,
            zh,
        ) == english_tokens(text, en),
        (forall|i: int| 0 <= i < text.len() ==> cjk_char(#[trigger] text[i])) ==> mixed_tokens(
            text,
            en,
            zh,
        ) == chinese_tokens(text, zh),
{
    let f = |run: (bool, Seq<char>)| run_tokens(run, en, zh);
    if forall|i: int| 0 <= i < text.len() ==> !cjk_char(#[trigger] text[i]) {
        lemma_runs_of_non_cjk(text);
        assert(cjk_runs(text).map_values(f) =~= seq![english_tokens(text, en)]);
        seq![english_tokens(text, en)].lemma_flatten_singleton();
    }
    if forall|i: int| 0 <= i < text.len() ==> cjk_char(#[trigger] text[i]) {
        lemma_runs_of_cjk(text);
        assert(cjk_runs(text).map_values(f) =~= seq![chinese_tokens(text, zh)]);
        seq![chinese_tokens(text, zh)].lemma_flatten_singleton();
    }
}

proof fn lemma_split_pieces_alphanumeric(s: Seq<char>)
    ensures
        forall|i: int, j: int|
            0 <= i < split_pieces(s).len() && 0 <= j < split_pieces(s)[i].len() ==> alphanumeric(
                #[trigger] split_pieces(s)[i][j],
            ),
    decreases s.len(),
{
    if s.len() > 0 {
        lemma_split_pieces_alphanumeric(s.drop_last());
        lemma_split_pieces_nonempty(s.drop_last());
        let p = split_pieces(s.drop_last());
        let q = split_pieces(s);
        assert forall|i: int, j: int| 0 <= i < q.len() && 0 <= j < q[i].len() implies alphanumeric(
            #[trigger] q[i][j],
        ) by {
            if alphanumeric(s.last()) && i == p.len() - 1 && j < p.last().len() {
                assert(q[i][j] == p[i][j]);
            }
        }
    }
}

/// Every English token has more than one character, is not a stop word and
/// is made of alphanumeric characters.
pub proof fn lemma_english_token_properties(text: Seq<char>, stop: Seq<Seq<char>>)
    ensures
        forall|k: int|
            0 <= k < english_tokens(text, stop).len() ==> {
                let w = #[trigger] english_tokens(text, stop)[k];
                &&& w.len() > 1
                &&& !stop.contains(w)
                &&& forall|j: int| 0 <= j < w.len() ==> alphanumeric(#[trigger] w[j])
            },
{
    let keep = |w: Seq<char>| keep_english(stop, w);
    let p = split_pieces(lowercase_of(text));
    p.filter_lemma(keep);
    lemma_split_pieces_alphanumeric(lowercase_of(text));
    assert forall|k: int| 0 <= k < p.filter(keep).len() implies {
        let w = #[trigger] p.filter(keep)[k];
        forall|j: int| 0 <= j < w.len() ==> alphanumeric(#[trigger] w[j])
    } by {
        let w = p.filter(keep)[k];
        assert(p.filter(keep).contains(w));
        p.lemma_filter_contains_rev(keep, w);
        let i = choose|i: int| 0 <= i < p.len() && p[i] == w;
        assert forall|j: int| 0 <= j < w.len() implies alphanumeric(#[trigger] w[j]) by {
            assert(w[j] == p[i][j]);
        }
    }
}

/// Every element of a flattened sequence comes from one of its parts.
proof fn lemma_flatten_member<A>(ss: Seq<Seq<A>>, k: int)
    requires
        0 <= k < ss.flatten().len(),
    ensures
        exists|j: int| 0 <= j < ss.len() && (#[trigger] ss[j]).contains(ss.flatten()[k]),
    decreases ss.len(),
{
    if ss.len() == 0 {
        assert(ss.flatten() =~= Seq::<A>::empty());
    } else {
        let d = ss.drop_last();
        assert(ss =~= d.push(ss.last()));
        d.lemma_flatten_push(ss.last());
        if k < d.flatten().len() {
            lemma_flatten_member(d, k);
            let j = choose|j: int| 0 <= j < d.len() && (#[trigger] d[j]).contains(d.flatten()[k]);
            assert(ss[j] == d[j]);
        } else {
            let x = ss.flatten()[k];
            assert(ss.last()[k - d.flatten().len()] == x);
            assert(ss[ss.len() - 1].contains(x));
        }
    }
}

/// Every token of the mixed tokenizer is a token of one of the text's runs:
/// from a non-CJK run it has more than one character, is not an English
/// stop word and is made of alphanumeric characters; from a CJK run it is
/// a kept jieba word (non-empty, not a Chinese stop word). So no token is
/// empty.
pub proof fn lemma_mixed_token_properties(text: Seq<char>, en: Seq<Seq<char>>, zh: Seq<Seq<char>>)
    ensures
        forall|k: int|
            0 <= k < mixed_tokens(text, en, zh).len() ==> {
                let w = #[trigger] mixed_tokens(text, en, zh)[k];
                &&& w.len() > 0
                &&& exists|j: int|
                    0 <= j < cjk_runs(text).len() && #[trigger] run_tokens(cjk_runs(text)[j], en, zh).contains(w)
                &&& (w.len() > 1 && !en.contains(w) && forall|i: int| 0 <= i < w.len() ==> alphanumeric(#[trigger] w[i]))
                    || keep_chinese(zh, w)
            },
{
    let f = |run: (bool, Seq<char>)| run_tokens(run, en, zh);
    let runs = cjk_runs(text);
    let parts = runs.map_values(f);
    assert forall|k: int| 0 <= k < mixed_tokens(text, en, zh).len() implies {
        let w = #[trigger] mixed_tokens(text, en, zh)[k];
        &&& w.len() > 0
        &&& exists|j: int|
            0 <= j < cjk_runs(text).len() && #[trigger] run_tokens(cjk_runs(text)[j], en, zh).contains(w)
        &&& (w.len() > 1 && !en.contains(w) && forall|i: int| 0 <= i < w.len() ==> alphanumeric(#[trigger] w[i]))
            || keep_chinese(zh, w)
    } by {
        lemma_flatten_member(parts, k);
        let w = parts.flatten()[k];
        let j = choose|j: int| 0 <= j < parts.len() && (#[trigger] parts[j]).contains(w);
        assert(parts[j] == run_tokens(runs[j], en, zh));
        let m = parts[j].index_of(w);
        if runs[j].0 {
            lemma_chinese_token_properties(runs[j].1, zh);
            assert(chinese_tokens(runs[j].1, zh)[m] == w);
        } else {
            lemma_english_token_properties(runs[j].1, en);
            assert(english_tokens(runs[j].1, en)[m] == w);
        }
    }
}

/// Every Chinese token is non-empty, is not a stop word and holds an
/// alphanumeric or CJK character.
pub proof fn lemma_chinese_token_properties(text: Seq<char>, stop: Seq<Seq<char>>)
    ensures
        forall|k: int|
            0 <= k < chinese_tokens(text, stop).len() ==> keep_chinese(
                stop,
                #[trigger] chinese_tokens(text, stop)[k],
            ),
{
    let keep = |w: Seq<char>| keep_chinese(stop, w);
    jieba_search_words(text).filter_lemma(keep);
}

/// Every English stop word starts with an ASCII character.
pub proof fn lemma_english_stop_words_start_ascii()
    ensures
        forall|k: int|
            0 <= k < english_stop_words().len() ==> english_stop_words()[k].len() > 0 && (
            #[trigger] english_stop_words()[k][0] as u32) < 128,
{
    reveal_strlit("a");
    assert(english_stop_words()[0][0] == 'a');
    reveal_strlit("an");
    assert(english_stop_words()[1][0] == 'a');
    reveal_strlit("the");
    assert(english_stop_words()[2][0] == 't');
    reveal_strlit("and");
    assert(english_stop_words()[3][0] == 'a');
    reveal_strlit("or");
    assert(english_stop_words()[4][0] == 'o');
    reveal_strlit("but");
    assert(english_stop_words()[5][0] == 'b');
    reveal_strlit("in");
    assert(english_stop_words()[6][0] == 'i');
    reveal_strlit("on");
    assert(english_stop_words()[7][0] == 'o');
    reveal_strlit("at");
    assert(english_stop_words()[8][0] == 'a');
    reveal_strlit("to");
    assert(english_stop_words()[9][0] == 't');
    reveal_strlit("for");
    assert(english_stop_words()[10][0] == 'f');
    reveal_strlit("of");
    assert(english_stop_words()[11][0] == 'o');
    reveal_strlit("with");
    assert(english_stop_words()[12][0] == 'w');
    reveal_strlit("by");
    assert(english_stop_words()[13][0] == 'b');
    reveal_strlit("from");
    assert(english_stop_words()[14][0] == 'f');
    reveal_strlit("is");
    assert(english_stop_words()[15][0] == 'i');
    reveal_strlit("it");
    assert(english_stop_words()[16][0] == 'i');
    reveal_strlit("that");
    assert(english_stop_words()[17][0] == 't');
    reveal_strlit("this");
    assert(english_stop_words()[18][0] == 't');
    reveal_strlit("was");
    assert(english_stop_words()[19][0] == 'w');
    reveal_strlit("are");
    assert(english_stop_words()[20][0] == 'a');
    reveal_strlit("be");
    assert(english_stop_words()[21][0] == 'b');
    reveal_strlit("been");
    assert(english_stop_words()[22][0] == 'b');
    reveal_strlit("being");
    assert(english_stop_words()[23][0] == 'b');
    reveal_strlit("have");
    assert(english_stop_words()[24][0] == 'h');
    reveal_strlit("has");
    assert(english_stop_words()[25][0] == 'h');
    reveal_strlit("had");
    assert(english_stop_words()[26][0] == 'h');
    reveal_strlit("do");
    assert(english_stop_words()[27][0] == 'd');
    reveal_strlit("does");
    assert(english_stop_words()[28][0] == 'd');
    reveal_strlit("did");
    assert(english_stop_words()[29][0] == 'd');
    reveal_strlit("will");
    assert(english_stop_words()[30][0] == 'w');
    reveal_strlit("would");
    assert(english_stop_words()[31][0] == 'w');
    reveal_strlit("could");
    assert(english_stop_words()[32][0] == 'c');
    reveal_strlit("should");
    assert(english_stop_words()[33][0] == 's');
    reveal_strlit("may");
    assert(english_stop_words()[34][0] == 'm');
    reveal_strlit("might");
    assert(english_stop_words()[35][0] == 'm');
    reveal_strlit("can");
    assert(english_stop_words()[36][0] == 'c');
    reveal_strlit("shall");
    assert(english_stop_words()[37][0] == 's');
    reveal_strlit("not");
    assert(english_stop_words()[38][0] == 'n');
    reveal_strlit("no");
    assert(english_stop_words()[39][0] == 'n');
    reveal_strlit("nor");
    assert(english_stop_words()[40][0] == 'n');
    reveal_strlit("so");
    assert(english_stop_words()[41][0] == 's');
    reveal_strlit("if");
    assert(english_stop_words()[42][0] == 'i');
    reveal_strlit("then");
    assert(english_stop_words()[43][0] == 't');
    reveal_strlit("than");
    assert(english_stop_words()[44][0] == 't');
    reveal_strlit("too");
    assert(english_stop_words()[45][0] == 't');
    reveal_strlit("very");
    assert(english_stop_words()[46][0] == 'v');
    reveal_strlit("just");
    assert(english_stop_words()[47][0] == 'j');
    reveal_strlit("about");
    assert(english_stop_words()[48][0] == 'a');
    reveal_strlit("above");
    assert(english_stop_words()[49][0] == 'a');
    reveal_strlit("after");
    assert(english_stop_words()[50][0] == 'a');
    reveal_strlit("again");
    assert(english_stop_words()[51][0] == 'a');
    reveal_strlit("all");
    assert(english_stop_words()[52][0] == 'a');
    reveal_strlit("also");
    assert(english_stop_words()[53][0] == 'a');
    reveal_strlit("am");
    assert(english_stop_words()[54][0] == 'a');
    reveal_strlit("as");
    assert(english_stop_words()[55][0] == 'a');
    reveal_strlit("because");
    assert(english_stop_words()[56][0] == 'b');
    reveal_strlit("before");
    assert(english_stop_words()[57][0] == 'b');
    reveal_strlit("between");
    assert(english_stop_words()[58][0] == 'b');
    reveal_strlit("both");
    assert(english_stop_words()[59][0] == 'b');
    reveal_strlit("each");
    assert(english_stop_words()[60][0] == 'e');
    reveal_strlit("few");
    assert(english_stop_words()[61][0] == 'f');
    reveal_strlit("more");
    assert(english_stop_words()[62][0] == 'm');
    reveal_strlit("most");
    assert(english_stop_words()[63][0] == 'm');
    reveal_strlit("other");
    assert(english_stop_words()[64][0] == 'o');
    reveal_strlit("own");
    assert(english_stop_words()[65][0] == 'o');
    reveal_strlit("same");
    assert(english_stop_words()[66][0] == 's');
    reveal_strlit("some");
    assert(english_stop_words()[67][0] == 's');
    reveal_strlit("such");
    assert(english_stop_words()[68][0] == 's');
    reveal_strlit("up");
    assert(english_stop_words()[69][0] == 'u');
    reveal_strlit("out");
    assert(english_stop_words()[70][0] == 'o');
    reveal_strlit("only");
    assert(english_stop_words()[71][0] == 'o');
    reveal_strlit("into");
    assert(english_stop_words()[72][0] == 'i');
    reveal_strlit("over");
    assert(english_stop_words()[73][0] == 'o');
    reveal_strlit("down");
    assert(english_stop_words()[74][0] == 'd');
    reveal_strlit("here");
    assert(english_stop_words()[75][0] == 'h');
    reveal_strlit("there");
    assert(english_stop_words()[76][0] == 't');
    reveal_strlit("when");
    assert(english_stop_words()[77][0] == 'w');
    reveal_strlit("where");
    assert(english_stop_words()[78][0] == 'w');
    reveal_strlit("why");
    assert(english_stop_words()[79][0] == 'w');
    reveal_strlit("how");
    assert(english_stop_words()[80][0] == 'h');
    reveal_strlit("what");
    assert(english_stop_words()[81][0] == 'w');
    reveal_strlit("which");
    assert(english_stop_words()[82][0] == 'w');
    reveal_strlit("who");
    assert(english_stop_words()[83][0] == 'w');
    reveal_strlit("whom");
    assert(english_stop_words()[84][0] == 'w');
    reveal_strlit("he");
    assert(english_stop_words()[85][0] == 'h');
    reveal_strlit("she");
    assert(english_stop_words()[86][0] == 's');
    reveal_strlit("we");
    assert(english_stop_words()[87][0] == 'w');
    reveal_strlit("they");
    assert(english_stop_words()[88][0] == 't');
    reveal_strlit("i");
    assert(english_stop_words()[89][0] == 'i');
    reveal_strlit("me");
    assert(english_stop_words()[90][0] == 'm');
    reveal_strlit("my");
    assert(english_stop_words()[91][0] == 'm');
    reveal_strlit("you");
    assert(english_stop_words()[92][0] == 'y');
    reveal_strlit("your");
    assert(english_stop_words()[93][0] == 'y');
    assert forall|k: int| 0 <= k < english_stop_words().len() implies english_stop_words()[k].len()
        > 0 && (#[trigger] english_stop_words()[k][0] as u32) < 128 by {
        assert(
            k == 0 || k == 1 || k == 2 || k == 3 || k == 4 || k == 5 || k == 6 || k == 7 || k == 8 || k == 9
                || k == 10 || k == 11 || k == 12 || k == 13 || k == 14 || k == 15 || k == 16 || k == 17 || k == 18 || k == 19
                || k == 20 || k == 21 || k == 22 || k == 23 || k == 24 || k == 25 || k == 26 || k == 27 || k == 28 || k == 29
                || k == 30 || k == 31 || k == 32 || k == 33 || k == 34 || k == 35 || k == 36 || k == 37 || k == 38 || k == 39
                || k == 40 || k == 41 || k == 42 || k == 43 || k == 44 || k == 45 || k == 46 || k == 47 || k == 48 || k == 49
                || k == 50 || k == 51 || k == 52 || k == 53 || k == 54 || k == 55 || k == 56 || k == 57 || k == 58 || k == 59
                || k == 60 || k == 61 || k == 62 || k == 63 || k == 64 || k == 65 || k == 66 || k == 67 || k == 68 || k == 69
                || k == 70 || k == 71 || k == 72 || k == 73 || k == 74 || k == 75 || k == 76 || k == 77 || k == 78 || k == 79
                || k == 80 || k == 81 || k == 82 || k == 83 || k == 84 || k == 85 || k == 86 || k == 87 || k == 88 || k == 89
                || k == 90 || k == 91 || k == 92 || k == 93
        );
    }
}

/// No token of the mixed tokenizer with its default stop words is an
/// English stop word: a jieba word of a CJK run starts with a CJK character,
/// which no English stop word does, and a word of a non-CJK run was checked
/// against the list.
pub proof fn lemma_mixed_token_not_english_stop_word(w: Seq<char>)
    requires
        mixed_token_ok(w, english_stop_words()),
    ensures
        !english_stop_words().contains(w),
{
    if english_stop_words().contains(w) {
        let k = english_stop_words().index_of(w);
        lemma_english_stop_words_start_ascii();
        assert((english_stop_words()[k][0] as u32) < 128);
        assert(!cjk_char(w[0]));
    }
}


/// The Chinese tokens of a text are exactly the words jieba's search mode
/// gives for it that are non-empty, are not stop words and hold an
/// alphanumeric or CJK character, whatever their length: a one-character
/// word such as "猫" is kept.
pub proof fn lemma_chinese_tokens_exact(text: Seq<char>, stop: Seq<Seq<char>>)
    ensures
        forall|w: Seq<char>|
            #[trigger] chinese_tokens(text, stop).contains(w) <==> {
                &&& jieba_search_words(text).contains(w)
                &&& w.len() > 0
                &&& !stop.contains(w)
                &&& exists|i: int| 0 <= i < w.len() && (alphanumeric(#[trigger] w[i]) || cjk_char(w[i]))
            },
{
    let words = jieba_search_words(text);
    let keep = |w: Seq<char>| keep_chinese(stop, w);
    assert forall|w: Seq<char>|
        #[trigger] chinese_tokens(text, stop).contains(w) <==> {
            &&& words.contains(w)
            &&& w.len() > 0
            &&& !stop.contains(w)
            &&& exists|i: int| 0 <= i < w.len() && (alphanumeric(#[trigger] w[i]) || cjk_char(w[i]))
        } by {
        if chinese_tokens(text, stop).contains(w) {
            words.lemma_filter_contains_rev(keep, w);
            lemma_chinese_token_properties(text, stop);
            let k = choose|k: int| 0 <= k < chinese_tokens(text, stop).len() && chinese_tokens(text, stop)[k] == w;
            assert(keep_chinese(stop, chinese_tokens(text, stop)[k]));
        }
        if words.contains(w) && w.len() > 0 && !stop.contains(w) && exists|i: int|
            0 <= i < w.len() && (alphanumeric(#[trigger] w[i]) || cjk_char(w[i])) {
            let k = choose|k: int| 0 <= k < words.len() && words[k] == w;
            assert(keep(words[k]));
            words.lemma_filter_contains(keep, k);
        }
    }
}

/// A non-empty text of CJK characters gives, under the mixed tokenizer, each
/// word jieba finds in it that is non-empty, not a Chinese stop word and
/// holds an alphanumeric or CJK character, and no other token.
pub proof fn lemma_mixed_cjk_text_tokens(text: Seq<char>, en: Seq<Seq<char>>, zh: Seq<Seq<char>>)
    requires
        text.len() > 0,
        forall|i: int| 0 <= i < text.len() ==> cjk_char(#[trigger] text[i]),
    ensures
        forall|w: Seq<char>|
            #[trigger] mixed_tokens(text, en, zh).contains(w) <==> {
                &&& jieba_search_words(text).contains(w)
                &&& w.len() > 0
                &&& !zh.contains(w)
                &&& exists|i: int| 0 <= i < w.len() && (alphanumeric(#[trigger] w[i]) || cjk_char(w[i]))
            },
{
    lemma_mixed_single_script(text, en, zh);
    lemma_chinese_tokens_exact(text, zh);
}

} // verus!
