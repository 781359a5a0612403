//! The inverted index: for each token, the documents it occurs in, how often
//! and at which token positions; and for each document its metadata.
use vstd::prelude::*;
use std::collections::HashMap;
use crate::parser::{DocId, Document};
use crate::text::views;
use vstd::std_specs::iter::IteratorSpec;
use vstd::relations::injective_on;
use vstd::set_lib::{lemma_int_range, lemma_map_size, lemma_set_disjoint_lens, set_int_range};
use crate::scanner::{char_order, chars_less, lemma_char_order_total, lemma_lex_strict_total, lex_lt, strict_total};
pub use crate::tokenizer::{SimpleTokenizer, Tokenizer};

verus! {

broadcast use vstd::std_specs::hash::group_hash_axioms;

/// Where a token occurs in one document.
#[derive(Debug, Clone)]
pub struct Posting {
    pub doc_id: DocId,
    pub term_freq: usize,
    /// Positions of the token in the document's token sequence.
    pub positions: Vec<usize>,
}

/// The abstract content of a [`Posting`].
pub struct PostingView {
    pub doc_id: DocId,
    pub term_freq: nat,
    pub positions: Seq<int>,
}

impl View for Posting {
    type V = PostingView;

    open spec fn view(&self) -> PostingView {
        PostingView {
            doc_id: self.doc_id,
            term_freq: self.term_freq as nat,
            positions: self.positions@.map_values(|p: usize| p as int),
        }
    }
}

/// The views of a sequence of postings.
pub open spec fn posting_views(v: Seq<Posting>) -> Seq<PostingView> {
    v.map_values(|p: Posting| p@)
}

/// Document metadata kept by the index (the full text is not kept).
#[derive(Debug, Clone)]
pub struct DocumentMeta {
    pub id: DocId,
    pub path: String,
    pub title: String,
    /// Number of tokens of the document.
    pub doc_length: usize,
}

/// The abstract content of a [`DocumentMeta`].
pub struct DocumentMetaView {
    pub id: DocId,
    pub path: Seq<char>,
    pub title: Seq<char>,
    pub doc_length: nat,
}

impl View for DocumentMeta {
    type V = DocumentMetaView;

    open spec fn view(&self) -> DocumentMetaView {
        DocumentMetaView {
            id: self.id,
            path: self.path@,
            title: self.title@,
            doc_length: self.doc_length as nat,
        }
    }
}

/// Index statistics.
#[derive(Debug, Clone)]
pub struct IndexStats {
    pub doc_count: usize,
    pub vocab_size: usize,
    pub total_postings: usize,
}

// ========== The token → postings table ==========

/// A map from tokens to their posting lists.
pub struct PostingTable {
    entries: Vec<(String, Vec<Posting>)>,
}

/// The tokens of a sequence of table entries.
pub open spec fn entry_keys(e: Seq<(String, Vec<Posting>)>) -> Seq<Seq<char>> {
    e.map_values(|x: (String, Vec<Posting>)| x.0@)
}

/// The map described by a sequence of table entries with distinct tokens.
pub open spec fn table_view(e: Seq<(String, Vec<Posting>)>) -> Map<Seq<char>, Seq<PostingView>> {
    let keys = entry_keys(e);
    Map::new(|k: Seq<char>| keys.contains(k), |k: Seq<char>| posting_views(e[keys.index_of(k)].1@))
}

/// Entry `i` of a table with distinct tokens is what the map gives for its token.
proof fn lemma_entry_at(e: Seq<(String, Vec<Posting>)>, i: int)
    requires
        entry_keys(e).no_duplicates(),
        0 <= i < e.len(),
    ensures
        table_view(e).contains_key(e[i].0@),
        table_view(e)[e[i].0@] == posting_views(e[i].1@),
{
    let keys = entry_keys(e);
    assert(keys[i] == e[i].0@);
    assert(keys.contains(keys[i]));
    let j = keys.index_of(keys[i]);
    assert(j == i);
}

/// Replacing the list of entry `i` replaces the map's value for its token.
proof fn lemma_table_update(e: Seq<(String, Vec<Posting>)>, i: int, list: Vec<Posting>)
    requires
        entry_keys(e).no_duplicates(),
        0 <= i < e.len(),
    ensures
        entry_keys(e.update(i, (e[i].0, list))) == entry_keys(e),
        table_view(e.update(i, (e[i].0, list))) == table_view(e).insert(
            e[i].0@,
            posting_views(list@),
        ),
{
    let e2 = e.update(i, (e[i].0, list));
    let keys = entry_keys(e);
    assert(entry_keys(e2) =~= keys);
    let m = table_view(e).insert(e[i].0@, posting_views(list@));
    assert forall|k: Seq<char>| #[trigger] table_view(e2).contains_key(k) implies table_view(e2)[k]
        == m[k] by {
        let j = keys.index_of(k);
        assert(keys[j] == k);
        if j != i {
            lemma_entry_at(e, j);
        }
        assert(keys[i] == e[i].0@);
    }
    assert(table_view(e2).dom() =~= m.dom()) by {
        assert(keys[i] == e[i].0@);
    }
    assert(table_view(e2) =~= m);
}

/// Appending an entry for a new token adds that token to the map.
proof fn lemma_table_push(e: Seq<(String, Vec<Posting>)>, key: String, list: Vec<Posting>)
    requires
        entry_keys(e).no_duplicates(),
        !table_view(e).contains_key(key@),
    ensures
        entry_keys(e.push((key, list))).no_duplicates(),
        table_view(e.push((key, list))) == table_view(e).insert(key@, posting_views(list@)),
{
    let e2 = e.push((key, list));
    let keys = entry_keys(e);
    let keys2 = entry_keys(e2);
    assert(keys2 =~= keys.push(key@));
    let m = table_view(e).insert(key@, posting_views(list@));
    assert forall|k: Seq<char>| #[trigger] table_view(e2).contains_key(k) implies table_view(e2)[k]
        == m[k] by {
        let j = keys2.index_of(k);
        if j < e.len() {
            assert(keys[j] == k);
            lemma_entry_at(e, j);
        }
    }
    assert forall|k: Seq<char>| #[trigger] m.contains_key(k) implies table_view(e2).contains_key(
        k,
    ) by {
        if k == key@ {
            assert(keys2[e.len() as int] == k);
        } else {
            let j = keys.index_of(k);
            assert(keys2[j] == k);
        }
    }
    assert(table_view(e2).dom() =~= m.dom());
    assert(table_view(e2) =~= m);
}

/// A table with distinct tokens has as many tokens as entries.
proof fn lemma_table_len(e: Seq<(String, Vec<Posting>)>)
    requires
        entry_keys(e).no_duplicates(),
    ensures
        table_view(e).len() == e.len(),
        table_view(e).dom().finite(),
{
    let keys = entry_keys(e);
    keys.unique_seq_to_set();
    assert(table_view(e).dom() =~= keys.to_set());
}

/// All (token, list index) pairs of a postings map: one per posting.
pub open spec fn posting_slots(m: Map<Seq<char>, Seq<PostingView>>) -> Set<(Seq<char>, int)> {
    Set::new(|p: (Seq<char>, int)| m.contains_key(p.0) && 0 <= p.1 < m[p.0].len())
}

/// The pairs (k, i) for 0 <= i < n.
spec fn slots_of(k: Seq<char>, n: nat) -> Set<(Seq<char>, int)> {
    Set::new(|p: (Seq<char>, int)| p.0 == k && 0 <= p.1 < n)
}

proof fn lemma_slots_of_len(k: Seq<char>, n: nat)
    ensures
        slots_of(k, n).finite(),
        slots_of(k, n).len() == n,
    decreases n,
{
    if n == 0 {
        assert(slots_of(k, n) =~= Set::empty());
    } else {
        lemma_slots_of_len(k, (n - 1) as nat);
        assert(slots_of(k, n) =~= slots_of(k, (n - 1) as nat).insert((k, n - 1)));
    }
}

/// Sum of the list lengths of a sequence of entries.
spec fn sum_lengths(e: Seq<(String, Vec<Posting>)>) -> nat
    decreases e.len(),
{
    if e.len() == 0 {
        0
    } else {
        sum_lengths(e.drop_last()) + e.last().1@.len()
    }
}

proof fn lemma_sum_lengths_prefix(e: Seq<(String, Vec<Posting>)>, j: int)
    requires
        0 <= j <= e.len(),
    ensures
        sum_lengths(e.take(j)) <= sum_lengths(e),
    decreases e.len() - j,
{
    if j < e.len() {
        lemma_sum_lengths_prefix(e, j + 1);
        assert(e.take(j + 1).drop_last() =~= e.take(j));
    } else {
        assert(e.take(j) =~= e);
    }
}

/// The slots of a table with distinct tokens are finite and as many as the
/// sum of its list lengths.
proof fn lemma_table_slots(e: Seq<(String, Vec<Posting>)>)
    requires
        entry_keys(e).no_duplicates(),
    ensures
        posting_slots(table_view(e)).finite(),
        posting_slots(table_view(e)).len() == sum_lengths(e),
    decreases e.len(),
{
    if e.len() == 0 {
        assert(posting_slots(table_view(e)) =~= Set::empty());
    } else {
        let d = e.drop_last();
        let x = e.last();
        assert(entry_keys(d) =~= entry_keys(e).drop_last());
        lemma_table_slots(d);
        assert(!table_view(d).contains_key(x.0@)) by {
            if table_view(d).contains_key(x.0@) {
                let j = entry_keys(d).index_of(x.0@);
                assert(entry_keys(e)[j] == entry_keys(e)[e.len() - 1]);
            }
        }
        lemma_table_push(d, x.0, x.1);
        assert(d.push((x.0, x.1)) =~= e);
        lemma_slots_of_len(x.0@, x.1@.len());
        let a = posting_slots(table_view(d));
        let b = slots_of(x.0@, x.1@.len());
        assert(posting_slots(table_view(e)) =~= a + b);
        assert(a.disjoint(b));
        vstd::set_lib::lemma_set_disjoint_lens(a, b);
    }
}

/// The map obtained by inserting the entries `e` in order into an empty
/// table.
pub open spec fn inserted_entries(e: Seq<(String, Vec<Posting>)>) -> Map<Seq<char>, Seq<PostingView>>
    decreases e.len(),
{
    if e.len() == 0 {
        Map::empty()
    } else {
        inserted_entries(e.drop_last()).insert(e.last().0@, posting_views(e.last().1@))
    }
}

proof fn lemma_inserted_entries(e: Seq<(String, Vec<Posting>)>)
    requires
        entry_keys(e).no_duplicates(),
    ensures
        inserted_entries(e) == table_view(e),
    decreases e.len(),
{
    if e.len() == 0 {
        assert(table_view(e) =~= Map::<Seq<char>, Seq<PostingView>>::empty());
    } else {
        let d = e.drop_last();
        assert(entry_keys(d) =~= entry_keys(e).drop_last());
        lemma_inserted_entries(d);
        assert(!table_view(d).contains_key(e.last().0@)) by {
            if table_view(d).contains_key(e.last().0@) {
                let j = entry_keys(d).index_of(e.last().0@);
                assert(entry_keys(e)[j] == entry_keys(e)[e.len() - 1]);
            }
        }
        lemma_table_push(d, e.last().0, e.last().1);
        assert(d.push((e.last().0, e.last().1)) =~= e);
    }
}

impl View for PostingTable {
    type V = Map<Seq<char>, Seq<PostingView>>;

    closed spec fn view(&self) -> Map<Seq<char>, Seq<PostingView>> {
        table_view(self.entries@)
    }
}

impl PostingTable {
    #[verifier::type_invariant]
    closed spec fn distinct_tokens(&self) -> bool {
        entry_keys(self.entries@).no_duplicates()
    }

    /// The entries of the table, in the order [`PostingTable::entries`]
    /// returns them.
    pub closed spec fn entries_spec(&self) -> Seq<(String, Vec<Posting>)> {
        self.entries@
    }

    /// An empty table.
    pub fn new() -> (r: Self)
        ensures
            r@ == Map::<Seq<char>, Seq<PostingView>>::empty(),
    {
        let r = PostingTable { entries: Vec::new() };
        assert(r@ =~= Map::<Seq<char>, Seq<PostingView>>::empty());
        r
    }

    /// The number of tokens in the table.
    pub fn len(&self) -> (r: usize)
        ensures
            r == self@.len(),
            self@.dom().finite(),
    {
        proof {
            use_type_invariant(self);
            lemma_table_len(self.entries@);
        }
        self.entries.len()
    }

    /// The index of the entry of `key`, if any.
    fn find(&self, key: &String) -> (r: Option<usize>)
        ensures
            match r {
                Some(i) => i < self.entries@.len() && self.entries@[i as int].0@ == key@,
                None => !self@.contains_key(key@),
            },
    {
        let mut i: usize = 0;
        while i < self.entries.len()
            invariant
                0 <= i <= self.entries@.len(),
                forall|j: int| 0 <= j < i ==> self.entries@[j].0@ != key@,
            decreases self.entries@.len() - i,
        {
            if self.entries[i].0 == *key {
                return Some(i);
            }
            i = i + 1;
        }
        proof {
            let keys = entry_keys(self.entries@);
            assert forall|j: int| 0 <= j < keys.len() implies keys[j] != key@ by {
                assert(keys[j] == self.entries@[j].0@);
            }
        }
        None
    }

    /// Whether the table holds the token `key`.
    pub fn contains_key(&self, key: &str) -> (r: bool)
        ensures
            r == self@.contains_key(key@),
    {
        proof {
            use_type_invariant(self);
        }
        let k = String::from_str(key);
        match self.find(&k) {
            Some(i) => {
                proof {
                    lemma_entry_at(self.entries@, i as int);
                }
                true
            },
            None => false,
        }
    }

    /// The posting list of the token `key`, if the table holds it.
    pub fn get(&self, key: &str) -> (r: Option<&Vec<Posting>>)
        ensures
            match r {
                Some(list) => self@.contains_key(key@) && posting_views(list@) == self@[key@],
                None => !self@.contains_key(key@),
            },
    {
        proof {
            use_type_invariant(self);
        }
        let k = String::from_str(key);
        match self.find(&k) {
            Some(i) => {
                proof {
                    lemma_entry_at(self.entries@, i as int);
                }
                Some(&self.entries[i].1)
            },
            None => None,
        }
    }

    /// The number of postings in the table.
    pub fn total_postings(&self) -> (r: usize)
        requires
            posting_slots(self@).len() <= usize::MAX,
        ensures
            r == posting_slots(self@).len(),
    {
        proof {
            use_type_invariant(self);
            lemma_table_slots(self.entries@);
        }
        let mut total: usize = 0;
        let mut j: usize = 0;
        while j < self.entries.len()
            invariant
                0 <= j <= self.entries@.len(),
                entry_keys(self.entries@).no_duplicates(),
                sum_lengths(self.entries@) <= usize::MAX,
                total == sum_lengths(self.entries@.take(j as int)),
            decreases self.entries@.len() - j,
        {
            proof {
                assert(self.entries@.take(j + 1).drop_last() =~= self.entries@.take(j as int));
                lemma_sum_lengths_prefix(self.entries@, j + 1);
            }
            total = total + self.entries[j].1.len();
            j = j + 1;
        }
        assert(self.entries@.take(j as int) =~= self.entries@);
        total
    }

    /// The entries of the table, one per token, in insertion order.
    pub fn entries(&self) -> (r: &Vec<(String, Vec<Posting>)>)
        ensures
            r@ == self.entries_spec(),
            r@.len() == self@.len(),
            inserted_entries(r@) == self@,
            forall|i: int|
                0 <= i < r@.len() ==> self@.contains_key(#[trigger] r@[i].0@) && self@[r@[i].0@]
                    == posting_views(r@[i].1@),
            forall|k: Seq<char>| #[trigger]
                self@.contains_key(k) ==> exists|i: int| 0 <= i < r@.len() && r@[i].0@ == k,
    {
        proof {
            use_type_invariant(self);
            lemma_table_len(self.entries@);
            lemma_inserted_entries(self.entries@);
            assert forall|i: int| 0 <= i < self.entries@.len() implies self@.contains_key(
                #[trigger] self.entries@[i].0@,
            ) && self@[self.entries@[i].0@] == posting_views(self.entries@[i].1@) by {
                lemma_entry_at(self.entries@, i);
            }
            assert forall|k: Seq<char>| #[trigger]
                self@.contains_key(k) implies exists|i: int|
                0 <= i < self.entries@.len() && self.entries@[i].0@ == k by {
                let keys = entry_keys(self.entries@);
                let i = keys.index_of(k);
                assert(keys[i] == self.entries@[i].0@);
            }
        }
        &self.entries
    }

    /// Appends `posting` to the posting list of `key`, creating the list when
    /// the table does not hold `key` yet.
    pub fn append_posting(&mut self, key: String, posting: Posting)
        ensures
            final(self)@ == old(self)@.insert(
                key@,
                if old(self)@.contains_key(key@) {
                    old(self)@[key@].push(posting@)
                } else {
                    seq![posting@]
                },
            ),
    {
        proof {
            use_type_invariant(&*self);
        }
        let ghost old_entries = self.entries@;
        let found = self.find(&key);
        let mut entries: Vec<(String, Vec<Posting>)> = Vec::new();
        std::mem::swap(&mut entries, &mut self.entries);
        match found {
            Some(i) => {
                proof {
                    lemma_entry_at(old_entries, i as int);
                }
                let ghost old_list = entries@[i as int].1@;
                let (k, mut list) = entries.remove(i);
                list.push(posting);
                entries.insert(i, (k, list));
                proof {
                    assert(entries@ =~= old_entries.update(i as int, (old_entries[i as int].0, list)));
                    assert(posting_views(list@) =~= posting_views(old_list).push(posting@));
                    lemma_table_update(old_entries, i as int, list);
                }
            },
            None => {
                let list = vec![posting];
                let ghost l = list;
                entries.push((key, list));
                proof {
                    lemma_table_push(old_entries, key, l);
                    assert(posting_views(l@) =~= seq![posting@]);
                }
            },
        }
        self.entries = entries;
    }

    /// A table holding the given (token, posting list) entries, inserted in
    /// order (a later entry for a token replaces an earlier one).
    pub fn from_entries(entries: Vec<(String, Vec<Posting>)>) -> (r: Self)
        ensures
            r@ == inserted_entries(entries@),
    {
        let mut table = PostingTable::new();
        let mut entries = entries;
        let ghost all = entries@;
        let ghost mut done: int = 0;
        assert(all.skip(0) =~= all);
        assert(all.take(0) =~= Seq::<(String, Vec<Posting>)>::empty());
        while entries.len() > 0
            invariant
                0 <= done <= all.len(),
                entries@ == all.skip(done),
                table@ == inserted_entries(all.take(done)),
            decreases entries.len(),
        {
            let (key, list) = entries.remove(0);
            proof {
                assert(all.skip(done)[0] == all[done]);
                assert(all.take(done + 1) =~= all.take(done).push(all[done]));
                assert(all.take(done + 1).drop_last() =~= all.take(done));
                assert(entries@ =~= all.skip(done + 1));
            }
            table.insert(key, list);
            proof {
                done = done + 1;
            }
        }
        assert(all.take(done) =~= all);
        table
    }

    /// Sets the posting list of `key` to `list`, replacing any list it had.
    pub fn insert(&mut self, key: String, list: Vec<Posting>)
        ensures
            final(self)@ == old(self)@.insert(key@, posting_views(list@)),
    {
        proof {
            use_type_invariant(&*self);
        }
        let ghost old_entries = self.entries@;
        let found = self.find(&key);
        let mut entries: Vec<(String, Vec<Posting>)> = Vec::new();
        std::mem::swap(&mut entries, &mut self.entries);
        match found {
            Some(i) => {
                let ghost l = list;
                let (k, _old) = entries.remove(i);
                entries.insert(i, (k, list));
                proof {
                    assert(entries@ =~= old_entries.update(i as int, (old_entries[i as int].0, l)));
                    lemma_table_update(old_entries, i as int, l);
                }
            },
            None => {
                let ghost l = list;
                entries.push((key, list));
                proof {
                    lemma_table_push(old_entries, key, l);
                }
            },
        }
        self.entries = entries;
    }
}


// ========== The index ==========

/// Inverted index.
pub struct InvertedIndex {
    /// token → posting list
    pub postings: PostingTable,
    /// document id → document metadata
    pub documents: HashMap<DocId, DocumentMeta>,
    /// Number of documents.
    pub doc_count: usize,
}

/// The abstract content of an [`InvertedIndex`].
pub struct IndexView {
    pub postings: Map<Seq<char>, Seq<PostingView>>,
    pub documents: Map<DocId, DocumentMetaView>,
    pub doc_count: nat,
}

impl View for InvertedIndex {
    type V = IndexView;

    open spec fn view(&self) -> IndexView {
        IndexView {
            postings: self.postings@,
            documents: self.documents@.map_values(|m: DocumentMeta| m@),
            doc_count: self.doc_count as nat,
        }
    }
}

/// The index with no documents.
pub open spec fn empty_index() -> IndexView {
    IndexView { postings: Map::empty(), documents: Map::empty(), doc_count: 0 }
}

/// The positions at which `t` occurs in `toks`, in increasing order.
pub open spec fn positions_of(toks: Seq<Seq<char>>, t: Seq<char>) -> Seq<int>
    decreases toks.len(),
{
    if toks.len() == 0 {
        Seq::empty()
    } else {
        let p = positions_of(toks.drop_last(), t);
        if toks.last() == t {
            p.push(toks.len() - 1)
        } else {
            p
        }
    }
}

/// The posting that a document with tokens `toks` gets for the token `t`.
pub open spec fn posting_of(toks: Seq<Seq<char>>, t: Seq<char>, id: DocId) -> PostingView {
    PostingView { doc_id: id, term_freq: positions_of(toks, t).len(), positions: positions_of(toks, t) }
}

/// The posting list of `t` in `m`, empty when `m` does not hold `t`.
pub open spec fn list_or_empty(m: Map<Seq<char>, Seq<PostingView>>, t: Seq<char>) -> Seq<
    PostingView,
> {
    if m.contains_key(t) {
        m[t]
    } else {
        Seq::empty()
    }
}

/// The metadata recorded for `doc` when its tokens are `toks`.
pub open spec fn meta_of(doc: crate::parser::DocumentView, toks: Seq<Seq<char>>) -> DocumentMetaView {
    DocumentMetaView { id: doc.id, path: doc.path, title: doc.title, doc_length: toks.len() }
}

/// The index after adding `doc`, whose tokens are `toks`: its metadata is
/// recorded under its id, the document count is the number of distinct ids,
/// and each of its distinct tokens gets one more posting, for this document,
/// at the end of the token's list.
pub open spec fn add_document_spec(
    idx: IndexView,
    doc: crate::parser::DocumentView,
    toks: Seq<Seq<char>>,
) -> IndexView {
    let documents = idx.documents.insert(doc.id, meta_of(doc, toks));
    IndexView {
        postings: Map::new(
            |t: Seq<char>| idx.postings.contains_key(t) || toks.contains(t),
            |t: Seq<char>|
                if toks.contains(t) {
                    list_or_empty(idx.postings, t).push(posting_of(toks, t, doc.id))
                } else {
                    idx.postings[t]
                },
        ),
        documents,
        doc_count: documents.len(),
    }
}

/// The index built by adding `docs` in order, each tokenized by `tok`, to
/// the empty index.
pub open spec fn build_spec(
    docs: Seq<crate::parser::DocumentView>,
    tok: spec_fn(Seq<char>) -> Seq<Seq<char>>,
) -> IndexView
    decreases docs.len(),
{
    if docs.len() == 0 {
        empty_index()
    } else {
        add_document_spec(build_spec(docs.drop_last(), tok), docs.last(), tok(docs.last().content))
    }
}

/// The distinct tokens of `tokens`, in order of first occurrence.
fn distinct_tokens(tokens: &Vec<String>) -> (r: Vec<String>)
    ensures
        views(r@).no_duplicates(),
        forall|t: Seq<char>| #[trigger] views(r@).contains(t) <==> views(tokens@).contains(t),
{
    let mut out: Vec<String> = Vec::new();
    let mut i: usize = 0;
    while i < tokens.len()
        invariant
            0 <= i <= tokens.len(),
            views(out@).no_duplicates(),
            forall|t: Seq<char>| #[trigger]
                views(out@).contains(t) <==> views(tokens@).take(i as int).contains(t),
        decreases tokens.len() - i,
    {
        let ghost before = out@;
        let ghost t_i = tokens@[i as int]@;
        let ghost prefix = views(tokens@).take(i as int);
        let ghost prefix2 = views(tokens@).take(i + 1);
        assert(prefix2 =~= prefix.push(t_i));
        if !crate::text::contains_string(&out, &tokens[i]) {
            let c = tokens[i].clone();
            out.push(c);
            assert(views(out@) =~= views(before).push(t_i));
        } else {
            assert(views(out@) == views(before));
        }
        proof {
            assert forall|t: Seq<char>| #[trigger] views(out@).contains(t) implies prefix2.contains(t) by {
                if t == t_i {
                    assert(prefix2[i as int] == t_i);
                } else {
                    let k = views(out@).index_of(t);
                    assert(views(before)[k] == t);
                    assert(views(before).contains(t));
                    let x = prefix.index_of(t);
                    assert(prefix2[x] == t);
                }
            }
            assert forall|t: Seq<char>| #[trigger] prefix2.contains(t) implies views(out@).contains(t) by {
                if t == t_i {
                    if views(out@).len() > views(before).len() {
                        assert(views(out@)[views(before).len() as int] == t_i);
                    } else {
                        assert(views(before).contains(t_i));
                    }
                } else {
                    let x = prefix2.index_of(t);
                    assert(prefix[x] == t);
                    assert(prefix.contains(t));
                    assert(views(before).contains(t));
                    let k = views(before).index_of(t);
                    assert(views(out@)[k] == t);
                }
            }
        }
        i = i + 1;
    }
    assert(views(tokens@).take(i as int) =~= views(tokens@));
    out
}

/// The positions at which `token` occurs in `tokens`.
fn positions_in(tokens: &Vec<String>, token: &String) -> (r: Vec<usize>)
    ensures
        r@.map_values(|p: usize| p as int) == positions_of(views(tokens@), token@),
{
    let mut out: Vec<usize> = Vec::new();
    let mut i: usize = 0;
    while i < tokens.len()
        invariant
            0 <= i <= tokens.len(),
            out@.map_values(|p: usize| p as int) == positions_of(views(tokens@).take(i as int), token@),
        decreases tokens.len() - i,
    {
        assert(views(tokens@).take(i + 1).drop_last() =~= views(tokens@).take(i as int));
        let ghost before = out@;
        if tokens[i] == *token {
            out.push(i);
            assert(out@.map_values(|p: usize| p as int) =~= before.map_values(|p: usize| p as int).push(i as int));
        }
        i = i + 1;
    }
    assert(views(tokens@).take(i as int) =~= views(tokens@));
    out
}

impl InvertedIndex {
    /// An empty index.
    pub fn new() -> (r: Self)
        ensures
            r@ == empty_index(),
    {
        let r = InvertedIndex { postings: PostingTable::new(), documents: HashMap::new(), doc_count: 0 };
        assert(r@.documents =~= Map::<DocId, DocumentMetaView>::empty());
        r
    }

    /// Adds one document: records its metadata, sets the document count to
    /// the number of distinct document ids, and appends, for each distinct
    /// token of the document, a posting with its frequency and positions.
    pub fn add_document<T: Tokenizer>(&mut self, doc: &Document, tokenizer: &T)
        ensures
            final(self)@ == add_document_spec(old(self)@, doc@, tokenizer.spec_tokenize(doc.content@)),
    {
        let tokens = tokenizer.tokenize(doc.content.as_str());
        let ghost toks = views(tokens@);
        let ghost old_view = self@;
        let doc_length = tokens.len();
        let meta = DocumentMeta {
            id: doc.id,
            path: doc.path.clone(),
            title: doc.title.clone(),
            doc_length,
        };
        self.documents.insert(doc.id, meta);
        self.doc_count = self.documents.len();
        let ghost documents = old_view.documents.insert(doc.id, meta_of(doc@, toks));
        assert(self@.documents =~= documents);
        assert(self@.documents.dom() =~= self.documents@.dom());

        let keys = distinct_tokens(&tokens);
        let ghost expected = add_document_spec(old_view, doc@, toks);
        let mut j: usize = 0;
        while j < keys.len()
            invariant
                0 <= j <= keys.len(),
                toks == views(tokens@),
                views(keys@).no_duplicates(),
                forall|t: Seq<char>| #[trigger] views(keys@).contains(t) <==> toks.contains(t),
                self@.documents == documents,
                self.doc_count == documents.len(),
                documents.dom().finite(),
                self@.postings == Map::new(
                    |t: Seq<char>| old_view.postings.contains_key(t) || views(keys@).take(j as int).contains(t),
                    |t: Seq<char>|
                        if views(keys@).take(j as int).contains(t) {
                            list_or_empty(old_view.postings, t).push(posting_of(toks, t, doc.id))
                        } else {
                            old_view.postings[t]
                        },
                ),
            decreases keys.len() - j,
        {
            let key = keys[j].clone();
            let positions = positions_in(&tokens, &keys[j]);
            let term_freq = positions.len();
            let posting = Posting { doc_id: doc.id, term_freq, positions };
            let ghost k = key@;
            let ghost prev = self@.postings;
            assert(posting@ == posting_of(toks, k, doc.id));
            self.postings.append_posting(key, posting);
            proof {
                let done = views(keys@).take(j as int);
                let done2 = views(keys@).take(j + 1);
                assert(done2 =~= done.push(k));
                assert(!done.contains(k)) by {
                    if done.contains(k) {
                        let x = done.index_of(k);
                        assert(views(keys@)[x] == views(keys@)[j as int]);
                    }
                }
                let target = Map::new(
                    |t: Seq<char>| old_view.postings.contains_key(t) || done2.contains(t),
                    |t: Seq<char>|
                        if done2.contains(t) {
                            list_or_empty(old_view.postings, t).push(posting_of(toks, t, doc.id))
                        } else {
                            old_view.postings[t]
                        },
                );
                assert forall|t: Seq<char>| #[trigger] done2.contains(t) <==> (done.contains(t) || t == k) by {
                    if done2.contains(t) && t != k {
                        let x = done2.index_of(t);
                        assert(done[x] == t);
                    }
                    if done.contains(t) {
                        let x = done.index_of(t);
                        assert(done2[x] == t);
                    }
                    if t == k {
                        assert(done2[j as int] == k);
                    }
                }
                assert(self@.postings =~= target);
            }
            j = j + 1;
        }
        proof {
            assert(views(keys@).take(j as int) =~= views(keys@));
            assert(self@.postings =~= expected.postings);
        }
    }

    /// The number of documents, of distinct tokens and of postings.
    pub fn stats(&self) -> (r: IndexStats)
        requires
            posting_slots(self@.postings).len() <= usize::MAX,
        ensures
            r.doc_count == self.doc_count,
            r.vocab_size == self@.postings.len(),
            r.total_postings == posting_slots(self@.postings).len(),
    {
        let total_postings = self.postings.total_postings();
        IndexStats { doc_count: self.doc_count, vocab_size: self.postings.len(), total_postings }
    }

    /// Builds an index by adding `docs` in order to an empty index.
    pub fn build_from_documents<T: Tokenizer>(docs: &[Document], tokenizer: &T) -> (r: Self)
        ensures
            r@ == build_spec(
                docs@.map_values(|d: Document| d@),
                |c: Seq<char>| tokenizer.spec_tokenize(c),
            ),
    {
        let ghost dv = docs@.map_values(|d: Document| d@);
        let ghost tok = |c: Seq<char>| tokenizer.spec_tokenize(c);
        let mut index = Self::new();
        let mut i: usize = 0;
        while i < docs.len()
            invariant
                0 <= i <= docs.len(),
                dv == docs@.map_values(|d: Document| d@),
                tok == (|c: Seq<char>| tokenizer.spec_tokenize(c)),
                index@ == build_spec(dv.take(i as int), tok),
            decreases docs.len() - i,
        {
            index.add_document(&docs[i], tokenizer);
            proof {
                assert(dv.take(i + 1).drop_last() =~= dv.take(i as int));
                assert(dv.take(i + 1).last() == docs@[i as int]@);
            }
            i = i + 1;
        }
        assert(dv.take(i as int) =~= dv);
        index
    }

    /// The integer ingredients of the TF-IDF score of `token` in document
    /// `doc_id` (see [`TfIdfInputs`]), or `None` when the score is zero
    /// because the token is unknown, the document has no posting for it, or
    /// the document has no metadata.
    #[verifier::spinoff_prover]
    pub fn tfidf_inputs(&self, token: &str, doc_id: DocId) -> (r: Option<TfIdfInputs>)
        ensures
            r == tfidf_inputs_spec(self@, token@, doc_id),
    {
        let list = match self.postings.get(token) {
            Some(list) => list,
            None => return None,
        };
        let ghost lv = posting_views(list@);
        let mut i: usize = 0;
        while i < list.len() && list[i].doc_id != doc_id
            invariant
                0 <= i <= list.len(),
                lv == posting_views(list@),
                forall|j: int| 0 <= j < i ==> lv[j].doc_id != doc_id,
            decreases list.len() - i,
        {
            i = i + 1;
        }
        if i == list.len() {
            assert(!(exists|j: int| 0 <= j < lv.len() && #[trigger] lv[j].doc_id == doc_id));
            return None;
        }
        proof {
            assert(lv[i as int].doc_id == doc_id);
            assert(first_with_doc(lv, doc_id) == i as int) by {
                let f = first_with_doc(lv, doc_id);
                assert(f <= i);
                assert(i <= f);
            }
        }
        let meta = match self.documents.get(&doc_id) {
            Some(m) => m,
            None => {
                assert(!self@.documents.contains_key(doc_id));
                return None;
            },
        };
        assert(self@.documents.contains_key(doc_id));
        assert(self@.documents[doc_id] == meta@);
        let doc_length = meta.doc_length;
        let length_norm = if doc_length > 1 { doc_length } else { 1 };
        let r = TfIdfInputs {
            term_freq: list[i].term_freq,
            length_norm,
            doc_freq: list.len(),
            doc_count: self.doc_count,
        };
        proof {
            let p = lv[first_with_doc(lv, doc_id)];
            assert(p == list@[i as int]@);
            assert(lv.len() == list@.len());
            assert(r == TfIdfInputs {
                term_freq: p.term_freq as usize,
                length_norm: if self@.documents[doc_id].doc_length > 1 {
                    self@.documents[doc_id].doc_length as usize
                } else {
                    1
                },
                doc_freq: lv.len() as usize,
                doc_count: self@.doc_count as usize,
            });
        }
        Some(r)
    }
}

/// Title order: character by character, by code point (the order of
/// `String`'s `Ord`).
pub open spec fn title_lt(a: Seq<char>, b: Seq<char>) -> bool {
    lex_lt(a, b, char_order())
}

/// Title order is a strict total order.
proof fn lemma_title_order()
    ensures
        strict_total(|a: Seq<char>, b: Seq<char>| title_lt(a, b)),
{
    lemma_char_order_total();
    lemma_lex_strict_total(char_order());
    let l = |a: Seq<char>, b: Seq<char>| lex_lt(a, b, char_order());
    let t = |a: Seq<char>, b: Seq<char>| title_lt(a, b);
    assert(t =~= l);
}

/// `r` lists the recorded documents of `idx`, each once with its
/// identifier, ordered by title.
pub open spec fn listed_by_title(idx: IndexView, r: Seq<(DocId, DocumentMetaView)>) -> bool {
    &&& r.len() == idx.documents.len()
    &&& forall|i: int| 0 <= i < r.len() ==> idx.documents.contains_key(#[trigger] r[i].0)
        && idx.documents[r[i].0] == r[i].1
    &&& forall|id: DocId| #[trigger] idx.documents.contains_key(id) ==> exists|i: int|
        0 <= i < r.len() && r[i].0 == id
    &&& forall|i: int, j: int| 0 <= i < j < r.len() ==> #[trigger] r[i].0 != #[trigger] r[j].0
    &&& forall|i: int, j: int| 0 <= i < j < r.len() ==> !title_lt(#[trigger] r[j].1.title, #[trigger] r[i].1.title)
}

/// The views of (identifier, metadata) pairs.
pub open spec fn listing_views(v: Seq<(DocId, DocumentMeta)>) -> Seq<(DocId, DocumentMetaView)> {
    v.map_values(|x: (DocId, DocumentMeta)| (x.0, x.1@))
}

/// A copy of `m`.
pub(crate) fn copy_meta(m: &DocumentMeta) -> (r: DocumentMeta)
    ensures
        r@ == m@,
{
    DocumentMeta { id: m.id, path: m.path.clone(), title: m.title.clone(), doc_length: m.doc_length }
}

impl InvertedIndex {
    /// The recorded documents, each once with its identifier, ordered by
    /// title (documents with equal titles in no particular order).
    pub fn documents_by_title(&self) -> (r: Vec<(DocId, DocumentMeta)>)
        ensures
            listed_by_title(self@, listing_views(r@)),
    {
        let ghost docs = self@.documents;
        let mut out: Vec<(DocId, DocumentMeta)> = Vec::new();
        let ghost mut pos: Seq<int> = Seq::empty();
        let ghost mut inv: Seq<int> = Seq::empty();
        let ghost mut n: int = 0;
        proof {
            lemma_title_order();
        }
        for (id, meta) in it: self.documents.iter()
            invariant
                docs == self@.documents,
                strict_total(|a: Seq<char>, b: Seq<char>| title_lt(a, b)),
                it.seq().no_duplicates(),
                it.seq() == vstd::std_specs::hash::spec_hash_map_iter(&self.documents).remaining(),
                forall|j: int| 0 <= j < it.seq().len() ==> docs.contains_key(*(#[trigger] it.seq()[j]).0)
                    && docs[*it.seq()[j].0] == (*it.seq()[j].1)@,
                out@.len() == it.index(),
                n == it.index(),
                pos.len() == out@.len(),
                inv.len() == it.index(),
                forall|i: int| 0 <= i < out@.len() ==> 0 <= #[trigger] pos[i] < it.index()
                    && *it.seq()[pos[i]].0 == out@[i].0,
                forall|j: int| 0 <= j < it.index() ==> 0 <= #[trigger] inv[j] < out@.len()
                    && out@[inv[j]].0 == *it.seq()[j].0,
                forall|i: int| 0 <= i < out@.len() ==> docs.contains_key(#[trigger] out@[i].0)
                    && docs[out@[i].0] == out@[i].1@,
                forall|i: int, j: int| 0 <= i < j < out@.len() ==> #[trigger] out@[i].0 != #[trigger] out@[j].0,
                forall|i: int, j: int| 0 <= i < j < out@.len() ==> !title_lt(#[trigger] out@[j].1.title@, #[trigger] out@[i].1.title@),
        {
            let ghost s = out@;
            let ghost k = it.index();
            let ghost seqv = it.seq();
            assert(seqv[k] == (id, meta));
            let item = (*id, copy_meta(meta));
            let t = crate::text::chars_of(meta.title.as_str());
            let mut p = out.len();
            while p > 0 && chars_less(&t, &crate::text::chars_of(out[p - 1].1.title.as_str()))
                invariant
                    0 <= p <= out@.len(),
                    out@ == s,
                    t@ == meta.title@,
                    forall|q: int| p <= q < s.len() ==> title_lt(t@, #[trigger] s[q].1.title@),
                decreases p,
            {
                p = p - 1;
            }
            out.insert(p, item);
            proof {
                let tl = |a: Seq<char>, b: Seq<char>| title_lt(a, b);
                assert(out@ =~= s.insert(p as int, item));
                // The new identifier is not among the earlier ones.
                assert forall|i: int| 0 <= i < s.len() implies s[i].0 != *id by {
                    let j = pos[i];
                    if *seqv[j].0 == *seqv[k].0 {
                        assert(seqv[j] == seqv[k]);
                    }
                }
                let old_pos = pos;
                let old_inv = inv;
                pos = old_pos.insert(p as int, k);
                inv = Seq::new(
                    (k + 1) as nat,
                    |j: int|
                        if j == k {
                            p as int
                        } else if old_inv[j] >= p {
                            old_inv[j] + 1
                        } else {
                            old_inv[j]
                        },
                );
                assert forall|i: int| 0 <= i < out@.len() implies 0 <= #[trigger] pos[i] < k + 1
                    && *seqv[pos[i]].0 == out@[i].0 by {
                    if i < p {
                        assert(pos[i] == old_pos[i] && out@[i] == s[i]);
                    } else if i > p {
                        assert(pos[i] == old_pos[i - 1] && out@[i] == s[i - 1]);
                    }
                }
                assert forall|j: int| 0 <= j < k + 1 implies 0 <= #[trigger] inv[j] < out@.len()
                    && out@[inv[j]].0 == *seqv[j].0 by {
                    if j < k {
                        let i0 = old_inv[j];
                        if i0 >= p {
                            assert(out@[i0 + 1] == s[i0]);
                        } else {
                            assert(out@[i0] == s[i0]);
                        }
                    }
                }
                assert forall|i: int| 0 <= i < out@.len() implies docs.contains_key(#[trigger] out@[i].0)
                    && docs[out@[i].0] == out@[i].1@ by {
                    if i < p {
                        assert(out@[i] == s[i]);
                    } else if i > p {
                        assert(out@[i] == s[i - 1]);
                    }
                }
                assert forall|i: int, j: int| 0 <= i < j < out@.len() implies #[trigger] out@[i].0
                    != #[trigger] out@[j].0 by {
                    if i == p {
                        assert(out@[j] == s[j - 1]);
                    } else if j == p {
                        assert(out@[i] == s[i]);
                    } else {
                        let i0 = if i < p { i } else { i - 1 };
                        let j0 = if j < p { j } else { j - 1 };
                        assert(out@[i] == s[i0] && out@[j] == s[j0]);
                    }
                }
                assert forall|i: int, j: int| 0 <= i < j < out@.len() implies !title_lt(
                    #[trigger] out@[j].1.title@,
                    #[trigger] out@[i].1.title@,
                ) by {
                    if i == p {
                        assert(out@[j] == s[j - 1]);
                        assert(title_lt(t@, s[j - 1].1.title@));
                        assert(tl(t@, s[j - 1].1.title@));
                        if tl(s[j - 1].1.title@, t@) {
                            assert(tl(t@, t@));
                        }
                    } else if j == p {
                        assert(out@[i] == s[i]);
                        let x = t@;
                        let y = s[i].1.title@;
                        let z = s[p - 1].1.title@;
                        assert(!tl(x, z));
                        if tl(x, y) {
                            if i < p - 1 {
                                assert(!tl(z, y));
                            }
                            if y != z {
                                assert(tl(y, z) || tl(z, y));
                                assert(tl(y, z));
                                assert(tl(x, z));
                            }
                        }
                    } else {
                        let i0 = if i < p { i } else { i - 1 };
                        let j0 = if j < p { j } else { j - 1 };
                        assert(out@[i] == s[i0] && out@[j] == s[j0]);
                    }
                }
                n = n + 1;
            }
        }
        proof {
            let v = vstd::std_specs::hash::spec_hash_map_iter(&self.documents).remaining();
            vstd::std_specs::hash::axiom_spec_hash_map_iter(&self.documents);
            assert(n == v.len());
            assert forall|id: DocId| #[trigger] docs.contains_key(id) implies exists|i: int|
                0 <= i < out@.len() && out@[i].0 == id by {
                assert(self.documents@.contains_key(id));
                assert(v.contains((&id, &self.documents@[id])));
                let j = v.index_of((&id, &self.documents@[id]));
                assert(out@[inv[j]].0 == id);
            }
            let lv = listing_views(out@);
            assert(docs.dom() =~= self.documents@.dom());
            assert(lv.len() == docs.len());
            assert forall|i: int| 0 <= i < lv.len() implies docs.contains_key(#[trigger] lv[i].0)
                && docs[lv[i].0] == lv[i].1 by {
                assert(lv[i] == (out@[i].0, out@[i].1@));
            }
            assert forall|id: DocId| #[trigger] docs.contains_key(id) implies exists|i: int|
                0 <= i < lv.len() && lv[i].0 == id by {
                let i = choose|i: int| 0 <= i < out@.len() && out@[i].0 == id;
                assert(lv[i].0 == id);
            }
            assert forall|i: int, j: int| 0 <= i < j < lv.len() implies #[trigger] lv[i].0
                != #[trigger] lv[j].0 by {
                assert(lv[i].0 == out@[i].0 && lv[j].0 == out@[j].0);
            }
            assert forall|i: int, j: int| 0 <= i < j < lv.len() implies !title_lt(
                #[trigger] lv[j].1.title,
                #[trigger] lv[i].1.title,
            ) by {
                assert(lv[i].1.title == out@[i].1.title@ && lv[j].1.title == out@[j].1.title@);
            }
        }
        out
    }
}

impl Default for InvertedIndex {
    fn default() -> (r: Self)
        ensures
            r@ == empty_index(),
    {
        Self::new()
    }
}

/// The integer ingredients of a TF-IDF score: the score is
/// `term_freq / length_norm * (1 + ln(doc_count / (1 + doc_freq)))`.
#[derive(Debug, Clone, Copy, PartialEq, Eq)]
pub struct TfIdfInputs {
    /// Occurrences of the token in the document.
    pub term_freq: usize,
    /// The document's token count, or 1 for an empty document.
    pub length_norm: usize,
    /// Number of postings of the token.
    pub doc_freq: usize,
    /// The index's document count.
    pub doc_count: usize,
}

/// The index of the first posting of document `id` in `list`, when there is
/// one.
pub open spec fn first_with_doc(list: Seq<PostingView>, id: DocId) -> int {
    choose|i: int|
        0 <= i < list.len() && list[i].doc_id == id && forall|j: int|
            0 <= j < i ==> #[trigger] list[j].doc_id != id
}

/// See [`InvertedIndex::tfidf_inputs`]: the frequency is taken from the first
/// posting of the document in the token's list.
pub open spec fn tfidf_inputs_spec(idx: IndexView, token: Seq<char>, id: DocId) -> Option<
    TfIdfInputs,
> {
    if !idx.postings.contains_key(token) {
        None
    } else {
        let list = idx.postings[token];
        if !(exists|j: int| 0 <= j < list.len() && #[trigger] list[j].doc_id == id) {
            None
        } else if !idx.documents.contains_key(id) {
            None
        } else {
            let p = list[first_with_doc(list, id)];
            let len = idx.documents[id].doc_length;
            Some(
                TfIdfInputs {
                    term_freq: p.term_freq as usize,
                    length_norm: if len > 1 { len as usize } else { 1 },
                    doc_freq: list.len() as usize,
                    doc_count: idx.doc_count as usize,
                },
            )
        }
    }
}


// ========== Laws ==========

/// The positions of a token are increasing, lie inside the token sequence,
/// hold the token, and include every occurrence of it.
pub proof fn lemma_positions_of(toks: Seq<Seq<char>>, t: Seq<char>)
    ensures
        forall|i: int|
            0 <= i < positions_of(toks, t).len() ==> 0 <= #[trigger] positions_of(toks, t)[i]
                < toks.len() && toks[positions_of(toks, t)[i]] == t,
        forall|i: int, j: int|
            0 <= i < j < positions_of(toks, t).len() ==> #[trigger] positions_of(toks, t)[i]
                < #[trigger] positions_of(toks, t)[j],
        forall|k: int| 0 <= k < toks.len() && #[trigger] toks[k] == t ==> positions_of(toks, t).contains(k),
    decreases toks.len(),
{
    if toks.len() > 0 {
        let d = toks.drop_last();
        lemma_positions_of(d, t);
        let p = positions_of(d, t);
        let q = positions_of(toks, t);
        assert forall|k: int| 0 <= k < toks.len() && #[trigger] toks[k] == t implies q.contains(k) by {
            if k < toks.len() - 1 {
                assert(d[k] == t);
                let x = p.index_of(k);
                assert(q[x] == k);
            } else {
                assert(q[q.len() - 1] == k);
            }
        }
    }
}

/// Every posting of the postings map records as many positions as its
/// frequency, in increasing order, and belongs to a recorded document; every
/// posting list is non-empty; and the document count is the number of
/// recorded documents.
pub open spec fn index_consistent(idx: IndexView) -> bool {
    &&& idx.documents.dom().finite()
    &&& idx.doc_count == idx.documents.len()
    &&& forall|t: Seq<char>| #[trigger] idx.postings.contains_key(t) ==> idx.postings[t].len() > 0
    &&& forall|t: Seq<char>, i: int|
        idx.postings.contains_key(t) && 0 <= i < idx.postings[t].len() ==> {
            let p = #[trigger] idx.postings[t][i];
            &&& p.term_freq == p.positions.len()
            &&& idx.documents.contains_key(p.doc_id)
            &&& forall|a: int, b: int|
                0 <= a < b < p.positions.len() ==> #[trigger] p.positions[a] < #[trigger] p.positions[b]
        }
}

/// The empty index is consistent, and adding a document keeps an index
/// consistent.
pub proof fn lemma_add_keeps_consistent(
    idx: IndexView,
    doc: crate::parser::DocumentView,
    toks: Seq<Seq<char>>,
)
    requires
        index_consistent(idx),
    ensures
        index_consistent(empty_index()),
        index_consistent(add_document_spec(idx, doc, toks)),
{
    let n = add_document_spec(idx, doc, toks);
    assert(empty_index().documents.dom() =~= Set::<DocId>::empty());
    assert forall|t: Seq<char>, i: int|
        n.postings.contains_key(t) && 0 <= i < n.postings[t].len() implies {
            let p = #[trigger] n.postings[t][i];
            &&& p.term_freq == p.positions.len()
            &&& n.documents.contains_key(p.doc_id)
            &&& forall|a: int, b: int|
                0 <= a < b < p.positions.len() ==> #[trigger] p.positions[a] < #[trigger] p.positions[b]
        } by {
        lemma_positions_of(toks, t);
        if toks.contains(t) {
            let old = list_or_empty(idx.postings, t);
            if i < old.len() {
                assert(n.postings[t][i] == idx.postings[t][i]);
            }
        }
    }
}

/// The posting of document `d` in the list of token `t` records position
/// `k`.
pub open spec fn records_position(idx: IndexView, t: Seq<char>, d: DocId, k: int) -> bool {
    &&& idx.postings.contains_key(t)
    &&& exists|i: int|
        0 <= i < idx.postings[t].len() && (#[trigger] idx.postings[t][i]).doc_id == d
            && idx.postings[t][i].positions.contains(k)
}

/// Some token's list records position `k` of document `d`.
pub open spec fn position_recorded(idx: IndexView, d: DocId, k: int) -> bool {
    exists|t: Seq<char>| #[trigger] records_position(idx, t, d, k)
}

/// The full index invariant: the index is consistent (see
/// [`index_consistent`]); no list holds two postings of one document; every
/// position of a posting lies below its document's length; and every token
/// position of every document is recorded under exactly one token, so that
/// a document's frequencies over all tokens add up to its length.
pub open spec fn index_invariant(idx: IndexView) -> bool {
    &&& index_consistent(idx)
    &&& forall|t: Seq<char>, i: int, j: int|
        idx.postings.contains_key(t) && 0 <= i < j < idx.postings[t].len() ==> (#[trigger] idx.postings[t][i]).doc_id
            != (#[trigger] idx.postings[t][j]).doc_id
    &&& forall|t: Seq<char>, i: int, a: int|
        idx.postings.contains_key(t) && 0 <= i < idx.postings[t].len() && 0 <= a
            < idx.postings[t][i].positions.len() ==> 0 <= #[trigger] idx.postings[t][i].positions[a]
            < idx.documents[idx.postings[t][i].doc_id].doc_length
    &&& forall|d: DocId, k: int|
        idx.documents.contains_key(d) && 0 <= k < idx.documents[d].doc_length
            ==> #[trigger] position_recorded(idx, d, k)
    &&& forall|d: DocId, k: int, t1: Seq<char>, t2: Seq<char>|
        #[trigger] records_position(idx, t1, d, k) && #[trigger] records_position(idx, t2, d, k)
            ==> t1 == t2
}

/// The empty index keeps the full invariant.
pub proof fn lemma_empty_index_invariant()
    ensures
        index_invariant(empty_index()),
{
    assert(empty_index().documents.dom() =~= Set::<DocId>::empty());
    assert(forall|t: Seq<char>, d: DocId, k: int| !(#[trigger] records_position(empty_index(), t, d, k)));
}

/// Adding a document whose identifier is not yet recorded keeps the full
/// invariant, whatever its tokens.
pub proof fn lemma_add_keeps_invariant(
    idx: IndexView,
    doc: crate::parser::DocumentView,
    toks: Seq<Seq<char>>,
)
    requires
        index_invariant(idx),
        !idx.documents.contains_key(doc.id),
    ensures
        index_invariant(add_document_spec(idx, doc, toks)),
{
    let n = add_document_spec(idx, doc, toks);
    let d0 = doc.id;
    lemma_add_keeps_consistent(idx, doc, toks);
    // Postings of other documents are the old ones; the new document's
    // posting is the last one of each of its tokens' lists.
    assert forall|t: Seq<char>, i: int|
        n.postings.contains_key(t) && 0 <= i < n.postings[t].len()
            implies #[trigger] n.postings[t][i] == (if idx.postings.contains_key(t) && i < idx.postings[t].len() {
                idx.postings[t][i]
            } else {
                posting_of(toks, t, d0)
            }) && (n.postings[t][i].doc_id == d0 <==> !(idx.postings.contains_key(t) && i < idx.postings[t].len())) by {
        if idx.postings.contains_key(t) && i < idx.postings[t].len() {
            assert(idx.documents.contains_key(idx.postings[t][i].doc_id));
        }
    }
    assert forall|t: Seq<char>, i: int, j: int|
        n.postings.contains_key(t) && 0 <= i < j < n.postings[t].len() implies (#[trigger] n.postings[t][i]).doc_id
            != (#[trigger] n.postings[t][j]).doc_id by {
        assert(n.postings[t][i] == idx.postings[t][i]);
    }
    assert forall|t: Seq<char>, i: int, a: int|
        n.postings.contains_key(t) && 0 <= i < n.postings[t].len() && 0 <= a
            < n.postings[t][i].positions.len() implies 0 <= #[trigger] n.postings[t][i].positions[a]
            < n.documents[n.postings[t][i].doc_id].doc_length by {
        lemma_positions_of(toks, t);
        if idx.postings.contains_key(t) && i < idx.postings[t].len() {
            assert(n.postings[t][i] == idx.postings[t][i]);
            assert(idx.documents.contains_key(idx.postings[t][i].doc_id));
        } else {
            assert(n.postings[t][i] == posting_of(toks, t, d0));
            assert(positions_of(toks, t)[a] < toks.len());
        }
    }
    // Records of the new index in terms of the old one.
    assert forall|t: Seq<char>, d: DocId, k: int| #[trigger] records_position(n, t, d, k) <==> (if d == d0 {
        toks.contains(t) && positions_of(toks, t).contains(k)
    } else {
        records_position(idx, t, d, k)
    }) by {
        lemma_positions_of(toks, t);
        if records_position(n, t, d, k) {
            let i = choose|i: int|
                0 <= i < n.postings[t].len() && (#[trigger] n.postings[t][i]).doc_id == d
                    && n.postings[t][i].positions.contains(k);
            if d != d0 {
                assert(n.postings[t][i] == idx.postings[t][i]);
            } else {
                assert(n.postings[t][i] == posting_of(toks, t, d0));
                assert(toks.contains(t));
            }
        }
        if d == d0 && toks.contains(t) && positions_of(toks, t).contains(k) {
            let l = n.postings[t];
            assert(l[l.len() - 1] == posting_of(toks, t, d0));
        }
        if d != d0 && records_position(idx, t, d, k) {
            let i = choose|i: int|
                0 <= i < idx.postings[t].len() && (#[trigger] idx.postings[t][i]).doc_id == d
                    && idx.postings[t][i].positions.contains(k);
            assert(n.postings[t][i] == idx.postings[t][i]);
        }
    }
    assert forall|d: DocId, k: int|
        n.documents.contains_key(d) && 0 <= k < n.documents[d].doc_length implies #[trigger] position_recorded(
        n,
        d,
        k,
    ) by {
        if d == d0 {
            let t = toks[k];
            lemma_positions_of(toks, t);
            assert(toks.contains(t));
            assert(records_position(n, t, d, k));
        } else {
            assert(idx.documents[d] == n.documents[d]);
            assert(position_recorded(idx, d, k));
            let t = choose|t: Seq<char>| #[trigger] records_position(idx, t, d, k);
            assert(records_position(n, t, d, k));
        }
    }
    assert forall|d: DocId, k: int, t1: Seq<char>, t2: Seq<char>|
        #[trigger] records_position(n, t1, d, k) && #[trigger] records_position(n, t2, d, k) implies t1
            == t2 by {
        if d == d0 {
            lemma_positions_of(toks, t1);
            lemma_positions_of(toks, t2);
            let a = positions_of(toks, t1).index_of(k);
            let b = positions_of(toks, t2).index_of(k);
            assert(toks[positions_of(toks, t1)[a]] == t1);
            assert(toks[positions_of(toks, t2)[b]] == t2);
        } else {
            assert(records_position(idx, t1, d, k) && records_position(idx, t2, d, k));
        }
    }
}

/// Building an index from documents with distinct identifiers gives an
/// index that keeps the full invariant (see [`index_invariant`]).
pub proof fn lemma_build_invariant(
    docs: Seq<crate::parser::DocumentView>,
    tok: spec_fn(Seq<char>) -> Seq<Seq<char>>,
)
    requires
        forall|i: int, j: int| 0 <= i < j < docs.len() ==> (#[trigger] docs[i]).id != (#[trigger] docs[j]).id,
    ensures
        index_invariant(build_spec(docs, tok)),
    decreases docs.len(),
{
    if docs.len() == 0 {
        lemma_empty_index_invariant();
    } else {
        let d = docs.drop_last();
        assert forall|i: int, j: int| 0 <= i < j < d.len() implies (#[trigger] d[i]).id != (#[trigger] d[j]).id by {
            assert(d[i] == docs[i] && d[j] == docs[j]);
        }
        lemma_build_invariant(d, tok);
        lemma_build_documents(d, tok);
        assert(!build_spec(d, tok).documents.contains_key(docs.last().id)) by {
            if build_spec(d, tok).documents.contains_key(docs.last().id) {
                let i = choose|i: int| 0 <= i < d.len() && (#[trigger] d[i]).id == docs.last().id;
                assert(docs[i].id == docs[docs.len() - 1].id);
            }
        }
        lemma_add_keeps_invariant(build_spec(d, tok), docs.last(), tok(docs.last().content));
    }
}

/// Building an index from documents gives a consistent index.
pub proof fn lemma_build_consistent(
    docs: Seq<crate::parser::DocumentView>,
    tok: spec_fn(Seq<char>) -> Seq<Seq<char>>,
)
    ensures
        index_consistent(build_spec(docs, tok)),
    decreases docs.len(),
{
    lemma_add_keeps_consistent(empty_index(), docs.last(), tok(docs.last().content));
    if docs.len() > 0 {
        lemma_build_consistent(docs.drop_last(), tok);
        lemma_add_keeps_consistent(
            build_spec(docs.drop_last(), tok),
            docs.last(),
            tok(docs.last().content),
        );
    }
}

/// The postings that `t` gets from `docs`, in document order: one for each
/// document that has `t` among its tokens.
pub open spec fn postings_from(
    docs: Seq<crate::parser::DocumentView>,
    tok: spec_fn(Seq<char>) -> Seq<Seq<char>>,
    t: Seq<char>,
) -> Seq<PostingView>
    decreases docs.len(),
{
    if docs.len() == 0 {
        Seq::empty()
    } else {
        let prev = postings_from(docs.drop_last(), tok, t);
        let toks = tok(docs.last().content);
        if toks.contains(t) {
            prev.push(posting_of(toks, t, docs.last().id))
        } else {
            prev
        }
    }
}

/// In an index built from documents, a token has a posting list exactly when
/// some document has it, and the list holds, in document order, one posting
/// for each document that has it, with the token's frequency and positions
/// in that document.
pub proof fn lemma_build_postings(
    docs: Seq<crate::parser::DocumentView>,
    tok: spec_fn(Seq<char>) -> Seq<Seq<char>>,
    t: Seq<char>,
)
    ensures
        build_spec(docs, tok).postings.contains_key(t) <==> postings_from(docs, tok, t).len() > 0,
        list_or_empty(build_spec(docs, tok).postings, t) == postings_from(docs, tok, t),
    decreases docs.len(),
{
    if docs.len() > 0 {
        lemma_build_postings(docs.drop_last(), tok, t);
    }
}

/// The metadata that the last of `docs` with identifier `id` gets when
/// tokenized by `tok`.
pub open spec fn last_meta(
    docs: Seq<crate::parser::DocumentView>,
    tok: spec_fn(Seq<char>) -> Seq<Seq<char>>,
    id: DocId,
) -> DocumentMetaView
    decreases docs.len(),
{
    if docs.len() == 0 {
        arbitrary()
    } else if docs.last().id == id {
        meta_of(docs.last(), tok(docs.last().content))
    } else {
        last_meta(docs.drop_last(), tok, id)
    }
}

/// The documents of an index built from documents are exactly theirs, each
/// id mapped to the metadata of the last document with that id.
pub proof fn lemma_build_documents(
    docs: Seq<crate::parser::DocumentView>,
    tok: spec_fn(Seq<char>) -> Seq<Seq<char>>,
)
    ensures
        forall|id: DocId|
            build_spec(docs, tok).documents.contains_key(id) <==> exists|i: int|
                0 <= i < docs.len() && (#[trigger] docs[i]).id == id,
        forall|id: DocId| #[trigger]
            build_spec(docs, tok).documents.contains_key(id) ==> build_spec(docs, tok).documents[id]
                == last_meta(docs, tok, id),
    decreases docs.len(),
{
    if docs.len() > 0 {
        let d = docs.drop_last();
        lemma_build_documents(d, tok);
        assert forall|id: DocId|
            build_spec(docs, tok).documents.contains_key(id) <==> exists|i: int|
                0 <= i < docs.len() && (#[trigger] docs[i]).id == id by {
            if exists|i: int| 0 <= i < docs.len() && (#[trigger] docs[i]).id == id {
                let i = choose|i: int| 0 <= i < docs.len() && (#[trigger] docs[i]).id == id;
                if i < docs.len() - 1 {
                    assert(d[i].id == id);
                }
            }
            if build_spec(d, tok).documents.contains_key(id) {
                let i = choose|i: int| 0 <= i < d.len() && (#[trigger] d[i]).id == id;
                assert(docs[i].id == id);
            }
            if id == docs.last().id {
                assert(docs[docs.len() - 1].id == id);
            }
        }
        assert forall|id: DocId| #[trigger]
            build_spec(docs, tok).documents.contains_key(id) implies build_spec(
            docs,
            tok,
        ).documents[id] == last_meta(docs, tok, id) by {
            if id != docs.last().id {
                assert(build_spec(d, tok).documents.contains_key(id));
            }
        }
    }
}


// ========== Frequencies add up ==========

/// The frequency recorded for document `d` in a posting list (0 when the
/// list holds no posting of it).
pub open spec fn doc_freq_in(list: Seq<PostingView>, d: DocId) -> nat
    decreases list.len(),
{
    if list.len() == 0 {
        0
    } else {
        doc_freq_in(list.drop_last(), d) + (if list.last().doc_id == d { list.last().term_freq } else { 0 })
    }
}

/// The frequencies of document `d` summed over the posting lists of the
/// tokens `keys`.
pub open spec fn doc_freq_total(m: Map<Seq<char>, Seq<PostingView>>, keys: Seq<Seq<char>>, d: DocId) -> nat
    decreases keys.len(),
{
    if keys.len() == 0 {
        0
    } else {
        doc_freq_total(m, keys.drop_last(), d) + doc_freq_in(m[keys.last()], d)
    }
}

/// The (token, position) pairs recorded for document `d` under the tokens
/// `keys`.
spec fn records_under(idx: IndexView, keys: Seq<Seq<char>>, d: DocId) -> Set<(Seq<char>, int)> {
    Set::new(|r: (Seq<char>, int)| keys.contains(r.0) && records_position(idx, r.0, d, r.1))
}

/// In a list whose postings have distinct documents, the frequency of `d`
/// is that of its posting, or 0 when it has none.
proof fn lemma_doc_freq_in(list: Seq<PostingView>, d: DocId)
    requires
        forall|i: int, j: int| 0 <= i < j < list.len() ==> (#[trigger] list[i]).doc_id != (#[trigger] list[j]).doc_id,
    ensures
        forall|i: int| 0 <= i < list.len() && (#[trigger] list[i]).doc_id == d ==> doc_freq_in(list, d)
            == list[i].term_freq,
        (forall|i: int| 0 <= i < list.len() ==> (#[trigger] list[i]).doc_id != d) ==> doc_freq_in(list, d) == 0,
    decreases list.len(),
{
    if list.len() > 0 {
        let rest = list.drop_last();
        assert forall|i: int, j: int| 0 <= i < j < rest.len() implies (#[trigger] rest[i]).doc_id
            != (#[trigger] rest[j]).doc_id by {
            assert(rest[i] == list[i] && rest[j] == list[j]);
        }
        lemma_doc_freq_in(rest, d);
        assert forall|i: int| 0 <= i < list.len() && (#[trigger] list[i]).doc_id == d implies doc_freq_in(list, d)
            == list[i].term_freq by {
            if i < list.len() - 1 {
                assert(rest[i] == list[i]);
                assert(list[list.len() - 1].doc_id != d);
            } else {
                assert forall|j: int| 0 <= j < rest.len() implies (#[trigger] rest[j]).doc_id != d by {
                    assert(rest[j] == list[j]);
                }
            }
        }
        if forall|i: int| 0 <= i < list.len() ==> (#[trigger] list[i]).doc_id != d {
            assert forall|j: int| 0 <= j < rest.len() implies (#[trigger] rest[j]).doc_id != d by {
                assert(rest[j] == list[j]);
            }
            assert(list[list.len() - 1].doc_id != d);
        }
    }
}

/// The pairs recorded for `d` under one token number its frequency in that
/// token's list.
proof fn lemma_token_records(idx: IndexView, t: Seq<char>, d: DocId)
    requires
        index_invariant(idx),
        idx.postings.contains_key(t),
    ensures
        records_under(idx, seq![t], d).finite(),
        records_under(idx, seq![t], d).len() == doc_freq_in(idx.postings[t], d),
{
    let list = idx.postings[t];
    let r = records_under(idx, seq![t], d);
    lemma_doc_freq_in(list, d);
    if exists|i: int| 0 <= i < list.len() && (#[trigger] list[i]).doc_id == d {
        let i = choose|i: int| 0 <= i < list.len() && (#[trigger] list[i]).doc_id == d;
        let p = list[i];
        let f = |k: int| (t, k);
        assert(p.positions.no_duplicates()) by {
            assert forall|a: int, b: int| 0 <= a < p.positions.len() && 0 <= b < p.positions.len() && a != b
                implies p.positions[a] != p.positions[b] by {
                if a < b {
                    assert(p.positions[a] < p.positions[b]);
                } else {
                    assert(p.positions[b] < p.positions[a]);
                }
            }
        }
        p.positions.unique_seq_to_set();
        assert(r =~= p.positions.to_set().map(f)) by {
            assert forall|x: (Seq<char>, int)| r.contains(x) implies p.positions.to_set().map(f).contains(x) by {
                assert(seq![t].contains(x.0) ==> x.0 == seq![t][0]);
                let j = choose|j: int|
                    0 <= j < idx.postings[x.0].len() && (#[trigger] idx.postings[x.0][j]).doc_id == d
                        && idx.postings[x.0][j].positions.contains(x.1);
                assert(j == i);
                assert(p.positions.to_set().contains(x.1));
                assert(f(x.1) == x);
            }
            assert forall|x: (Seq<char>, int)| p.positions.to_set().map(f).contains(x) implies r.contains(x) by {
                let k = choose|k: int| p.positions.to_set().contains(k) && f(k) == x;
                assert(seq![t][0] == t);
                assert(records_position(idx, t, d, k));
            }
        }
        assert(injective_on(f, p.positions.to_set()));
        lemma_map_size(p.positions.to_set(), r, f);
    } else {
        assert(r =~= Set::empty()) by {
            assert forall|x: (Seq<char>, int)| !r.contains(x) by {
                if r.contains(x) {
                    assert(seq![t].contains(x.0) ==> x.0 == seq![t][0]);
                }
            }
        }
    }
}

/// The pairs recorded for `d` under distinct tokens number the sum of its
/// frequencies in their lists.
proof fn lemma_records_under(idx: IndexView, keys: Seq<Seq<char>>, d: DocId)
    requires
        index_invariant(idx),
        keys.no_duplicates(),
        forall|i: int| 0 <= i < keys.len() ==> idx.postings.contains_key(#[trigger] keys[i]),
    ensures
        records_under(idx, keys, d).finite(),
        records_under(idx, keys, d).len() == doc_freq_total(idx.postings, keys, d),
    decreases keys.len(),
{
    if keys.len() == 0 {
        assert(records_under(idx, keys, d) =~= Set::empty());
    } else {
        let rest = keys.drop_last();
        let t = keys.last();
        assert(rest.no_duplicates()) by {
            assert forall|i: int, j: int| 0 <= i < rest.len() && 0 <= j < rest.len() && i != j implies rest[i]
                != rest[j] by {
                assert(rest[i] == keys[i] && rest[j] == keys[j]);
            }
        }
        assert forall|i: int| 0 <= i < rest.len() implies idx.postings.contains_key(#[trigger] rest[i]) by {
            assert(rest[i] == keys[i]);
        }
        lemma_records_under(idx, rest, d);
        lemma_token_records(idx, t, d);
        let a = records_under(idx, rest, d);
        let b = records_under(idx, seq![t], d);
        assert(!rest.contains(t)) by {
            if rest.contains(t) {
                let j = choose|j: int| 0 <= j < rest.len() && rest[j] == t;
                assert(keys[j] == keys[keys.len() - 1]);
            }
        }
        assert(a.disjoint(b)) by {
            assert forall|x: (Seq<char>, int)| a.contains(x) implies !b.contains(x) by {
                assert(seq![t].contains(x.0) ==> x.0 == seq![t][0]);
            }
        }
        assert(records_under(idx, keys, d) =~= a + b) by {
            assert forall|x: (Seq<char>, int)| records_under(idx, keys, d).contains(x) implies (a + b).contains(x) by {
                let j = choose|j: int| 0 <= j < keys.len() && keys[j] == x.0;
                if j < keys.len() - 1 {
                    assert(rest[j] == keys[j]);
                } else {
                    assert(seq![t][0] == t);
                }
            }
            assert forall|x: (Seq<char>, int)| (a + b).contains(x) implies records_under(idx, keys, d).contains(x) by {
                if a.contains(x) {
                    let j = choose|j: int| 0 <= j < rest.len() && rest[j] == x.0;
                    assert(keys[j] == rest[j]);
                } else {
                    assert(seq![t].contains(x.0) ==> x.0 == seq![t][0]);
                    assert(keys[keys.len() - 1] == t);
                }
            }
        }
        lemma_set_disjoint_lens(a, b);
    }
}

/// In an index that keeps the invariant (see [`index_invariant`]), the
/// frequencies of a recorded document summed over all posting lists, each
/// list taken once in any order, equal the document's length.
pub proof fn lemma_frequencies_add_up(idx: IndexView, keys: Seq<Seq<char>>, d: DocId)
    requires
        index_invariant(idx),
        keys.no_duplicates(),
        keys.to_set() == idx.postings.dom(),
        idx.documents.contains_key(d),
    ensures
        doc_freq_total(idx.postings, keys, d) == idx.documents[d].doc_length,
{
    assert forall|i: int| 0 <= i < keys.len() implies idx.postings.contains_key(#[trigger] keys[i]) by {
        assert(keys.to_set().contains(keys[i]));
    }
    lemma_records_under(idx, keys, d);
    let r = records_under(idx, keys, d);
    let len = idx.documents[d].doc_length;
    let g = |x: (Seq<char>, int)| x.1;
    assert(r.map(g) =~= set_int_range(0, len as int)) by {
        assert forall|k: int| r.map(g).contains(k) implies set_int_range(0, len as int).contains(k) by {
            let x = choose|x: (Seq<char>, int)| r.contains(x) && g(x) == k;
            let j = choose|j: int|
                0 <= j < idx.postings[x.0].len() && (#[trigger] idx.postings[x.0][j]).doc_id == d
                    && idx.postings[x.0][j].positions.contains(x.1);
            let a = idx.postings[x.0][j].positions.index_of(k);
            assert(idx.postings[x.0][j].positions[a] == k);
        }
        assert forall|k: int| set_int_range(0, len as int).contains(k) implies r.map(g).contains(k) by {
            assert(position_recorded(idx, d, k));
            let t = choose|t: Seq<char>| #[trigger] records_position(idx, t, d, k);
            assert(keys.to_set().contains(t));
            assert(r.contains((t, k)));
            assert(g((t, k)) == k);
        }
    }
    assert(injective_on(g, r)) by {
        assert forall|x1: (Seq<char>, int), x2: (Seq<char>, int)|
            r.contains(x1) && r.contains(x2) && #[trigger] g(x1) == #[trigger] g(x2) implies x1 == x2 by {
            assert(records_position(idx, x1.0, d, x1.1));
            assert(records_position(idx, x2.0, d, x1.1));
        }
    }
    lemma_map_size(r, set_int_range(0, len as int), g);
    lemma_int_range(0, len as int);
}


// ========== Recorded metadata ==========

/// Adding a document records, under its identifier, that identifier, its
/// path, its title and its number of tokens; the metadata of every other
/// document stays as it was.
pub proof fn lemma_add_records_metadata(idx: IndexView, doc: crate::parser::DocumentView, toks: Seq<Seq<char>>)
    ensures
        add_document_spec(idx, doc, toks).documents.contains_key(doc.id),
        add_document_spec(idx, doc, toks).documents[doc.id].id == doc.id,
        add_document_spec(idx, doc, toks).documents[doc.id].path == doc.path,
        add_document_spec(idx, doc, toks).documents[doc.id].title == doc.title,
        add_document_spec(idx, doc, toks).documents[doc.id].doc_length == toks.len(),
        forall|d: DocId|
            d != doc.id ==> (#[trigger] add_document_spec(idx, doc, toks).documents.contains_key(d)
                <==> idx.documents.contains_key(d)),
        forall|d: DocId|
            d != doc.id && idx.documents.contains_key(d) ==> #[trigger] add_document_spec(idx, doc, toks).documents[d]
                == idx.documents[d],
{
}

/// In an index built from documents, the metadata under an identifier is
/// that of the last document with that identifier: its path, its title and
/// its number of tokens.
pub proof fn lemma_build_records_metadata(
    docs: Seq<crate::parser::DocumentView>,
    tok: spec_fn(Seq<char>) -> Seq<Seq<char>>,
    i: int,
)
    requires
        0 <= i < docs.len(),
        forall|j: int| i < j < docs.len() ==> (#[trigger] docs[j]).id != docs[i].id,
    ensures
        build_spec(docs, tok).documents.contains_key(docs[i].id),
        build_spec(docs, tok).documents[docs[i].id].id == docs[i].id,
        build_spec(docs, tok).documents[docs[i].id].path == docs[i].path,
        build_spec(docs, tok).documents[docs[i].id].title == docs[i].title,
        build_spec(docs, tok).documents[docs[i].id].doc_length == tok(docs[i].content).len(),
    decreases docs.len(),
{
    let rest = docs.drop_last();
    lemma_add_records_metadata(build_spec(rest, tok), docs.last(), tok(docs.last().content));
    if i < docs.len() - 1 {
        assert forall|j: int| i < j < rest.len() implies (#[trigger] rest[j]).id != rest[i].id by {
            assert(rest[j] == docs[j] && rest[i] == docs[i]);
        }
        lemma_build_records_metadata(rest, tok, i);
        assert(rest[i] == docs[i]);
        assert(docs[docs.len() - 1].id != docs[i].id);
    }
}

} // verus!
