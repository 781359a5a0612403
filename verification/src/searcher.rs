//! The searcher: which postings a query reaches and what their TF-IDF
//! ingredients are, and the snippet shown for a result.
use vstd::prelude::*;
use crate::error::KbError;
use crate::indexer::{
    copy_meta, tfidf_inputs_spec, DocumentMeta, DocumentMetaView, IndexView, InvertedIndex,
    PostingView, TfIdfInputs, posting_views,
};
use crate::parser::{DocId, Document, ParserRegistry};
use crate::snippet::{build_snippet, single_line, snippet_fits, snippet_text};
use crate::text::views;
use crate::tokenizer::Tokenizer;

verus! {

/// One contribution to a document's score: the document, and the TF-IDF
/// ingredients of the query token in it (`None` for a zero contribution).
#[derive(Debug, Clone, Copy, PartialEq, Eq)]
pub struct ScoreTerm {
    pub doc_id: DocId,
    pub inputs: Option<TfIdfInputs>,
}

/// The contributions of one query token: one per posting of the token, in
/// posting-list order.
pub open spec fn token_terms(idx: IndexView, t: Seq<char>) -> Seq<ScoreTerm> {
    if idx.postings.contains_key(t) {
        idx.postings[t].map_values(
            |p: PostingView| ScoreTerm { doc_id: p.doc_id, inputs: tfidf_inputs_spec(idx, t, p.doc_id) },
        )
    } else {
        Seq::empty()
    }
}

/// The contributions of all query tokens, token by token, in query order
/// (a token that occurs twice in the query contributes twice).
pub open spec fn score_terms_spec(idx: IndexView, toks: Seq<Seq<char>>) -> Seq<ScoreTerm> {
    toks.map_values(|t: Seq<char>| token_terms(idx, t)).flatten()
}

/// The results among the first `n` ranked document ids: for each rank
/// below `n`, in rank order, whose document has metadata in `docs`, the rank
/// and that metadata.
pub open spec fn ranked_results(
    docs: Map<DocId, DocumentMetaView>,
    ranked: Seq<DocId>,
    n: int,
) -> Seq<(int, DocumentMetaView)>
    decreases n,
{
    if n <= 0 {
        Seq::empty()
    } else {
        let prev = ranked_results(docs, ranked, n - 1);
        if docs.contains_key(ranked[n - 1]) {
            prev.push((n - 1, docs[ranked[n - 1]]))
        } else {
            prev
        }
    }
}

/// The views of (rank, metadata) pairs.
pub open spec fn result_views(v: Seq<(usize, DocumentMeta)>) -> Seq<(int, DocumentMetaView)> {
    v.map_values(|x: (usize, DocumentMeta)| (x.0 as int, x.1@))
}

/// A searcher over an index, with the tokenizer that built it and the
/// parsers that read documents back for snippets.
pub struct IndexSearcher<'a, T, P> {
    index: &'a InvertedIndex,
    tokenizer: &'a T,
    registry: &'a ParserRegistry<P>,
}

impl<'a, T: Tokenizer, P: crate::parser::Parser> IndexSearcher<'a, T, P> {
    /// The searched index.
    pub closed spec fn spec_index(&self) -> &'a InvertedIndex {
        self.index
    }

    /// The query tokenizer.
    pub closed spec fn spec_tokenizer(&self) -> &'a T {
        self.tokenizer
    }

    /// The parser registry.
    pub closed spec fn spec_registry(&self) -> &'a ParserRegistry<P> {
        self.registry
    }

    /// A searcher over `index`.
    pub fn new(index: &'a InvertedIndex, tokenizer: &'a T, registry: &'a ParserRegistry<P>) -> (r: Self)
        ensures
            r.spec_index() == index,
            r.spec_tokenizer() == tokenizer,
            r.spec_registry() == registry,
    {
        IndexSearcher { index, tokenizer, registry }
    }

    /// The searched index.
    pub fn index(&self) -> (r: &'a InvertedIndex)
        ensures
            r == self.spec_index(),
    {
        self.index
    }

    /// The query tokenizer.
    pub fn tokenizer(&self) -> (r: &'a T)
        ensures
            r == self.spec_tokenizer(),
    {
        self.tokenizer
    }

    /// The parser registry.
    pub fn registry(&self) -> (r: &'a ParserRegistry<P>)
        ensures
            r == self.spec_registry(),
    {
        self.registry
    }

    /// The tokens of `query`.
    pub fn query_tokens(&self, query: &str) -> (r: Vec<String>)
        ensures
            views(r@) == self.spec_tokenizer().spec_tokenize(query@),
    {
        self.tokenizer.tokenize(query)
    }

    /// The score contributions of the query tokens (see
    /// [`score_terms_spec`]); a document's score is the sum of the TF-IDF
    /// values of its contributions.
    #[verifier::spinoff_prover]
    pub fn score_terms(&self, query_tokens: &Vec<String>) -> (r: Vec<ScoreTerm>)
        ensures
            r@ == score_terms_spec(self.spec_index()@, views(query_tokens@)),
    {
        let ghost idx = self.index@;
        let ghost f = |t: Seq<char>| token_terms(idx, t);
        let mut out: Vec<ScoreTerm> = Vec::new();
        let mut i: usize = 0;
        while i < query_tokens.len()
            invariant
                0 <= i <= query_tokens.len(),
                idx == self.index@,
                f == (|t: Seq<char>| token_terms(idx, t)),
                out@ == views(query_tokens@).take(i as int).map_values(f).flatten(),
            decreases query_tokens.len() - i,
        {
            let token = query_tokens[i].as_str();
            let ghost t = token@;
            let ghost before = out@;
            assert(views(query_tokens@).take(i + 1).map_values(f) =~= views(query_tokens@).take(
                i as int,
            ).map_values(f).push(f(t)));
            proof {
                views(query_tokens@).take(i as int).map_values(f).lemma_flatten_push(f(t));
            }
            match self.index.postings.get(token) {
                Some(list) => {
                    let mut j: usize = 0;
                    while j < list.len()
                        invariant
                            0 <= j <= list.len(),
                            idx == self.index@,
                            idx.postings.contains_key(t),
                            t == token@,
                            f == (|t: Seq<char>| token_terms(idx, t)),
                            posting_views(list@) == idx.postings[t],
                            f(t).len() == list@.len(),
                            out@ == before + f(t).take(j as int),
                        decreases list.len() - j,
                    {
                        let doc_id = list[j].doc_id;
                        let inputs = self.index.tfidf_inputs(token, doc_id);
                        out.push(ScoreTerm { doc_id, inputs });
                        assert(posting_views(list@)[j as int].doc_id == doc_id);
                        assert(f(t)[j as int] == ScoreTerm { doc_id, inputs });
                        j = j + 1;
                        assert(f(t).take(j as int) =~= f(t).take(j - 1).push(f(t)[j - 1]));
                        assert(out@ =~= before + f(t).take(j as int));
                    }
                    assert(f(t).take(j as int) =~= f(t));
                },
                None => {
                    assert(f(t) =~= Seq::<ScoreTerm>::empty());
                    assert(out@ =~= before + f(t));
                },
            }
            i = i + 1;
        }
        assert(views(query_tokens@).take(i as int) =~= views(query_tokens@));
        out
    }

    /// The documents shown for a ranking of document ids (best first): of
    /// the first `limit` ids, those the index has metadata for, each with its
    /// rank and metadata, in rank order.
    pub fn result_documents(&self, ranked: &Vec<DocId>, limit: usize) -> (r: Vec<(usize, DocumentMeta)>)
        ensures
            result_views(r@) == ranked_results(
                self.spec_index()@.documents,
                ranked@,
                if limit < ranked@.len() { limit as int } else { ranked@.len() as int },
            ),
    {
        let n = if limit < ranked.len() { limit } else { ranked.len() };
        let ghost docs = self.index@.documents;
        let mut out: Vec<(usize, DocumentMeta)> = Vec::new();
        let mut k: usize = 0;
        while k < n
            invariant
                0 <= k <= n <= ranked@.len(),
                docs == self.index@.documents,
                result_views(out@) == ranked_results(docs, ranked@, k as int),
            decreases n - k,
        {
            let ghost before = out@;
            let id = ranked[k];
            let found = self.index.documents.get(&id);
            proof {
                broadcast use vstd::std_specs::hash::group_hash_axioms;

                match found {
                    Some(m) => {
                        assert(self.index.documents@.contains_key(id));
                        assert(self.index.documents@[id] == *m);
                    },
                    None => {
                        assert(!self.index.documents@.contains_key(id));
                    },
                }
            }
            match found {
                Some(m) => {
                    let c = copy_meta(m);
                    out.push((k, c));
                    assert(result_views(out@) =~= result_views(before).push((k as int, m@)));
                },
                None => {},
            }
            k = k + 1;
        }
        out
    }

    /// What a result shows, given what parsing its file gave: the snippet of
    /// the document's content (see [`Self::generate_snippet`]) when it was
    /// parsed, the document's title when it was not; `None` when the snippet
    /// window cannot be cut out of the content (see
    /// [`crate::snippet::snippet_fits`]).
    pub fn result_snippet(
        &self,
        parsed: &Result<Document, KbError>,
        meta: &DocumentMeta,
        query_tokens: &Vec<String>,
    ) -> (r: Option<String>)
        ensures
            match parsed {
                Ok(d) => (r is Some <==> snippet_fits(d.content@, views(query_tokens@))) && (r matches Some(
                    s,
                ) ==> s@ == snippet_text(d.content@, views(query_tokens@)) && single_line(s@)),
                Err(_) => r matches Some(s) && s@ == meta.title@,
            },
    {
        match parsed {
            Ok(doc) => build_snippet(doc.content.as_str(), query_tokens),
            Err(_) => Some(meta.title.clone()),
        }
    }

    /// The snippet for a document's content (see
    /// [`crate::snippet::snippet_text`]): the text around the first match of
    /// the query tokens, with line breaks folded into spaces, so that the
    /// snippet holds no line break.
    pub fn generate_snippet(&self, content: &str, query_tokens: &Vec<String>) -> (r: String)
        requires
            snippet_fits(content@, views(query_tokens@)),
        ensures
            r@ == snippet_text(content@, views(query_tokens@)),
            single_line(r@),
    {
        match build_snippet(content, query_tokens) {
            Some(s) => s,
            None => String::new(),
        }
    }

    /// The snippet for a document's content, or `None` when its window
    /// cannot be cut out of the text (see [`crate::snippet::snippet_fits`]).
    pub fn try_generate_snippet(&self, content: &str, query_tokens: &Vec<String>) -> (r: Option<String>)
        ensures
            r is Some <==> snippet_fits(content@, views(query_tokens@)),
            r matches Some(s) ==> s@ == snippet_text(content@, views(query_tokens@)),
            r matches Some(s) ==> single_line(s@),
    {
        build_snippet(content, query_tokens)
    }
}


/// The documents of `terms`, each once, in order of first appearance.
pub open spec fn candidate_ids(terms: Seq<ScoreTerm>) -> Seq<DocId>
    decreases terms.len(),
{
    if terms.len() == 0 {
        Seq::empty()
    } else {
        let prev = candidate_ids(terms.drop_last());
        if prev.contains(terms.last().doc_id) {
            prev
        } else {
            prev.push(terms.last().doc_id)
        }
    }
}

/// The documents that the score contributions `terms` reach, each once, in
/// order of first appearance (see [`candidate_ids`]); a document's score is
/// the sum over the contributions of that document.
pub fn candidate_documents(terms: &Vec<ScoreTerm>) -> (r: Vec<DocId>)
    ensures
        r@ == candidate_ids(terms@),
        r@.no_duplicates(),
        forall|id: DocId| #[trigger] r@.contains(id) <==> exists|k: int|
            0 <= k < terms@.len() && terms@[k].doc_id == id,
{
    let mut out: Vec<DocId> = Vec::new();
    let mut i: usize = 0;
    while i < terms.len()
        invariant
            0 <= i <= terms.len(),
            out@ == candidate_ids(terms@.take(i as int)),
            out@.no_duplicates(),
            forall|id: DocId| #[trigger] out@.contains(id) <==> exists|k: int|
                0 <= k < i && terms@[k].doc_id == id,
        decreases terms.len() - i,
    {
        let id = terms[i].doc_id;
        assert(terms@.take(i + 1).drop_last() =~= terms@.take(i as int));
        let mut seen = false;
        let mut j: usize = 0;
        while j < out.len()
            invariant
                0 <= j <= out.len(),
                seen <==> exists|m: int| 0 <= m < j && out@[m] == id,
            decreases out.len() - j,
        {
            if out[j] == id {
                seen = true;
            }
            j = j + 1;
        }
        let ghost before = out@;
        if !seen {
            out.push(id);
            proof {
                assert forall|x: DocId| #[trigger] out@.contains(x) <==> exists|k: int|
                    0 <= k < i + 1 && terms@[k].doc_id == x by {
                    if out@.contains(x) && x != id {
                        let m = out@.index_of(x);
                        assert(before[m] == x);
                        assert(before.contains(x));
                    }
                    if exists|k: int| 0 <= k < i + 1 && terms@[k].doc_id == x {
                        let k = choose|k: int| 0 <= k < i + 1 && terms@[k].doc_id == x;
                        if k < i {
                            assert(before.contains(x));
                            let m = before.index_of(x);
                            assert(out@[m] == x);
                        } else {
                            assert(out@[before.len() as int] == x);
                        }
                    }
                }
            }
        } else {
            proof {
                let m = choose|m: int| 0 <= m < j && out@[m] == id;
                assert(out@.contains(id));
                assert forall|x: DocId| #[trigger] out@.contains(x) <==> exists|k: int|
                    0 <= k < i + 1 && terms@[k].doc_id == x by {
                    if exists|k: int| 0 <= k < i + 1 && terms@[k].doc_id == x {
                        let k = choose|k: int| 0 <= k < i + 1 && terms@[k].doc_id == x;
                        if k < i {
                            assert(out@.contains(x));
                        }
                    }
                    if out@.contains(x) {
                        let k = choose|k: int| 0 <= k < i && terms@[k].doc_id == x;
                        assert(0 <= k < i + 1 && terms@[k].doc_id == x);
                    }
                }
            }
        }
        i = i + 1;
    }
    assert(terms@.take(i as int) =~= terms@);
    out
}

/// The document of a posting of token `t`.
pub open spec fn has_posting(idx: IndexView, t: Seq<char>, id: DocId) -> bool {
    idx.postings.contains_key(t) && exists|j: int|
        0 <= j < idx.postings[t].len() && (#[trigger] idx.postings[t][j]).doc_id == id
}

/// Only documents that hold a query token get score contributions, and
/// each contribution carries the TF-IDF ingredients of its token and
/// document; an empty query gets none.
#[verifier::spinoff_prover]
pub proof fn lemma_score_terms_sources(idx: IndexView, toks: Seq<Seq<char>>)
    ensures
        toks.len() == 0 ==> score_terms_spec(idx, toks).len() == 0,
        forall|k: int|
            0 <= k < score_terms_spec(idx, toks).len() ==> exists|i: int|
                0 <= i < toks.len() && has_posting(
                    idx,
                    #[trigger] toks[i],
                    (#[trigger] score_terms_spec(idx, toks)[k]).doc_id,
                ) && score_terms_spec(idx, toks)[k].inputs == tfidf_inputs_spec(
                    idx,
                    toks[i],
                    score_terms_spec(idx, toks)[k].doc_id,
                ),
    decreases toks.len(),
{
    let f = |t: Seq<char>| token_terms(idx, t);
    if toks.len() == 0 {
        assert(toks.map_values(f) =~= Seq::<Seq<ScoreTerm>>::empty());
    } else {
        let d = toks.drop_last();
        let t = toks.last();
        lemma_score_terms_sources(idx, d);
        assert(toks.map_values(f) =~= d.map_values(f).push(f(t)));
        d.map_values(f).lemma_flatten_push(f(t));
        let prev = score_terms_spec(idx, d);
        let all = score_terms_spec(idx, toks);
        assert(all =~= prev + f(t));
        assert forall|k: int| 0 <= k < all.len() implies exists|i: int|
            0 <= i < toks.len() && has_posting(idx, #[trigger] toks[i], (#[trigger] score_terms_spec(idx, toks)[k]).doc_id)
                && all[k].inputs == tfidf_inputs_spec(idx, toks[i], all[k].doc_id) by {
            if k < prev.len() {
                assert(all[k] == prev[k]);
                let i = choose|i: int|
                    0 <= i < d.len() && has_posting(idx, #[trigger] d[i], prev[k].doc_id)
                        && prev[k].inputs == tfidf_inputs_spec(idx, d[i], prev[k].doc_id);
                assert(toks[i] == d[i]);
            } else {
                let j = k - prev.len();
                assert(all[k] == f(t)[j]);
                assert(idx.postings.contains_key(t));
                assert(idx.postings[t][j].doc_id == all[k].doc_id);
                assert(toks[toks.len() - 1] == t);
            }
        }
    }
}

} // verus!
