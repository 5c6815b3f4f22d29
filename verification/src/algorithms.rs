//! A term-frequency inverted index over documents.
//!
//! This simpler engine scores a document by the sum of its stored weighted
//! term frequencies over the query tokens: a title occurrence counts three
//! times a content occurrence, and only admissible terms — no stopword,
//! at least two characters — are ever indexed. It keeps the canonical copy
//! of every document, supports metadata filtering, and extracts highlight
//! snippets around query-term hits.

use vstd::prelude::*;
use vstd::string::StringExecFns;
use unicode_segmentation::UnicodeSegmentation;
use crate::text::{views_of, lower_of, lowercase, is_admissible, filter_admissible};
use crate::assoc::{
    kv_u64, kv_str, assoc_get, unique_keys, accumulate, accumulate_counts, sat_add64, bump,
    bump_count, find_key_index, lemma_contains_of_index, lemma_assoc_contains_index,
    lemma_bump_unique, assoc_contains, push_posting, lemma_push_posting_at,
    lemma_push_posting_missing, add_postings, index_view,
};

verus! {

/// What `UnicodeSegmentation::unicode_words` returns for a string: its word
/// segments per the Unicode text-segmentation rules, in order. A function of
/// the characters alone.
pub uninterp spec fn unicode_words_of(s: Seq<char>) -> Seq<Seq<char>>;

/// Relies on unicode_segmentation's `unicode_words`: splits at Unicode word
/// boundaries and keeps the word segments, each a substring of the input.
#[verifier::external_body]
fn split_unicode_words(s: &str) -> (words: Vec<String>)
    ensures
        views_of(words@) == unicode_words_of(s@),
        forall|i: int| 0 <= i < words@.len() ==> (#[trigger] words@[i]@).len() <= s@.len(),
{
    s.unicode_words().map(|w| w.to_string()).collect()
}

/// Lowercases `text` and splits it into Unicode words.
pub fn tokenize(text: &str) -> (tokens: Vec<String>)
    ensures
        views_of(tokens@) == unicode_words_of(lower_of(text@)),
{
    let low = lowercase(text);
    split_unicode_words(low.as_str())
}

/// A document held by the index: external id, title, content, and string
/// metadata pairs.
#[derive(Clone)]
pub struct SearchDocument {
    pub id: String,
    pub title: String,
    pub content: String,
    pub metadata: Vec<(String, String)>,
}

/// One ranked answer: the document id, its summed term-frequency score, and
/// content snippets around query-term hits.
#[derive(Clone)]
pub struct SearchResult {
    pub document_id: String,
    pub score: u64,
    pub highlights: Vec<String>,
}

/// The admissible words of a text: its Unicode words, lowercased, with
/// stopwords and single-character tokens dropped.
pub open spec fn admissible_words(s: Seq<char>) -> Seq<Seq<char>> {
    unicode_words_of(lower_of(s)).filter(|t: Seq<char>| is_admissible(t))
}

/// The weighted term frequencies of a document: every admissible token of
/// the lowercased title counts 3, every admissible token of the lowercased
/// content 1; stopwords and single-character tokens are never counted.
pub open spec fn doc_tf(title: Seq<char>, content: Seq<char>) -> Seq<(Seq<char>, u64)> {
    accumulate(accumulate(Seq::empty(), admissible_words(title), 3), admissible_words(content), 1)
}

/// Every key of a document's term-frequency map is admissible: stopwords
/// and single-character tokens are never counted.
pub proof fn lemma_doc_tf_admissible(title: Seq<char>, content: Seq<char>, t: Seq<char>)
    requires
        crate::assoc::assoc_contains(doc_tf(title, content), t),
    ensures
        is_admissible(t),
{
    let base = accumulate(Seq::empty(), admissible_words(title), 3);
    assert(unique_keys(Seq::<(Seq<char>, u64)>::empty()));
    crate::assoc::lemma_accumulate_keys(Seq::empty(), admissible_words(title), 3);
    crate::assoc::lemma_accumulate_keys(base, admissible_words(content), 1);
    assert(!crate::assoc::assoc_contains(Seq::<(Seq<char>, u64)>::empty(), t));
    if admissible_words(title).contains(t) {
        lemma_admissible_word(title, t);
    } else {
        assert(admissible_words(content).contains(t));
        lemma_admissible_word(content, t);
    }
}

proof fn lemma_admissible_word(s: Seq<char>, t: Seq<char>)
    requires
        admissible_words(s).contains(t),
    ensures
        is_admissible(t),
{
    let i = choose|i: int| 0 <= i < admissible_words(s).len() && admissible_words(s)[i] == t;
    unicode_words_of(lower_of(s)).lemma_filter_pred(|x: Seq<char>| is_admissible(x), i);
}

/// Some document of `docs` has id `id`.
pub open spec fn has_doc_id(docs: Seq<SearchDocument>, id: Seq<char>) -> bool {
    exists|i: int| 0 <= i < docs.len() && docs[i].id@ == id
}

/// Store `d` by id: replace the document with the same id, or append.
pub open spec fn store_doc(docs: Seq<SearchDocument>, d: SearchDocument) -> Seq<SearchDocument>
    decreases docs.len(),
{
    if docs.len() == 0 {
        seq![d]
    } else if docs[0].id@ == d.id@ {
        seq![d] + docs.drop_first()
    } else {
        seq![docs[0]] + store_doc(docs.drop_first(), d)
    }
}

proof fn lemma_store_doc_at(docs: Seq<SearchDocument>, d: SearchDocument, i: int)
    requires
        0 <= i < docs.len(),
        docs[i].id@ == d.id@,
        forall|j: int| 0 <= j < i ==> docs[j].id@ != d.id@,
    ensures
        store_doc(docs, d) == docs.update(i, d),
    decreases i,
{
    if i == 0 {
        assert(store_doc(docs, d) =~= docs.update(0, d));
    } else {
        assert forall|j: int| 0 <= j < i - 1 implies docs.drop_first()[j].id@ != d.id@ by {
            assert(docs.drop_first()[j] == docs[j + 1]);
        }
        assert(docs.drop_first()[i - 1] == docs[i]);
        lemma_store_doc_at(docs.drop_first(), d, i - 1);
        assert(store_doc(docs, d) =~= docs.update(i, d));
    }
}

proof fn lemma_store_doc_missing(docs: Seq<SearchDocument>, d: SearchDocument)
    requires
        forall|j: int| 0 <= j < docs.len() ==> docs[j].id@ != d.id@,
    ensures
        store_doc(docs, d) == docs.push(d),
    decreases docs.len(),
{
    if docs.len() == 0 {
        assert(store_doc(docs, d) =~= docs.push(d));
    } else {
        assert forall|j: int| 0 <= j < docs.len() - 1 implies docs.drop_first()[j].id@
            != d.id@ by {
            assert(docs.drop_first()[j] == docs[j + 1]);
        }
        lemma_store_doc_missing(docs.drop_first(), d);
        assert(store_doc(docs, d) =~= docs.push(d));
    }
}

/// The inverted index: a postings list per term, and the canonical copy of
/// every document, in insertion order.
pub struct InvertedIndex {
    index: Vec<(String, Vec<(String, u64)>)>,
    documents: Vec<SearchDocument>,
}

impl InvertedIndex {
    /// Well-formed: ids unique, one postings list per term, every posting
    /// points at a stored document, and every indexed term is admissible.
    pub closed spec fn wf(self) -> bool {
        &&& forall|i: int, j: int|
            0 <= i < j < self.documents@.len() ==> (#[trigger] self.documents@[i]).id@ != (
            #[trigger] self.documents@[j]).id@
        &&& unique_keys(index_view(self.index@))
        &&& forall|t: int, p: int|
            0 <= t < self.index@.len() && 0 <= p < self.index@[t].1@.len() ==> has_doc_id(
                self.documents@,
                (#[trigger] self.index@[t].1@[p]).0@,
            )
        &&& forall|t: int|
            0 <= t < self.index@.len() ==> is_admissible((#[trigger] self.index@[t]).0@)
    }

    /// The term-to-postings view of the index.
    pub closed spec fn spec_index(self) -> Seq<(Seq<char>, Seq<(Seq<char>, u64)>)> {
        index_view(self.index@)
    }

    /// The stored documents, in insertion order.
    pub closed spec fn spec_documents(self) -> Seq<SearchDocument> {
        self.documents@
    }

    /// A well-formed index binds no postings list to an inadmissible term:
    /// a stopword or single-character query token can never match.
    pub proof fn lemma_inadmissible_not_indexed(self, t: Seq<char>)
        requires
            self.wf(),
            !is_admissible(t),
        ensures
            crate::assoc::assoc_get(self.spec_index(), t) is None,
    {
        let ixv = index_view(self.index@);
        assert forall|j: int| 0 <= j < ixv.len() implies (#[trigger] ixv[j]).0 != t by {
            assert(ixv[j] == (self.index@[j].0@, kv_u64(self.index@[j].1@)));
        }
        crate::assoc::lemma_assoc_get_none(ixv, t);
    }

    /// An empty index.
    pub fn new() -> (r: InvertedIndex)
        ensures
            r.wf(),
            r.spec_documents().len() == 0,
            r.spec_index().len() == 0,
    {
        InvertedIndex { index: Vec::new(), documents: Vec::new() }
    }

    /// Stores `document` by id and appends one posting per distinct
    /// admissible term, weighted 3 per title occurrence and 1 per content
    /// occurrence; stopwords and single-character tokens are not indexed.
    pub fn add_document(&mut self, document: SearchDocument)
        requires
            old(self).wf(),
        ensures
            final(self).wf(),
            final(self).spec_documents() == store_doc(old(self).spec_documents(), document),
            final(self).spec_index() == add_postings(
                old(self).spec_index(),
                doc_tf(document.title@, document.content@),
                document.id@,
            ),
    {
        let title_toks = filter_admissible(tokenize(document.title.as_str()));
        let content_toks = filter_admissible(tokenize(document.content.as_str()));
        let mut tf: Vec<(String, u64)> = Vec::new();
        proof {
            assert(kv_u64(tf@) =~= Seq::<(Seq<char>, u64)>::empty());
        }
        accumulate_counts(&mut tf, &title_toks, 3);
        accumulate_counts(&mut tf, &content_toks, 1);
        proof {
            assert(kv_u64(tf@) == doc_tf(document.title@, document.content@));
        }

        // Store the document, replacing any prior document with this id.
        let doc_id = document.id.clone();
        let ghost old_docs = self.documents@;
        let nd = self.documents.len();
        let mut di: usize = 0;
        let mut found: bool = false;
        while di < nd && !found
            invariant
                nd == self.documents@.len(),
                di <= nd,
                self.documents@ == old_docs,
                found ==> di < nd && self.documents@[di as int].id@ == document.id@,
                forall|j: int| 0 <= j < di ==> self.documents@[j].id@ != document.id@,
            decreases nd - di, (if found { 0int } else { 1int }),
        {
            if self.documents[di].id.eq(&document.id) {
                found = true;
            } else {
                di = di + 1;
            }
        }
        if found {
            proof {
                lemma_store_doc_at(old_docs, document, di as int);
            }
            self.documents[di] = document;
            proof {
                assert(self.documents@[di as int].id@ == doc_id@);
            }
        } else {
            proof {
                lemma_store_doc_missing(old_docs, document);
            }
            self.documents.push(document);
            proof {
                assert(self.documents@[self.documents@.len() - 1].id@ == doc_id@);
            }
        }
        assert(self.documents@ == store_doc(old_docs, document));
        assert forall|i: int, j: int|
            0 <= i < j < self.documents@.len() implies (#[trigger] self.documents@[i]).id@ != (
        #[trigger] self.documents@[j]).id@ by {}
        assert forall|id: Seq<char>| has_doc_id(old_docs, id) implies has_doc_id(
            self.documents@,
            id,
        ) by {
            let i = choose|i: int| 0 <= i < old_docs.len() && old_docs[i].id@ == id;
            assert(self.documents@[i].id@ == id);
        }
        assert(has_doc_id(self.documents@, doc_id@));

        // Append one posting per term.
        let ghost old_ix = index_view(self.index@);
        let ghost tfv = kv_u64(tf@);
        let nt = tf.len();
        let mut ti: usize = 0;
        while ti < nt
            invariant
                nt == tf@.len(),
                tfv == kv_u64(tf@),
                tfv == doc_tf(document.title@, document.content@),
                index_view(self.index@) == add_postings(old_ix, tfv.take(ti as int), doc_id@),
                ti <= nt,
                unique_keys(index_view(self.index@)),
                forall|t: int, p: int|
                    0 <= t < self.index@.len() && 0 <= p < self.index@[t].1@.len() ==> has_doc_id(
                        self.documents@,
                        (#[trigger] self.index@[t].1@[p]).0@,
                    ),
                forall|t: int|
                    0 <= t < self.index@.len() ==> is_admissible((#[trigger] self.index@[t]).0@),
                has_doc_id(self.documents@, doc_id@),
                self.documents@ == store_doc(old_docs, document),
            decreases nt - ti,
        {
            proof {
                assert(tfv.take(ti + 1).drop_last() =~= tfv.take(ti as int));
                assert(tfv.take(ti + 1).last() == (tf@[ti as int].0@, tf@[ti as int].1));
                crate::assoc::lemma_contains_of_index(tfv, tfv[ti as int].0, ti as int);
                lemma_doc_tf_admissible(document.title@, document.content@, tfv[ti as int].0);
            }
            self.append_posting_for(ti, &doc_id, &tf);
            ti = ti + 1;
        }
        proof {
            assert(tfv.take(nt as int) =~= tfv);
        }
    }

    /// Appends the posting `(doc_id, tf[ti].1)` under the term `tf[ti].0`.
    fn append_posting_for(&mut self, ti: usize, doc_id: &String, tf: &Vec<(String, u64)>)
        requires
            ti < tf@.len(),
            unique_keys(index_view(old(self).index@)),
            forall|t: int, p: int|
                0 <= t < old(self).index@.len() && 0 <= p < old(self).index@[t].1@.len()
                    ==> has_doc_id(
                    old(self).documents@,
                    (#[trigger] old(self).index@[t].1@[p]).0@,
                ),
            forall|t: int|
                0 <= t < old(self).index@.len() ==> is_admissible(
                    (#[trigger] old(self).index@[t]).0@,
                ),
            is_admissible(tf@[ti as int].0@),
            has_doc_id(old(self).documents@, doc_id@),
        ensures
            index_view(final(self).index@) == push_posting(
                index_view(old(self).index@),
                tf@[ti as int].0@,
                doc_id@,
                tf@[ti as int].1,
            ),
            unique_keys(index_view(final(self).index@)),
            forall|t: int, p: int|
                0 <= t < final(self).index@.len() && 0 <= p < final(self).index@[t].1@.len()
                    ==> has_doc_id(
                    final(self).documents@,
                    (#[trigger] final(self).index@[t].1@[p]).0@,
                ),
            forall|t: int|
                0 <= t < final(self).index@.len() ==> is_admissible(
                    (#[trigger] final(self).index@[t]).0@,
                ),
            final(self).documents@ == old(self).documents@,
    {
        let term = &tf[ti].0;
        let w = tf[ti].1;
        let ghost pre = index_view(self.index@);
        let n = self.index.len();
        let mut i: usize = 0;
        #[verifier::loop_isolation(false)]
        while i < n
            invariant
                n == self.index@.len(),
                i <= n,
                *self == *old(self),
                forall|j: int| 0 <= j < i ==> self.index@[j].0@ != tf@[ti as int].0@,
            decreases n - i,
        {
            if self.index[i].0.eq(term) {
                proof {
                    assert(pre[i as int] == (self.index@[i as int].0@, kv_u64(
                        self.index@[i as int].1@,
                    )));
                    assert forall|j: int| 0 <= j < i implies pre[j].0 != tf@[ti as int].0@ by {
                        assert(pre[j] == (self.index@[j].0@, kv_u64(self.index@[j].1@)));
                    }
                    lemma_push_posting_at(pre, term@, doc_id@, w, i as int);
                }
                let ghost pre_raw = self.index@;
                self.index[i].1.push((doc_id.clone(), w));
                proof {
                    let post = index_view(self.index@);
                    let target = pre.update(
                        i as int,
                        (tf@[ti as int].0@, pre[i as int].1.push((doc_id@, w))),
                    );
                    assert(self.index@ == pre_raw.update(
                        i as int,
                        (pre_raw[i as int].0, self.index@[i as int].1),
                    ));
                    assert forall|j: int| 0 <= j < post.len() implies post[j] == target[j] by {
                        assert(post[j] == (self.index@[j].0@, kv_u64(self.index@[j].1@)));
                        assert(pre[j] == (pre_raw[j].0@, kv_u64(pre_raw[j].1@)));
                        if j == i {
                            assert(self.index@[j].1@ == pre_raw[j].1@.push((*doc_id, w)));
                            assert(kv_u64(pre_raw[j].1@.push((*doc_id, w))) =~= kv_u64(
                                pre_raw[j].1@,
                            ).push((doc_id@, w)));
                        } else {
                            assert(self.index@[j] == pre_raw[j]);
                        }
                    }
                    assert(post =~= target);
                }
                return ;
            }
            i = i + 1;
        }
        proof {
            assert forall|j: int| 0 <= j < pre.len() implies pre[j].0 != tf@[ti as int].0@ by {
                assert(pre[j].0 == self.index@[j].0@);
            }
            lemma_push_posting_missing(pre, term@, doc_id@, w);
        }
        let mut plist: Vec<(String, u64)> = Vec::new();
        plist.push((doc_id.clone(), w));
        self.index.push((term.clone(), plist));
        proof {
            assert(kv_u64(self.index@[n as int].1@) =~= seq![(doc_id@, w)]);
            assert(index_view(self.index@) =~= pre.push((tf@[ti as int].0@, seq![(doc_id@, w)])));
        }
    }
}


/// The first stored document with id `id`.
pub open spec fn find_doc(docs: Seq<SearchDocument>, id: Seq<char>) -> Option<SearchDocument>
    decreases docs.len(),
{
    if docs.len() == 0 {
        None
    } else if docs[0].id@ == id {
        Some(docs[0])
    } else {
        find_doc(docs.drop_first(), id)
    }
}

/// The content of the stored document with id `id`, or empty when absent.
pub open spec fn found_content(docs: Seq<SearchDocument>, id: Seq<char>) -> Seq<char> {
    match find_doc(docs, id) {
        Some(d) => d.content@,
        None => Seq::empty(),
    }
}

pub proof fn lemma_find_doc_at(docs: Seq<SearchDocument>, id: Seq<char>, i: int)
    requires
        0 <= i < docs.len(),
        docs[i].id@ == id,
        forall|j: int| 0 <= j < i ==> docs[j].id@ != id,
    ensures
        find_doc(docs, id) == Some(docs[i]),
    decreases i,
{
    if i > 0 {
        assert forall|j: int| 0 <= j < i - 1 implies docs.drop_first()[j].id@ != id by {
            assert(docs.drop_first()[j] == docs[j + 1]);
        }
        assert(docs.drop_first()[i - 1] == docs[i]);
        lemma_find_doc_at(docs.drop_first(), id, i - 1);
    }
}

pub proof fn lemma_find_doc_none(docs: Seq<SearchDocument>, id: Seq<char>)
    requires
        forall|j: int| 0 <= j < docs.len() ==> docs[j].id@ != id,
    ensures
        find_doc(docs, id) is None,
    decreases docs.len(),
{
    if docs.len() > 0 {
        assert forall|j: int| 0 <= j < docs.len() - 1 implies docs.drop_first()[j].id@ != id by {
            assert(docs.drop_first()[j] == docs[j + 1]);
        }
        lemma_find_doc_none(docs.drop_first(), id);
    }
}

/// A present id is always found.
pub proof fn lemma_find_doc_some(docs: Seq<SearchDocument>, id: Seq<char>)
    requires
        has_doc_id(docs, id),
    ensures
        find_doc(docs, id) is Some,
    decreases docs.len(),
{
    if docs.len() > 0 && docs[0].id@ != id {
        let w = choose|w: int| 0 <= w < docs.len() && docs[w].id@ == id;
        assert(docs.drop_first()[w - 1].id@ == id);
        lemma_find_doc_some(docs.drop_first(), id);
    }
}

/// Sum postings into the running per-document scores, saturating.
pub open spec fn scores_from_postings(
    sc: Seq<(Seq<char>, u64)>,
    postings: Seq<(Seq<char>, u64)>,
) -> Seq<(Seq<char>, u64)>
    decreases postings.len(),
{
    if postings.len() == 0 {
        sc
    } else {
        bump(
            scores_from_postings(sc, postings.drop_last()),
            postings.last().0,
            postings.last().1,
        )
    }
}

/// The per-document scores of a query: for each query token in turn, add the
/// posted weights of that token's postings list to the documents' scores.
pub open spec fn query_scores(
    ix: Seq<(Seq<char>, Seq<(Seq<char>, u64)>)>,
    qtoks: Seq<Seq<char>>,
) -> Seq<(Seq<char>, u64)>
    decreases qtoks.len(),
{
    if qtoks.len() == 0 {
        Seq::empty()
    } else {
        let prev = query_scores(ix, qtoks.drop_last());
        match assoc_get(ix, qtoks.last()) {
            Some(postings) => scores_from_postings(prev, postings),
            None => prev,
        }
    }
}

/// One snippet around the first hit of `tok` in the lowercased content:
/// thirty characters of context on both sides, marked with ellipses.
pub open spec fn highlight_for(content: Seq<char>, tok: Seq<char>) -> Option<Seq<char>> {
    match crate::text::spec_find(lower_of(content), tok) {
        Some(pos) => {
            let start0: int = if pos > 30 {
                pos - 30
            } else {
                0
            };
            let end: int = if pos + tok.len() + 30 <= content.len() {
                pos + tok.len() + 30
            } else {
                content.len() as int
            };
            let start: int = if start0 <= end {
                start0
            } else {
                end
            };
            Some("..."@ + content.subrange(start, end) + "..."@)
        },
        None => None,
    }
}

/// The snippets of the query tokens that occur in the content, in token
/// order.
pub open spec fn highlights_list(content: Seq<char>, qtoks: Seq<Seq<char>>) -> Seq<Seq<char>>
    decreases qtoks.len(),
{
    if qtoks.len() == 0 {
        Seq::empty()
    } else {
        let prev = highlights_list(content, qtoks.drop_last());
        match highlight_for(content, qtoks.last()) {
            Some(h) => prev.push(h),
            None => prev,
        }
    }
}

/// The highlight snippets for a document: one per query token found in the
/// content; when none is found and the content is not empty, its first
/// hundred characters.
pub open spec fn spec_extract_highlights(content: Seq<char>, query: Seq<char>) -> Seq<Seq<char>> {
    let hits = highlights_list(content, unicode_words_of(lower_of(query)));
    if hits.len() == 0 && content.len() > 0 {
        seq![
            content.take(
                if content.len() <= 100 {
                    content.len() as int
                } else {
                    100
                },
            ) + "..."@,
        ]
    } else {
        hits
    }
}

/// Extracts snippets of `document`'s content around the first occurrence of
/// each query token, with a leading-content fallback.
pub fn extract_highlights(document: &SearchDocument, query: &str) -> (highlights: Vec<String>)
    ensures
        views_of(highlights@) == spec_extract_highlights(document.content@, query@),
{
    let content = document.content.as_str();
    let clen = content.unicode_len();
    let lc = lowercase(content);
    let qtoks = tokenize(query);
    let ghost qviews = views_of(qtoks@);
    let mut highlights: Vec<String> = Vec::new();
    let n = qtoks.len();
    let mut i: usize = 0;
    proof {
        assert(qviews.take(0) =~= Seq::<Seq<char>>::empty());
    }
    #[verifier::loop_isolation(false)]
    while i < n
        invariant
            i <= n,
            views_of(highlights@) == highlights_list(document.content@, qviews.take(i as int)),
        decreases n - i,
    {
        proof {
            assert(qviews.take(i + 1).drop_last() =~= qviews.take(i as int));
            assert(qviews.take(i + 1).last() == qtoks@[i as int]@);
        }
        match crate::text::find_first(lc.as_str(), qtoks[i].as_str()) {
            Some(pos) => {
                let tlen = qtoks[i].as_str().unicode_len();
                let start0: usize = if pos > 30 {
                    pos - 30
                } else {
                    0
                };
                let reach: usize = pos.saturating_add(tlen).saturating_add(30);
                let end: usize = if reach <= clen {
                    reach
                } else {
                    clen
                };
                let start: usize = if start0 <= end {
                    start0
                } else {
                    end
                };
                let mut h = String::from_str("...");
                h.append(content.substring_char(start, end));
                h.append("...");
                let ghost pre = views_of(highlights@);
                highlights.push(h);
                proof {
                    assert(views_of(highlights@) =~= pre.push(h@));
                }
            },
            None => {},
        }
        i = i + 1;
    }
    proof {
        assert(qviews.take(n as int) =~= qviews);
    }
    if highlights.len() == 0 && clen > 0 {
        let end: usize = if clen <= 100 {
            clen
        } else {
            100
        };
        let mut h = String::from_str(content.substring_char(0, end));
        h.append("...");
        let ghost pre = views_of(highlights@);
        highlights.push(h);
        proof {
            assert(pre.len() == 0);
            assert(document.content@.subrange(0, end as int) == document.content@.take(
                end as int,
            ));
            assert(views_of(highlights@) =~= seq![h@]);
        }
    }
    highlights
}

/// The query matched, fuzzily: a short query must occur verbatim in the
/// lowercased text; a longer one must be within `threshold` edits of some
/// word of the text that is at least as long.
pub open spec fn spec_fuzzy_search(query: Seq<char>, text: Seq<char>, threshold: nat) -> bool {
    let lq = lower_of(query);
    let lt = lower_of(text);
    if lq.len() <= 3 {
        crate::text::contains_seq(lt, lq)
    } else {
        exists|i: int|
            0 <= i < unicode_words_of(lt).len() && (#[trigger] unicode_words_of(lt)[i]).len()
                >= lq.len() && crate::distance::damerau_dist(lq, unicode_words_of(lt)[i])
                <= threshold
    }
}

/// Fuzzy containment: exact substring match for queries of up to three
/// characters, Levenshtein distance at most `threshold` against the text's
/// words otherwise.
pub fn fuzzy_search(query: &str, text: &str, threshold: usize) -> (r: bool)
    ensures
        r == spec_fuzzy_search(query@, text@, threshold as nat),
{
    let lq = lowercase(query);
    let lt = lowercase(text);
    let qlen = lq.as_str().unicode_len();
    if qlen <= 3 {
        return crate::text::contains_chars(lt.as_str(), lq.as_str());
    }
    let words = split_unicode_words(lt.as_str());
    let n = words.len();
    let mut i: usize = 0;
    #[verifier::loop_isolation(false)]
    while i < n
        invariant
            i <= n,
            forall|j: int|
                0 <= j < i ==> !((#[trigger] unicode_words_of(lt@)[j]).len() >= lq@.len()
                    && crate::distance::damerau_dist(lq@, unicode_words_of(lt@)[j]) <= threshold
                        as nat),
        decreases n - i,
    {
        if words[i].as_str().unicode_len() >= qlen {
            proof {
                assert(words@[i as int]@.len() <= lt@.len());
            }
            let d = crate::distance::levenshtein_distance(lq.as_str(), words[i].as_str());
            if d <= threshold {
                proof {
                    assert(unicode_words_of(lt@)[i as int] == words@[i as int]@);
                }
                return true;
            }
        }
        proof {
            assert(unicode_words_of(lt@)[i as int] == words@[i as int]@);
        }
        i = i + 1;
    }
    false
}

/// `meta` satisfies every filter pair exactly.
pub open spec fn meta_matches(
    meta: Seq<(Seq<char>, Seq<char>)>,
    filters: Seq<(Seq<char>, Seq<char>)>,
) -> bool {
    forall|i: int|
        0 <= i < filters.len() ==> assoc_get(meta, (#[trigger] filters[i]).0) == Some(
            filters[i].1,
        )
}

/// What `InvertedIndex::search` returns: the per-document sums of the
/// query tokens' posted weights, sorted by descending score (stably), cut
/// to `limit`, each result carrying its document's id, score and highlight
/// snippets.
pub open spec fn index_search_post(
    ix: InvertedIndex,
    query: Seq<char>,
    limit: int,
    results: Seq<SearchResult>,
) -> bool {
    let ranked = crate::rank::sort_desc(
        query_scores(ix.spec_index(), unicode_words_of(lower_of(query))),
    );
    let k = if limit <= ranked.len() {
        limit
    } else {
        ranked.len() as int
    };
    &&& results.len() == k
    &&& forall|i: int|
        0 <= i < k ==> (#[trigger] results[i]).document_id@ == ranked[i].0 && results[i].score
            == ranked[i].1 && views_of(results[i].highlights@) == spec_extract_highlights(
            found_content(ix.spec_documents(), ranked[i].0),
            query,
        )
}

/// A result passes the filters: its document is stored and that document's
/// metadata holds every filter pair.
pub open spec fn keep_result(
    docs: Seq<SearchDocument>,
    filters: Seq<(Seq<char>, Seq<char>)>,
    r: SearchResult,
) -> bool {
    match find_doc(docs, r.document_id@) {
        Some(d) => meta_matches(kv_str(d.metadata@), filters),
        None => false,
    }
}

/// `keep_result` as a predicate over one result, for `Seq::filter`.
pub open spec fn keep_pred(
    docs: Seq<SearchDocument>,
    filters: Seq<(Seq<char>, Seq<char>)>,
) -> spec_fn(SearchResult) -> bool {
    |r: SearchResult| keep_result(docs, filters, r)
}

impl InvertedIndex {
    /// The index of the stored document with id `id`, if any.
    fn find_document_index(&self, id: &String) -> (r: Option<usize>)
        ensures
            match r {
                Some(i) => i < self.spec_documents().len() && self.spec_documents()[i as int].id@
                    == id@ && find_doc(self.spec_documents(), id@) == Some(
                    self.spec_documents()[i as int],
                ),
                None => find_doc(self.spec_documents(), id@) is None,
            },
    {
        let n = self.documents.len();
        let mut i: usize = 0;
        while i < n
            invariant
                n == self.documents@.len(),
                i <= n,
                forall|j: int| 0 <= j < i ==> self.documents@[j].id@ != id@,
            decreases n - i,
        {
            if self.documents[i].id.eq(id) {
                proof {
                    lemma_find_doc_at(self.documents@, id@, i as int);
                }
                return Some(i);
            }
            i = i + 1;
        }
        proof {
            lemma_find_doc_none(self.documents@, id@);
        }
        None
    }

    /// The stored document with the given id.
    pub fn get_document(&self, id: &str) -> (r: Option<&SearchDocument>)
        ensures
            match r {
                Some(d) => find_doc(self.spec_documents(), id@) == Some(*d),
                None => find_doc(self.spec_documents(), id@) is None,
            },
    {
        let key = String::from_str(id);
        match self.find_document_index(&key) {
            Some(i) => Some(&self.documents[i]),
            None => None,
        }
    }

    /// Whether `document` satisfies every filter pair.
    fn document_matches(document: &SearchDocument, filters: &Vec<(String, String)>) -> (r: bool)
        ensures
            r == meta_matches(kv_str(document.metadata@), kv_str(filters@)),
    {
        let n = filters.len();
        let mut i: usize = 0;
        #[verifier::loop_isolation(false)]
        while i < n
            invariant
                i <= n,
                forall|j: int|
                    0 <= j < i ==> assoc_get(
                        kv_str(document.metadata@),
                        (#[trigger] kv_str(filters@)[j]).0,
                    ) == Some(kv_str(filters@)[j].1),
            decreases n - i,
        {
            let ghost meta = kv_str(document.metadata@);
            proof {
                assert(kv_str(filters@)[i as int] == (filters@[i as int].0@, filters@[i as int].1@));
            }
            match find_key_index(&document.metadata, &filters[i].0) {
                Some(mi) => {
                    proof {
                        assert(meta[mi as int] == (document.metadata@[mi as int].0@, document.metadata@[mi as int].1@));
                        assert forall|j: int| 0 <= j < mi implies meta[j].0 != filters@[i as int].0@ by {
                            assert(meta[j] == (document.metadata@[j].0@, document.metadata@[j].1@));
                        }
                        crate::assoc::lemma_assoc_get_at(meta, filters@[i as int].0@, mi as int);
                    }
                    if !document.metadata[mi].1.eq(&filters[i].1) {
                        return false;
                    }
                },
                None => {
                    proof {
                        assert forall|j: int| 0 <= j < meta.len() implies meta[j].0 != filters@[i as int].0@ by {
                            assert(meta[j] == (document.metadata@[j].0@, document.metadata@[j].1@));
                        }
                        crate::assoc::lemma_assoc_get_none(meta, filters@[i as int].0@);
                    }
                    return false;
                },
            }
            i = i + 1;
        }
        true
    }

    /// Ranked search: sums each query token's posted weights per document,
    /// sorts the scored documents by descending score (stably, so equal
    /// scores keep insertion order), keeps the first `limit`, and attaches
    /// each document's highlight snippets.
    pub fn search(&self, query: &str, limit: usize) -> (results: Vec<SearchResult>)
        requires
            self.wf(),
        ensures
            index_search_post(*self, query@, limit as int, results@),
    {
        let qtoks = tokenize(query);
        let ghost qviews = views_of(qtoks@);
        let ghost ix = index_view(self.index@);
        let mut scores: Vec<(String, u64)> = Vec::new();
        let nq = qtoks.len();
        let mut qi: usize = 0;
        proof {
            assert(qviews.take(0) =~= Seq::<Seq<char>>::empty());
            assert(kv_u64(scores@) =~= Seq::<(Seq<char>, u64)>::empty());
        }
        #[verifier::loop_isolation(false)]
        while qi < nq
            invariant
                qi <= nq,
                kv_u64(scores@) == query_scores(ix, qviews.take(qi as int)),
                unique_keys(kv_u64(scores@)),
                forall|k: Seq<char>|
                    assoc_contains(kv_u64(scores@), k) ==> has_doc_id(self.spec_documents(), k),
            decreases nq - qi,
        {
            proof {
                assert(qviews.take(qi + 1).drop_last() =~= qviews.take(qi as int));
                assert(qviews.take(qi + 1).last() == qtoks@[qi as int]@);
            }
            match find_key_index(&self.index, &qtoks[qi]) {
                Some(ti) => {
                    proof {
                        assert(ix[ti as int] == (self.index@[ti as int].0@, kv_u64(
                            self.index@[ti as int].1@,
                        )));
                        assert forall|j: int| 0 <= j < ti implies ix[j].0 != qtoks@[qi as
                            int]@ by {
                            assert(ix[j] == (self.index@[j].0@, kv_u64(self.index@[j].1@)));
                        }
                        crate::assoc::lemma_assoc_get_at(ix, qtoks@[qi as int]@, ti as int);
                    }
                    let ghost plist = kv_u64(self.index@[ti as int].1@);
                    let np = self.index[ti].1.len();
                    let mut pj: usize = 0;
                    proof {
                        assert(plist.take(0) =~= Seq::<(Seq<char>, u64)>::empty());
                    }
                    #[verifier::loop_isolation(false)]
                    while pj < np
                        invariant
                            pj <= np,
                            np == self.index@[ti as int].1@.len(),
                            ti < self.index@.len(),
                            kv_u64(scores@) == scores_from_postings(
                                query_scores(ix, qviews.take(qi as int)),
                                plist.take(pj as int),
                            ),
                            unique_keys(kv_u64(scores@)),
                            forall|k: Seq<char>|
                                assoc_contains(kv_u64(scores@), k) ==> has_doc_id(
                                    self.spec_documents(),
                                    k,
                                ),
                        decreases np - pj,
                    {
                        proof {
                            assert(plist.take(pj + 1).drop_last() =~= plist.take(pj as int));
                            assert(plist[pj as int] == (self.index@[ti as int].1@[pj as int].0@,
                            self.index@[ti as int].1@[pj as int].1));
                            assert(plist.take(pj + 1).last() == plist[pj as int]);
                        }
                        let ghost pre = kv_u64(scores@);
                        let entry_id = &self.index[ti].1[pj].0;
                        let entry_w = self.index[ti].1[pj].1;
                        bump_count(&mut scores, entry_id, entry_w);
                        proof {
                            lemma_bump_unique(pre, entry_id@, entry_w);
                            assert(has_doc_id(self.spec_documents(), entry_id@));
                            assert forall|k: Seq<char>|
                                assoc_contains(kv_u64(scores@), k) implies has_doc_id(
                                self.spec_documents(),
                                k,
                            ) by {
                                if k != entry_id@ {
                                    assert(assoc_contains(pre, k));
                                }
                            }
                        }
                        pj = pj + 1;
                    }
                    proof {
                        assert(plist.take(np as int) =~= plist);
                    }
                },
                None => {
                    proof {
                        assert forall|j: int| 0 <= j < ix.len() implies ix[j].0 != qtoks@[qi as
                            int]@ by {
                            assert(ix[j] == (self.index@[j].0@, kv_u64(self.index@[j].1@)));
                        }
                        crate::assoc::lemma_assoc_get_none(ix, qtoks@[qi as int]@);
                    }
                },
            }
            qi = qi + 1;
        }
        proof {
            assert(qviews.take(nq as int) =~= qviews);
        }

        // Rank by descending score and keep the first `limit`.
        let ghost score_view = kv_u64(scores@);
        let sorted = crate::rank::sort_by_score(scores);
        proof {
            crate::rank::lemma_sort_desc_props(score_view);
        }
        let k = if limit <= sorted.len() {
            limit
        } else {
            sorted.len()
        };
        let mut results: Vec<SearchResult> = Vec::new();
        let mut ri: usize = 0;
        let ghost ranked = crate::rank::sort_desc(score_view);
        #[verifier::loop_isolation(false)]
        while ri < k
            invariant
                ri <= k,
                results@.len() == ri,
                forall|i: int|
                    0 <= i < ri ==> (#[trigger] results@[i]).document_id@ == ranked[i].0
                        && results@[i].score == ranked[i].1 && views_of(
                        results@[i].highlights@,
                    ) == spec_extract_highlights(
                        found_content(self.spec_documents(), ranked[i].0),
                        query@,
                    ),
            decreases k - ri,
        {
            let id = sorted[ri].0.clone();
            let score = sorted[ri].1;
            proof {
                assert(kv_u64(sorted@)[ri as int] == (sorted@[ri as int].0@, sorted@[ri as
                    int].1));
                assert(ranked.contains(ranked[ri as int])) by {
                    assert(ranked[ri as int] == ranked[ri as int]);
                }
                assert(score_view.contains((id@, score)));
                let w = choose|w: int|
                    0 <= w < score_view.len() && score_view[w] == (id@, score);
                crate::assoc::lemma_contains_of_index(score_view, id@, w);
            }
            let di = match self.find_document_index(&id) {
                Some(di) => di,
                None => {
                    proof {
                        lemma_find_doc_some(self.spec_documents(), id@);
                        assert(false);
                    }
                    0
                },
            };
            let highlights = extract_highlights(&self.documents[di], query);
            proof {
                assert(find_doc(self.spec_documents(), id@)
                    == Some(self.spec_documents()[di as int]));
            }
            results.push(SearchResult { document_id: id, score, highlights });
            ri = ri + 1;
        }
        results
    }

    /// Keeps the results whose stored document carries every filter pair;
    /// an empty filter map keeps everything.
    pub fn filter_by_metadata(
        &self,
        results: Vec<SearchResult>,
        filters: &Vec<(String, String)>,
    ) -> (out: Vec<SearchResult>)
        ensures
            filters@.len() == 0 ==> out@ == results@,
            filters@.len() > 0 ==> out@ == results@.filter(
                keep_pred(self.spec_documents(), kv_str(filters@)),
            ),
    {
        if filters.len() == 0 {
            return results;
        }
        let ghost orig = results@;
        let ghost pred = keep_pred(self.spec_documents(), kv_str(filters@));
        let mut rest = results;
        let n0 = rest.len();
        let mut out: Vec<SearchResult> = Vec::new();
        let mut k: usize = 0;
        proof {
            reveal(Seq::filter);
            assert(orig.take(0) =~= Seq::<SearchResult>::empty());
            assert(rest@ =~= orig.skip(0));
        }
        #[verifier::loop_isolation(false)]
        while rest.len() > 0
            invariant
                n0 == orig.len(),
                k <= orig.len(),
                rest@ == orig.skip(k as int),
                out@ == orig.take(k as int).filter(pred),
            decreases rest@.len(),
        {
            let r = rest.remove(0);
            proof {
                reveal(Seq::filter);
                assert(r == orig[k as int]);
                assert(rest@ =~= orig.skip(k + 1));
                assert(orig.take(k + 1).drop_last() =~= orig.take(k as int));
                assert(orig.take(k + 1).last() == orig[k as int]);
            }
            let keep: bool;
            match self.find_document_index(&r.document_id) {
                Some(di) => {
                    keep = Self::document_matches(&self.documents[di], filters);
                },
                None => {
                    keep = false;
                },
            }
            assert(keep == pred(r));
            if keep {
                out.push(r);
            }
            k = k + 1;
        }
        proof {
            assert(orig.take(k as int) =~= orig);
        }
        out
    }
}

} // verus!
