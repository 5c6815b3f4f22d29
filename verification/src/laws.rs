//! Proved laws of the search engine.
//!
//! Each public lemma states one property of the ranker over the spec-level
//! models that the engine's contracts use: what terms can appear in the
//! indexed structures, when a document can and cannot be returned, and how
//! the ranked output behaves across calls.

use vstd::prelude::*;
use crate::assoc::{
    assoc_get, assoc_contains, unique_keys, accumulate, lemma_accumulate_keys,
    lemma_push_posting_keys, lemma_assoc_contains_index, lemma_assoc_get_push, kv_str,
};
use crate::text::{is_admissible, lower_of};
use crate::engine::{
    Document, SearchResult, doc_tf, admissible_tokens, query_tf, spec_query_vec, qweights_of,
    doc_weights, tf_max, spec_doc_score, scored_upto, spec_ranked, search_post, dot,
    spec_cosine, th_views, sumsq, df_count,
};
use crate::math::{nat_sqrt, SCALE};

verus! {

/// A member of the admissible-token list is admissible.
proof fn lemma_admissible_member(s: Seq<char>, t: Seq<char>)
    requires
        admissible_tokens(s).contains(t),
    ensures
        is_admissible(t),
{
    let i = choose|i: int| 0 <= i < admissible_tokens(s).len() && admissible_tokens(s)[i] == t;
    crate::text::word_runs(lower_of(s)).lemma_filter_pred(
        |x: Seq<char>| is_admissible(x),
        i,
    );
}

/// No stopword and no single-character token is ever a key of a document's
/// term-frequency map: every indexed term is admissible.
pub proof fn lemma_doc_terms_admissible(title: Seq<char>, content: Seq<char>, t: Seq<char>)
    requires
        assoc_contains(doc_tf(title, content), t),
    ensures
        is_admissible(t),
{
    let base = accumulate(Seq::empty(), admissible_tokens(title), 3);
    assert(unique_keys(Seq::<(Seq<char>, u64)>::empty()));
    lemma_accumulate_keys(Seq::empty(), admissible_tokens(title), 3);
    lemma_accumulate_keys(base, admissible_tokens(content), 1);
    assert(!assoc_contains(Seq::<(Seq<char>, u64)>::empty(), t));
    if admissible_tokens(title).contains(t) {
        lemma_admissible_member(title, t);
    } else {
        assert(admissible_tokens(content).contains(t));
        lemma_admissible_member(content, t);
    }
}

/// Every distinct query term is admissible.
pub proof fn lemma_query_terms_admissible(query: Seq<char>, t: Seq<char>)
    requires
        assoc_contains(query_tf(query), t),
    ensures
        is_admissible(t),
{
    lemma_accumulate_keys(Seq::empty(), admissible_tokens(query), 1);
    assert(admissible_tokens(query).contains(t));
    lemma_admissible_member(query, t);
}

/// The query vector's terms all come from the query's term map.
pub proof fn lemma_qweights_keys(qtf: Seq<(Seq<char>, u64)>, docs: Seq<Document>, t: Seq<char>)
    requires
        assoc_contains(qweights_of(qtf, docs), t),
    ensures
        assoc_contains(qtf, t),
    decreases qtf.len(),
{
    if qtf.len() > 0 {
        let prev = qweights_of(qtf.drop_last(), docs);
        let df = df_count(docs, qtf.last().0);
        lemma_assoc_contains_index(qtf, t);
        if df > 0 {
            lemma_assoc_get_push(
                prev,
                (
                    qtf.last().0,
                    crate::engine::sat_mul_u64(
                        qtf.last().1,
                        crate::math::spec_ln_scaled(docs.len(), df as nat) as u64,
                    ),
                ),
                t,
            );
            if assoc_contains(prev, t) {
                lemma_qweights_keys(qtf.drop_last(), docs, t);
                lemma_assoc_contains_index(qtf.drop_last(), t);
                let i = choose|i: int|
                    0 <= i < qtf.drop_last().len() && qtf.drop_last()[i].0 == t;
                assert(qtf[i].0 == t);
            } else {
                assert(t == qtf.last().0);
                assert(qtf[qtf.len() - 1].0 == t);
            }
        } else {
            lemma_qweights_keys(qtf.drop_last(), docs, t);
            lemma_assoc_contains_index(qtf.drop_last(), t);
            let i = choose|i: int| 0 <= i < qtf.drop_last().len() && qtf.drop_last()[i].0 == t;
            assert(qtf[i].0 == t);
        }
    }
}

/// A document vector's terms all come from the document's term map.
pub proof fn lemma_doc_weights_keys(docs: Seq<Document>, i: int, t: Seq<char>)
    requires
        0 <= i < docs.len(),
        assoc_contains(doc_weights(docs, i), t),
    ensures
        assoc_contains(doc_tf(docs[i].title@, docs[i].content@), t),
{
    let tf = doc_tf(docs[i].title@, docs[i].content@);
    let ws = doc_weights(docs, i);
    lemma_assoc_contains_index(ws, t);
    let j = choose|j: int| 0 <= j < ws.len() && ws[j].0 == t;
    assert(tf_max(tf) != 0);
    assert(ws[j].0 == tf[j].0);
    crate::assoc::lemma_contains_of_index(tf, t, j);
}

/// A dot product over disjoint term sets is zero.
proof fn lemma_dot_disjoint(a: Seq<(Seq<char>, u64)>, b: Seq<(Seq<char>, u64)>)
    requires
        forall|i: int| 0 <= i < a.len() ==> !assoc_contains(b, (#[trigger] a[i]).0),
    ensures
        dot(a, b) == 0,
    decreases a.len(),
{
    if a.len() > 0 {
        assert forall|i: int|
            0 <= i < a.drop_last().len() implies !assoc_contains(
            b,
            (#[trigger] a.drop_last()[i]).0,
        ) by {
            assert(a.drop_last()[i] == a[i]);
        }
        lemma_dot_disjoint(a.drop_last(), b);
        assert(!assoc_contains(b, a[a.len() - 1].0));
        assert(assoc_get(b, a.last().0) is None);
    }
}

/// A positive dot product names a shared term.
proof fn lemma_dot_shared(a: Seq<(Seq<char>, u64)>, b: Seq<(Seq<char>, u64)>)
    requires
        dot(a, b) > 0,
    ensures
        exists|i: int| 0 <= i < a.len() && assoc_contains(b, (#[trigger] a[i]).0),
    decreases a.len(),
{
    crate::engine::lemma_dot_le_cap(a.drop_last(), b);
    if a.len() > 0 {
        match assoc_get(b, a.last().0) {
            Some(w) => {
                assert(assoc_contains(b, a[a.len() - 1].0));
            },
            None => {
                lemma_dot_shared(a.drop_last(), b);
                let i = choose|i: int|
                    0 <= i < a.drop_last().len() && assoc_contains(
                        b,
                        (#[trigger] a.drop_last()[i]).0,
                    );
                assert(a[i] == a.drop_last()[i]);
                assert(assoc_contains(b, a[i].0));
            },
        }
    }
}

/// Every scored entry names a stored document with its positive score.
proof fn lemma_scored_member(
    docs: Seq<Document>,
    query: Seq<char>,
    fuzzy: bool,
    fd: nat,
    k: int,
    y: (Seq<char>, u64),
)
    requires
        scored_upto(docs, query, fuzzy, fd, k).contains(y),
        k <= docs.len(),
    ensures
        exists|j: int|
            0 <= j < k && y == ((#[trigger] docs[j]).id@, spec_doc_score(
                docs,
                j,
                query,
                fuzzy,
                fd,
            )),
        y.1 > 0,
    decreases k,
{
    let cur = scored_upto(docs, query, fuzzy, fd, k);
    let prev = scored_upto(docs, query, fuzzy, fd, k - 1);
    let i = choose|i: int| 0 <= i < cur.len() && cur[i] == y;
    let sc = spec_doc_score(docs, k - 1, query, fuzzy, fd);
    if sc > 0 && i == cur.len() - 1 && cur.len() == prev.len() + 1 {
        assert(y == (docs[k - 1].id@, sc));
    } else {
        assert(prev.contains(y)) by {
            if sc > 0 {
                assert(cur == prev.push((docs[k - 1].id@, sc)));
                assert(prev[i] == y);
            } else {
                assert(cur == prev);
            }
        }
        lemma_scored_member(docs, query, fuzzy, fd, k - 1, y);
        let j = choose|j: int|
            0 <= j < k - 1 && y == ((#[trigger] docs[j]).id@, spec_doc_score(
                docs,
                j,
                query,
                fuzzy,
                fd,
            ));
        assert(y == (docs[j].id@, spec_doc_score(docs, j, query, fuzzy, fd)));
    }
}

/// A document sharing no admissible term with the query scores zero in a
/// non-fuzzy search.
pub proof fn lemma_disjoint_doc_scores_zero(docs: Seq<Document>, j: int, query: Seq<char>)
    requires
        0 <= j < docs.len(),
        forall|t: Seq<char>|
            #[trigger] assoc_contains(doc_tf(docs[j].title@, docs[j].content@), t)
                ==> !assoc_contains(query_tf(query), t),
    ensures
        spec_doc_score(docs, j, query, false, 0) == 0,
{
    let dws = doc_weights(docs, j);
    let qv = spec_query_vec(docs, query);
    assert forall|i: int|
        0 <= i < dws.len() implies !assoc_contains(qv, (#[trigger] dws[i]).0) by {
        crate::assoc::lemma_contains_of_index(dws, dws[i].0, i);
        lemma_doc_weights_keys(docs, j, dws[i].0);
        if assoc_contains(qv, dws[i].0) {
            lemma_qweights_keys(query_tf(query), docs, dws[i].0);
        }
    }
    lemma_dot_disjoint(dws, qv);
    let dmag = nat_sqrt(sumsq(dws) as nat) as u64;
    let qmag = nat_sqrt(sumsq(qv) as nat) as u64;
    assert(spec_cosine(dws, dmag, qv, qmag) == 0) by {
        if dmag != 0 && qmag != 0 {
            assert((0int) * (SCALE as int) == 0);
            assert((dmag as int) * (qmag as int) >= 1) by (nonlinear_arith)
                requires
                    dmag >= 1,
                    qmag >= 1,
            ;
            vstd::arithmetic::div_mod::lemma_div_pos_is_pos(
                0,
                (dmag as int) * (qmag as int),
            );
            vstd::arithmetic::div_mod::lemma_basic_div(0, (dmag as int) * (qmag as int));
        }
    }
}

/// When a query is exactly one document's title and no other document shares
/// any admissible term with the query, and that document's computed score is
/// positive, it is the one and only result, ranked first.
pub proof fn lemma_unique_terms_top_hit(
    docs: Seq<Document>,
    di: int,
    query: Seq<char>,
    limit: int,
    results: Seq<SearchResult>,
)
    requires
        0 <= di < docs.len(),
        forall|j: int, t: Seq<char>|
            0 <= j < docs.len() && j != di && #[trigger] assoc_contains(
                doc_tf(docs[j].title@, docs[j].content@),
                t,
            ) ==> !assoc_contains(query_tf(query), t),
        spec_doc_score(docs, di, query, false, 0) > 0,
        limit >= 1,
        search_post(docs, query, limit, false, 0, results),
    ensures
        results.len() == 1,
        results[0].document_id@ == docs[di].id@,
        results[0].score > 0,
{
    assert forall|j: int|
        0 <= j < docs.len() && j != di implies spec_doc_score(docs, j, query, false, 0)
        == 0 by {
        lemma_disjoint_doc_scores_zero(docs, j, query);
    }
    lemma_scored_single(docs, di, query, docs.len() as int);
    let s = spec_doc_score(docs, di, query, false, 0);
    let scored = scored_upto(docs, query, false, 0, docs.len() as int);
    assert(scored =~= seq![(docs[di].id@, s)]);
    let ranked = spec_ranked(docs, query, false, 0);
    assert(ranked == crate::rank::sort_desc(scored));
    assert(scored.drop_last() =~= Seq::<(Seq<char>, u64)>::empty());
    assert(scored.last() == (docs[di].id@, s));
    assert(crate::rank::sort_desc(Seq::<(Seq<char>, u64)>::empty())
        == Seq::<(Seq<char>, u64)>::empty());
    assert(crate::rank::insert_desc(Seq::<(Seq<char>, u64)>::empty(), (docs[di].id@, s))
        =~= seq![(docs[di].id@, s)]);
    assert(ranked =~= seq![(docs[di].id@, s)]);
}

/// With every other document scoring zero, the scored list holds only
/// document `di` once it is reached.
proof fn lemma_scored_single(docs: Seq<Document>, di: int, query: Seq<char>, k: int)
    requires
        0 <= di < docs.len(),
        k <= docs.len(),
        spec_doc_score(docs, di, query, false, 0) > 0,
        forall|j: int|
            0 <= j < docs.len() && j != di ==> #[trigger] spec_doc_score(
                docs,
                j,
                query,
                false,
                0,
            ) == 0,
    ensures
        scored_upto(docs, query, false, 0, k) == if k > di {
            seq![(docs[di].id@, spec_doc_score(docs, di, query, false, 0))]
        } else {
            Seq::<(Seq<char>, u64)>::empty()
        },
    decreases k,
{
    if k > 0 {
        lemma_scored_single(docs, di, query, k - 1);
        if k - 1 == di {
            assert(scored_upto(docs, query, false, 0, k) =~= seq![
                (docs[di].id@, spec_doc_score(docs, di, query, false, 0)),
            ]);
        }
    } else {
        assert(scored_upto(docs, query, false, 0, k) =~= Seq::<(Seq<char>, u64)>::empty());
    }
}

/// Every returned document shares at least one admissible term with the
/// query, in a non-fuzzy search: the forward half of membership.
pub proof fn lemma_hit_shares_query_term(
    docs: Seq<Document>,
    query: Seq<char>,
    limit: int,
    results: Seq<SearchResult>,
    i: int,
)
    requires
        search_post(docs, query, limit, false, 0, results),
        0 <= i < results.len(),
    ensures
        exists|j: int, t: Seq<char>|
            0 <= j < docs.len() && docs[j].id@ == results[i].document_id@
                && #[trigger] assoc_contains(doc_tf(docs[j].title@, docs[j].content@), t)
                && assoc_contains(query_tf(query), t) && is_admissible(t),
{
    let scored = scored_upto(docs, query, false, 0, docs.len() as int);
    let ranked = spec_ranked(docs, query, false, 0);
    crate::rank::lemma_sort_desc_props(scored);
    assert(ranked.contains(ranked[i])) by {
        assert(ranked[i] == ranked[i]);
    }
    assert(scored.contains(ranked[i]));
    lemma_scored_member(docs, query, false, 0, docs.len() as int, ranked[i]);
    let j = choose|j: int|
        0 <= j < docs.len() && ranked[i] == ((#[trigger] docs[j]).id@, spec_doc_score(
            docs,
            j,
            query,
            false,
            0,
        ));
    let s = spec_doc_score(docs, j, query, false, 0);
    assert(s > 0);
    let dws = doc_weights(docs, j);
    let qv = spec_query_vec(docs, query);
    let dmag = nat_sqrt(sumsq(dws) as nat) as u64;
    let qmag = nat_sqrt(sumsq(qv) as nat) as u64;
    let base = spec_cosine(dws, dmag, qv, qmag);
    assert(base > 0) by {
        if base == 0 {
            assert(s == crate::assoc::sat_add64(0, 0) || s == 0);
        }
    }
    assert(dot(dws, qv) > 0) by {
        if dot(dws, qv) == 0 {
            if dmag != 0 && qmag != 0 {
                assert((0int) * (SCALE as int) == 0);
                assert((dmag as int) * (qmag as int) >= 1) by (nonlinear_arith)
                    requires
                        dmag >= 1,
                        qmag >= 1,
                ;
                vstd::arithmetic::div_mod::lemma_basic_div(
                    0,
                    (dmag as int) * (qmag as int),
                );
            }
        }
    }
    lemma_dot_shared(dws, qv);
    let w = choose|w: int| 0 <= w < dws.len() && assoc_contains(qv, (#[trigger] dws[w]).0);
    let t = dws[w].0;
    crate::assoc::lemma_contains_of_index(dws, t, w);
    lemma_doc_weights_keys(docs, j, t);
    lemma_qweights_keys(query_tf(query), docs, t);
    lemma_query_terms_admissible(query, t);
    assert(assoc_contains(doc_tf(docs[j].title@, docs[j].content@), t)
        && assoc_contains(query_tf(query), t) && is_admissible(t));
}

/// Two results carry the same data.
pub open spec fn same_result(a: SearchResult, b: SearchResult) -> bool {
    &&& a.document_id@ == b.document_id@
    &&& a.title@ == b.title@
    &&& a.snippet@ == b.snippet@
    &&& kv_str(a.metadata@) == kv_str(b.metadata@)
    &&& a.score == b.score
    &&& th_views(a.highlights@) == th_views(b.highlights@)
}

/// Prefix stability: over one corpus snapshot, searching with a smaller
/// limit returns exactly the first results of searching with a larger one.
pub proof fn lemma_prefix_stability(
    docs: Seq<Document>,
    query: Seq<char>,
    k1: int,
    k2: int,
    fuzzy: bool,
    fd: nat,
    r1: Seq<SearchResult>,
    r2: Seq<SearchResult>,
)
    requires
        0 <= k1 <= k2,
        search_post(docs, query, k1, fuzzy, fd, r1),
        search_post(docs, query, k2, fuzzy, fd, r2),
    ensures
        r1.len() <= r2.len(),
        forall|i: int| 0 <= i < r1.len() ==> same_result(#[trigger] r1[i], r2[i]),
{
    assert forall|i: int| 0 <= i < r1.len() implies same_result(#[trigger] r1[i], r2[i]) by {
        assert(r1[i] == r1[i]);
        assert(r2[i] == r2[i]);
    }
}

/// Determinism: over one corpus snapshot the ranked output is a function of
/// the request alone — in particular it cannot depend on how many workers
/// scored the documents.
pub proof fn lemma_search_deterministic(
    docs: Seq<Document>,
    query: Seq<char>,
    limit: int,
    fuzzy: bool,
    fd: nat,
    r1: Seq<SearchResult>,
    r2: Seq<SearchResult>,
)
    requires
        search_post(docs, query, limit, fuzzy, fd, r1),
        search_post(docs, query, limit, fuzzy, fd, r2),
    ensures
        r1.len() == r2.len(),
        forall|i: int| 0 <= i < r1.len() ==> same_result(#[trigger] r1[i], r2[i]),
{
    lemma_prefix_stability(docs, query, limit, limit, fuzzy, fd, r1, r2);
}

/// Ranking order: scores never increase along the results, and every
/// returned score is positive.
pub proof fn lemma_results_ranked(
    docs: Seq<Document>,
    query: Seq<char>,
    limit: int,
    fuzzy: bool,
    fd: nat,
    results: Seq<SearchResult>,
)
    requires
        search_post(docs, query, limit, fuzzy, fd, results),
    ensures
        forall|i: int, j: int|
            0 <= i <= j < results.len() ==> (#[trigger] results[i]).score >= (
            #[trigger] results[j]).score,
        forall|i: int| 0 <= i < results.len() ==> (#[trigger] results[i]).score > 0,
{
    let scored = scored_upto(docs, query, fuzzy, fd, docs.len() as int);
    let ranked = spec_ranked(docs, query, fuzzy, fd);
    crate::rank::lemma_sort_desc_props(scored);
    assert forall|i: int|
        0 <= i < results.len() implies (#[trigger] results[i]).score > 0 by {
        assert(ranked.contains(ranked[i])) by {
            assert(ranked[i] == ranked[i]);
        }
        assert(scored.contains(ranked[i]));
        lemma_scored_member(docs, query, fuzzy, fd, docs.len() as int, ranked[i]);
    }
}


/// A term of the index built from one document's weights was already there,
/// or is one of the document's terms.
proof fn lemma_add_pos_postings_keys(
    ix: Seq<(Seq<char>, Seq<(Seq<char>, u64)>)>,
    ws: Seq<(Seq<char>, u64)>,
    id: Seq<char>,
    t: Seq<char>,
)
    requires
        assoc_contains(crate::engine::add_pos_postings(ix, ws, id), t),
    ensures
        assoc_contains(ix, t) || assoc_contains(ws, t),
    decreases ws.len(),
{
    if ws.len() > 0 {
        let prev = crate::engine::add_pos_postings(ix, ws.drop_last(), id);
        if ws.last().1 > 0 {
            lemma_push_posting_keys(prev, ws.last().0, id, ws.last().1, t);
        }
        if t == ws.last().0 && !assoc_contains(ix, t) && !(assoc_contains(prev, t)) {
            crate::assoc::lemma_contains_of_index(ws, t, ws.len() - 1);
        } else if assoc_contains(prev, t) {
            lemma_add_pos_postings_keys(ix, ws.drop_last(), id, t);
            if assoc_contains(ws.drop_last(), t) {
                lemma_assoc_contains_index(ws.drop_last(), t);
                let j = choose|j: int|
                    0 <= j < ws.drop_last().len() && ws.drop_last()[j].0 == t;
                assert(ws[j].0 == t);
                crate::assoc::lemma_contains_of_index(ws, t, j);
            }
        }
    }
}

/// No stopword and no single-character token ever keys a postings list of
/// the rebuilt inverted index.
pub proof fn lemma_index_terms_admissible(docs: Seq<Document>, k: int, t: Seq<char>)
    requires
        0 <= k <= docs.len(),
        assoc_contains(crate::engine::index_of_upto(docs, k), t),
    ensures
        is_admissible(t),
    decreases k,
{
    let prev = crate::engine::index_of_upto(docs, k - 1);
    lemma_add_pos_postings_keys(prev, doc_weights(docs, k - 1), docs[k - 1].id@, t);
    if assoc_contains(prev, t) {
        lemma_index_terms_admissible(docs, k - 1, t);
    } else {
        lemma_doc_weights_keys(docs, k - 1, t);
        lemma_doc_terms_admissible(docs[k - 1].title@, docs[k - 1].content@, t);
    }
}

/// Query terms absent from the corpus are omitted: every term of the query
/// vector occurs in some indexed document.
pub proof fn lemma_qweights_df_pos(qtf: Seq<(Seq<char>, u64)>, docs: Seq<Document>, t: Seq<char>)
    requires
        assoc_contains(qweights_of(qtf, docs), t),
    ensures
        df_count(docs, t) > 0,
    decreases qtf.len(),
{
    if qtf.len() > 0 {
        let prev = qweights_of(qtf.drop_last(), docs);
        let df = df_count(docs, qtf.last().0);
        if df > 0 {
            lemma_assoc_get_push(
                prev,
                (
                    qtf.last().0,
                    crate::engine::sat_mul_u64(
                        qtf.last().1,
                        crate::math::spec_ln_scaled(docs.len(), df as nat) as u64,
                    ),
                ),
                t,
            );
            if assoc_contains(prev, t) {
                lemma_qweights_df_pos(qtf.drop_last(), docs, t);
            }
        } else {
            lemma_qweights_df_pos(qtf.drop_last(), docs, t);
        }
    }
}

/// Every distinct query term, in order, is admissible.
pub proof fn lemma_qtf_keys_admissible(query: Seq<char>, j: int)
    requires
        0 <= j < crate::engine::qtf_keys(query).len(),
    ensures
        is_admissible(crate::engine::qtf_keys(query)[j]),
{
    let keys = crate::engine::qtf_keys(query);
    assert(keys[j] == query_tf(query)[j].0);
    crate::assoc::lemma_contains_of_index(query_tf(query), query_tf(query)[j].0, j);
    lemma_query_terms_admissible(query, query_tf(query)[j].0);
}

/// With fuzzy matching off and only admissible query terms, a content word
/// whose cleaned form is a stopword or shorter than two characters is never
/// highlighted.
pub proof fn lemma_inadmissible_never_highlighted(
    qterms: Seq<Seq<char>>,
    w: Seq<char>,
    fd: nat,
)
    requires
        forall|j: int| 0 <= j < qterms.len() ==> is_admissible(#[trigger] qterms[j]),
        !is_admissible(crate::text::trim_non_word_seq(lower_of(w))),
    ensures
        !crate::engine::word_highlighted(qterms, w, false, fd),
{
    let cleaned = crate::text::trim_non_word_seq(lower_of(w));
    if qterms.contains(cleaned) {
        let j = choose|j: int| 0 <= j < qterms.len() && qterms[j] == cleaned;
        assert(is_admissible(qterms[j]));
        assert(false);
    }
}

/// Every term of the query vector is admissible and occurs in some indexed
/// document; query terms absent from the corpus are omitted.
pub proof fn lemma_query_vec_terms(docs: Seq<Document>, query: Seq<char>, t: Seq<char>)
    requires
        assoc_contains(spec_query_vec(docs, query), t),
    ensures
        is_admissible(t),
        df_count(docs, t) > 0,
{
    lemma_qweights_keys(query_tf(query), docs, t);
    lemma_query_terms_admissible(query, t);
    lemma_qweights_df_pos(query_tf(query), docs, t);
}

/// Over a well-formed index, tokens that are not admissible score nothing.
proof fn lemma_query_scores_empty(
    ix: crate::algorithms::InvertedIndex,
    qtoks: Seq<Seq<char>>,
)
    requires
        ix.wf(),
        forall|j: int| 0 <= j < qtoks.len() ==> !is_admissible(#[trigger] qtoks[j]),
    ensures
        crate::algorithms::query_scores(ix.spec_index(), qtoks) == Seq::<(Seq<char>, u64)>::empty(),
    decreases qtoks.len(),
{
    if qtoks.len() > 0 {
        assert forall|j: int|
            0 <= j < qtoks.drop_last().len() implies !is_admissible(
            #[trigger] qtoks.drop_last()[j],
        ) by {
            assert(qtoks.drop_last()[j] == qtoks[j]);
        }
        lemma_query_scores_empty(ix, qtoks.drop_last());
        assert(!is_admissible(qtoks[qtoks.len() - 1]));
        ix.lemma_inadmissible_not_indexed(qtoks.last());
    }
}

/// A query with no admissible terms returns empty results: every token of a
/// stopword-only (or single-character-only) query misses the index, so the
/// ranked list is empty.
pub proof fn lemma_no_admissible_terms_no_results(
    ix: crate::algorithms::InvertedIndex,
    query: Seq<char>,
    limit: int,
    results: Seq<crate::algorithms::SearchResult>,
)
    requires
        ix.wf(),
        limit >= 0,
        forall|j: int|
            0 <= j < crate::algorithms::unicode_words_of(lower_of(query)).len()
                ==> !is_admissible(
                #[trigger] crate::algorithms::unicode_words_of(lower_of(query))[j],
            ),
        crate::algorithms::index_search_post(ix, query, limit, results),
    ensures
        results.len() == 0,
{
    lemma_query_scores_empty(ix, crate::algorithms::unicode_words_of(lower_of(query)));
    assert(crate::rank::sort_desc(Seq::<(Seq<char>, u64)>::empty())
        == Seq::<(Seq<char>, u64)>::empty());
}

} // verus!
