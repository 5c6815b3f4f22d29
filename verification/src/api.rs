//! The search surface: one inverted index per logical corpus (courses,
//! portfolio, blog) behind reader/writer locks, the request and response
//! shapes, and the per-corpus and global search operations.

use vstd::prelude::*;
use vstd::rwlock::RwLock;
use crate::algorithms::{
    index_search_post, keep_pred, InvertedIndex, SearchDocument, SearchResult,
};
use crate::assoc::kv_str;

verus! {

/// The invariant every index behind a lock satisfies.
pub open spec fn index_inv() -> spec_fn(InvertedIndex) -> bool {
    |ix: InvertedIndex| ix.wf()
}

/// A search request: the query text, optional metadata filters, and an
/// optional result limit.
pub struct SearchRequest {
    pub query: String,
    pub filters: Option<Vec<(String, String)>>,
    pub limit: Option<usize>,
}

/// A search response: the ranked results and their count.
pub struct SearchResponse {
    pub results: Vec<SearchResult>,
    pub total: usize,
}

/// The view of a request's optional metadata filters.
pub open spec fn filters_view(f: Option<Vec<(String, String)>>) -> Option<
    Seq<(Seq<char>, Seq<char>)>,
> {
    match f {
        Some(v) => Some(kv_str(v@)),
        None => None,
    }
}

/// The requested limit, or the given default when absent.
pub open spec fn requested_limit(limit: Option<usize>, default: int) -> int {
    match limit {
        Some(l) => l as int,
        None => default,
    }
}

/// What one corpus answers: `results` is the ranked search of the index
/// state `ix`, cut to `limit`, then filtered by the request's metadata
/// pairs (an absent or empty filter map keeps everything).
pub open spec fn corpus_response(
    ix: InvertedIndex,
    query: Seq<char>,
    filters: Option<Seq<(Seq<char>, Seq<char>)>>,
    limit: int,
    results: Seq<SearchResult>,
) -> bool {
    exists|mid: Seq<SearchResult>|
        {
            &&& #[trigger] index_search_post(ix, query, limit, mid)
            &&& match filters {
                Some(fv) => if fv.len() == 0 {
                    results == mid
                } else {
                    results == mid.filter(keep_pred(ix.spec_documents(), fv))
                },
                None => results == mid,
            }
        }
}

/// One index per logical corpus, each behind its own lock.
pub struct SearchState {
    pub courses_index: RwLock<InvertedIndex, spec_fn(InvertedIndex) -> bool>,
    pub portfolio_index: RwLock<InvertedIndex, spec_fn(InvertedIndex) -> bool>,
    pub blog_index: RwLock<InvertedIndex, spec_fn(InvertedIndex) -> bool>,
}

impl SearchState {
    /// Every lock carries the index's well-formedness.
    pub open spec fn wf(self) -> bool {
        &&& self.courses_index.pred() == index_inv()
        &&& self.portfolio_index.pred() == index_inv()
        &&& self.blog_index.pred() == index_inv()
    }

    /// Three empty indices.
    pub fn new() -> (r: SearchState)
        ensures
            r.wf(),
    {
        let c = InvertedIndex::new();
        let p = InvertedIndex::new();
        let b = InvertedIndex::new();
        proof {
            assert(index_inv()(c));
            assert(index_inv()(p));
            assert(index_inv()(b));
        }
        SearchState {
            courses_index: RwLock::new(c, Ghost(index_inv())),
            portfolio_index: RwLock::new(p, Ghost(index_inv())),
            blog_index: RwLock::new(b, Ghost(index_inv())),
        }
    }
}

/// Adds every document of a batch to the index behind the lock.
fn index_documents(lock: &RwLock<InvertedIndex, spec_fn(InvertedIndex) -> bool>, docs: Vec<
    SearchDocument,
>)
    requires
        lock.pred() == index_inv(),
{
    let (mut ix, handle) = lock.acquire_write();
    proof {
        assert(index_inv()(ix));
    }
    let mut rest = docs;
    #[verifier::loop_isolation(false)]
    while rest.len() > 0
        invariant
            ix.wf(),
        decreases rest@.len(),
    {
        let d = rest.remove(0);
        ix.add_document(d);
    }
    proof {
        assert(index_inv()(ix));
    }
    handle.release_write(ix);
}

/// Fills the three corpus indices from their document batches.
pub fn initialize_search_indices(
    state: &SearchState,
    courses: Vec<SearchDocument>,
    portfolio: Vec<SearchDocument>,
    blog: Vec<SearchDocument>,
)
    requires
        state.wf(),
{
    index_documents(&state.courses_index, courses);
    index_documents(&state.portfolio_index, portfolio);
    index_documents(&state.blog_index, blog);
}

/// Runs one request against one corpus: search with the requested limit
/// (ten when absent), then drop results whose document misses a filter
/// pair. The results are the ranked, filtered answer for the index state
/// behind the lock, and the reported total is their count.
pub fn execute_search(
    lock: &RwLock<InvertedIndex, spec_fn(InvertedIndex) -> bool>,
    req: &SearchRequest,
) -> (resp: SearchResponse)
    requires
        lock.pred() == index_inv(),
    ensures
        resp.total == resp.results@.len(),
        exists|ix: InvertedIndex|
            ix.wf() && #[trigger] corpus_response(
                ix,
                req.query@,
                filters_view(req.filters),
                requested_limit(req.limit, 10),
                resp.results@,
            ),
{
    let read = lock.acquire_read();
    let ix = read.borrow();
    let ghost ixg = *ix;
    proof {
        assert(index_inv()(ixg));
    }
    let limit: usize = match req.limit {
        Some(l) => l,
        None => 10,
    };
    let mut results = ix.search(req.query.as_str(), limit);
    let ghost mid = results@;
    match &req.filters {
        Some(filters) => {
            results = ix.filter_by_metadata(results, filters);
        },
        None => {},
    }
    read.release_read();
    let total = results.len();
    let resp = SearchResponse { results, total };
    proof {
        assert(corpus_response(
            ixg,
            req.query@,
            filters_view(req.filters),
            requested_limit(req.limit, 10),
            resp.results@,
        )) by {
            assert(index_search_post(ixg, req.query@, requested_limit(req.limit, 10), mid));
        }
    }
    resp
}

/// Searches the course corpus.
pub fn search_courses(state: &SearchState, req: &SearchRequest) -> (resp: SearchResponse)
    requires
        state.wf(),
    ensures
        resp.total == resp.results@.len(),
        exists|ix: InvertedIndex|
            ix.wf() && #[trigger] corpus_response(
                ix,
                req.query@,
                filters_view(req.filters),
                requested_limit(req.limit, 10),
                resp.results@,
            ),
{
    execute_search(&state.courses_index, req)
}

/// Searches the portfolio corpus.
pub fn search_portfolio(state: &SearchState, req: &SearchRequest) -> (resp: SearchResponse)
    requires
        state.wf(),
    ensures
        resp.total == resp.results@.len(),
        exists|ix: InvertedIndex|
            ix.wf() && #[trigger] corpus_response(
                ix,
                req.query@,
                filters_view(req.filters),
                requested_limit(req.limit, 10),
                resp.results@,
            ),
{
    execute_search(&state.portfolio_index, req)
}

/// Searches the blog corpus.
pub fn search_blog(state: &SearchState, req: &SearchRequest) -> (resp: SearchResponse)
    requires
        state.wf(),
    ensures
        resp.total == resp.results@.len(),
        exists|ix: InvertedIndex|
            ix.wf() && #[trigger] corpus_response(
                ix,
                req.query@,
                filters_view(req.filters),
                requested_limit(req.limit, 10),
                resp.results@,
            ),
{
    execute_search(&state.blog_index, req)
}

/// Stable insertion of a result by descending score.
pub open spec fn insert_result_desc(s: Seq<SearchResult>, x: SearchResult) -> Seq<SearchResult>
    decreases s.len(),
{
    if s.len() == 0 {
        seq![x]
    } else if s.last().score >= x.score {
        s.push(x)
    } else {
        insert_result_desc(s.drop_last(), x).push(s.last())
    }
}

/// Stable sort of results by descending score.
pub open spec fn sort_results_desc(s: Seq<SearchResult>) -> Seq<SearchResult>
    decreases s.len(),
{
    if s.len() == 0 {
        Seq::empty()
    } else {
        insert_result_desc(sort_results_desc(s.drop_last()), s.last())
    }
}

/// Scores never increase along the results.
pub open spec fn sorted_results(s: Seq<SearchResult>) -> bool {
    forall|i: int, j: int| 0 <= i <= j < s.len() ==> s[i].score >= s[j].score
}

proof fn lemma_insert_result_desc_at(s: Seq<SearchResult>, x: SearchResult, p: int)
    requires
        0 <= p <= s.len(),
        forall|j: int| p <= j < s.len() ==> s[j].score < x.score,
        p > 0 ==> s[p - 1].score >= x.score,
    ensures
        insert_result_desc(s, x) == s.take(p).push(x) + s.skip(p),
    decreases s.len(),
{
    if s.len() == 0 {
        assert(insert_result_desc(s, x) =~= s.take(p).push(x) + s.skip(p));
    } else if s.last().score >= x.score {
        assert(p == s.len());
        assert(s.take(p) =~= s);
        assert(insert_result_desc(s, x) =~= s.take(p).push(x) + s.skip(p));
    } else {
        assert forall|j: int| p <= j < s.drop_last().len() implies s.drop_last()[j].score
            < x.score by {
            assert(s.drop_last()[j] == s[j]);
        }
        if p > 0 {
            assert(s.drop_last()[p - 1] == s[p - 1]);
        }
        lemma_insert_result_desc_at(s.drop_last(), x, p);
        assert(insert_result_desc(s, x) =~= s.take(p).push(x) + s.skip(p));
    }
}

/// The inserted sequence holds exactly the old results and `x`.
proof fn lemma_insert_result_members(s: Seq<SearchResult>, x: SearchResult)
    ensures
        forall|y: SearchResult|
            #[trigger] insert_result_desc(s, x).contains(y) <==> (s.contains(y) || y == x),
    decreases s.len(),
{
    let r = insert_result_desc(s, x);
    if s.len() == 0 {
        assert forall|y: SearchResult| #[trigger]
            r.contains(y) <==> (s.contains(y) || y == x) by {
            if y == x {
                assert(r[0] == x);
            }
            if r.contains(y) {
                let i = choose|i: int| 0 <= i < r.len() && r[i] == y;
                assert(i == 0);
            }
        }
    } else if s.last().score >= x.score {
        assert forall|y: SearchResult| #[trigger]
            r.contains(y) <==> (s.contains(y) || y == x) by {
            if s.contains(y) {
                let i = choose|i: int| 0 <= i < s.len() && s[i] == y;
                assert(r[i] == y);
            }
            if y == x {
                assert(r[s.len() as int] == y);
            }
            if r.contains(y) {
                let i = choose|i: int| 0 <= i < r.len() && r[i] == y;
                if i < s.len() {
                    assert(s[i] == y);
                }
            }
        }
    } else {
        lemma_insert_result_members(s.drop_last(), x);
        let q = insert_result_desc(s.drop_last(), x);
        assert(r == q.push(s.last()));
        assert forall|y: SearchResult| #[trigger]
            r.contains(y) <==> (s.contains(y) || y == x) by {
            if s.contains(y) {
                let i = choose|i: int| 0 <= i < s.len() && s[i] == y;
                if i < s.len() - 1 {
                    assert(s.drop_last()[i] == y);
                    assert(s.drop_last().contains(y));
                    assert(q.contains(y));
                    let t = choose|t: int| 0 <= t < q.len() && q[t] == y;
                    assert(r[t] == y);
                    assert(r.contains(y));
                } else {
                    assert(r[r.len() - 1] == y);
                    assert(r.contains(y));
                }
            }
            if y == x {
                assert(q.contains(y));
                let t = choose|t: int| 0 <= t < q.len() && q[t] == y;
                assert(r[t] == y);
                assert(r.contains(y));
            }
            if r.contains(y) {
                let i = choose|i: int| 0 <= i < r.len() && r[i] == y;
                if i < r.len() - 1 {
                    assert(q[i] == y);
                    assert(q.contains(y));
                    if !(y == x) {
                        assert(s.drop_last().contains(y));
                        let t = choose|t: int|
                            0 <= t < s.drop_last().len() && s.drop_last()[t] == y;
                        assert(s[t] == y);
                        assert(s.contains(y));
                    }
                } else {
                    assert(y == s.last());
                    assert(s[s.len() - 1] == y);
                    assert(s.contains(y));
                }
            }
        }
    }
}

/// Insertion preserves descending order.
proof fn lemma_insert_result_sorted(s: Seq<SearchResult>, x: SearchResult)
    requires
        sorted_results(s),
    ensures
        sorted_results(insert_result_desc(s, x)),
    decreases s.len(),
{
    if s.len() > 0 && s.last().score < x.score {
        assert forall|i: int, j: int|
            0 <= i <= j < s.drop_last().len() implies s.drop_last()[i].score
            >= s.drop_last()[j].score by {
            assert(s.drop_last()[i] == s[i]);
            assert(s.drop_last()[j] == s[j]);
        }
        lemma_insert_result_sorted(s.drop_last(), x);
        let r = insert_result_desc(s.drop_last(), x).push(s.last());
        assert forall|i: int, j: int| 0 <= i <= j < r.len() implies r[i].score
            >= r[j].score by {
            lemma_insert_result_members(s.drop_last(), x);
            if j == r.len() - 1 && i < j {
                let y = insert_result_desc(s.drop_last(), x)[i];
                assert(insert_result_desc(s.drop_last(), x).contains(y)) by {
                    assert(insert_result_desc(s.drop_last(), x)[i] == y);
                }
                if y == x {
                } else {
                    let t = choose|t: int|
                        0 <= t < s.drop_last().len() && s.drop_last()[t] == y;
                    assert(s[t] == y);
                }
            }
        }
    }
}

/// The sorted results are ordered by non-increasing score.
pub proof fn lemma_sort_results_sorted(s: Seq<SearchResult>)
    ensures
        sorted_results(sort_results_desc(s)),
        sort_results_desc(s).len() == s.len(),
    decreases s.len(),
{
    if s.len() > 0 {
        lemma_sort_results_sorted(s.drop_last());
        lemma_insert_result_sorted(sort_results_desc(s.drop_last()), s.last());
        lemma_insert_result_len(sort_results_desc(s.drop_last()), s.last());
    }
}

proof fn lemma_insert_result_len(s: Seq<SearchResult>, x: SearchResult)
    ensures
        insert_result_desc(s, x).len() == s.len() + 1,
    decreases s.len(),
{
    if s.len() > 0 && s.last().score < x.score {
        lemma_insert_result_len(s.drop_last(), x);
    }
}

/// Sorts results by descending score, stably.
fn sort_results(v: Vec<SearchResult>) -> (out: Vec<SearchResult>)
    ensures
        out@ == sort_results_desc(v@),
{
    let ghost orig = v@;
    let mut src = v;
    let mut out: Vec<SearchResult> = Vec::new();
    let n0 = src.len();
    let mut i: usize = 0;
    proof {
        assert(orig.take(0) =~= Seq::<SearchResult>::empty());
        assert(src@ =~= orig.skip(0));
    }
    #[verifier::loop_isolation(false)]
    while src.len() > 0
        invariant
            n0 == orig.len(),
            i <= n0,
            src@ == orig.skip(i as int),
            out@ == sort_results_desc(orig.take(i as int)),
        decreases src@.len(),
    {
        let x = src.remove(0);
        proof {
            assert(x == orig[i as int]);
            assert(src@ =~= orig.skip(i + 1));
        }
        let score = x.score;
        let mut p = out.len();
        while p > 0 && out[p - 1].score < score
            invariant
                p <= out@.len(),
                forall|j: int| p <= j < out@.len() ==> out@[j].score < score,
            decreases p,
        {
            p = p - 1;
        }
        let ghost pre = out@;
        proof {
            lemma_insert_result_desc_at(pre, orig[i as int], p as int);
        }
        out.insert(p, x);
        proof {
            assert(out@ =~= pre.take(p as int).push(orig[i as int]) + pre.skip(p as int));
            assert(orig.take(i + 1).drop_last() =~= orig.take(i as int));
            assert(orig.take(i + 1).last() == orig[i as int]);
        }
        i = i + 1;
    }
    proof {
        assert(orig.take(i as int) =~= orig);
    }
    out
}

/// A copy of the optional filter pairs.
fn clone_filters(f: &Option<Vec<(String, String)>>) -> (out: Option<Vec<(String, String)>>)
    ensures
        filters_view(out) == filters_view(*f),
{
    match f {
        Some(v) => {
            let mut out: Vec<(String, String)> = Vec::new();
            let n = v.len();
            let mut i: usize = 0;
            #[verifier::loop_isolation(false)]
            while i < n
                invariant
                    i <= n,
                    out@.len() == i,
                    forall|j: int| 0 <= j < i ==> #[trigger] out@[j] == v@[j],
                decreases n - i,
            {
                out.push((v[i].0.clone(), v[i].1.clone()));
                i = i + 1;
            }
            proof {
                assert(out@ =~= v@);
            }
            Some(out)
        },
        None => None,
    }
}

/// Runs one request against all three corpora: each index is searched with
/// a third of the limit (thirty when absent), filters apply per corpus, and
/// the merged results are re-sorted by descending score and cut to the
/// limit. The reported total is the number of returned results.
pub fn search_all(state: &SearchState, req: &SearchRequest) -> (resp: SearchResponse)
    requires
        state.wf(),
    ensures
        resp.total == resp.results@.len(),
        resp.results@.len() <= requested_limit(req.limit, 30),
        sorted_results(resp.results@),
        exists|
            c: InvertedIndex,
            p: InvertedIndex,
            b: InvertedIndex,
            rc: Seq<SearchResult>,
            rp: Seq<SearchResult>,
            rb: Seq<SearchResult>,
        |
            {
                &&& c.wf() && p.wf() && b.wf()
                &&& #[trigger] corpus_response(
                    c,
                    req.query@,
                    filters_view(req.filters),
                    requested_limit(req.limit, 30) / 3,
                    rc,
                )
                &&& #[trigger] corpus_response(
                    p,
                    req.query@,
                    filters_view(req.filters),
                    requested_limit(req.limit, 30) / 3,
                    rp,
                )
                &&& #[trigger] corpus_response(
                    b,
                    req.query@,
                    filters_view(req.filters),
                    requested_limit(req.limit, 30) / 3,
                    rb,
                )
                &&& resp.results@ == sort_results_desc(rc + rp + rb).take(
                    if requested_limit(req.limit, 30) <= sort_results_desc(rc + rp + rb).len() {
                        requested_limit(req.limit, 30)
                    } else {
                        sort_results_desc(rc + rp + rb).len() as int
                    },
                )
            },
{
    let limit: usize = match req.limit {
        Some(l) => l,
        None => 30,
    };
    let part = SearchRequest {
        query: req.query.clone(),
        filters: clone_filters(&req.filters),
        limit: Some(limit / 3),
    };
    let resp_c = execute_search(&state.courses_index, &part);
    let resp_p = execute_search(&state.portfolio_index, &part);
    let resp_b = execute_search(&state.blog_index, &part);
    let ghost rc = resp_c.results@;
    let ghost rp = resp_p.results@;
    let ghost rb = resp_b.results@;
    let mut combined = resp_c.results;
    let mut more_p = resp_p.results;
    let mut more_b = resp_b.results;
    combined.append(&mut more_p);
    combined.append(&mut more_b);
    proof {
        assert(combined@ == rc + rp + rb);
    }
    let mut sorted = sort_results(combined);
    let ghost merged = sort_results_desc(rc + rp + rb);
    proof {
        lemma_sort_results_sorted(rc + rp + rb);
    }
    sorted.truncate(limit);
    proof {
        if limit <= merged.len() {
            assert(sorted@ =~= merged.take(limit as int));
        } else {
            assert(sorted@ =~= merged.take(merged.len() as int));
        }
        assert(sorted_results(sorted@)) by {
            assert forall|i: int, j: int|
                0 <= i <= j < sorted@.len() implies sorted@[i].score >= sorted@[j].score by {
                assert(sorted@[i] == merged[i]);
                assert(sorted@[j] == merged[j]);
            }
        }
        let cw = choose|ix: InvertedIndex|
            ix.wf() && #[trigger] corpus_response(
                ix,
                part.query@,
                filters_view(part.filters),
                requested_limit(part.limit, 10),
                rc,
            );
        let pw = choose|ix: InvertedIndex|
            ix.wf() && #[trigger] corpus_response(
                ix,
                part.query@,
                filters_view(part.filters),
                requested_limit(part.limit, 10),
                rp,
            );
        let bw = choose|ix: InvertedIndex|
            ix.wf() && #[trigger] corpus_response(
                ix,
                part.query@,
                filters_view(part.filters),
                requested_limit(part.limit, 10),
                rb,
            );
        assert(part.query@ == req.query@);
        assert(filters_view(part.filters) == filters_view(req.filters));
        assert(requested_limit(part.limit, 10) == requested_limit(req.limit, 30) / 3);
        assert(corpus_response(
            cw,
            req.query@,
            filters_view(req.filters),
            requested_limit(req.limit, 30) / 3,
            rc,
        ));
        assert(corpus_response(
            pw,
            req.query@,
            filters_view(req.filters),
            requested_limit(req.limit, 30) / 3,
            rp,
        ));
        assert(corpus_response(
            bw,
            req.query@,
            filters_view(req.filters),
            requested_limit(req.limit, 30) / 3,
            rb,
        ));
    }
    let total = sorted.len();
    SearchResponse { results: sorted, total }
}

} // verus!
