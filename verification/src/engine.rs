//! The TF-IDF vector-space search engine.
//!
//! Documents are weighted by term frequency (title terms count three times a
//! content term), scaled by the corpus-wide inverse document frequency, and
//! ranked against the query by cosine similarity in fixed point, with an
//! optional edit-distance fuzzy fallback, a title-substring boost, snippet
//! extraction and word-level highlighting.

use vstd::prelude::*;
use vstd::string::StringExecFns;
use rayon::iter::{IntoParallelIterator, ParallelIterator};
use vstd::rwlock::RwLock;
use vstd::arithmetic::div_mod::{lemma_div_is_ordered, lemma_div_multiples_vanish};
use vstd::arithmetic::mul::lemma_mul_inequality;
use crate::math::{
    SCALE, cap_add, WEIGHT_SUM_CAP, nat_sqrt, isqrt, lemma_nat_sqrt_is_sqrt, lemma_sqrt_unique,
};
use crate::assoc::{
    kv_u64, kv_str, assoc_get, assoc_contains, unique_keys, find_key_index,
    lemma_assoc_get_at, lemma_assoc_get_none, index_view,
};

verus! {

/// The square of a weight, exactly.
pub open spec fn sq(w: u64) -> u128 {
    ((w as int) * (w as int)) as u128
}

/// Capped sum of the squared weights of a vector.
pub open spec fn sumsq(s: Seq<(Seq<char>, u64)>) -> u128
    decreases s.len(),
{
    if s.len() == 0 {
        0
    } else {
        cap_add(sumsq(s.drop_last()), sq(s.last().1))
    }
}

/// Capped dot product: for each entry of `a` whose term also stands in `b`,
/// the product of the two weights.
pub open spec fn dot(a: Seq<(Seq<char>, u64)>, b: Seq<(Seq<char>, u64)>) -> u128
    decreases a.len(),
{
    if a.len() == 0 {
        0
    } else {
        let prev = dot(a.drop_last(), b);
        match assoc_get(b, a.last().0) {
            Some(w) => cap_add(prev, ((a.last().1 as int) * (w as int)) as u128),
            None => prev,
        }
    }
}

/// Fixed-point cosine similarity of two weighted vectors with their stored
/// magnitudes: `dot * SCALE / (|a| * |b|)`, clamped at `SCALE` (that is, at
/// 1.0), and 0 whenever either magnitude is 0.
pub open spec fn spec_cosine(
    av: Seq<(Seq<char>, u64)>,
    am: u64,
    bv: Seq<(Seq<char>, u64)>,
    bm: u64,
) -> u64 {
    if am == 0 || bm == 0 {
        0
    } else {
        let q = (dot(av, bv) as int) * (SCALE as int) / ((am as int) * (bm as int));
        if q >= SCALE {
            SCALE
        } else {
            q as u64
        }
    }
}

pub proof fn lemma_sumsq_le_cap(s: Seq<(Seq<char>, u64)>)
    ensures
        sumsq(s) <= WEIGHT_SUM_CAP,
    decreases s.len(),
{
    if s.len() > 0 {
        lemma_sumsq_le_cap(s.drop_last());
    }
}

pub proof fn lemma_dot_le_cap(a: Seq<(Seq<char>, u64)>, b: Seq<(Seq<char>, u64)>)
    ensures
        dot(a, b) <= WEIGHT_SUM_CAP,
    decreases a.len(),
{
    if a.len() > 0 {
        lemma_dot_le_cap(a.drop_last(), b);
    }
}

/// When every entry of `a` is bound in `b` to the same weight, the dot
/// product is `a`'s sum of squares.
proof fn lemma_dot_matching(a: Seq<(Seq<char>, u64)>, b: Seq<(Seq<char>, u64)>)
    requires
        forall|i: int| 0 <= i < a.len() ==> assoc_get(b, (#[trigger] a[i]).0) == Some(a[i].1),
    ensures
        dot(a, b) == sumsq(a),
    decreases a.len(),
{
    if a.len() > 0 {
        assert forall|i: int|
            0 <= i < a.drop_last().len() implies assoc_get(
            b,
            (#[trigger] a.drop_last()[i]).0,
        ) == Some(a.drop_last()[i].1) by {
            assert(a.drop_last()[i] == a[i]);
        }
        lemma_dot_matching(a.drop_last(), b);
        assert(a[a.len() - 1] == a.last());
    }
}

/// Cosine similarity of a vector with itself is exactly 1.0 (that is,
/// `SCALE`), for any vector with a nonzero weight.
pub proof fn lemma_cosine_self(v: Seq<(Seq<char>, u64)>, m: u64)
    requires
        unique_keys(v),
        m as nat == nat_sqrt(sumsq(v) as nat),
        sumsq(v) > 0,
    ensures
        spec_cosine(v, m, v, m) == SCALE,
{
    assert forall|i: int|
        0 <= i < v.len() implies assoc_get(v, (#[trigger] v[i]).0) == Some(v[i].1) by {
        lemma_assoc_get_at(v, v[i].0, i);
    }
    lemma_dot_matching(v, v);
    lemma_nat_sqrt_is_sqrt(sumsq(v) as nat);
    let ss = sumsq(v) as int;
    let mi = m as int;
    assert(m >= 1) by {
        if m == 0 {
            assert((0 + 1) * (0 + 1) == 1) by (nonlinear_arith);
        }
    }
    assert(mi * mi <= ss);
    assert(mi * mi >= 1) by (nonlinear_arith)
        requires
            mi >= 1,
    ;
    lemma_mul_inequality(mi * mi, ss, SCALE as int);
    lemma_div_is_ordered(mi * mi * (SCALE as int), ss * (SCALE as int), mi * mi);
    lemma_div_multiples_vanish(SCALE as int, mi * mi);
    assert(mi * mi * (SCALE as int) == (mi * mi) * (SCALE as int));
    assert(ss * (SCALE as int) / (mi * mi) >= SCALE);
}

/// Cosine similarity of a well-formed vector with itself is exactly 1.0,
/// whenever the vector has a nonzero weight.
pub proof fn lemma_cosine_self_vector(v: TfIdfVector)
    requires
        v.wf(),
        sumsq(v.spec_values()) > 0,
    ensures
        spec_cosine(v.spec_values(), v.spec_magnitude(), v.spec_values(), v.spec_magnitude())
            == SCALE,
{
    lemma_cosine_self(v.spec_values(), v.spec_magnitude());
}

/// A document's (or the query's) TF-IDF vector: a weight per term, in SCALE
/// units, and the vector's Euclidean magnitude, also in SCALE units.
pub struct TfIdfVector {
    values: Vec<(String, u64)>,
    magnitude: u64,
}

impl TfIdfVector {
    /// The term-to-weight view.
    pub closed spec fn spec_values(self) -> Seq<(Seq<char>, u64)> {
        kv_u64(self.values@)
    }

    /// The stored magnitude.
    pub closed spec fn spec_magnitude(self) -> u64 {
        self.magnitude
    }

    /// Each term appears once, and the stored magnitude is the integer
    /// square root of the sum of the squared weights.
    pub open spec fn wf(self) -> bool {
        &&& unique_keys(self.spec_values())
        &&& self.spec_magnitude() as nat == nat_sqrt(sumsq(self.spec_values()) as nat)
    }

    /// An empty vector with magnitude 0.
    pub fn new() -> (v: TfIdfVector)
        ensures
            v.spec_values() == Seq::<(Seq<char>, u64)>::empty(),
            v.wf(),
    {
        let v = TfIdfVector { values: Vec::new(), magnitude: 0 };
        proof {
            assert(v.spec_values() =~= Seq::<(Seq<char>, u64)>::empty());
        }
        v
    }

    /// Appends the weight of a term not yet present. The magnitude is not
    /// updated: it is recomputed once, after the vector is fully built.
    pub fn insert(&mut self, term: String, value: u64)
        requires
            !assoc_contains(old(self).spec_values(), term@),
        ensures
            final(self).spec_values() == old(self).spec_values().push((term@, value)),
            final(self).spec_magnitude() == old(self).spec_magnitude(),
    {
        let ghost pre = kv_u64(self.values@);
        let ghost tv = term@;
        self.values.push((term, value));
        proof {
            assert(kv_u64(self.values@) =~= pre.push((tv, value)));
        }
    }

    /// Recomputes the magnitude from the weights.
    pub fn recompute_magnitude(&mut self)
        requires
            unique_keys(old(self).spec_values()),
        ensures
            final(self).spec_values() == old(self).spec_values(),
            final(self).wf(),
    {
        let ghost vv = kv_u64(self.values@);
        let mut acc: u128 = 0;
        let n = self.values.len();
        let mut i: usize = 0;
        proof {
            assert(vv.take(0) =~= Seq::<(Seq<char>, u64)>::empty());
        }
        #[verifier::loop_isolation(false)]
        while i < n
            invariant
                i <= n,
                acc == sumsq(vv.take(i as int)),
                acc <= WEIGHT_SUM_CAP,
            decreases n - i,
        {
            proof {
                assert(vv.take(i + 1).drop_last() =~= vv.take(i as int));
                assert(vv.take(i + 1).last() == (self.values@[i as int].0@,
                self.values@[i as int].1));
            }
            let w = self.values[i].1;
            proof {
                crate::math::lemma_u64_mul_fits(w, w);
            }
            let term: u128 = (w as u128) * (w as u128);
            if term > WEIGHT_SUM_CAP - acc {
                acc = WEIGHT_SUM_CAP;
            } else {
                acc = acc + term;
            }
            i = i + 1;
        }
        proof {
            assert(vv.take(n as int) =~= vv);
        }
        let mag = isqrt(acc);
        proof {
            lemma_nat_sqrt_is_sqrt(acc as nat);
            lemma_sqrt_unique(acc as nat, mag as nat, nat_sqrt(acc as nat));
            lemma_sumsq_le_cap(vv);
            assert(nat_sqrt(acc as nat) * nat_sqrt(acc as nat) <= acc);
            assert(mag as nat <= 0x4_0000_0000_0000) by (nonlinear_arith)
                requires
                    (mag as nat) * (mag as nat) <= acc,
                    acc <= WEIGHT_SUM_CAP,
                    WEIGHT_SUM_CAP == 0x10_0000_0000_0000_0000_0000_0000u128,
            ;
        }
        self.magnitude = mag as u64;
    }

    /// Fixed-point cosine similarity against `other`, clamped at `SCALE`.
    pub fn cosine_similarity(&self, other: &TfIdfVector) -> (r: u64)
        requires
            self.wf(),
            other.wf(),
        ensures
            r == spec_cosine(
                self.spec_values(),
                self.spec_magnitude(),
                other.spec_values(),
                other.spec_magnitude(),
            ),
    {
        if self.magnitude == 0 || other.magnitude == 0 {
            return 0;
        }
        let ghost av = kv_u64(self.values@);
        let ghost bv = kv_u64(other.values@);
        let mut acc: u128 = 0;
        let n = self.values.len();
        let mut i: usize = 0;
        proof {
            assert(av.take(0) =~= Seq::<(Seq<char>, u64)>::empty());
        }
        #[verifier::loop_isolation(false)]
        while i < n
            invariant
                i <= n,
                acc == dot(av.take(i as int), bv),
                acc <= WEIGHT_SUM_CAP,
            decreases n - i,
        {
            proof {
                assert(av.take(i + 1).drop_last() =~= av.take(i as int));
                assert(av.take(i + 1).last() == (self.values@[i as int].0@,
                self.values@[i as int].1));
            }
            match find_key_index(&other.values, &self.values[i].0) {
                Some(bi) => {
                    proof {
                        assert(bv[bi as int] == (other.values@[bi as int].0@,
                        other.values@[bi as int].1));
                        assert forall|j: int| 0 <= j < bi implies bv[j].0 != self.values@[i as
                            int].0@ by {
                            assert(bv[j] == (other.values@[j].0@, other.values@[j].1));
                        }
                        lemma_assoc_get_at(bv, self.values@[i as int].0@, bi as int);
                    }
                    proof {
                        crate::math::lemma_u64_mul_fits(self.values@[i as int].1,
                        other.values@[bi as int].1);
                    }
                    let term: u128 = (self.values[i].1 as u128) * (other.values[bi].1 as u128);
                    if term > WEIGHT_SUM_CAP - acc {
                        acc = WEIGHT_SUM_CAP;
                    } else {
                        acc = acc + term;
                    }
                },
                None => {
                    proof {
                        assert forall|j: int| 0 <= j < bv.len() implies bv[j].0 != self.values@[
                            i as int].0@ by {
                            assert(bv[j] == (other.values@[j].0@, other.values@[j].1));
                        }
                        lemma_assoc_get_none(bv, self.values@[i as int].0@);
                    }
                },
            }
            i = i + 1;
        }
        proof {
            assert(av.take(n as int) =~= av);
        }

        // dot * SCALE / (|a| * |b|), all of which fits in u128.
        let ma = self.magnitude as u128;
        let mb = other.magnitude as u128;
        proof {
            lemma_nat_sqrt_is_sqrt(sumsq(av) as nat);
            lemma_nat_sqrt_is_sqrt(sumsq(bv) as nat);
            lemma_sumsq_le_cap(av);
            lemma_sumsq_le_cap(bv);
            assert((ma as nat) <= 0x4_0000_0000_0000 && (mb as nat) <= 0x4_0000_0000_0000)
                by (nonlinear_arith)
                requires
                    (ma as nat) * (ma as nat) <= sumsq(av) as nat,
                    (mb as nat) * (mb as nat) <= sumsq(bv) as nat,
                    sumsq(av) <= WEIGHT_SUM_CAP,
                    sumsq(bv) <= WEIGHT_SUM_CAP,
                    WEIGHT_SUM_CAP == 0x10_0000_0000_0000_0000_0000_0000u128,
            ;
            assert(ma * mb <= 0x10_0000_0000_0000_0000_0000_0000u128) by (nonlinear_arith)
                requires
                    ma <= 0x4_0000_0000_0000u128,
                    mb <= 0x4_0000_0000_0000u128,
            ;
            assert(acc * (SCALE as u128) <= u128::MAX) by (nonlinear_arith)
                requires
                    acc <= WEIGHT_SUM_CAP,
                    WEIGHT_SUM_CAP == 0x10_0000_0000_0000_0000_0000_0000u128,
                    SCALE == 1_000_000u64,
            ;
        }
        proof {
            assert(ma * mb >= 1) by (nonlinear_arith)
                requires
                    ma >= 1,
                    mb >= 1,
            ;
        }
        let q = acc * (SCALE as u128) / (ma * mb);
        if q >= SCALE as u128 {
            SCALE
        } else {
            q as u64
        }
    }
}


/// A document to index: external id, title, content and string metadata.
pub struct Document {
    pub id: String,
    pub title: String,
    pub content: String,
    pub metadata: Vec<(String, String)>,
}

/// One word of a document's content, with the highlight verdict.
pub struct TextHighlight {
    pub text: String,
    pub is_highlighted: bool,
}

/// One ranked answer: the document's id, title, best content snippet, a copy
/// of its metadata, the fixed-point score, and per-word highlights.
pub struct SearchResult {
    pub document_id: String,
    pub title: String,
    pub snippet: String,
    pub metadata: Vec<(String, String)>,
    pub score: u64,
    pub highlights: Vec<TextHighlight>,
}

/// The admissible terms of a text, in order: word runs of the lowercased
/// text that are no stopword and at least two characters long.
pub open spec fn admissible_tokens(s: Seq<char>) -> Seq<Seq<char>> {
    crate::text::word_runs(crate::text::lower_of(s)).filter(|t: Seq<char>| crate::text::is_admissible(t))
}

/// The weighted term frequencies of a document: 3 per title occurrence,
/// 1 per content occurrence, admissible terms only.
pub open spec fn doc_tf(title: Seq<char>, content: Seq<char>) -> Seq<(Seq<char>, u64)> {
    crate::assoc::accumulate(
        crate::assoc::accumulate(Seq::empty(), admissible_tokens(title), 3),
        admissible_tokens(content),
        1,
    )
}

/// How many documents contain term `t` with positive weight.
pub open spec fn df_count(docs: Seq<Document>, t: Seq<char>) -> int
    decreases docs.len(),
{
    if docs.len() == 0 {
        0
    } else {
        df_count(docs.drop_last(), t) + if assoc_contains(
            doc_tf(docs.last().title@, docs.last().content@),
            t,
        ) {
            1int
        } else {
            0int
        }
    }
}

pub proof fn lemma_df_count_le_len(docs: Seq<Document>, t: Seq<char>)
    ensures
        0 <= df_count(docs, t) <= docs.len(),
    decreases docs.len(),
{
    if docs.len() > 0 {
        lemma_df_count_le_len(docs.drop_last(), t);
    }
}

pub proof fn lemma_df_count_pos(docs: Seq<Document>, i: int, t: Seq<char>)
    requires
        0 <= i < docs.len(),
        assoc_contains(doc_tf(docs[i].title@, docs[i].content@), t),
    ensures
        df_count(docs, t) >= 1,
    decreases docs.len(),
{
    lemma_df_count_le_len(docs.drop_last(), t);
    if i < docs.len() - 1 {
        assert(docs.drop_last()[i] == docs[i]);
        lemma_df_count_pos(docs.drop_last(), i, t);
    }
}

pub proof fn lemma_df_count_update(docs: Seq<Document>, i: int, d: Document, t: Seq<char>)
    requires
        0 <= i < docs.len(),
    ensures
        df_count(docs.update(i, d), t) == df_count(docs, t) - (if assoc_contains(
            doc_tf(docs[i].title@, docs[i].content@),
            t,
        ) {
            1int
        } else {
            0int
        }) + (if assoc_contains(doc_tf(d.title@, d.content@), t) {
            1int
        } else {
            0int
        }),
    decreases docs.len(),
{
    let up = docs.update(i, d);
    if i == docs.len() - 1 {
        assert(up.drop_last() =~= docs.drop_last());
        assert(up.last() == d);
    } else {
        assert(up.drop_last() =~= docs.drop_last().update(i, d));
        assert(up.last() == docs.last());
        assert(docs.drop_last()[i] == docs[i]);
        lemma_df_count_update(docs.drop_last(), i, d, t);
    }
}

pub proof fn lemma_df_count_push(docs: Seq<Document>, d: Document, t: Seq<char>)
    ensures
        df_count(docs.push(d), t) == df_count(docs, t) + (if assoc_contains(
            doc_tf(d.title@, d.content@),
            t,
        ) {
            1int
        } else {
            0int
        }),
{
    assert(docs.push(d).drop_last() =~= docs);
    assert(docs.push(d).last() == d);
}

/// Store `d` by id: replace the document with the same id, or append.
pub open spec fn store_document(docs: Seq<Document>, d: Document) -> Seq<Document>
    decreases docs.len(),
{
    if docs.len() == 0 {
        seq![d]
    } else if docs[0].id@ == d.id@ {
        seq![d] + docs.drop_first()
    } else {
        seq![docs[0]] + store_document(docs.drop_first(), d)
    }
}

proof fn lemma_store_document_at(docs: Seq<Document>, d: Document, i: int)
    requires
        0 <= i < docs.len(),
        docs[i].id@ == d.id@,
        forall|j: int| 0 <= j < i ==> docs[j].id@ != d.id@,
    ensures
        store_document(docs, d) == docs.update(i, d),
    decreases i,
{
    if i == 0 {
        assert(store_document(docs, d) =~= docs.update(0, d));
    } else {
        assert forall|j: int| 0 <= j < i - 1 implies docs.drop_first()[j].id@ != d.id@ by {
            assert(docs.drop_first()[j] == docs[j + 1]);
        }
        assert(docs.drop_first()[i - 1] == docs[i]);
        lemma_store_document_at(docs.drop_first(), d, i - 1);
        assert(store_document(docs, d) =~= docs.update(i, d));
    }
}

proof fn lemma_store_document_missing(docs: Seq<Document>, d: Document)
    requires
        forall|j: int| 0 <= j < docs.len() ==> docs[j].id@ != d.id@,
    ensures
        store_document(docs, d) == docs.push(d),
    decreases docs.len(),
{
    if docs.len() == 0 {
        assert(store_document(docs, d) =~= docs.push(d));
    } else {
        assert forall|j: int| 0 <= j < docs.len() - 1 implies docs.drop_first()[j].id@
            != d.id@ by {
            assert(docs.drop_first()[j] == docs[j + 1]);
        }
        lemma_store_document_missing(docs.drop_first(), d);
        assert(store_document(docs, d) =~= docs.push(d));
    }
}

/// The largest weighted frequency of a document's term map.
pub open spec fn tf_max(tf: Seq<(Seq<char>, u64)>) -> u64
    decreases tf.len(),
{
    if tf.len() == 0 {
        0
    } else {
        let rest = tf_max(tf.drop_last());
        if tf.last().1 > rest {
            tf.last().1
        } else {
            rest
        }
    }
}

pub proof fn lemma_tf_max_ge(tf: Seq<(Seq<char>, u64)>, i: int)
    requires
        0 <= i < tf.len(),
    ensures
        tf[i].1 <= tf_max(tf),
    decreases tf.len(),
{
    if i < tf.len() - 1 {
        assert(tf.drop_last()[i] == tf[i]);
        lemma_tf_max_ge(tf.drop_last(), i);
    }
}

/// One vector weight: max-normalized term frequency times the scaled IDF,
/// in SCALE units.
pub open spec fn weight_of(tfv: u64, tfm: u64, n_docs: int, df: int) -> u64 {
    if tfm == 0 {
        0
    } else {
        ((tfv as int) * (crate::math::spec_ln_scaled(n_docs as nat, df as nat) as int) / (
        tfm as int)) as u64
    }
}

/// A document's TF-IDF weights: empty when the largest frequency is zero,
/// otherwise one weight per term of its frequency map, in order.
pub open spec fn weights_of(tf: Seq<(Seq<char>, u64)>, docs: Seq<Document>) -> Seq<
    (Seq<char>, u64),
> {
    if tf_max(tf) == 0 {
        Seq::empty()
    } else {
        tf.map_values(
            |p: (Seq<char>, u64)|
                (p.0, weight_of(p.1, tf_max(tf), docs.len() as int, df_count(docs, p.0))),
        )
    }
}

/// The weights of document `i`.
pub open spec fn doc_weights(docs: Seq<Document>, i: int) -> Seq<(Seq<char>, u64)> {
    weights_of(doc_tf(docs[i].title@, docs[i].content@), docs)
}

/// Append the positive weights of one document as postings.
pub open spec fn add_pos_postings(
    ix: Seq<(Seq<char>, Seq<(Seq<char>, u64)>)>,
    ws: Seq<(Seq<char>, u64)>,
    id: Seq<char>,
) -> Seq<(Seq<char>, Seq<(Seq<char>, u64)>)>
    decreases ws.len(),
{
    if ws.len() == 0 {
        ix
    } else {
        let prev = add_pos_postings(ix, ws.drop_last(), id);
        if ws.last().1 > 0 {
            crate::assoc::push_posting(prev, ws.last().0, id, ws.last().1)
        } else {
            prev
        }
    }
}

/// The inverted index rebuilt from the first `k` documents.
pub open spec fn index_of_upto(docs: Seq<Document>, k: int) -> Seq<
    (Seq<char>, Seq<(Seq<char>, u64)>),
>
    decreases k,
{
    if k <= 0 {
        Seq::empty()
    } else {
        add_pos_postings(index_of_upto(docs, k - 1), doc_weights(docs, k - 1), docs[k - 1].id@)
    }
}


/// The query's term frequencies: every admissible token of the lowercased
/// query, counted once per occurrence.
pub open spec fn query_tf(query: Seq<char>) -> Seq<(Seq<char>, u64)> {
    crate::assoc::accumulate(Seq::empty(), admissible_tokens(query), 1)
}

/// The distinct admissible query terms, in first-occurrence order.
pub open spec fn qtf_keys(query: Seq<char>) -> Seq<Seq<char>> {
    query_tf(query).map_values(|p: (Seq<char>, u64)| p.0)
}

/// A saturating product of a count and a scaled IDF.
pub open spec fn sat_mul_u64(a: u64, b: u64) -> u64 {
    if (a as int) * (b as int) > u64::MAX {
        u64::MAX
    } else {
        ((a as int) * (b as int)) as u64
    }
}

/// The query's weight vector: each distinct admissible term that occurs in
/// the corpus, weighted by its count times the corpus IDF.
pub open spec fn qweights_of(qtf: Seq<(Seq<char>, u64)>, docs: Seq<Document>) -> Seq<
    (Seq<char>, u64),
>
    decreases qtf.len(),
{
    if qtf.len() == 0 {
        Seq::empty()
    } else {
        let prev = qweights_of(qtf.drop_last(), docs);
        let df = df_count(docs, qtf.last().0);
        if df > 0 {
            prev.push(
                (
                    qtf.last().0,
                    sat_mul_u64(
                        qtf.last().1,
                        crate::math::spec_ln_scaled(docs.len(), df as nat) as u64,
                    ),
                ),
            )
        } else {
            prev
        }
    }
}

/// The query vector of a corpus snapshot.
pub open spec fn spec_query_vec(docs: Seq<Document>, query: Seq<char>) -> Seq<(Seq<char>, u64)> {
    qweights_of(query_tf(query), docs)
}

/// The fuzzy contribution of one query term against one document term:
/// half of `SCALE`, discounted by the relative edit distance, when the
/// distance is within the threshold and at most half the term's length.
pub open spec fn fuzzy_pair(q: Seq<char>, t: Seq<char>, fd: nat) -> u64 {
    let d = crate::distance::damerau_dist(q, t);
    if q.len() > 0 && d <= fd && d <= q.len() / 2 {
        ((SCALE as int) * (q.len() - d) / (2 * (q.len() as int))) as u64
    } else {
        0
    }
}

/// Fold one query term over all document terms, saturating.
pub open spec fn fuzzy_over_terms(acc: u64, q: Seq<char>, dws: Seq<(Seq<char>, u64)>, fd: nat) -> u64
    decreases dws.len(),
{
    if dws.len() == 0 {
        acc
    } else {
        crate::assoc::sat_add64(
            fuzzy_over_terms(acc, q, dws.drop_last(), fd),
            fuzzy_pair(q, dws.last().0, fd),
        )
    }
}

/// The total fuzzy score of a document: every query term against every
/// document term, in order.
pub open spec fn fuzzy_total(acc: u64, qterms: Seq<Seq<char>>, dws: Seq<(Seq<char>, u64)>, fd: nat) -> u64
    decreases qterms.len(),
{
    if qterms.len() == 0 {
        acc
    } else {
        fuzzy_over_terms(fuzzy_total(acc, qterms.drop_last(), dws, fd), qterms.last(), dws, fd)
    }
}

/// A document's score against a prepared query: cosine similarity; when that
/// is zero and fuzzy matching is on, the fuzzy total instead; doubled when
/// the lowercased title contains the lowercased query as a substring.
pub open spec fn score_parts(
    dws: Seq<(Seq<char>, u64)>,
    dmag: u64,
    qv: Seq<(Seq<char>, u64)>,
    qmag: u64,
    qterms: Seq<Seq<char>>,
    title: Seq<char>,
    lquery: Seq<char>,
    fuzzy: bool,
    fd: nat,
) -> u64 {
    let base = spec_cosine(dws, dmag, qv, qmag);
    let withf = if fuzzy && base == 0 {
        fuzzy_total(0, qterms, dws, fd)
    } else {
        base
    };
    if crate::text::contains_seq(crate::text::lower_of(title), lquery) {
        crate::assoc::sat_add64(withf, withf)
    } else {
        withf
    }
}

/// The score of document `i` for a query.
pub open spec fn spec_doc_score(
    docs: Seq<Document>,
    i: int,
    query: Seq<char>,
    fuzzy: bool,
    fd: nat,
) -> u64 {
    let dws = doc_weights(docs, i);
    let qv = spec_query_vec(docs, query);
    score_parts(
        dws,
        nat_sqrt(sumsq(dws) as nat) as u64,
        qv,
        nat_sqrt(sumsq(qv) as nat) as u64,
        qtf_keys(query),
        docs[i].title@,
        crate::text::lower_of(query),
        fuzzy,
        fd,
    )
}


/// Relies on rayon's indexed parallel iterator: `into_par_iter().map(..)
/// .collect()` over a range returns the closure results in index order, so
/// the output equals the sequential map. The closure only calls the verified
/// scorer on one index.
#[verifier::external_body]
fn score_all_parallel(
    vectors: &Vec<TfIdfVector>,
    documents: &Vec<Document>,
    qvec: &TfIdfVector,
    qterms: &Vec<String>,
    lquery: &String,
    fuzzy: bool,
    fd: usize,
) -> (scores: Vec<u64>)
    requires
        vectors@.len() == documents@.len(),
        qvec.wf(),
        forall|i: int| 0 <= i < vectors@.len() ==> (#[trigger] vectors@[i]).wf(),
    ensures
        scores@.len() == documents@.len(),
        forall|i: int|
            0 <= i < scores@.len() ==> #[trigger] scores@[i] == score_parts(
                vectors@[i].spec_values(),
                vectors@[i].spec_magnitude(),
                qvec.spec_values(),
                qvec.spec_magnitude(),
                crate::text::views_of(qterms@),
                documents@[i].title@,
                lquery@,
                fuzzy,
                fd as nat,
            ),
{
    (0..documents.len()).into_par_iter().map(
        |i: usize|
            SearchEngine::score_document(
                &vectors[i],
                documents[i].title.as_str(),
                qvec,
                qterms,
                lquery,
                fuzzy,
                fd,
            ),
    ).collect()
}

/// The scored documents with positive score among the first `k`, in corpus
/// order.
pub open spec fn scored_upto(
    docs: Seq<Document>,
    query: Seq<char>,
    fuzzy: bool,
    fd: nat,
    k: int,
) -> Seq<(Seq<char>, u64)>
    decreases k,
{
    if k <= 0 {
        Seq::empty()
    } else {
        let prev = scored_upto(docs, query, fuzzy, fd, k - 1);
        let sc = spec_doc_score(docs, k - 1, query, fuzzy, fd);
        if sc > 0 {
            prev.push((docs[k - 1].id@, sc))
        } else {
            prev
        }
    }
}

/// The full ranking: every positively scored document, sorted by descending
/// score, ties kept in corpus order.
pub open spec fn spec_ranked(docs: Seq<Document>, query: Seq<char>, fuzzy: bool, fd: nat) -> Seq<
    (Seq<char>, u64),
> {
    crate::rank::sort_desc(scored_upto(docs, query, fuzzy, fd, docs.len() as int))
}

/// The first stored document with id `id`.
pub open spec fn find_document(docs: Seq<Document>, id: Seq<char>) -> Option<Document>
    decreases docs.len(),
{
    if docs.len() == 0 {
        None
    } else if docs[0].id@ == id {
        Some(docs[0])
    } else {
        find_document(docs.drop_first(), id)
    }
}

pub proof fn lemma_find_document_at(docs: Seq<Document>, id: Seq<char>, i: int)
    requires
        0 <= i < docs.len(),
        docs[i].id@ == id,
        forall|j: int| 0 <= j < i ==> docs[j].id@ != id,
    ensures
        find_document(docs, id) == Some(docs[i]),
    decreases i,
{
    if i > 0 {
        assert forall|j: int| 0 <= j < i - 1 implies docs.drop_first()[j].id@ != id by {
            assert(docs.drop_first()[j] == docs[j + 1]);
        }
        assert(docs.drop_first()[i - 1] == docs[i]);
        lemma_find_document_at(docs.drop_first(), id, i - 1);
    }
}

pub proof fn lemma_find_document_none(docs: Seq<Document>, id: Seq<char>)
    requires
        forall|j: int| 0 <= j < docs.len() ==> docs[j].id@ != id,
    ensures
        find_document(docs, id) is None,
    decreases docs.len(),
{
    if docs.len() > 0 {
        assert forall|j: int| 0 <= j < docs.len() - 1 implies docs.drop_first()[j].id@ != id by {
            assert(docs.drop_first()[j] == docs[j + 1]);
        }
        lemma_find_document_none(docs.drop_first(), id);
    }
}

pub proof fn lemma_find_document_some(docs: Seq<Document>, id: Seq<char>)
    requires
        exists|i: int| 0 <= i < docs.len() && docs[i].id@ == id,
    ensures
        find_document(docs, id) is Some,
    decreases docs.len(),
{
    if docs.len() > 0 && docs[0].id@ != id {
        let w = choose|w: int| 0 <= w < docs.len() && docs[w].id@ == id;
        assert(docs.drop_first()[w - 1].id@ == id);
        lemma_find_document_some(docs.drop_first(), id);
    }
}

/// How many query terms occur as substrings of a lowercased window text.
pub open spec fn count_hits(lw: Seq<char>, qterms: Seq<Seq<char>>) -> int
    decreases qterms.len(),
{
    if qterms.len() == 0 {
        0
    } else {
        count_hits(lw, qterms.drop_last()) + if crate::text::contains_seq(lw, qterms.last()) {
            1int
        } else {
            0int
        }
    }
}

/// The hit count of the 30-word window starting at `i`.
pub open spec fn window_score(wvs: Seq<Seq<char>>, qterms: Seq<Seq<char>>, i: int) -> int {
    count_hits(
        crate::text::lower_of(crate::text::join_spaces_seq(wvs.subrange(i, i + 30))),
        qterms,
    )
}

/// The leftmost window with the strictly highest hit count among the first
/// `nwin` windows, with its count; `(0, 0)` when no window scores.
pub open spec fn best_window(wvs: Seq<Seq<char>>, qterms: Seq<Seq<char>>, nwin: int) -> (int, int)
    decreases nwin,
{
    if nwin <= 0 {
        (0, 0)
    } else {
        let prev = best_window(wvs, qterms, nwin - 1);
        let sc = window_score(wvs, qterms, nwin - 1);
        if sc > prev.1 {
            (nwin - 1, sc)
        } else {
            prev
        }
    }
}

/// The snippet of a document: the best 30-word window of its content joined
/// with single spaces, preceded by an ellipsis when it does not start the
/// content; the whole (rejoined) content when it has fewer than 30 words.
pub open spec fn spec_snippet(content: Seq<char>, qterms: Seq<Seq<char>>) -> Seq<char> {
    let wvs = crate::text::words_of(content);
    let nwin: int = if wvs.len() >= 30 {
        wvs.len() - 29
    } else {
        0
    };
    let bp = best_window(wvs, qterms, nwin).0;
    let end: int = if bp + 30 <= wvs.len() {
        bp + 30
    } else {
        wvs.len() as int
    };
    let text = crate::text::join_spaces_seq(wvs.subrange(bp, end));
    if bp > 0 {
        "..."@ + text
    } else {
        text
    }
}

/// A content word is highlighted when its lowercased, punctuation-trimmed
/// form is a query term, or — with fuzzy matching on — within `fd` edits of
/// one.
pub open spec fn word_highlighted(
    qterms: Seq<Seq<char>>,
    w: Seq<char>,
    fuzzy: bool,
    fd: nat,
) -> bool {
    let cleaned = crate::text::trim_non_word_seq(crate::text::lower_of(w));
    qterms.contains(cleaned) || (fuzzy && exists|j: int|
        0 <= j < qterms.len() && crate::distance::damerau_dist(#[trigger] qterms[j], cleaned)
            <= fd)
}

/// The highlight stream of a document: one entry per whitespace-separated
/// content word, in order, with the original word text.
pub open spec fn spec_highlights(
    content: Seq<char>,
    qterms: Seq<Seq<char>>,
    fuzzy: bool,
    fd: nat,
) -> Seq<(Seq<char>, bool)> {
    crate::text::words_of(content).map_values(
        |w: Seq<char>| (w, word_highlighted(qterms, w, fuzzy, fd)),
    )
}

/// The views of a highlight stream.
pub open spec fn th_views(hl: Seq<TextHighlight>) -> Seq<(Seq<char>, bool)> {
    hl.map_values(|h: TextHighlight| (h.text@, h.is_highlighted))
}

/// What `search` returns for a corpus snapshot: the ranked documents, cut to
/// `limit`, each result carrying its document's id, title, metadata, score,
/// snippet and highlights.
pub open spec fn search_post(
    docs: Seq<Document>,
    query: Seq<char>,
    limit: int,
    fuzzy: bool,
    fd: nat,
    results: Seq<SearchResult>,
) -> bool {
    let ranked = spec_ranked(docs, query, fuzzy, fd);
    let k = if limit <= ranked.len() {
        limit
    } else {
        ranked.len() as int
    };
    &&& results.len() == k
    &&& forall|i: int|
        0 <= i < k ==> {
            let r = #[trigger] results[i];
            &&& r.document_id@ == ranked[i].0
            &&& r.score == ranked[i].1
            &&& match find_document(docs, ranked[i].0) {
                Some(d) => {
                    &&& r.title@ == d.title@
                    &&& kv_str(r.metadata@) == kv_str(d.metadata@)
                    &&& r.snippet@ == spec_snippet(d.content@, qtf_keys(query))
                    &&& th_views(r.highlights@) == spec_highlights(
                        d.content@,
                        qtf_keys(query),
                        fuzzy,
                        fd,
                    )
                },
                None => false,
            }
        }
}

/// The TF-IDF search engine: the documents, the per-term document
/// frequencies, and — once `calculate_tf_idf` has run — one cached weight
/// vector per document and the rebuilt inverted index.
pub struct SearchEngine {
    documents: Vec<Document>,
    document_frequency: Vec<(String, u64)>,
    vectors: Vec<TfIdfVector>,
    inverted_index: Vec<(String, Vec<(String, u64)>)>,
    tf_idf_calculated: bool,
}

impl SearchEngine {
    /// The indexed documents, in insertion order.
    pub closed spec fn spec_documents(self) -> Seq<Document> {
        self.documents@
    }

    /// The cached vectors are up to date.
    pub closed spec fn spec_calculated(self) -> bool {
        self.tf_idf_calculated
    }

    /// The document frequency the engine records for `t`.
    pub closed spec fn df_of(self, t: Seq<char>) -> int {
        crate::assoc::count_of(kv_u64(self.document_frequency@), t)
    }

    /// Well-formed: document ids unique; the recorded document frequency of
    /// every term is the number of documents containing it; and, once
    /// calculated, one well-formed vector per document holding exactly the
    /// document's TF-IDF weights, with the inverted index rebuilt from them.
    pub closed spec fn wf(self) -> bool {
        &&& forall|i: int, j: int|
            0 <= i < j < self.documents@.len() ==> (#[trigger] self.documents@[i]).id@ != (
            #[trigger] self.documents@[j]).id@
        &&& unique_keys(kv_u64(self.document_frequency@))
        &&& forall|t: Seq<char>|
            #[trigger] crate::assoc::count_of(kv_u64(self.document_frequency@), t) == df_count(
                self.documents@,
                t,
            )
        &&& self.tf_idf_calculated ==> {
            &&& self.vectors@.len() == self.documents@.len()
            &&& forall|i: int|
                0 <= i < self.vectors@.len() ==> (#[trigger] self.vectors@[i]).spec_values()
                    == doc_weights(self.documents@, i) && self.vectors@[i].wf()
            &&& index_view(self.inverted_index@) == index_of_upto(
                self.documents@,
                self.documents@.len() as int,
            )
        }
    }

    /// An empty engine.
    pub fn new() -> (r: SearchEngine)
        ensures
            r.wf(),
            r.spec_documents().len() == 0,
            !r.spec_calculated(),
    {
        let r = SearchEngine {
            documents: Vec::new(),
            document_frequency: Vec::new(),
            vectors: Vec::new(),
            inverted_index: Vec::new(),
            tf_idf_calculated: false,
        };
        proof {
            assert forall|t: Seq<char>| #[trigger]
                crate::assoc::count_of(kv_u64(r.document_frequency@), t) == df_count(
                r.documents@,
                t,
            ) by {
                assert(kv_u64(r.document_frequency@) =~= Seq::<(Seq<char>, u64)>::empty());
            }
        }
        r
    }

    /// The admissible weighted term frequencies of one document.
    fn extract_terms(title: &str, content: &str) -> (tf: Vec<(String, u64)>)
        ensures
            kv_u64(tf@) == doc_tf(title@, content@),
            unique_keys(kv_u64(tf@)),
    {
        let title_low = crate::text::lowercase(title);
        let title_toks = crate::text::filter_admissible(
            crate::text::split_word_runs(title_low.as_str()),
        );
        let content_low = crate::text::lowercase(content);
        let content_toks = crate::text::filter_admissible(
            crate::text::split_word_runs(content_low.as_str()),
        );
        let mut tf: Vec<(String, u64)> = Vec::new();
        proof {
            assert(kv_u64(tf@) =~= Seq::<(Seq<char>, u64)>::empty());
        }
        crate::assoc::accumulate_counts(&mut tf, &title_toks, 3);
        crate::assoc::accumulate_counts(&mut tf, &content_toks, 1);
        proof {
            crate::assoc::lemma_accumulate_unique(
                Seq::empty(),
                admissible_tokens(title@),
                3,
            );
            crate::assoc::lemma_accumulate_unique(
                crate::assoc::accumulate(Seq::empty(), admissible_tokens(title@), 3),
                admissible_tokens(content@),
                1,
            );
        }
        tf
    }

    /// Lower every recorded frequency for the keys of `tf` by one.
    fn df_dec_keys(df: &mut Vec<(String, u64)>, tf: &Vec<(String, u64)>)
        requires
            unique_keys(kv_u64(old(df)@)),
            unique_keys(kv_u64(tf@)),
            forall|i: int|
                0 <= i < tf@.len() ==> crate::assoc::count_of(
                    kv_u64(old(df)@),
                    (#[trigger] kv_u64(tf@)[i]).0,
                ) >= 1,
        ensures
            unique_keys(kv_u64(final(df)@)),
            forall|t: Seq<char>|
                #[trigger] crate::assoc::count_of(kv_u64(final(df)@), t)
                    == crate::assoc::count_of(kv_u64(old(df)@), t) - (if assoc_contains(
                    kv_u64(tf@),
                    t,
                ) {
                    1int
                } else {
                    0int
                }),
    {
        let ghost tfv = kv_u64(tf@);
        let ghost df0 = kv_u64(old(df)@);
        let n = tf.len();
        let mut i: usize = 0;
        proof {
            assert(tfv.take(0) =~= Seq::<(Seq<char>, u64)>::empty());
        }
        #[verifier::loop_isolation(false)]
        while i < n
            invariant
                i <= n,
                unique_keys(kv_u64(df@)),
                forall|t: Seq<char>|
                    #[trigger] crate::assoc::count_of(kv_u64(df@), t)
                        == crate::assoc::count_of(df0, t) - (if assoc_contains(
                        tfv.take(i as int),
                        t,
                    ) {
                        1int
                    } else {
                        0int
                    }),
            decreases n - i,
        {
            let ghost pre = kv_u64(df@);
            proof {
                assert(tfv[i as int] == (tf@[i as int].0@, tf@[i as int].1));
                // the key is still positive: it was bumped at most once
                assert forall|j: int| 0 <= j < i implies tfv[j].0 != tfv[i as int].0 by {}
                crate::assoc::lemma_assoc_contains_index(tfv.take(i as int), tfv[i as int].0);
                assert forall|j: int|
                    0 <= j < i implies (#[trigger] tfv.take(i as int)[j]).0 != tfv[i as
                    int].0 by {
                    assert(tfv.take(i as int)[j] == tfv[j]);
                }
                assert(!assoc_contains(tfv.take(i as int), tfv[i as int].0));
                assert(crate::assoc::count_of(pre, tfv[i as int].0) >= 1);
            }
            match crate::assoc::find_key_index(df, &tf[i].0) {
                Some(di) => {
                    proof {
                        assert(pre[di as int] == (df@[di as int].0@, df@[di as int].1));
                        assert forall|j: int| 0 <= j < di implies (#[trigger] pre[j]).0
                            != tfv[i as int].0 by {
                            assert(pre[j] == (df@[j].0@, df@[j].1));
                        }
                        crate::assoc::lemma_assoc_get_at(pre, tfv[i as int].0, di as int);
                    }
                    let cur = df[di].1;
                    df[di].1 = cur - 1;
                    proof {
                        assert(kv_u64(df@) =~= pre.update(
                            di as int,
                            (pre[di as int].0, (cur - 1) as u64),
                        ));
                        assert forall|t: Seq<char>| #[trigger]
                            crate::assoc::count_of(kv_u64(df@), t) == crate::assoc::count_of(
                            df0,
                            t,
                        ) - (if assoc_contains(tfv.take(i + 1), t) {
                            1int
                        } else {
                            0int
                        }) by {
                            assert(crate::assoc::count_of(pre, t) == crate::assoc::count_of(
                                df0,
                                t,
                            ) - (if assoc_contains(tfv.take(i as int), t) {
                                1int
                            } else {
                                0int
                            }));
                            crate::assoc::lemma_assoc_get_update(
                                pre,
                                di as int,
                                (cur - 1) as u64,
                                t,
                            );
                            crate::assoc::lemma_assoc_get_push(
                                tfv.take(i as int),
                                tfv[i as int],
                                t,
                            );
                            assert(tfv.take(i + 1) =~= tfv.take(i as int).push(tfv[i as int]));
                        }
                    }
                },
                None => {
                    proof {
                        assert forall|j: int| 0 <= j < pre.len() implies (#[trigger] pre[j]).0
                            != tfv[i as int].0 by {
                            assert(pre[j] == (df@[j].0@, df@[j].1));
                        }
                        crate::assoc::lemma_assoc_get_none(pre, tfv[i as int].0);
                        assert(false);
                    }
                },
            }
            i = i + 1;
        }
        proof {
            assert(tfv.take(n as int) =~= tfv);
        }
    }

    /// Raise the recorded frequency for every key of `tf` by one.
    fn df_bump_keys(df: &mut Vec<(String, u64)>, tf: &Vec<(String, u64)>)
        requires
            unique_keys(kv_u64(old(df)@)),
            unique_keys(kv_u64(tf@)),
            forall|i: int|
                0 <= i < tf@.len() ==> crate::assoc::count_of(
                    kv_u64(old(df)@),
                    (#[trigger] kv_u64(tf@)[i]).0,
                ) < u64::MAX,
        ensures
            unique_keys(kv_u64(final(df)@)),
            forall|t: Seq<char>|
                #[trigger] crate::assoc::count_of(kv_u64(final(df)@), t)
                    == crate::assoc::count_of(kv_u64(old(df)@), t) + (if assoc_contains(
                    kv_u64(tf@),
                    t,
                ) {
                    1int
                } else {
                    0int
                }),
    {
        let ghost tfv = kv_u64(tf@);
        let ghost df0 = kv_u64(old(df)@);
        let n = tf.len();
        let mut i: usize = 0;
        proof {
            assert(tfv.take(0) =~= Seq::<(Seq<char>, u64)>::empty());
        }
        #[verifier::loop_isolation(false)]
        while i < n
            invariant
                i <= n,
                unique_keys(kv_u64(df@)),
                forall|t: Seq<char>|
                    #[trigger] crate::assoc::count_of(kv_u64(df@), t)
                        == crate::assoc::count_of(df0, t) + (if assoc_contains(
                        tfv.take(i as int),
                        t,
                    ) {
                        1int
                    } else {
                        0int
                    }),
            decreases n - i,
        {
            let ghost pre = kv_u64(df@);
            proof {
                assert(tfv[i as int] == (tf@[i as int].0@, tf@[i as int].1));
                crate::assoc::lemma_assoc_contains_index(tfv.take(i as int), tfv[i as int].0);
                assert forall|j: int|
                    0 <= j < i implies (#[trigger] tfv.take(i as int)[j]).0 != tfv[i as
                    int].0 by {
                    assert(tfv.take(i as int)[j] == tfv[j]);
                }
                assert(!assoc_contains(tfv.take(i as int), tfv[i as int].0));
                assert(crate::assoc::count_of(pre, tfv[i as int].0) == crate::assoc::count_of(
                    df0,
                    tfv[i as int].0,
                ));
                assert(crate::assoc::count_of(pre, tfv[i as int].0) + 1 <= u64::MAX);
                crate::assoc::lemma_bump_unique(pre, tfv[i as int].0, 1);
            }
            crate::assoc::bump_count(df, &tf[i].0, 1);
            proof {
                assert forall|t: Seq<char>| #[trigger]
                    crate::assoc::count_of(kv_u64(df@), t) == crate::assoc::count_of(df0, t) + (
                if assoc_contains(tfv.take(i + 1), t) {
                    1int
                } else {
                    0int
                }) by {
                    assert(crate::assoc::count_of(pre, t) == crate::assoc::count_of(df0, t) + (
                    if assoc_contains(tfv.take(i as int), t) {
                        1int
                    } else {
                        0int
                    }));
                    crate::assoc::lemma_bump_count_of(pre, tfv[i as int].0, 1, t);
                    crate::assoc::lemma_assoc_get_push(tfv.take(i as int), tfv[i as int], t);
                    assert(tfv.take(i + 1) =~= tfv.take(i as int).push(tfv[i as int]));
                }
            }
            i = i + 1;
        }
        proof {
            assert(tfv.take(n as int) =~= tfv);
        }
    }

    /// Stores `document` by id (replacing any earlier document with the same
    /// id), updates each of its terms' document frequencies, and marks the
    /// cached vectors stale.
    pub fn add_document(&mut self, document: Document)
        requires
            old(self).wf(),
        ensures
            final(self).wf(),
            final(self).spec_documents() == store_document(old(self).spec_documents(), document),
            !final(self).spec_calculated(),
    {
        let new_tf = Self::extract_terms(document.title.as_str(), document.content.as_str());
        let ghost docs0 = self.documents@;

        // Find any prior document with this id.
        let nd = self.documents.len();
        let mut di: usize = 0;
        let mut found: bool = false;
        #[verifier::loop_isolation(false)]
        while di < nd && !found
            invariant
                di <= nd,
                nd == self.documents@.len(),
                found ==> di < nd && self.documents@[di as int].id@ == document.id@,
                !found ==> forall|j: int| 0 <= j < di ==> self.documents@[j].id@ != document.id@,
            decreases nd - di, (if found { 0int } else { 1int }),
        {
            if self.documents[di].id.eq(&document.id) {
                found = true;
            } else {
                di = di + 1;
            }
        }

        if found {
            // The old document's terms each lose one occurrence.
            let old_tf = Self::extract_terms(
                self.documents[di].title.as_str(),
                self.documents[di].content.as_str(),
            );
            proof {
                assert forall|i: int|
                    0 <= i < old_tf@.len() implies crate::assoc::count_of(
                    kv_u64(self.document_frequency@),
                    (#[trigger] kv_u64(old_tf@)[i]).0,
                ) >= 1 by {
                    crate::assoc::lemma_contains_of_index(
                        kv_u64(old_tf@),
                        kv_u64(old_tf@)[i].0,
                        i,
                    );
                    lemma_df_count_pos(docs0, di as int, kv_u64(old_tf@)[i].0);
                }
            }
            Self::df_dec_keys(&mut self.document_frequency, &old_tf);
            proof {
                lemma_store_document_at(docs0, document, di as int);
            }
            self.documents[di] = document;
            proof {
                assert forall|t: Seq<char>| #[trigger]
                    crate::assoc::count_of(kv_u64(self.document_frequency@), t) == df_count(
                    self.documents@,
                    t,
                ) - (if assoc_contains(kv_u64(new_tf@), t) {
                    1int
                } else {
                    0int
                }) by {
                    lemma_df_count_update(docs0, di as int, self.documents@[di as int], t);
                }
            }
        } else {
            proof {
                lemma_store_document_missing(docs0, document);
            }
            self.documents.push(document);
            proof {
                assert forall|t: Seq<char>| #[trigger]
                    crate::assoc::count_of(kv_u64(self.document_frequency@), t) == df_count(
                    self.documents@,
                    t,
                ) - (if assoc_contains(kv_u64(new_tf@), t) {
                    1int
                } else {
                    0int
                }) by {
                    lemma_df_count_push(docs0, self.documents@[docs0.len() as int], t);
                }
            }
        }

        // The new document's terms each gain one occurrence.
        let _corpus_size = self.documents.len();
        proof {
            assert(self.documents@.len() <= usize::MAX);
            assert forall|i: int|
                0 <= i < new_tf@.len() implies crate::assoc::count_of(
                kv_u64(self.document_frequency@),
                (#[trigger] kv_u64(new_tf@)[i]).0,
            ) < u64::MAX by {
                crate::assoc::lemma_contains_of_index(
                    kv_u64(new_tf@),
                    kv_u64(new_tf@)[i].0,
                    i,
                );
                lemma_df_count_le_len(self.documents@, kv_u64(new_tf@)[i].0);
            }
        }
        Self::df_bump_keys(&mut self.document_frequency, &new_tf);
        self.tf_idf_calculated = false;
        proof {
            assert forall|i: int, j: int|
                0 <= i < j < self.documents@.len() implies (#[trigger] self.documents@[i]).id@
                != (#[trigger] self.documents@[j]).id@ by {}
        }
    }

    /// Appends the posting `(id, w)` under `term` in the inverted index.
    fn append_posting(
        ix: &mut Vec<(String, Vec<(String, u64)>)>,
        term: &String,
        id: &String,
        w: u64,
    )
        ensures
            index_view(final(ix)@) == crate::assoc::push_posting(
                index_view(old(ix)@),
                term@,
                id@,
                w,
            ),
    {
        let ghost pre = index_view(ix@);
        let n = ix.len();
        let mut i: usize = 0;
        #[verifier::loop_isolation(false)]
        while i < n
            invariant
                n == ix@.len(),
                i <= n,
                ix@ == old(ix)@,
                forall|j: int| 0 <= j < i ==> ix@[j].0@ != term@,
            decreases n - i,
        {
            if ix[i].0.eq(term) {
                proof {
                    assert(pre[i as int] == (ix@[i as int].0@, kv_u64(ix@[i as int].1@)));
                    assert forall|j: int| 0 <= j < i implies (#[trigger] pre[j]).0 != term@ by {
                        assert(pre[j] == (ix@[j].0@, kv_u64(ix@[j].1@)));
                    }
                    crate::assoc::lemma_push_posting_at(pre, term@, id@, w, i as int);
                }
                let ghost pre_raw = ix@;
                ix[i].1.push((id.clone(), w));
                proof {
                    let post = index_view(ix@);
                    let target = pre.update(
                        i as int,
                        (term@, pre[i as int].1.push((id@, w))),
                    );
                    assert forall|j: int| 0 <= j < post.len() implies post[j] == target[j] by {
                        assert(post[j] == (ix@[j].0@, kv_u64(ix@[j].1@)));
                        assert(pre[j] == (pre_raw[j].0@, kv_u64(pre_raw[j].1@)));
                        if j == i {
                            assert(ix@[j].1@ == pre_raw[j].1@.push((*id, w)));
                            assert(kv_u64(pre_raw[j].1@.push((*id, w))) =~= kv_u64(
                                pre_raw[j].1@,
                            ).push((id@, w)));
                        } else {
                            assert(ix@[j] == pre_raw[j]);
                        }
                    }
                    assert(post =~= target);
                }
                return ;
            }
            i = i + 1;
        }
        proof {
            assert forall|j: int| 0 <= j < pre.len() implies (#[trigger] pre[j]).0 != term@ by {
                assert(pre[j] == (ix@[j].0@, kv_u64(ix@[j].1@)));
            }
            crate::assoc::lemma_push_posting_missing(pre, term@, id@, w);
        }
        let mut plist: Vec<(String, u64)> = Vec::new();
        plist.push((id.clone(), w));
        ix.push((term.clone(), plist));
        proof {
            assert(kv_u64(ix@[n as int].1@) =~= seq![(id@, w)]);
            assert(index_view(ix@) =~= pre.push((term@, seq![(id@, w)])));
        }
    }

    /// Rebuilds every document's TF-IDF vector and the inverted index from
    /// the stored documents and term frequencies; a second call with no
    /// intervening mutation leaves the engine unchanged.
    #[verifier::rlimit(80)]
    pub fn calculate_tf_idf(&mut self)
        requires
            old(self).wf(),
        ensures
            final(self).wf(),
            final(self).spec_calculated(),
            final(self).spec_documents() == old(self).spec_documents(),
            old(self).spec_calculated() ==> *final(self) == *old(self),
    {
        if self.tf_idf_calculated {
            return ;
        }
        self.vectors = Vec::new();
        self.inverted_index = Vec::new();
        let nd = self.documents.len();
        let n_docs: u64 = nd as u64;
        let mut di: usize = 0;
        proof {
            assert(index_view(self.inverted_index@) =~= index_of_upto(self.documents@, 0));
        }
        #[verifier::loop_isolation(false)]
        while di < nd
            invariant
                di <= nd,
                nd == self.documents@.len(),
                n_docs == nd as u64,
                self.documents@ == old(self).documents@,
                self.document_frequency@ == old(self).document_frequency@,
                self.tf_idf_calculated == false,
                self.vectors@.len() == di,
                forall|j: int|
                    0 <= j < di ==> (#[trigger] self.vectors@[j]).spec_values() == doc_weights(
                        self.documents@,
                        j,
                    ) && self.vectors@[j].wf(),
                index_view(self.inverted_index@) == index_of_upto(self.documents@, di as int),
            decreases nd - di,
        {
            let tf = Self::extract_terms(
                self.documents[di].title.as_str(),
                self.documents[di].content.as_str(),
            );
            let ghost tfv = kv_u64(tf@);
            let nt = tf.len();

            // Largest weighted frequency of this document.
            let mut tfm: u64 = 0;
            let mut k: usize = 0;
            proof {
                assert(tfv.take(0) =~= Seq::<(Seq<char>, u64)>::empty());
            }
            #[verifier::loop_isolation(false)]
            while k < nt
                invariant
                    k <= nt,
                    tfm == tf_max(tfv.take(k as int)),
                decreases nt - k,
            {
                proof {
                    assert(tfv.take(k + 1).drop_last() =~= tfv.take(k as int));
                    assert(tfv.take(k + 1).last() == (tf@[k as int].0@, tf@[k as int].1));
                }
                if tf[k].1 > tfm {
                    tfm = tf[k].1;
                }
                k = k + 1;
            }
            proof {
                assert(tfv.take(nt as int) =~= tfv);
            }

            let mut vec = TfIdfVector::new();
            let doc_id = self.documents[di].id.clone();
            let ghost ws = doc_weights(self.documents@, di as int);
            let ghost ix0 = index_view(self.inverted_index@);
            if tfm > 0 {
                proof {
                    assert(ws == tfv.map_values(
                        |p: (Seq<char>, u64)|
                            (
                                p.0,
                                weight_of(
                                    p.1,
                                    tfm,
                                    self.documents@.len() as int,
                                    df_count(self.documents@, p.0),
                                ),
                            ),
                    ));
                    assert(ws.len() == nt);
                }
                let mut k2: usize = 0;
                proof {
                    assert(ws.take(0) =~= Seq::<(Seq<char>, u64)>::empty());
                }
                #[verifier::loop_isolation(false)]
                while k2 < nt
                    invariant
                        k2 <= nt,
                        self.documents@ == old(self).documents@,
                        self.document_frequency@ == old(self).document_frequency@,
                        self.tf_idf_calculated == false,
                        self.vectors@.len() == di,
                        forall|j: int|
                            0 <= j < di ==> (#[trigger] self.vectors@[j]).spec_values()
                                == doc_weights(self.documents@, j) && self.vectors@[j].wf(),
                        forall|j: int|
                            0 <= j < nt ==> #[trigger] ws[j] == (tfv[j].0, weight_of(
                                tfv[j].1,
                                tfm,
                                nd as int,
                                df_count(self.documents@, tfv[j].0),
                            )),
                        vec.spec_values() == ws.take(k2 as int),
                        index_view(self.inverted_index@) == add_pos_postings(
                            ix0,
                            ws.take(k2 as int),
                            doc_id@,
                        ),
                    decreases nt - k2,
                {
                    proof {
                        assert(tfv[k2 as int] == (tf@[k2 as int].0@, tf@[k2 as int].1));
                        assert(kv_u64(tf@)[k2 as int] == tfv[k2 as int]);
                        crate::assoc::lemma_contains_of_index(tfv, tfv[k2 as int].0, k2 as int);
                        lemma_df_count_pos(self.documents@, di as int, tfv[k2 as int].0);
                        lemma_df_count_le_len(self.documents@, tfv[k2 as int].0);
                    }
                    let dfi = match find_key_index(&self.document_frequency, &tf[k2].0) {
                        Some(dfi) => dfi,
                        None => {
                            proof {
                        assert(kv_u64(self.document_frequency@) == kv_u64(
                            old(self).document_frequency@,
                        ));
                        assert(crate::assoc::count_of(
                            kv_u64(old(self).document_frequency@),
                            tfv[k2 as int].0,
                        ) == df_count(old(self).documents@, tfv[k2 as int].0));
                                let dfkv = kv_u64(self.document_frequency@);
                                assert forall|j: int|
                                    0 <= j < dfkv.len() implies (#[trigger] dfkv[j]).0
                                    != tfv[k2 as int].0 by {
                                    assert(dfkv[j] == (self.document_frequency@[j].0@,
                                    self.document_frequency@[j].1));
                                }
                                lemma_assoc_get_none(dfkv, tfv[k2 as int].0);
                                assert(false);
                            }
                            0
                        },
                    };
                    let df_val = self.document_frequency[dfi].1;
                    proof {
                        assert(kv_u64(self.document_frequency@) == kv_u64(
                            old(self).document_frequency@,
                        ));
                        assert(crate::assoc::count_of(
                            kv_u64(old(self).document_frequency@),
                            tfv[k2 as int].0,
                        ) == df_count(old(self).documents@, tfv[k2 as int].0));
                        let dfkv = kv_u64(self.document_frequency@);
                        assert(dfkv[dfi as int] == (self.document_frequency@[dfi as int].0@,
                        self.document_frequency@[dfi as int].1));
                        assert forall|j: int| 0 <= j < dfi implies (#[trigger] dfkv[j]).0
                            != tfv[k2 as int].0 by {
                            assert(dfkv[j] == (self.document_frequency@[j].0@,
                            self.document_frequency@[j].1));
                        }
                        lemma_assoc_get_at(dfkv, tfv[k2 as int].0, dfi as int);
                        assert(df_val as int == df_count(self.documents@, tfv[k2 as int].0));
                    }
                    let idf = crate::math::ln_scaled(n_docs, df_val);
                    let tf_val = tf[k2].1;
                    proof {
                        crate::math::lemma_u64_mul_fits(tf_val, idf);
                        lemma_tf_max_ge(tfv, k2 as int);
                        lemma_mul_inequality(tf_val as int, tfm as int, idf as int);
                        lemma_div_is_ordered(
                            (tf_val as int) * (idf as int),
                            (tfm as int) * (idf as int),
                            tfm as int,
                        );
                        lemma_div_multiples_vanish(idf as int, tfm as int);
                        assert((tfm as int) * (idf as int) == (idf as int) * (tfm as int));
                    }
                    let wt128: u128 = (tf_val as u128) * (idf as u128) / (tfm as u128);
                    let wt = wt128 as u64;
                    proof {
                        assert(wt as int == weight_of(
                            tf_val,
                            tfm,
                            nd as int,
                            df_count(self.documents@, tfv[k2 as int].0),
                        ));
                        assert(ws[k2 as int] == (tfv[k2 as int].0, wt));
                        // the term is new to the vector: its key is unique in tf
                        crate::assoc::lemma_assoc_contains_index(
                            vec.spec_values(),
                            tfv[k2 as int].0,
                        );
                        if assoc_contains(vec.spec_values(), tfv[k2 as int].0) {
                            let j = choose|j: int|
                                0 <= j < vec.spec_values().len() && vec.spec_values()[j].0
                                    == tfv[k2 as int].0;
                            assert(vec.spec_values()[j] == ws.take(k2 as int)[j]);
                            assert(ws[j].0 == tfv[j].0);
                            assert(false);
                        }
                    }
                    vec.insert(tf[k2].0.clone(), wt);
                    proof {
                        assert(vec.spec_values() =~= ws.take(k2 + 1));
                        assert(ws.take(k2 + 1).drop_last() =~= ws.take(k2 as int));
                        assert(ws.take(k2 + 1).last() == ws[k2 as int]);
                    }
                    if wt > 0 {
                        Self::append_posting(&mut self.inverted_index, &tf[k2].0, &doc_id, wt);
                    }
                    proof {
                        assert(index_view(self.inverted_index@) == add_pos_postings(
                            ix0,
                            ws.take(k2 + 1),
                            doc_id@,
                        ));
                    }
                    k2 = k2 + 1;
                }
                proof {
                    assert(ws.take(nt as int) =~= ws);
                }
            } else {
                proof {
                    assert(ws =~= Seq::<(Seq<char>, u64)>::empty());
                }
            }
            vec.recompute_magnitude();
            self.vectors.push(vec);
            proof {
                assert(index_of_upto(self.documents@, di + 1) == add_pos_postings(
                    index_of_upto(self.documents@, di as int),
                    ws,
                    self.documents@[di as int].id@,
                ));
            }
            di = di + 1;
        }
        self.tf_idf_calculated = true;
    }

    /// Builds the query's TF-IDF vector against the current corpus: each
    /// distinct admissible query term with a positive document frequency,
    /// weighted by its count times the corpus IDF.
    fn build_query_vector(&self, query: &str) -> (qvec: TfIdfVector)
        requires
            self.wf(),
        ensures
            qvec.spec_values() == spec_query_vec(self.spec_documents(), query@),
            qvec.wf(),
    {
        let low = crate::text::lowercase(query);
        let toks = crate::text::filter_admissible(crate::text::split_word_runs(low.as_str()));
        let mut qtf: Vec<(String, u64)> = Vec::new();
        proof {
            assert(kv_u64(qtf@) =~= Seq::<(Seq<char>, u64)>::empty());
        }
        crate::assoc::accumulate_counts(&mut qtf, &toks, 1);
        let ghost qtfv = kv_u64(qtf@);
        proof {
            assert(qtfv == query_tf(query@));
            crate::assoc::lemma_accumulate_unique(Seq::empty(), admissible_tokens(query@), 1);
        }
        let n_docs: u64 = self.documents.len() as u64;
        let mut qvec = TfIdfVector::new();
        let nq = qtf.len();
        let mut i: usize = 0;
        proof {
            assert(qtfv.take(0) =~= Seq::<(Seq<char>, u64)>::empty());
        }
        #[verifier::loop_isolation(false)]
        while i < nq
            invariant
                i <= nq,
                qvec.spec_values() == qweights_of(qtfv.take(i as int), self.documents@),
                unique_keys(qvec.spec_values()),
                forall|t: Seq<char>|
                    assoc_contains(qvec.spec_values(), t) ==> exists|j: int|
                        0 <= j < i && (#[trigger] qtfv[j]).0 == t,
            decreases nq - i,
        {
            proof {
                assert(qtfv.take(i + 1).drop_last() =~= qtfv.take(i as int));
                assert(qtfv[i as int] == (qtf@[i as int].0@, qtf@[i as int].1));
                assert(qtfv.take(i + 1).last() == qtfv[i as int]);
            }
            let mut df_val: u64 = 0;
            match find_key_index(&self.document_frequency, &qtf[i].0) {
                Some(dfi) => {
                    proof {
                        let dfkv = kv_u64(self.document_frequency@);
                        assert(dfkv[dfi as int] == (self.document_frequency@[dfi as int].0@,
                        self.document_frequency@[dfi as int].1));
                        assert forall|j: int| 0 <= j < dfi implies (#[trigger] dfkv[j]).0
                            != qtfv[i as int].0 by {
                            assert(dfkv[j] == (self.document_frequency@[j].0@,
                            self.document_frequency@[j].1));
                        }
                        lemma_assoc_get_at(dfkv, qtfv[i as int].0, dfi as int);
                    }
                    df_val = self.document_frequency[dfi].1;
                },
                None => {
                    proof {
                        let dfkv = kv_u64(self.document_frequency@);
                        assert forall|j: int| 0 <= j < dfkv.len() implies (#[trigger] dfkv[j]).0
                            != qtfv[i as int].0 by {
                            assert(dfkv[j] == (self.document_frequency@[j].0@,
                            self.document_frequency@[j].1));
                        }
                        lemma_assoc_get_none(dfkv, qtfv[i as int].0);
                    }
                },
            }
            proof {
                assert(crate::assoc::count_of(kv_u64(self.document_frequency@), qtfv[i as int].0)
                    == df_count(self.documents@, qtfv[i as int].0));
                assert(df_val as int == df_count(self.documents@, qtfv[i as int].0));
                lemma_df_count_le_len(self.documents@, qtfv[i as int].0);
            }
            if df_val > 0 {
                let idf = crate::math::ln_scaled(n_docs, df_val);
                proof {
                    crate::math::lemma_u64_mul_fits(qtf@[i as int].1, idf);
                }
                let prod: u128 = (qtf[i].1 as u128) * (idf as u128);
                let w: u64 = if prod > u64::MAX as u128 {
                    u64::MAX
                } else {
                    prod as u64
                };
                proof {
                    assert(w == sat_mul_u64(qtf@[i as int].1, idf));
                    crate::assoc::lemma_assoc_contains_index(
                        qvec.spec_values(),
                        qtfv[i as int].0,
                    );
                    if assoc_contains(qvec.spec_values(), qtfv[i as int].0) {
                        assert(false);
                    }
                }
                let ghost pre_vals = qvec.spec_values();
                qvec.insert(qtf[i].0.clone(), w);
                proof {
                    crate::assoc::lemma_push_unique(pre_vals, (qtfv[i as int].0, w));
                    assert(qvec.spec_values() == qweights_of(qtfv.take(i + 1), self.documents@));
                    assert forall|t: Seq<char>|
                        assoc_contains(qvec.spec_values(), t) implies exists|j: int|
                        0 <= j < i + 1 && (#[trigger] qtfv[j]).0 == t by {
                        crate::assoc::lemma_assoc_get_push(pre_vals, (qtfv[i as int].0, w), t);
                        if assoc_contains(pre_vals, t) {
                            let j = choose|j: int| 0 <= j < i && (#[trigger] qtfv[j]).0 == t;
                            assert(qtfv[j].0 == t);
                        } else {
                            assert(qtfv[i as int].0 == t);
                        }
                    }
                }
            }
            i = i + 1;
        }
        proof {
            assert(qtfv.take(nq as int) =~= qtfv);
        }
        qvec.recompute_magnitude();
        qvec
    }

    /// The distinct admissible query terms, in first-occurrence order.
    fn query_term_list(query: &str) -> (qterms: Vec<String>)
        ensures
            crate::text::views_of(qterms@) == qtf_keys(query@),
    {
        let low = crate::text::lowercase(query);
        let toks = crate::text::filter_admissible(crate::text::split_word_runs(low.as_str()));
        let mut qtf: Vec<(String, u64)> = Vec::new();
        proof {
            assert(kv_u64(qtf@) =~= Seq::<(Seq<char>, u64)>::empty());
        }
        crate::assoc::accumulate_counts(&mut qtf, &toks, 1);
        let ghost qtfv = kv_u64(qtf@);
        let mut qterms: Vec<String> = Vec::new();
        let n = qtf.len();
        let mut i: usize = 0;
        proof {
            assert(crate::text::views_of(qterms@) =~= qtfv.map_values(
                |p: (Seq<char>, u64)| p.0,
            ).take(0));
        }
        #[verifier::loop_isolation(false)]
        while i < n
            invariant
                i <= n,
                crate::text::views_of(qterms@) == qtfv.map_values(
                    |p: (Seq<char>, u64)| p.0,
                ).take(i as int),
            decreases n - i,
        {
            let ghost pre = crate::text::views_of(qterms@);
            let k = qtf[i].0.clone();
            qterms.push(k);
            proof {
                assert(qtfv[i as int] == (qtf@[i as int].0@, qtf@[i as int].1));
                assert(crate::text::views_of(qterms@) =~= pre.push(qtf@[i as int].0@));
                assert(crate::text::views_of(qterms@) =~= qtfv.map_values(
                    |p: (Seq<char>, u64)| p.0,
                ).take(i + 1));
            }
            i = i + 1;
        }
        proof {
            assert(qtfv.map_values(|p: (Seq<char>, u64)| p.0).take(n as int) =~= qtf_keys(
                query@,
            ));
        }
        qterms
    }

    /// A copy of a metadata list, pair by pair.
    fn clone_metadata(meta: &Vec<(String, String)>) -> (out: Vec<(String, String)>)
        ensures
            out@ == meta@,
            kv_str(out@) == kv_str(meta@),
    {
        let mut out: Vec<(String, String)> = Vec::new();
        let n = meta.len();
        let mut i: usize = 0;
        #[verifier::loop_isolation(false)]
        while i < n
            invariant
                i <= n,
                out@.len() == i,
                forall|j: int| 0 <= j < i ==> #[trigger] out@[j] == meta@[j],
            decreases n - i,
        {
            let k = meta[i].0.clone();
            let v = meta[i].1.clone();
            out.push((k, v));
            i = i + 1;
        }
        proof {
            assert(out@ =~= meta@);
        }
        out
    }

    /// The best 30-word snippet of a content string for the query terms.
    fn generate_snippet(content: &str, qterms: &Vec<String>) -> (snippet: String)
        ensures
            snippet@ == spec_snippet(content@, crate::text::views_of(qterms@)),
    {
        let words = crate::text::split_whitespace_words(content);
        let ghost wvs = crate::text::views_of(words@);
        let ghost qvs = crate::text::views_of(qterms@);
        let nw = words.len();
        let mut best_pos: usize = 0;
        let mut best_score: usize = 0;
        if nw >= 30 {
            let nwin = nw - 29;
            let mut i: usize = 0;
            #[verifier::loop_isolation(false)]
            while i < nwin
                invariant
                    i <= nwin,
                    best_pos as int == best_window(wvs, qvs, i as int).0,
                    best_score as int == best_window(wvs, qvs, i as int).1,
                    best_pos + 30 <= nw,
                decreases nwin - i,
            {
                let wtext = crate::text::join_spaces(&words, i, i + 30);
                let lw = crate::text::lowercase(wtext.as_str());
                let sc = Self::count_window_hits(&lw, qterms);
                if sc > best_score {
                    best_score = sc;
                    best_pos = i;
                }
                i = i + 1;
            }
        }
        let end: usize = if best_pos + 30 <= nw {
            best_pos + 30
        } else {
            nw
        };
        let text = crate::text::join_spaces(&words, best_pos, end);
        if best_pos > 0 {
            let mut s = String::from_str("...");
            s.append(text.as_str());
            s
        } else {
            text
        }
    }

    /// How many query terms occur in the lowercased window text.
    fn count_window_hits(lw: &String, qterms: &Vec<String>) -> (count: usize)
        ensures
            count as int == count_hits(lw@, crate::text::views_of(qterms@)),
    {
        let ghost qvs = crate::text::views_of(qterms@);
        let mut count: usize = 0;
        let n = qterms.len();
        let mut i: usize = 0;
        proof {
            assert(qvs.take(0) =~= Seq::<Seq<char>>::empty());
        }
        #[verifier::loop_isolation(false)]
        while i < n
            invariant
                i <= n,
                count <= i,
                count as int == count_hits(lw@, qvs.take(i as int)),
            decreases n - i,
        {
            proof {
                assert(qvs.take(i + 1).drop_last() =~= qvs.take(i as int));
                assert(qvs.take(i + 1).last() == qterms@[i as int]@);
            }
            if crate::text::contains_chars(lw.as_str(), qterms[i].as_str()) {
                count = count + 1;
            }
            i = i + 1;
        }
        proof {
            assert(qvs.take(n as int) =~= qvs);
        }
        count
    }

    /// The per-word highlight stream of a content string.
    fn generate_highlights(
        content: &str,
        qterms: &Vec<String>,
        fuzzy: bool,
        fd: usize,
    ) -> (hl: Vec<TextHighlight>)
        ensures
            th_views(hl@) == spec_highlights(
                content@,
                crate::text::views_of(qterms@),
                fuzzy,
                fd as nat,
            ),
    {
        let words = crate::text::split_whitespace_words(content);
        let ghost wvs = crate::text::views_of(words@);
        let ghost qvs = crate::text::views_of(qterms@);
        let mut hl: Vec<TextHighlight> = Vec::new();
        let nw = words.len();
        let mut wi: usize = 0;
        proof {
            assert(th_views(hl@) =~= spec_highlights(content@, qvs, fuzzy, fd as nat).take(0));
        }
        #[verifier::loop_isolation(false)]
        while wi < nw
            invariant
                wi <= nw,
                th_views(hl@) == spec_highlights(content@, qvs, fuzzy, fd as nat).take(
                    wi as int,
                ),
            decreases nw - wi,
        {
            let lw = crate::text::lowercase(words[wi].as_str());
            let cleaned = crate::text::trim_non_word(lw.as_str());
            let nq = qterms.len();
            let mut qi: usize = 0;
            let mut matched: bool = false;
            #[verifier::loop_isolation(false)]
            while qi < nq && !matched
                invariant
                    qi <= nq,
                    matched ==> word_highlighted(qvs, wvs[wi as int], fuzzy, fd as nat),
                    !matched ==> forall|j: int|
                        0 <= j < qi ==> (#[trigger] qvs[j]) != cleaned@ && !(fuzzy
                            && crate::distance::damerau_dist(qvs[j], cleaned@) <= fd as nat),
                decreases nq - qi, (if matched { 0int } else { 1int }),
            {
                proof {
                    assert(qvs[qi as int] == qterms@[qi as int]@);
                }
                if cleaned.eq(&qterms[qi]) {
                    matched = true;
                    proof {
                        assert(qvs[qi as int] == cleaned@);
                        assert(qvs.contains(cleaned@));
                    }
                } else if fuzzy && crate::distance::levenshtein_distance(
                    qterms[qi].as_str(),
                    cleaned.as_str(),
                ) <= fd {
                    matched = true;
                } else {
                    qi = qi + 1;
                }
            }
            proof {
                if !matched {
                    if qvs.contains(cleaned@) {
                        let j = choose|j: int| 0 <= j < qvs.len() && qvs[j] == cleaned@;
                        assert(false);
                    }
                    assert(!word_highlighted(qvs, wvs[wi as int], fuzzy, fd as nat));
                }
            }
            let ghost pre = th_views(hl@);
            let word = words[wi].clone();
            hl.push(TextHighlight { text: word, is_highlighted: matched });
            proof {
                assert(th_views(hl@) =~= pre.push((words@[wi as int]@, matched)));
                assert(th_views(hl@) =~= spec_highlights(content@, qvs, fuzzy, fd as nat).take(
                    wi + 1,
                ));
            }
            wi = wi + 1;
        }
        proof {
            assert(spec_highlights(content@, qvs, fuzzy, fd as nat).take(nw as int)
                =~= spec_highlights(content@, qvs, fuzzy, fd as nat));
        }
        hl
    }

    /// Ranked search: ensures the vectors are fresh, scores every document
    /// against the query (in parallel, with identical output whatever the
    /// worker count), keeps the positive scores, sorts them by descending
    /// score, cuts to `limit`, and assembles each survivor's snippet,
    /// highlights and metadata.
    pub fn search(
        &mut self,
        query: &str,
        limit: usize,
        fuzzy: bool,
        fuzzy_distance: usize,
    ) -> (results: Vec<SearchResult>)
        requires
            old(self).wf(),
        ensures
            final(self).wf(),
            final(self).spec_calculated(),
            final(self).spec_documents() == old(self).spec_documents(),
            search_post(
                final(self).spec_documents(),
                query@,
                limit as int,
                fuzzy,
                fuzzy_distance as nat,
                results@,
            ),
    {
        self.calculate_tf_idf();
        let qvec = self.build_query_vector(query);
        let qterms = Self::query_term_list(query);
        let lquery = crate::text::lowercase(query);
        let ghost docs = self.documents@;

        let scores = score_all_parallel(
            &self.vectors,
            &self.documents,
            &qvec,
            &qterms,
            &lquery,
            fuzzy,
            fuzzy_distance,
        );
        proof {
            assert forall|i: int|
                0 <= i < docs.len() implies #[trigger] scores@[i] == spec_doc_score(
                docs,
                i,
                query@,
                fuzzy,
                fuzzy_distance as nat,
            ) by {
                assert(self.vectors@[i].spec_values() == doc_weights(docs, i));
                assert(self.vectors@[i].spec_magnitude() as nat == nat_sqrt(
                    sumsq(doc_weights(docs, i)) as nat,
                ));
                assert(qvec.spec_magnitude() as nat == nat_sqrt(
                    sumsq(spec_query_vec(docs, query@)) as nat,
                ));
            }
        }

        // Keep the documents that scored, in corpus order.
        let mut scored: Vec<(String, u64)> = Vec::new();
        let nd = self.documents.len();
        let mut di: usize = 0;
        proof {
            assert(kv_u64(scored@) =~= scored_upto(
                docs,
                query@,
                fuzzy,
                fuzzy_distance as nat,
                0,
            ));
        }
        #[verifier::loop_isolation(false)]
        while di < nd
            invariant
                di <= nd,
                kv_u64(scored@) == scored_upto(
                    docs,
                    query@,
                    fuzzy,
                    fuzzy_distance as nat,
                    di as int,
                ),
                forall|t: int|
                    0 <= t < kv_u64(scored@).len() ==> exists|j: int|
                        0 <= j < nd && (#[trigger] kv_u64(scored@)[t]).0 == docs[j].id@,
            decreases nd - di,
        {
            let ghost pre = kv_u64(scored@);
            if scores[di] > 0 {
                let id = self.documents[di].id.clone();
                let sc = scores[di];
                scored.push((id, sc));
                proof {
                    assert(kv_u64(scored@) =~= pre.push((docs[di as int].id@, sc)));
                }
            }
            di = di + 1;
        }

        // Rank and cut.
        let ghost scored_view = kv_u64(scored@);
        let sorted = crate::rank::sort_by_score(scored);
        proof {
            crate::rank::lemma_sort_desc_props(scored_view);
        }
        let k = if limit <= sorted.len() {
            limit
        } else {
            sorted.len()
        };
        let ghost ranked = spec_ranked(docs, query@, fuzzy, fuzzy_distance as nat);
        let mut results: Vec<SearchResult> = Vec::new();
        let mut ri: usize = 0;
        #[verifier::loop_isolation(false)]
        while ri < k
            invariant
                ri <= k,
                results@.len() == ri,
                forall|i: int|
                    0 <= i < ri ==> {
                        let r = #[trigger] results@[i];
                        &&& r.document_id@ == ranked[i].0
                        &&& r.score == ranked[i].1
                        &&& match find_document(docs, ranked[i].0) {
                            Some(d) => {
                                &&& r.title@ == d.title@
                                &&& kv_str(r.metadata@) == kv_str(d.metadata@)
                                &&& r.snippet@ == spec_snippet(d.content@, qtf_keys(query@))
                                &&& th_views(r.highlights@) == spec_highlights(
                                    d.content@,
                                    qtf_keys(query@),
                                    fuzzy,
                                    fuzzy_distance as nat,
                                )
                            },
                            None => false,
                        }
                    },
            decreases k - ri,
        {
            let id = sorted[ri].0.clone();
            let score = sorted[ri].1;
            proof {
                assert(kv_u64(sorted@)[ri as int] == (sorted@[ri as int].0@,
                sorted@[ri as int].1));
                assert(ranked.contains(ranked[ri as int])) by {
                    assert(ranked[ri as int] == ranked[ri as int]);
                }
                assert(scored_view.contains((id@, score)));
                let w = choose|w: int|
                    0 <= w < scored_view.len() && scored_view[w] == (id@, score);
                assert(exists|j: int| 0 <= j < nd && docs[j].id@ == id@);
            }
            let mut found_di: usize = 0;
            let mut found: bool = false;
            let mut si: usize = 0;
            #[verifier::loop_isolation(false)]
            while si < nd && !found
                invariant
                    si <= nd,
                    found ==> found_di < nd && docs[found_di as int].id@ == id@ && (forall|
                        j: int,
                    |
                        0 <= j < found_di ==> docs[j].id@ != id@),
                    !found ==> forall|j: int| 0 <= j < si ==> docs[j].id@ != id@,
                decreases nd - si, (if found { 0int } else { 1int }),
            {
                if self.documents[si].id.eq(&id) {
                    found = true;
                    found_di = si;
                } else {
                    si = si + 1;
                }
            }
            proof {
                if !found {
                    assert(forall|j: int| 0 <= j < nd ==> docs[j].id@ != id@);
                    assert(false);
                }
                lemma_find_document_at(docs, id@, found_di as int);
            }
            let d = &self.documents[found_di];
            let snippet = Self::generate_snippet(d.content.as_str(), &qterms);
            let highlights = Self::generate_highlights(
                d.content.as_str(),
                &qterms,
                fuzzy,
                fuzzy_distance,
            );
            let metadata = Self::clone_metadata(&d.metadata);
            let title = d.title.clone();
            results.push(
                SearchResult { document_id: id, title, snippet, metadata, score, highlights },
            );
            ri = ri + 1;
        }
        results
    }

    /// Keeps the results whose own metadata copy carries every filter pair;
    /// an empty filter map keeps everything.
    pub fn filter_by_metadata(
        &self,
        results: Vec<SearchResult>,
        filters: &Vec<(String, String)>,
    ) -> (out: Vec<SearchResult>)
        ensures
            filters@.len() == 0 ==> out@ == results@,
            filters@.len() > 0 ==> out@ == results@.filter(
                |r: SearchResult| crate::algorithms::meta_matches(
                    kv_str(r.metadata@),
                    kv_str(filters@),
                ),
            ),
    {
        if filters.len() == 0 {
            return results;
        }
        let ghost orig = results@;
        let ghost pred = |r: SearchResult|
            crate::algorithms::meta_matches(kv_str(r.metadata@), kv_str(filters@));
        let mut rest = results;
        let n0 = rest.len();
        let mut out: Vec<SearchResult> = Vec::new();
        let mut k: usize = 0;
        proof {
            reveal(Seq::filter);
            assert(orig.take(0) =~= Seq::<SearchResult>::empty());
            assert(rest@ =~= orig.skip(0));
        }
        #[verifier::loop_isolation(false)]
        while rest.len() > 0
            invariant
                n0 == orig.len(),
                k <= orig.len(),
                rest@ == orig.skip(k as int),
                out@ == orig.take(k as int).filter(pred),
            decreases rest@.len(),
        {
            let r = rest.remove(0);
            proof {
                reveal(Seq::filter);
                assert(r == orig[k as int]);
                assert(rest@ =~= orig.skip(k + 1));
                assert(orig.take(k + 1).drop_last() =~= orig.take(k as int));
                assert(orig.take(k + 1).last() == orig[k as int]);
            }
            let keep = Self::result_matches(&r, filters);
            if keep {
                out.push(r);
            }
            k = k + 1;
        }
        proof {
            assert(orig.take(k as int) =~= orig);
        }
        out
    }

    /// Whether a result's metadata carries every filter pair.
    fn result_matches(r: &SearchResult, filters: &Vec<(String, String)>) -> (keep: bool)
        ensures
            keep == crate::algorithms::meta_matches(kv_str(r.metadata@), kv_str(filters@)),
    {
        let n = filters.len();
        let mut i: usize = 0;
        #[verifier::loop_isolation(false)]
        while i < n
            invariant
                i <= n,
                forall|j: int|
                    0 <= j < i ==> assoc_get(
                        kv_str(r.metadata@),
                        (#[trigger] kv_str(filters@)[j]).0,
                    ) == Some(kv_str(filters@)[j].1),
            decreases n - i,
        {
            let ghost meta = kv_str(r.metadata@);
            proof {
                assert(kv_str(filters@)[i as int] == (filters@[i as int].0@,
                filters@[i as int].1@));
            }
            match find_key_index(&r.metadata, &filters[i].0) {
                Some(mi) => {
                    proof {
                        assert(meta[mi as int] == (r.metadata@[mi as int].0@,
                        r.metadata@[mi as int].1@));
                        assert forall|j: int| 0 <= j < mi implies (#[trigger] meta[j]).0
                            != filters@[i as int].0@ by {
                            assert(meta[j] == (r.metadata@[j].0@, r.metadata@[j].1@));
                        }
                        lemma_assoc_get_at(meta, filters@[i as int].0@, mi as int);
                    }
                    if !r.metadata[mi].1.eq(&filters[i].1) {
                        return false;
                    }
                },
                None => {
                    proof {
                        assert forall|j: int| 0 <= j < meta.len() implies (#[trigger] meta[j]).0
                            != filters@[i as int].0@ by {
                            assert(meta[j] == (r.metadata@[j].0@, r.metadata@[j].1@));
                        }
                        lemma_assoc_get_none(meta, filters@[i as int].0@);
                    }
                    return false;
                },
            }
            i = i + 1;
        }
        true
    }

    /// The stored document with the given id.
    pub fn get_document(&self, id: &str) -> (r: Option<&Document>)
        ensures
            match r {
                Some(d) => find_document(self.spec_documents(), id@) == Some(*d),
                None => find_document(self.spec_documents(), id@) is None,
            },
    {
        let key = String::from_str(id);
        let n = self.documents.len();
        let mut i: usize = 0;
        #[verifier::loop_isolation(false)]
        while i < n
            invariant
                i <= n,
                forall|j: int| 0 <= j < i ==> self.documents@[j].id@ != key@,
            decreases n - i,
        {
            if self.documents[i].id.eq(&key) {
                proof {
                    lemma_find_document_at(self.documents@, id@, i as int);
                }
                return Some(&self.documents[i]);
            }
            i = i + 1;
        }
        proof {
            lemma_find_document_none(self.documents@, id@);
        }
        None
    }

    /// Scores one document against the prepared query context.
    fn score_document(
        vec: &TfIdfVector,
        title: &str,
        qvec: &TfIdfVector,
        qterms: &Vec<String>,
        lquery: &String,
        fuzzy: bool,
        fd: usize,
    ) -> (r: u64)
        requires
            vec.wf(),
            qvec.wf(),
        ensures
            r == score_parts(
                vec.spec_values(),
                vec.spec_magnitude(),
                qvec.spec_values(),
                qvec.spec_magnitude(),
                crate::text::views_of(qterms@),
                title@,
                lquery@,
                fuzzy,
                fd as nat,
            ),
    {
        let base = vec.cosine_similarity(qvec);
        let mut score = base;
        if fuzzy && base == 0 {
            score = Self::fuzzy_score_for(vec, qterms, fd);
        }
        let ltitle = crate::text::lowercase(title);
        if crate::text::contains_chars(ltitle.as_str(), lquery.as_str()) {
            score = score.saturating_add(score);
        }
        score
    }
    
    /// The fuzzy total of every query term against every vector term.
    fn fuzzy_score_for(vec: &TfIdfVector, qterms: &Vec<String>, fd: usize) -> (r: u64)
        ensures
            r == fuzzy_total(0, crate::text::views_of(qterms@), vec.spec_values(), fd as nat),
    {
        let ghost qv = crate::text::views_of(qterms@);
        let ghost dws = vec.spec_values();
        let mut acc: u64 = 0;
        let nq = qterms.len();
        let mut qi: usize = 0;
        proof {
            assert(qv.take(0) =~= Seq::<Seq<char>>::empty());
        }
        #[verifier::loop_isolation(false)]
        while qi < nq
            invariant
                qi <= nq,
                acc == fuzzy_total(0, qv.take(qi as int), dws, fd as nat),
            decreases nq - qi,
        {
            proof {
                assert(qv.take(qi + 1).drop_last() =~= qv.take(qi as int));
                assert(qv.take(qi + 1).last() == qterms@[qi as int]@);
            }
            acc = Self::fuzzy_term_score(acc, &qterms[qi], vec, fd);
            qi = qi + 1;
        }
        proof {
            assert(qv.take(nq as int) =~= qv);
        }
        acc
    }
    
    /// Folds one query term over the vector's terms, saturating.
    fn fuzzy_term_score(acc: u64, q: &String, vec: &TfIdfVector, fd: usize) -> (r: u64)
        ensures
            r == fuzzy_over_terms(acc, q@, vec.spec_values(), fd as nat),
    {
        let ghost dws = vec.spec_values();
        let mut cur = acc;
        let nt = vec.values.len();
        let mut ti: usize = 0;
        proof {
            assert(dws.take(0) =~= Seq::<(Seq<char>, u64)>::empty());
        }
        #[verifier::loop_isolation(false)]
        while ti < nt
            invariant
                ti <= nt,
                cur == fuzzy_over_terms(acc, q@, dws.take(ti as int), fd as nat),
            decreases nt - ti,
        {
            proof {
                assert(dws.take(ti + 1).drop_last() =~= dws.take(ti as int));
                assert(dws.take(ti + 1).last() == (vec.values@[ti as int].0@,
                vec.values@[ti as int].1));
            }
            let d = crate::distance::levenshtein_distance(q.as_str(), vec.values[ti].0.as_str());
            let qlen = q.as_str().unicode_len();
            let mut add: u64 = 0;
            if d <= fd && d <= qlen / 2 && qlen > 0 {
                proof {
                    assert((SCALE as int) * ((qlen - d) as int) <= (SCALE as int) * (qlen as int))
                        by (nonlinear_arith)
                        requires
                            d <= qlen,
                            SCALE == 1_000_000u64,
                    ;
                    assert((SCALE as u128) * ((qlen - d) as u128) <= u128::MAX)
                        by (nonlinear_arith)
                        requires
                            qlen as u128 <= 0xffff_ffff_ffff_ffffu128,
                            d <= qlen,
                            SCALE == 1_000_000u64,
                    ;
                    lemma_div_is_ordered(
                        (SCALE as int) * ((qlen - d) as int),
                        (SCALE as int) * (qlen as int),
                        2 * (qlen as int),
                    );
                    assert((SCALE as int) * (qlen as int) / (2 * (qlen as int)) <= SCALE as int)
                        by (nonlinear_arith)
                        requires
                            qlen > 0,
                            SCALE == 1_000_000u64,
                    ;
                }
                add = ((SCALE as u128) * ((qlen - d) as u128) / (2u128 * (qlen as u128))) as u64;
            }
            proof {
                assert(add == fuzzy_pair(q@, vec.values@[ti as int].0@, fd as nat));
            }
            cur = cur.saturating_add(add);
            ti = ti + 1;
        }
        proof {
            assert(dws.take(nt as int) =~= dws);
        }
        cur
    }
}


/// Two documents carry the same data.
pub open spec fn same_document(a: Document, b: Document) -> bool {
    a.id@ == b.id@ && a.title@ == b.title@ && a.content@ == b.content@ && a.metadata@
        == b.metadata@
}

/// A full copy of a document.
fn clone_document(d: &Document) -> (out: Document)
    ensures
        same_document(out, *d),
{
    let id = d.id.clone();
    let title = d.title.clone();
    let content = d.content.clone();
    let metadata = SearchEngine::clone_metadata(&d.metadata);
    Document { id, title, content, metadata }
}

/// The invariant every engine behind the lock satisfies.
pub open spec fn engine_inv() -> spec_fn(SearchEngine) -> bool {
    |e: SearchEngine| e.wf()
}

/// The engine behind a single-writer/multi-reader lock: writers (adding and
/// searching, which may refresh the cached vectors) are serialized; readers
/// (filtering, document lookup) share.
pub struct ThreadSafeSearchEngine {
    engine: RwLock<SearchEngine, spec_fn(SearchEngine) -> bool>,
}

impl ThreadSafeSearchEngine {
    /// The lock carries the engine's well-formedness as its invariant.
    pub closed spec fn wf(self) -> bool {
        self.engine.pred() == engine_inv()
    }

    /// A wrapper around an empty engine.
    pub fn new() -> (r: ThreadSafeSearchEngine)
        ensures
            r.wf(),
    {
        let e = SearchEngine::new();
        proof {
            assert(engine_inv()(e));
        }
        ThreadSafeSearchEngine { engine: RwLock::new(e, Ghost(engine_inv())) }
    }

    /// Adds a document under the write lock.
    pub fn add_document(&self, document: Document)
        requires
            self.wf(),
    {
        let (mut e, handle) = self.engine.acquire_write();
        proof {
            assert(engine_inv()(e));
        }
        e.add_document(document);
        proof {
            assert(engine_inv()(e));
        }
        handle.release_write(e);
    }

    /// Searches under the write lock (the engine may refresh its vectors):
    /// the results are the ranked answer for the corpus that was behind the
    /// lock.
    pub fn search(
        &self,
        query: &str,
        limit: usize,
        fuzzy: bool,
        fuzzy_distance: usize,
    ) -> (results: Vec<SearchResult>)
        requires
            self.wf(),
        ensures
            exists|docs: Seq<Document>|
                #[trigger] search_post(
                    docs,
                    query@,
                    limit as int,
                    fuzzy,
                    fuzzy_distance as nat,
                    results@,
                ),
    {
        let (mut e, handle) = self.engine.acquire_write();
        proof {
            assert(engine_inv()(e));
        }
        let results = e.search(query, limit, fuzzy, fuzzy_distance);
        let ghost docs = e.spec_documents();
        proof {
            assert(engine_inv()(e));
        }
        handle.release_write(e);
        proof {
            assert(search_post(
                docs,
                query@,
                limit as int,
                fuzzy,
                fuzzy_distance as nat,
                results@,
            ));
        }
        results
    }

    /// Filters results by their metadata copies, under a read lock.
    pub fn filter_by_metadata(
        &self,
        results: Vec<SearchResult>,
        filters: &Vec<(String, String)>,
    ) -> (out: Vec<SearchResult>)
        requires
            self.wf(),
        ensures
            filters@.len() == 0 ==> out@ == results@,
            filters@.len() > 0 ==> out@ == results@.filter(
                |r: SearchResult| crate::algorithms::meta_matches(
                    kv_str(r.metadata@),
                    kv_str(filters@),
                ),
            ),
    {
        let read = self.engine.acquire_read();
        let out = read.borrow().filter_by_metadata(results, filters);
        read.release_read();
        out
    }

    /// A copy of the stored document with the given id, from some corpus
    /// state behind the lock.
    pub fn get_document(&self, id: &str) -> (r: Option<Document>)
        requires
            self.wf(),
        ensures
            match r {
                Some(d) => exists|docs: Seq<Document>|
                    #[trigger] find_document(docs, id@) is Some && same_document(
                        find_document(docs, id@)->Some_0,
                        d,
                    ),
                None => exists|docs: Seq<Document>|
                    #[trigger] find_document(docs, id@) is None,
            },
    {
        let read = self.engine.acquire_read();
        let inner = read.borrow();
        let ghost docs = inner.spec_documents();
        let r = match inner.get_document(id) {
            Some(d) => Some(clone_document(d)),
            None => None,
        };
        read.release_read();
        r
    }
}

} // verus!
