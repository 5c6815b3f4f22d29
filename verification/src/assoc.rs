//! Association lists keyed by strings.
//!
//! Both engines keep their maps — term frequencies, document frequencies,
//! postings, metadata — as vectors of key/value pairs, looked up by the
//! first matching key. The spec-level model is the same sequence of pairs
//! over character-sequence keys.

use vstd::prelude::*;
use vstd::string::StringExecFns;

verus! {

/// `a + b`, saturating at the largest `u64`.
pub open spec fn sat_add64(a: u64, b: u64) -> u64 {
    if a + b > u64::MAX {
        u64::MAX
    } else {
        (a + b) as u64
    }
}

/// The view of a sequence of string/`u64` pairs.
pub open spec fn kv_u64(s: Seq<(String, u64)>) -> Seq<(Seq<char>, u64)> {
    s.map_values(|p: (String, u64)| (p.0@, p.1))
}

/// The view of a sequence of string/string pairs.
pub open spec fn kv_str(s: Seq<(String, String)>) -> Seq<(Seq<char>, Seq<char>)> {
    s.map_values(|p: (String, String)| (p.0@, p.1@))
}

/// The first value bound to `k`, scanning from the front.
pub open spec fn assoc_get<V>(s: Seq<(Seq<char>, V)>, k: Seq<char>) -> Option<V>
    decreases s.len(),
{
    if s.len() == 0 {
        None
    } else if s[0].0 == k {
        Some(s[0].1)
    } else {
        assoc_get(s.drop_first(), k)
    }
}

/// Some pair of `s` has key `k`.
pub open spec fn assoc_contains<V>(s: Seq<(Seq<char>, V)>, k: Seq<char>) -> bool {
    assoc_get(s, k).is_some()
}

/// No two pairs share a key.
pub open spec fn unique_keys<V>(s: Seq<(Seq<char>, V)>) -> bool {
    forall|i: int, j: int| 0 <= i < j < s.len() ==> s[i].0 != s[j].0
}

/// `assoc_get` returns the value at the first matching index.
pub proof fn lemma_assoc_get_at<V>(s: Seq<(Seq<char>, V)>, k: Seq<char>, i: int)
    requires
        0 <= i < s.len(),
        s[i].0 == k,
        forall|j: int| 0 <= j < i ==> s[j].0 != k,
    ensures
        assoc_get(s, k) == Some(s[i].1),
    decreases i,
{
    if i > 0 {
        assert forall|j: int| 0 <= j < i - 1 implies s.drop_first()[j].0 != k by {
            assert(s.drop_first()[j] == s[j + 1]);
        }
        lemma_assoc_get_at(s.drop_first(), k, i - 1);
    }
}

/// With no matching key, `assoc_get` returns nothing.
pub proof fn lemma_assoc_get_none<V>(s: Seq<(Seq<char>, V)>, k: Seq<char>)
    requires
        forall|j: int| 0 <= j < s.len() ==> s[j].0 != k,
    ensures
        assoc_get(s, k) is None,
    decreases s.len(),
{
    if s.len() > 0 {
        assert forall|j: int| 0 <= j < s.len() - 1 implies s.drop_first()[j].0 != k by {
            assert(s.drop_first()[j] == s[j + 1]);
        }
        lemma_assoc_get_none(s.drop_first(), k);
    }
}

/// Index of the first pair of `v` whose key equals `key`, if any.
pub fn find_key_index<V>(v: &Vec<(String, V)>, key: &String) -> (r: Option<usize>)
    ensures
        match r {
            Some(i) => i < v@.len() && v@[i as int].0@ == key@ && forall|j: int|
                0 <= j < i ==> v@[j].0@ != key@,
            None => forall|j: int| 0 <= j < v@.len() ==> v@[j].0@ != key@,
        },
{
    let n = v.len();
    let mut i: usize = 0;
    while i < n
        invariant
            n == v@.len(),
            i <= n,
            forall|j: int| 0 <= j < i ==> v@[j].0@ != key@,
        decreases n - i,
    {
        if v[i].0.eq(key) {
            return Some(i);
        }
        i = i + 1;
    }
    None
}

/// Add `w` to the count under `k` (saturating), or append the pair `(k, w)`
/// when `k` is new: the single step of frequency counting.
pub open spec fn bump(s: Seq<(Seq<char>, u64)>, k: Seq<char>, w: u64) -> Seq<(Seq<char>, u64)>
    decreases s.len(),
{
    if s.len() == 0 {
        seq![(k, w)]
    } else if s[0].0 == k {
        seq![(s[0].0, sat_add64(s[0].1, w))] + s.drop_first()
    } else {
        seq![s[0]] + bump(s.drop_first(), k, w)
    }
}

/// When `k` first occurs at index `i`, `bump` is an update in place.
pub proof fn lemma_bump_at(s: Seq<(Seq<char>, u64)>, k: Seq<char>, w: u64, i: int)
    requires
        0 <= i < s.len(),
        s[i].0 == k,
        forall|j: int| 0 <= j < i ==> s[j].0 != k,
    ensures
        bump(s, k, w) == s.update(i, (k, sat_add64(s[i].1, w))),
    decreases i,
{
    if i == 0 {
        assert(bump(s, k, w) =~= s.update(0, (k, sat_add64(s[0].1, w))));
    } else {
        assert forall|j: int| 0 <= j < i - 1 implies s.drop_first()[j].0 != k by {
            assert(s.drop_first()[j] == s[j + 1]);
        }
        assert(s.drop_first()[i - 1] == s[i]);
        lemma_bump_at(s.drop_first(), k, w, i - 1);
        assert(bump(s, k, w) =~= s.update(i, (k, sat_add64(s[i].1, w))));
    }
}

/// When `k` is absent, `bump` appends the new pair.
pub proof fn lemma_bump_missing(s: Seq<(Seq<char>, u64)>, k: Seq<char>, w: u64)
    requires
        forall|j: int| 0 <= j < s.len() ==> s[j].0 != k,
    ensures
        bump(s, k, w) == s.push((k, w)),
    decreases s.len(),
{
    if s.len() == 0 {
        assert(bump(s, k, w) =~= s.push((k, w)));
    } else {
        assert forall|j: int| 0 <= j < s.len() - 1 implies s.drop_first()[j].0 != k by {
            assert(s.drop_first()[j] == s[j + 1]);
        }
        lemma_bump_missing(s.drop_first(), k, w);
        assert(bump(s, k, w) =~= s.push((k, w)));
    }
}

/// Adds `w` to the count under `key`, or appends `(key, w)` when absent.
pub fn bump_count(v: &mut Vec<(String, u64)>, key: &String, w: u64)
    ensures
        kv_u64(final(v)@) == bump(kv_u64(old(v)@), key@, w),
{
    let n = v.len();
    let mut i: usize = 0;
    while i < n
        invariant
            n == v@.len(),
            i <= n,
            v@ == old(v)@,
            forall|j: int| 0 <= j < i ==> v@[j].0@ != key@,
        decreases n - i,
    {
        if v[i].0.eq(key) {
            let cur = v[i].1;
            let ghost pre = kv_u64(v@);
            v[i].1 = cur.saturating_add(w);
            proof {
                lemma_bump_at(pre, key@, w, i as int);
                assert(kv_u64(v@) =~= pre.update(i as int, (key@, sat_add64(cur, w))));
            }
            return ;
        }
        i = i + 1;
    }
    let ghost pre = kv_u64(v@);
    v.push((key.clone(), w));
    proof {
        assert forall|j: int| 0 <= j < pre.len() implies pre[j].0 != key@ by {
            assert(pre[j].0 == v@[j].0@);
        }
        lemma_bump_missing(pre, key@, w);
        assert(kv_u64(v@) =~= pre.push((key@, w)));
    }
}

/// Frequency counting: bump the count of every token in turn, left to right,
/// each occurrence adding `w`.
pub open spec fn accumulate(m: Seq<(Seq<char>, u64)>, toks: Seq<Seq<char>>, w: u64) -> Seq<
    (Seq<char>, u64),
>
    decreases toks.len(),
{
    if toks.len() == 0 {
        m
    } else {
        bump(accumulate(m, toks.drop_last(), w), toks.last(), w)
    }
}

/// Counts every token of `toks` into `v`, each occurrence adding `w`.
pub fn accumulate_counts(v: &mut Vec<(String, u64)>, toks: &Vec<String>, w: u64)
    ensures
        kv_u64(final(v)@) == accumulate(kv_u64(old(v)@), crate::text::views_of(toks@), w),
{
    let n = toks.len();
    let mut i: usize = 0;
    while i < n
        invariant
            n == toks@.len(),
            i <= n,
            kv_u64(v@) == accumulate(
                kv_u64(old(v)@),
                crate::text::views_of(toks@).take(i as int),
                w,
            ),
        decreases n - i,
    {
        proof {
            assert(crate::text::views_of(toks@).take(i + 1).drop_last() =~= crate::text::views_of(
                toks@,
            ).take(i as int));
            assert(crate::text::views_of(toks@).take(i + 1).last() == toks@[i as int]@);
        }
        bump_count(v, &toks[i], w);
        i = i + 1;
    }
    proof {
        assert(crate::text::views_of(toks@).take(n as int) =~= crate::text::views_of(toks@));
    }
}

/// `bump` keeps keys unique, and only ever adds the bumped key.
pub proof fn lemma_bump_unique(s: Seq<(Seq<char>, u64)>, k: Seq<char>, w: u64)
    requires
        unique_keys(s),
    ensures
        unique_keys(bump(s, k, w)),
        forall|t: Seq<char>|
            assoc_contains(bump(s, k, w), t) <==> (assoc_contains(s, t) || t == k),
    decreases s.len(),
{
    let b = bump(s, k, w);
    if exists|i: int| 0 <= i < s.len() && s[i].0 == k {
        let i = choose|i: int| 0 <= i < s.len() && s[i].0 == k && forall|j: int|
            0 <= j < i ==> s[j].0 != k;
        assert(exists|i: int|
            0 <= i < s.len() && s[i].0 == k && (forall|j: int| 0 <= j < i ==> s[j].0 != k)) by {
            let i0 = choose|i0: int| 0 <= i0 < s.len() && s[i0].0 == k;
            lemma_first_occurrence(s, k, i0);
        }
        lemma_bump_at(s, k, w, i);
        assert(unique_keys(b));
        assert forall|t: Seq<char>|
            assoc_contains(b, t) <==> (assoc_contains(s, t) || t == k) by {
            lemma_assoc_contains_index(s, t);
            lemma_assoc_contains_index(b, t);
            if assoc_contains(s, t) || t == k {
                if t == k {
                    assert(b[i].0 == t);
                    lemma_contains_of_index(b, t, i);
                } else {
                    let j = choose|j: int| 0 <= j < s.len() && s[j].0 == t;
                    assert(b[j].0 == t);
                    lemma_contains_of_index(b, t, j);
                }
            }
            if assoc_contains(b, t) && t != k {
                let j = choose|j: int| 0 <= j < b.len() && b[j].0 == t;
                assert(s[j].0 == t);
                lemma_contains_of_index(s, t, j);
            }
        }
    } else {
        assert forall|j: int| 0 <= j < s.len() implies s[j].0 != k by {}
        lemma_bump_missing(s, k, w);
        assert(unique_keys(b));
        assert forall|t: Seq<char>|
            assoc_contains(b, t) <==> (assoc_contains(s, t) || t == k) by {
            lemma_assoc_contains_index(s, t);
            lemma_assoc_contains_index(b, t);
            if assoc_contains(s, t) {
                let j = choose|j: int| 0 <= j < s.len() && s[j].0 == t;
                assert(b[j].0 == t);
                lemma_contains_of_index(b, t, j);
            }
            if t == k {
                assert(b[s.len() as int].0 == t);
                lemma_contains_of_index(b, t, s.len() as int);
            }
            if assoc_contains(b, t) && t != k && !assoc_contains(s, t) {
                let j = choose|j: int| 0 <= j < b.len() && b[j].0 == t;
                assert(j < s.len());
                lemma_contains_of_index(s, t, j);
            }
        }
    }
}

/// If any index matches, some first index matches.
pub proof fn lemma_first_occurrence<V>(s: Seq<(Seq<char>, V)>, k: Seq<char>, i0: int)
    requires
        0 <= i0 < s.len(),
        s[i0].0 == k,
    ensures
        exists|i: int|
            0 <= i < s.len() && s[i].0 == k && (forall|j: int| 0 <= j < i ==> s[j].0 != k),
    decreases i0,
{
    if forall|j: int| 0 <= j < i0 ==> s[j].0 != k {
        assert(0 <= i0 < s.len() && s[i0].0 == k && (forall|j: int|
            0 <= j < i0 ==> s[j].0 != k));
    } else {
        let j0 = choose|j0: int| 0 <= j0 < i0 && s[j0].0 == k;
        lemma_first_occurrence(s, k, j0);
    }
}

/// `assoc_contains` holds exactly when some index has the key.
pub proof fn lemma_assoc_contains_index<V>(s: Seq<(Seq<char>, V)>, k: Seq<char>)
    ensures
        assoc_contains(s, k) <==> exists|i: int| 0 <= i < s.len() && s[i].0 == k,
    decreases s.len(),
{
    if s.len() > 0 {
        lemma_assoc_contains_index(s.drop_first(), k);
        if s[0].0 != k {
            if exists|i: int| 0 <= i < s.len() && s[i].0 == k {
                let i = choose|i: int| 0 <= i < s.len() && s[i].0 == k;
                assert(s.drop_first()[i - 1].0 == k);
            }
            if exists|i: int| 0 <= i < s.drop_first().len() && s.drop_first()[i].0 == k {
                let i = choose|i: int|
                    0 <= i < s.drop_first().len() && s.drop_first()[i].0 == k;
                assert(s[i + 1].0 == k);
            }
        }
    }
}

/// A matching index witnesses `assoc_contains`.
pub proof fn lemma_contains_of_index<V>(s: Seq<(Seq<char>, V)>, k: Seq<char>, i: int)
    requires
        0 <= i < s.len(),
        s[i].0 == k,
    ensures
        assoc_contains(s, k),
{
    lemma_assoc_contains_index(s, k);
}

/// The view of the inverted index: term to postings, a posting being a
/// document id with the term's weighted frequency in that document.
pub open spec fn index_view(ix: Seq<(String, Vec<(String, u64)>)>) -> Seq<
    (Seq<char>, Seq<(Seq<char>, u64)>),
> {
    ix.map_values(|p: (String, Vec<(String, u64)>)| (p.0@, kv_u64(p.1@)))
}

/// Append the posting `(id, w)` under `term`, creating the term's list when
/// absent.
pub open spec fn push_posting(
    ix: Seq<(Seq<char>, Seq<(Seq<char>, u64)>)>,
    term: Seq<char>,
    id: Seq<char>,
    w: u64,
) -> Seq<(Seq<char>, Seq<(Seq<char>, u64)>)>
    decreases ix.len(),
{
    if ix.len() == 0 {
        seq![(term, seq![(id, w)])]
    } else if ix[0].0 == term {
        seq![(ix[0].0, ix[0].1.push((id, w)))] + ix.drop_first()
    } else {
        seq![ix[0]] + push_posting(ix.drop_first(), term, id, w)
    }
}

pub proof fn lemma_push_posting_at(
    ix: Seq<(Seq<char>, Seq<(Seq<char>, u64)>)>,
    term: Seq<char>,
    id: Seq<char>,
    w: u64,
    i: int,
)
    requires
        0 <= i < ix.len(),
        ix[i].0 == term,
        forall|j: int| 0 <= j < i ==> ix[j].0 != term,
    ensures
        push_posting(ix, term, id, w) == ix.update(i, (term, ix[i].1.push((id, w)))),
    decreases i,
{
    if i == 0 {
        assert(push_posting(ix, term, id, w) =~= ix.update(0, (term, ix[0].1.push((id, w)))));
    } else {
        assert forall|j: int| 0 <= j < i - 1 implies ix.drop_first()[j].0 != term by {
            assert(ix.drop_first()[j] == ix[j + 1]);
        }
        assert(ix.drop_first()[i - 1] == ix[i]);
        lemma_push_posting_at(ix.drop_first(), term, id, w, i - 1);
        assert(push_posting(ix, term, id, w) =~= ix.update(i, (term, ix[i].1.push((id, w)))));
    }
}

pub proof fn lemma_push_posting_missing(
    ix: Seq<(Seq<char>, Seq<(Seq<char>, u64)>)>,
    term: Seq<char>,
    id: Seq<char>,
    w: u64,
)
    requires
        forall|j: int| 0 <= j < ix.len() ==> ix[j].0 != term,
    ensures
        push_posting(ix, term, id, w) == ix.push((term, seq![(id, w)])),
    decreases ix.len(),
{
    if ix.len() == 0 {
        assert(push_posting(ix, term, id, w) =~= ix.push((term, seq![(id, w)])));
    } else {
        assert forall|j: int| 0 <= j < ix.len() - 1 implies ix.drop_first()[j].0 != term by {
            assert(ix.drop_first()[j] == ix[j + 1]);
        }
        lemma_push_posting_missing(ix.drop_first(), term, id, w);
        assert(push_posting(ix, term, id, w) =~= ix.push((term, seq![(id, w)])));
    }
}

/// Append a posting for every term of `tf`, left to right.
pub open spec fn add_postings(
    ix: Seq<(Seq<char>, Seq<(Seq<char>, u64)>)>,
    tf: Seq<(Seq<char>, u64)>,
    id: Seq<char>,
) -> Seq<(Seq<char>, Seq<(Seq<char>, u64)>)>
    decreases tf.len(),
{
    if tf.len() == 0 {
        ix
    } else {
        push_posting(add_postings(ix, tf.drop_last(), id), tf.last().0, id, tf.last().1)
    }
}

/// The count bound to `t`, taking absence as zero.
pub open spec fn count_of(s: Seq<(Seq<char>, u64)>, t: Seq<char>) -> int {
    match assoc_get(s, t) {
        Some(v) => v as int,
        None => 0,
    }
}

/// A pair appended at the end is only seen when its key was absent.
pub proof fn lemma_assoc_get_push<V>(s: Seq<(Seq<char>, V)>, p: (Seq<char>, V), t: Seq<char>)
    ensures
        assoc_get(s.push(p), t) == if assoc_contains(s, t) {
            assoc_get(s, t)
        } else if t == p.0 {
            Some(p.1)
        } else {
            None::<V>
        },
    decreases s.len(),
{
    if s.len() == 0 {
        assert(s.push(p)[0] == p);
        assert(s.push(p).drop_first() =~= Seq::<(Seq<char>, V)>::empty());
    } else {
        assert(s.push(p)[0] == s[0]);
        assert(s.push(p).drop_first() =~= s.drop_first().push(p));
        lemma_assoc_get_push(s.drop_first(), p, t);
    }
}

/// Updating the value at the first index of key `k` changes only `k`'s
/// binding.
pub proof fn lemma_assoc_get_update(s: Seq<(Seq<char>, u64)>, j: int, w: u64, t: Seq<char>)
    requires
        0 <= j < s.len(),
        forall|i: int| 0 <= i < j ==> s[i].0 != s[j].0,
    ensures
        assoc_get(s.update(j, (s[j].0, w)), t) == if t == s[j].0 {
            Some(w)
        } else {
            assoc_get(s, t)
        },
    decreases j,
{
    let s2 = s.update(j, (s[j].0, w));
    if j == 0 {
        assert(s2[0] == (s[0].0, w));
        if t != s[0].0 {
            assert(s2.drop_first() =~= s.drop_first());
        }
    } else {
        assert(s2[0] == s[0]);
        assert(s2.drop_first() =~= s.drop_first().update(j - 1, (s.drop_first()[j - 1].0, w)));
        assert forall|i: int| 0 <= i < j - 1 implies (#[trigger] s.drop_first()[i]).0
            != s.drop_first()[j - 1].0 by {
            assert(s.drop_first()[i] == s[i + 1]);
            assert(s.drop_first()[j - 1] == s[j]);
        }
        lemma_assoc_get_update(s.drop_first(), j - 1, w, t);
        assert(s.drop_first()[j - 1] == s[j]);
    }
}

/// What `bump` does to every count, when the bumped count cannot saturate.
pub proof fn lemma_bump_count_of(s: Seq<(Seq<char>, u64)>, k: Seq<char>, w: u64, t: Seq<char>)
    requires
        count_of(s, k) + w <= u64::MAX,
    ensures
        count_of(bump(s, k, w), t) == count_of(s, t) + if t == k {
            w as int
        } else {
            0int
        },
    decreases s.len(),
{
    if s.len() == 0 {
        assert(bump(s, k, w)[0] == (k, w));
        assert(bump(s, k, w).drop_first() =~= Seq::<(Seq<char>, u64)>::empty());
    } else if s[0].0 == k {
        assert(bump(s, k, w)[0] == (s[0].0, sat_add64(s[0].1, w)));
        assert(bump(s, k, w).drop_first() =~= s.drop_first());
    } else {
        assert(bump(s, k, w)[0] == s[0]);
        assert(bump(s, k, w).drop_first() =~= bump(s.drop_first(), k, w));
        lemma_bump_count_of(s.drop_first(), k, w, t);
    }
}

/// Counting keeps keys unique.
pub proof fn lemma_accumulate_unique(m: Seq<(Seq<char>, u64)>, toks: Seq<Seq<char>>, w: u64)
    requires
        unique_keys(m),
    ensures
        unique_keys(accumulate(m, toks, w)),
    decreases toks.len(),
{
    if toks.len() > 0 {
        lemma_accumulate_unique(m, toks.drop_last(), w);
        lemma_bump_unique(accumulate(m, toks.drop_last(), w), toks.last(), w);
    }
}

/// Appending a fresh key keeps keys unique.
pub proof fn lemma_push_unique<V>(s: Seq<(Seq<char>, V)>, p: (Seq<char>, V))
    requires
        unique_keys(s),
        !assoc_contains(s, p.0),
    ensures
        unique_keys(s.push(p)),
{
    let r = s.push(p);
    assert forall|i: int, j: int| 0 <= i < j < r.len() implies r[i].0 != r[j].0 by {
        if j == r.len() - 1 {
            assert(r[i] == s[i]);
            if s[i].0 == p.0 {
                lemma_contains_of_index(s, p.0, i);
            }
        } else {
            assert(r[i] == s[i]);
            assert(r[j] == s[j]);
        }
    }
}

/// Counting tokens binds exactly the keys of the base map and the tokens.
pub proof fn lemma_accumulate_keys(m: Seq<(Seq<char>, u64)>, toks: Seq<Seq<char>>, w: u64)
    requires
        unique_keys(m),
    ensures
        unique_keys(accumulate(m, toks, w)),
        forall|t: Seq<char>|
            #[trigger] assoc_contains(accumulate(m, toks, w), t) <==> (assoc_contains(m, t)
                || toks.contains(t)),
    decreases toks.len(),
{
    if toks.len() == 0 {
        assert forall|t: Seq<char>|
            #[trigger] assoc_contains(accumulate(m, toks, w), t) <==> (assoc_contains(m, t)
                || toks.contains(t)) by {
            if toks.contains(t) {
                let i = choose|i: int| 0 <= i < toks.len() && toks[i] == t;
            }
        }
    } else {
        lemma_accumulate_keys(m, toks.drop_last(), w);
        let prev = accumulate(m, toks.drop_last(), w);
        lemma_bump_unique(prev, toks.last(), w);
        assert forall|t: Seq<char>|
            #[trigger] assoc_contains(accumulate(m, toks, w), t) <==> (assoc_contains(m, t)
                || toks.contains(t)) by {
            assert(assoc_contains(bump(prev, toks.last(), w), t) <==> (assoc_contains(prev, t)
                || t == toks.last()));
            if toks.contains(t) {
                let i = choose|i: int| 0 <= i < toks.len() && toks[i] == t;
                if i < toks.len() - 1 {
                    assert(toks.drop_last()[i] == t);
                    assert(toks.drop_last().contains(t));
                }
            }
            if toks.drop_last().contains(t) {
                let i = choose|i: int|
                    0 <= i < toks.drop_last().len() && toks.drop_last()[i] == t;
                assert(toks[i] == t);
            }
            if t == toks.last() {
                assert(toks[toks.len() - 1] == t);
            }
        }
    }
}

/// A term of an extended postings index was already a key, or is the term
/// just posted.
pub proof fn lemma_push_posting_keys(
    ix: Seq<(Seq<char>, Seq<(Seq<char>, u64)>)>,
    term: Seq<char>,
    id: Seq<char>,
    w: u64,
    t: Seq<char>,
)
    requires
        assoc_contains(push_posting(ix, term, id, w), t),
    ensures
        assoc_contains(ix, t) || t == term,
    decreases ix.len(),
{
    let r = push_posting(ix, term, id, w);
    lemma_assoc_contains_index(r, t);
    let i = choose|i: int| 0 <= i < r.len() && r[i].0 == t;
    if ix.len() == 0 {
        assert(t == term);
    } else if ix[0].0 == term {
        if i == 0 {
            assert(t == term);
        } else {
            assert(r[i] == ix[i]);
            lemma_contains_of_index(ix, t, i);
        }
    } else {
        if i == 0 {
            lemma_contains_of_index(ix, t, 0);
        } else {
            assert(r[i] == push_posting(ix.drop_first(), term, id, w)[i - 1]);
            lemma_contains_of_index(
                push_posting(ix.drop_first(), term, id, w),
                t,
                i - 1,
            );
            lemma_push_posting_keys(ix.drop_first(), term, id, w, t);
            if assoc_contains(ix.drop_first(), t) {
                lemma_assoc_contains_index(ix.drop_first(), t);
                let j = choose|j: int|
                    0 <= j < ix.drop_first().len() && ix.drop_first()[j].0 == t;
                assert(ix[j + 1].0 == t);
                lemma_contains_of_index(ix, t, j + 1);
            }
        }
    }
}

} // verus!
