//! Stable descending sort of scored documents.
//!
//! Both engines rank by sorting `(document id, score)` pairs by score,
//! highest first. The sort is a stable insertion sort: pairs with equal
//! scores keep their original order, so the ranked output is a fixed
//! function of the corpus snapshot, whatever thread produced the scores.

use vstd::prelude::*;
use crate::assoc::kv_u64;

verus! {

/// Scores never increase along the sequence.
pub open spec fn sorted_desc(s: Seq<(Seq<char>, u64)>) -> bool {
    forall|i: int, j: int| 0 <= i <= j < s.len() ==> s[i].1 >= s[j].1
}

/// Insert `x` after every element whose score is at least `x`'s: the
/// stable-insertion step.
pub open spec fn insert_desc(s: Seq<(Seq<char>, u64)>, x: (Seq<char>, u64)) -> Seq<
    (Seq<char>, u64),
>
    decreases s.len(),
{
    if s.len() == 0 {
        seq![x]
    } else if s.last().1 >= x.1 {
        s.push(x)
    } else {
        insert_desc(s.drop_last(), x).push(s.last())
    }
}

/// Stable insertion sort by descending score.
pub open spec fn sort_desc(s: Seq<(Seq<char>, u64)>) -> Seq<(Seq<char>, u64)>
    decreases s.len(),
{
    if s.len() == 0 {
        Seq::empty()
    } else {
        insert_desc(sort_desc(s.drop_last()), s.last())
    }
}

/// Inserting at the boundary position is a splice.
proof fn lemma_insert_desc_at(s: Seq<(Seq<char>, u64)>, x: (Seq<char>, u64), p: int)
    requires
        0 <= p <= s.len(),
        forall|j: int| p <= j < s.len() ==> s[j].1 < x.1,
        p > 0 ==> s[p - 1].1 >= x.1,
    ensures
        insert_desc(s, x) == s.take(p).push(x) + s.skip(p),
    decreases s.len(),
{
    if s.len() == 0 {
        assert(insert_desc(s, x) =~= s.take(p).push(x) + s.skip(p));
    } else if s.last().1 >= x.1 {
        assert(p == s.len());
        assert(s.take(p) =~= s);
        assert(insert_desc(s, x) =~= s.take(p).push(x) + s.skip(p));
    } else {
        assert forall|j: int| p <= j < s.drop_last().len() implies s.drop_last()[j].1
            < x.1 by {
            assert(s.drop_last()[j] == s[j]);
        }
        if p > 0 {
            assert(s.drop_last()[p - 1] == s[p - 1]);
        }
        lemma_insert_desc_at(s.drop_last(), x, p);
        assert(insert_desc(s, x) =~= s.take(p).push(x) + s.skip(p));
    }
}

/// Insertion preserves descending order.
proof fn lemma_insert_desc_sorted(s: Seq<(Seq<char>, u64)>, x: (Seq<char>, u64))
    requires
        sorted_desc(s),
    ensures
        sorted_desc(insert_desc(s, x)),
    decreases s.len(),
{
    if s.len() > 0 && s.last().1 < x.1 {
        assert forall|i: int, j: int|
            0 <= i <= j < s.drop_last().len() implies s.drop_last()[i].1 >= s.drop_last()[j].1 by {
            assert(s.drop_last()[i] == s[i]);
            assert(s.drop_last()[j] == s[j]);
        }
        lemma_insert_desc_sorted(s.drop_last(), x);
        let r = insert_desc(s.drop_last(), x).push(s.last());
        assert forall|i: int, j: int| 0 <= i <= j < r.len() implies r[i].1 >= r[j].1 by {
            lemma_insert_desc_members(s.drop_last(), x);
            if j == r.len() - 1 && i < j {
                let y = insert_desc(s.drop_last(), x)[i];
                assert(insert_desc(s.drop_last(), x).contains(y)) by {
                    assert(insert_desc(s.drop_last(), x)[i] == y);
                }
                if y == x {
                } else {
                    let t = choose|t: int|
                        0 <= t < s.drop_last().len() && s.drop_last()[t] == y;
                    assert(s[t] == y);
                }
            }
        }
    }
}

/// The inserted sequence holds exactly the old elements and `x`.
proof fn lemma_insert_desc_members(s: Seq<(Seq<char>, u64)>, x: (Seq<char>, u64))
    ensures
        forall|y: (Seq<char>, u64)|
            #[trigger] insert_desc(s, x).contains(y) <==> (s.contains(y) || y == x),
    decreases s.len(),
{
    let r = insert_desc(s, x);
    if s.len() == 0 {
        assert forall|y: (Seq<char>, u64)| #[trigger]
            r.contains(y) <==> (s.contains(y) || y == x) by {
            if y == x {
                assert(r[0] == x);
            }
            if r.contains(y) {
                let i = choose|i: int| 0 <= i < r.len() && r[i] == y;
                assert(i == 0);
            }
        }
    } else if s.last().1 >= x.1 {
        assert forall|y: (Seq<char>, u64)| #[trigger]
            r.contains(y) <==> (s.contains(y) || y == x) by {
            if s.contains(y) {
                let i = choose|i: int| 0 <= i < s.len() && s[i] == y;
                assert(r[i] == y);
            }
            if y == x {
                assert(r[s.len() as int] == y);
            }
            if r.contains(y) {
                let i = choose|i: int| 0 <= i < r.len() && r[i] == y;
                if i < s.len() {
                    assert(s[i] == y);
                }
            }
        }
    } else {
        lemma_insert_desc_members(s.drop_last(), x);
        let q = insert_desc(s.drop_last(), x);
        assert(r == q.push(s.last()));
        assert forall|y: (Seq<char>, u64)| #[trigger]
            r.contains(y) <==> (s.contains(y) || y == x) by {
            if s.contains(y) {
                let i = choose|i: int| 0 <= i < s.len() && s[i] == y;
                if i < s.len() - 1 {
                    assert(s.drop_last()[i] == y);
                    assert(s.drop_last().contains(y));
                    assert(q.contains(y));
                    let t = choose|t: int| 0 <= t < q.len() && q[t] == y;
                    assert(r[t] == y);
                    assert(r.contains(y));
                } else {
                    assert(r[r.len() - 1] == y);
                    assert(r.contains(y));
                }
            }
            if y == x {
                assert(q.contains(y));
                let t = choose|t: int| 0 <= t < q.len() && q[t] == y;
                assert(r[t] == y);
                assert(r.contains(y));
            }
            if r.contains(y) {
                let i = choose|i: int| 0 <= i < r.len() && r[i] == y;
                if i < r.len() - 1 {
                    assert(q[i] == y);
                    assert(q.contains(y));
                    if !(y == x) {
                        assert(s.drop_last().contains(y));
                        let t = choose|t: int|
                            0 <= t < s.drop_last().len() && s.drop_last()[t] == y;
                        assert(s[t] == y);
                        assert(s.contains(y));
                    }
                } else {
                    assert(y == s.last());
                    assert(s[s.len() - 1] == y);
                    assert(s.contains(y));
                }
            }
        }
    }
}

/// The sorted sequence is ordered and holds exactly the input's elements.
pub proof fn lemma_sort_desc_props(s: Seq<(Seq<char>, u64)>)
    ensures
        sorted_desc(sort_desc(s)),
        sort_desc(s).len() == s.len(),
        forall|y: (Seq<char>, u64)|
            #[trigger] sort_desc(s).contains(y) <==> s.contains(y),
    decreases s.len(),
{
    if s.len() > 0 {
        lemma_sort_desc_props(s.drop_last());
        lemma_insert_desc_sorted(sort_desc(s.drop_last()), s.last());
        lemma_insert_desc_members(sort_desc(s.drop_last()), s.last());
        lemma_insert_desc_len(sort_desc(s.drop_last()), s.last());
        assert forall|y: (Seq<char>, u64)| #[trigger]
            sort_desc(s).contains(y) <==> s.contains(y) by {
            if s.contains(y) {
                let i = choose|i: int| 0 <= i < s.len() && s[i] == y;
                if i < s.len() - 1 {
                    assert(s.drop_last()[i] == y);
                    assert(s.drop_last().contains(y));
                }
            }
            if sort_desc(s).contains(y) && y != s.last() {
                if s.drop_last().contains(y) {
                    let t = choose|t: int|
                        0 <= t < s.drop_last().len() && s.drop_last()[t] == y;
                    assert(s[t] == y);
                }
            }
            if y == s.last() {
                assert(s[s.len() - 1] == y);
            }
        }
    }
}

proof fn lemma_insert_desc_len(s: Seq<(Seq<char>, u64)>, x: (Seq<char>, u64))
    ensures
        insert_desc(s, x).len() == s.len() + 1,
    decreases s.len(),
{
    if s.len() > 0 && s.last().1 < x.1 {
        lemma_insert_desc_len(s.drop_last(), x);
    }
}

/// Sorts scored pairs by descending score, stably.
pub fn sort_by_score(v: Vec<(String, u64)>) -> (out: Vec<(String, u64)>)
    ensures
        kv_u64(out@) == sort_desc(kv_u64(v@)),
{
    let mut out: Vec<(String, u64)> = Vec::new();
    let n = v.len();
    let mut i: usize = 0;
    proof {
        assert(kv_u64(v@).take(0) =~= Seq::<(Seq<char>, u64)>::empty());
        assert(kv_u64(out@) =~= Seq::<(Seq<char>, u64)>::empty());
    }
    let mut src = v;
    while i < n
        invariant
            n == src@.len(),
            i <= n,
            kv_u64(out@) == sort_desc(kv_u64(src@).take(i as int)),
        decreases n - i,
    {
        let x0 = src[i].0.clone();
        let score = src[i].1;
        let mut p = out.len();
        while p > 0 && out[p - 1].1 < score
            invariant
                p <= out@.len(),
                forall|j: int| p <= j < out@.len() ==> out@[j].1 < score,
            decreases p,
        {
            p = p - 1;
        }
        let ghost pre = kv_u64(out@);
        proof {
            assert forall|j: int| p <= j < pre.len() implies pre[j].1 < score by {
                assert(pre[j].1 == out@[j].1);
            }
            if p > 0 {
                assert(pre[p - 1].1 == out@[p - 1].1);
            }
            lemma_insert_desc_at(pre, (x0@, score), p as int);
        }
        out.insert(p, (x0, score));
        proof {
            assert(kv_u64(out@) =~= pre.take(p as int).push((src@[i as int].0@, src@[i as int].1))
                + pre.skip(p as int));
            assert(kv_u64(src@).take(i + 1).drop_last() =~= kv_u64(src@).take(i as int));
            assert(kv_u64(src@).take(i + 1).last() == (src@[i as int].0@, src@[i as int].1));
        }
        i = i + 1;
    }
    proof {
        assert(kv_u64(src@).take(n as int) =~= kv_u64(src@));
    }
    out
}

/// Stable insertion adds exactly one copy of `x` to the sequence's
/// multiset.
proof fn lemma_insert_desc_multiset(s: Seq<(Seq<char>, u64)>, x: (Seq<char>, u64))
    ensures
        insert_desc(s, x).to_multiset() == s.to_multiset().insert(x),
    decreases s.len(),
{
    if s.len() == 0 {
        s.to_multiset_ensures();
        assert(insert_desc(s, x) =~= s.push(x));
        assert(insert_desc(s, x).to_multiset() =~= s.to_multiset().insert(x));
    } else if s.last().1 >= x.1 {
        s.to_multiset_ensures();
        assert(insert_desc(s, x).to_multiset() =~= s.to_multiset().insert(x));
    } else {
        lemma_insert_desc_multiset(s.drop_last(), x);
        let q = insert_desc(s.drop_last(), x);
        q.to_multiset_ensures();
        s.drop_last().to_multiset_ensures();
        assert(s.drop_last().push(s.last()) =~= s);
        assert(insert_desc(s, x).to_multiset() =~= q.to_multiset().insert(s.last()));
        assert(q.to_multiset().insert(s.last()) =~= s.drop_last().to_multiset().insert(x).insert(
            s.last(),
        ));
        assert(s.drop_last().to_multiset().insert(x).insert(s.last())
            =~= s.drop_last().to_multiset().insert(s.last()).insert(x));
        assert(s.to_multiset() =~= s.drop_last().to_multiset().insert(s.last()));
    }
}

/// The sort returns a permutation of its input: the multiset of scored
/// pairs is unchanged.
pub proof fn lemma_sort_desc_permutation(s: Seq<(Seq<char>, u64)>)
    ensures
        sort_desc(s).to_multiset() == s.to_multiset(),
    decreases s.len(),
{
    if s.len() > 0 {
        lemma_sort_desc_permutation(s.drop_last());
        lemma_insert_desc_multiset(sort_desc(s.drop_last()), s.last());
        s.drop_last().to_multiset_ensures();
        assert(s.drop_last().push(s.last()) =~= s);
        assert(sort_desc(s).to_multiset() =~= s.to_multiset());
    } else {
        assert(sort_desc(s) =~= s);
    }
}

} // verus!
