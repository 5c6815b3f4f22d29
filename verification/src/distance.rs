//! Character-level edit distance for fuzzy matching.
//!
//! The distance is the classic Levenshtein recurrence (insert, delete,
//! substitute, each costing 1) augmented with the Damerau adjacent-swap
//! rule: the last two characters may also be closed by a transposition at
//! the substitution cost of the final pair.

use vstd::prelude::*;

verus! {

pub open spec fn min_nat(a: nat, b: nat) -> nat {
    if a <= b {
        a
    } else {
        b
    }
}

/// Edit distance between `s` and `t`: insertions, deletions and
/// substitutions cost 1, and an adjacent transposition may close the last
/// two characters at the substitution cost of the last pair.
pub open spec fn damerau_dist(s: Seq<char>, t: Seq<char>) -> nat
    decreases s.len() + t.len(),
{
    if s.len() == 0 {
        t.len()
    } else if t.len() == 0 {
        s.len()
    } else {
        let cost: nat = if s.last() == t.last() {
            0
        } else {
            1
        };
        let del = damerau_dist(s.drop_last(), t) + 1;
        let ins = damerau_dist(s, t.drop_last()) + 1;
        let sub = damerau_dist(s.drop_last(), t.drop_last()) + cost;
        let base = min_nat(min_nat(del, ins), sub);
        if s.len() >= 2 && t.len() >= 2 && s[s.len() - 1] == t[t.len() - 2] && s[s.len() - 2]
            == t[t.len() - 1] {
            min_nat(base, (damerau_dist(s.take(s.len() - 2), t.take(t.len() - 2)) + cost) as nat)
        } else {
            base
        }
    }
}

/// The distance never exceeds the two lengths together.
pub proof fn lemma_damerau_dist_le_sum(s: Seq<char>, t: Seq<char>)
    ensures
        damerau_dist(s, t) <= s.len() + t.len(),
    decreases s.len() + t.len(),
{
    if s.len() == 0 || t.len() == 0 {
    } else {
        lemma_damerau_dist_le_sum(s.drop_last(), t.drop_last());
    }
}

/// The distance never exceeds the longer length: substitutions can always
/// close the overlap and insertions the rest.
pub proof fn lemma_damerau_dist_le_max(s: Seq<char>, t: Seq<char>)
    ensures
        damerau_dist(s, t) <= if s.len() >= t.len() {
            s.len()
        } else {
            t.len()
        },
    decreases s.len() + t.len(),
{
    if s.len() == 0 || t.len() == 0 {
    } else {
        lemma_damerau_dist_le_max(s.drop_last(), t.drop_last());
    }
}


/// The distance is zero exactly between equal strings.
pub proof fn lemma_damerau_dist_zero(s: Seq<char>, t: Seq<char>)
    ensures
        damerau_dist(s, t) == 0 <==> s == t,
    decreases s.len() + t.len(),
{
    if s.len() == 0 || t.len() == 0 {
        if damerau_dist(s, t) == 0 {
            assert(s =~= t);
        }
    } else {
        lemma_damerau_dist_zero(s.drop_last(), t.drop_last());
        let cost: nat = if s.last() == t.last() {
            0
        } else {
            1
        };
        if s == t {
            assert(s.drop_last() =~= t.drop_last());
            assert(s.last() == t.last());
            assert(damerau_dist(s.drop_last(), t.drop_last()) + cost == 0);
        }
        if damerau_dist(s, t) == 0 {
            let del = damerau_dist(s.drop_last(), t) + 1;
            let ins = damerau_dist(s, t.drop_last()) + 1;
            let sub = damerau_dist(s.drop_last(), t.drop_last()) + cost;
            if sub == 0 {
                assert(s.drop_last() == t.drop_last());
                assert(s.last() == t.last());
                assert(s =~= t) by {
                    assert forall|i: int| 0 <= i < s.len() implies s[i] == t[i] by {
                        if i < s.len() - 1 {
                            assert(s.drop_last()[i] == s[i]);
                            assert(t.drop_last()[i] == t[i]);
                        }
                    }
                }
            } else {
                // only the transposition term can be zero, and then the last
                // two characters of both strings are all equal
                assert(s.len() >= 2 && t.len() >= 2 && s[s.len() - 1] == t[t.len() - 2]
                    && s[s.len() - 2] == t[t.len() - 1] && cost == 0);
                lemma_damerau_dist_zero(s.take(s.len() - 2), t.take(t.len() - 2));
                assert(s.take(s.len() - 2) == t.take(t.len() - 2));
                assert(s[s.len() - 1] == t[t.len() - 1]);
                assert(s[s.len() - 2] == t[t.len() - 2]);
                assert(s =~= t) by {
                    assert forall|i: int| 0 <= i < s.len() implies s[i] == t[i] by {
                        if i < s.len() - 2 {
                            assert(s.take(s.len() - 2)[i] == s[i]);
                            assert(t.take(t.len() - 2)[i] == t[i]);
                        }
                    }
                }
            }
        }
    }
}

/// The distance is symmetric in its arguments.
pub proof fn lemma_damerau_dist_symmetric(s: Seq<char>, t: Seq<char>)
    ensures
        damerau_dist(s, t) == damerau_dist(t, s),
    decreases s.len() + t.len(),
{
    if s.len() > 0 && t.len() > 0 {
        lemma_damerau_dist_symmetric(s.drop_last(), t);
        lemma_damerau_dist_symmetric(s, t.drop_last());
        lemma_damerau_dist_symmetric(s.drop_last(), t.drop_last());
        if s.len() >= 2 && t.len() >= 2 {
            lemma_damerau_dist_symmetric(s.take(s.len() - 2), t.take(t.len() - 2));
        }
    }
}

/// The characters of `s`, as a vector.
pub fn chars_of(s: &str) -> (v: Vec<char>)
    ensures
        v@ == s@,
{
    let n = s.unicode_len();
    let mut v: Vec<char> = Vec::new();
    let mut i: usize = 0;
    while i < n
        invariant
            n == s@.len(),
            i <= n,
            v@ == s@.take(i as int),
        decreases n - i,
    {
        let c = s.get_char(i);
        v.push(c);
        proof {
            assert(v@ =~= s@.take(i + 1));
        }
        i = i + 1;
    }
    proof {
        assert(s@.take(n as int) =~= s@);
    }
    v
}

/// The full dynamic program: `matrix[i][j]` holds the distance between the
/// first `i` characters of `v1` and the first `j` of `v2`. Counters and
/// cells are wide enough that no input can overflow them.
#[verifier::rlimit(60)]
fn edit_distance_core(v1: &Vec<char>, v2: &Vec<char>) -> (r: usize)
    ensures
        r == damerau_dist(v1@, v2@),
{
    let m: u128 = v1.len() as u128;
    let n: u128 = v2.len() as u128;
    let mut matrix: Vec<Vec<u128>> = Vec::new();
    let mut i: u128 = 0;
    while i <= m
        invariant
            m == v1@.len(),
            n == v2@.len(),
            m <= usize::MAX,
            n <= usize::MAX,
            i <= m + 1,
            matrix@.len() == i,
            forall|r: int, c: int|
                0 <= r < i && 0 <= c <= n ==> #[trigger] matrix@[r]@[c] == damerau_dist(
                    v1@.take(r),
                    v2@.take(c),
                ),
            forall|r: int| 0 <= r < i ==> (#[trigger] matrix@[r]@).len() == n + 1,
        decreases m + 1 - i,
    {
        let mut row: Vec<u128> = Vec::new();
        let mut j: u128 = 0;
        while j <= n
            invariant
                m == v1@.len(),
                n == v2@.len(),
                m <= usize::MAX,
                n <= usize::MAX,
                i <= m,
                j <= n + 1,
                matrix@.len() == i,
                forall|r: int, c: int|
                    0 <= r < i && 0 <= c <= n ==> #[trigger] matrix@[r]@[c] == damerau_dist(
                        v1@.take(r),
                        v2@.take(c),
                    ),
                forall|r: int| 0 <= r < i ==> (#[trigger] matrix@[r]@).len() == n + 1,
                row@.len() == j,
                forall|c: int|
                    0 <= c < j ==> #[trigger] row@[c] == damerau_dist(
                        v1@.take(i as int),
                        v2@.take(c),
                    ),
            decreases n + 1 - j,
        {
            proof {
                lemma_damerau_dist_le_sum(v1@.take(i as int), v2@.take(j as int));
                assert(v1@.take(0).len() == 0);
                assert(v2@.take(0).len() == 0);
                if i >= 1 {
                    lemma_damerau_dist_le_sum(v1@.take(i - 1), v2@.take(j as int));
                    lemma_damerau_dist_le_sum(v1@.take(i - 1), v2@.take(j - 1));
                }
                if j >= 1 {
                    lemma_damerau_dist_le_sum(v1@.take(i as int), v2@.take(j - 1));
                }
                if i >= 2 && j >= 2 {
                    lemma_damerau_dist_le_sum(v1@.take(i - 2), v2@.take(j - 2));
                }
            }
            let value: u128;
            if i == 0 {
                value = j;
            } else if j == 0 {
                value = i;
            } else {
                proof {
                    assert(v1@.take(i as int).drop_last() =~= v1@.take(i - 1));
                    assert(v2@.take(j as int).drop_last() =~= v2@.take(j - 1));
                    assert(v1@.take(i as int).last() == v1@[i - 1]);
                    assert(v2@.take(j as int).last() == v2@[j - 1]);
                }
                let iu: usize = (i - 1) as usize;
                let ju: usize = (j - 1) as usize;
                let cost: u128 = if v1[iu] == v2[ju] {
                    0
                } else {
                    1
                };
                let del = matrix[iu][ju + 1] + 1;
                let ins = row[ju] + 1;
                let sub = matrix[iu][ju] + cost;
                let mut best = if del <= ins {
                    del
                } else {
                    ins
                };
                if sub < best {
                    best = sub;
                }
                if i >= 2 && j >= 2 && v1[iu] == v2[ju - 1] && v1[iu - 1] == v2[ju] {
                    proof {
                        assert(v1@.take(i as int).take(i - 2) =~= v1@.take(i - 2));
                        assert(v2@.take(j as int).take(j - 2) =~= v2@.take(j - 2));
                        assert(v1@.take(i as int)[i - 1] == v1@[i - 1]);
                        assert(v1@.take(i as int)[i - 2] == v1@[i - 2]);
                        assert(v2@.take(j as int)[j - 2] == v2@[j - 2]);
                        assert(v2@.take(j as int)[j - 1] == v2@[j - 1]);
                    }
                    let swap = matrix[iu - 1][ju - 1] + cost;
                    if swap < best {
                        best = swap;
                    }
                }
                value = best;
            }
            row.push(value);
            j = j + 1;
        }
        matrix.push(row);
        i = i + 1;
    }
    proof {
        assert(v1@.take(m as int) =~= v1@);
        assert(v2@.take(n as int) =~= v2@);
        lemma_damerau_dist_le_max(v1@, v2@);
    }
    matrix[m as usize][n as usize] as usize
}

/// The edit distance between two strings, with adjacent transpositions, by
/// the full dynamic program over their characters.
pub fn levenshtein_distance(s1: &str, s2: &str) -> (r: usize)
    ensures
        r == damerau_dist(s1@, s2@),
{
    let v1 = chars_of(s1);
    let v2 = chars_of(s2);
    edit_distance_core(&v1, &v2)
}

} // verus!
