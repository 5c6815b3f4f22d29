//! Text normalization: Unicode lowercasing, word tokenization, whitespace
//! splitting, stopword filtering, substring search and punctuation trimming.
//!
//! Tokens are maximal runs of word (alphanumeric) characters in the
//! lowercased input. A term is *admissible* when it is at least two
//! characters long and is not one of the fixed stopwords.

use vstd::prelude::*;
use vstd::string::StringExecFns;

verus! {

/// What `char::is_alphanumeric` returns: the Unicode `Alphabetic` property
/// or a numeric general category. A function of the character alone.
pub uninterp spec fn is_word_char(c: char) -> bool;

/// Relies on `char::is_alphanumeric`: the word-character classifier.
#[verifier::external_body]
pub(crate) fn char_is_word(c: char) -> (r: bool)
    ensures
        r == is_word_char(c),
{
    c.is_alphanumeric()
}

/// What `char::is_whitespace` returns: the Unicode `White_Space` property.
/// A function of the character alone.
pub uninterp spec fn is_space_char(c: char) -> bool;

/// Relies on `char::is_whitespace`: the whitespace classifier.
#[verifier::external_body]
pub(crate) fn char_is_space(c: char) -> (r: bool)
    ensures
        r == is_space_char(c),
{
    c.is_whitespace()
}

/// What `str::to_lowercase` returns: the Unicode lowercase mapping of the
/// string. A function of the characters alone.
pub uninterp spec fn lower_of(s: Seq<char>) -> Seq<char>;

/// Relies on `str::to_lowercase`: Unicode-aware case folding.
#[verifier::external_body]
pub(crate) fn lowercase(s: &str) -> (r: String)
    ensures
        r@ == lower_of(s@),
        s@.len() == 0 ==> r@.len() == 0,
{
    s.to_lowercase()
}

/// The views of a sequence of strings.
pub open spec fn views_of(v: Seq<String>) -> Seq<Seq<char>> {
    v.map_values(|x: String| x@)
}

/// One left-to-right step of run scanning: a kept character extends the
/// current run, any other character closes it.
pub open spec fn scan_step(
    acc: (Seq<Seq<char>>, Seq<char>),
    c: char,
    keep: spec_fn(char) -> bool,
) -> (Seq<Seq<char>>, Seq<char>) {
    if keep(c) {
        (acc.0, acc.1.push(c))
    } else if acc.1.len() > 0 {
        (acc.0.push(acc.1), Seq::empty())
    } else {
        acc
    }
}

/// Scan `s` from the left, accumulating the finished runs of characters
/// satisfying `keep` and the still-open run.
pub open spec fn scan_runs(s: Seq<char>, keep: spec_fn(char) -> bool) -> (Seq<
    Seq<char>,
>, Seq<char>)
    decreases s.len(),
{
    if s.len() == 0 {
        (Seq::empty(), Seq::empty())
    } else {
        scan_step(scan_runs(s.drop_last(), keep), s.last(), keep)
    }
}

/// The maximal runs of characters of `s` satisfying `keep`, in order.
pub open spec fn runs_where(s: Seq<char>, keep: spec_fn(char) -> bool) -> Seq<Seq<char>> {
    let acc = scan_runs(s, keep);
    if acc.1.len() > 0 {
        acc.0.push(acc.1)
    } else {
        acc.0
    }
}

/// The word tokens of an (already lowercased) character sequence: maximal
/// runs of word characters.
pub open spec fn word_runs(s: Seq<char>) -> Seq<Seq<char>> {
    runs_where(s, |c: char| is_word_char(c))
}

/// The whitespace-separated words of a character sequence.
pub open spec fn words_of(s: Seq<char>) -> Seq<Seq<char>> {
    runs_where(s, |c: char| !is_space_char(c))
}

/// Splits `text` into maximal runs of word characters, in order.
pub fn split_word_runs(text: &str) -> (tokens: Vec<String>)
    ensures
        views_of(tokens@) == word_runs(text@),
{
    let ghost keep = |c: char| is_word_char(c);
    let n: usize = text.unicode_len();
    let mut tokens: Vec<String> = Vec::new();
    let mut start: usize = 0;
    let mut in_run: bool = false;
    let mut i: usize = 0;
    while i < n
        invariant
            n == text@.len(),
            i <= n,
            keep == (|c: char| is_word_char(c)),
            views_of(tokens@) == scan_runs(text@.take(i as int), keep).0,
            in_run ==> start < i && scan_runs(text@.take(i as int), keep).1 == text@.subrange(
                start as int,
                i as int,
            ),
            !in_run ==> scan_runs(text@.take(i as int), keep).1 == Seq::<char>::empty(),
        decreases n - i,
    {
        let c = text.get_char(i);
        let w = char_is_word(c);
        proof {
            assert(text@.take(i + 1).drop_last() =~= text@.take(i as int));
            assert(text@.take(i + 1).last() == text@[i as int]);
        }
        if w {
            if !in_run {
                start = i;
                in_run = true;
            }
            proof {
                assert(scan_runs(text@.take(i as int), keep).1.push(c) =~= text@.subrange(
                    start as int,
                    i + 1,
                ));
            }
        } else {
            if in_run {
                let tok = String::from_str(text.substring_char(start, i));
                let ghost old_views = views_of(tokens@);
                tokens.push(tok);
                proof {
                    assert(views_of(tokens@) =~= old_views.push(tok@));
                }
                in_run = false;
            }
        }
        i = i + 1;
    }
    proof {
        assert(text@.take(n as int) =~= text@);
    }
    if in_run {
        let tok = String::from_str(text.substring_char(start, n));
        let ghost old_views = views_of(tokens@);
        tokens.push(tok);
        proof {
            assert(views_of(tokens@) =~= old_views.push(tok@));
        }
    }
    tokens
}

/// Splits `text` at whitespace into its words, in order.
pub fn split_whitespace_words(text: &str) -> (words: Vec<String>)
    ensures
        views_of(words@) == words_of(text@),
{
    let ghost keep = |c: char| !is_space_char(c);
    let n: usize = text.unicode_len();
    let mut words: Vec<String> = Vec::new();
    let mut start: usize = 0;
    let mut in_run: bool = false;
    let mut i: usize = 0;
    while i < n
        invariant
            n == text@.len(),
            i <= n,
            keep == (|c: char| !is_space_char(c)),
            views_of(words@) == scan_runs(text@.take(i as int), keep).0,
            in_run ==> start < i && scan_runs(text@.take(i as int), keep).1 == text@.subrange(
                start as int,
                i as int,
            ),
            !in_run ==> scan_runs(text@.take(i as int), keep).1 == Seq::<char>::empty(),
        decreases n - i,
    {
        let c = text.get_char(i);
        let w = !char_is_space(c);
        proof {
            assert(text@.take(i + 1).drop_last() =~= text@.take(i as int));
            assert(text@.take(i + 1).last() == text@[i as int]);
        }
        if w {
            if !in_run {
                start = i;
                in_run = true;
            }
            proof {
                assert(scan_runs(text@.take(i as int), keep).1.push(c) =~= text@.subrange(
                    start as int,
                    i + 1,
                ));
            }
        } else {
            if in_run {
                let tok = String::from_str(text.substring_char(start, i));
                let ghost old_views = views_of(words@);
                words.push(tok);
                proof {
                    assert(views_of(words@) =~= old_views.push(tok@));
                }
                in_run = false;
            }
        }
        i = i + 1;
    }
    proof {
        assert(text@.take(n as int) =~= text@);
    }
    if in_run {
        let tok = String::from_str(text.substring_char(start, n));
        let ghost old_views = views_of(words@);
        words.push(tok);
        proof {
            assert(views_of(words@) =~= old_views.push(tok@));
        }
    }
    words
}

/// The fixed, corpus-independent stopword list: common English function
/// words. Tokens on this list are never indexed.
pub open spec fn stopword_seqs() -> Seq<Seq<char>> {
    seq![
        "a"@, "an"@, "the"@, "and"@, "or"@, "but"@, "if"@, "because"@, "as"@, "what"@,
        "when"@, "where"@, "how"@, "who"@, "which"@, "this"@, "that"@, "these"@, "those"@,
        "is"@, "are"@, "was"@, "were"@, "be"@, "been"@, "being"@, "have"@, "has"@, "had"@,
        "do"@, "does"@, "did"@, "can"@, "could"@, "will"@, "would"@, "shall"@, "should"@,
        "may"@, "might"@, "must"@, "for"@, "of"@, "to"@, "in"@, "on"@, "by"@, "with"@,
        "about"@,
    ]
}

/// `t` is one of the fixed stopwords.
pub open spec fn is_stopword_seq(t: Seq<char>) -> bool {
    stopword_seqs().contains(t)
}

/// A term is admissible when it is not a stopword and is at least two
/// characters long; only admissible terms are ever indexed or scored.
pub open spec fn is_admissible(t: Seq<char>) -> bool {
    t.len() >= 2 && !is_stopword_seq(t)
}

/// The fixed stopword list as strings.
fn stopword_list() -> (v: Vec<String>)
    ensures
        views_of(v@) == stopword_seqs(),
{
    let v: Vec<String> = vec![
        String::from_str("a"), String::from_str("an"), String::from_str("the"),
        String::from_str("and"), String::from_str("or"), String::from_str("but"),
        String::from_str("if"), String::from_str("because"), String::from_str("as"),
        String::from_str("what"), String::from_str("when"), String::from_str("where"),
        String::from_str("how"), String::from_str("who"), String::from_str("which"),
        String::from_str("this"), String::from_str("that"), String::from_str("these"),
        String::from_str("those"), String::from_str("is"), String::from_str("are"),
        String::from_str("was"), String::from_str("were"), String::from_str("be"),
        String::from_str("been"), String::from_str("being"), String::from_str("have"),
        String::from_str("has"), String::from_str("had"), String::from_str("do"),
        String::from_str("does"), String::from_str("did"), String::from_str("can"),
        String::from_str("could"), String::from_str("will"), String::from_str("would"),
        String::from_str("shall"), String::from_str("should"), String::from_str("may"),
        String::from_str("might"), String::from_str("must"), String::from_str("for"),
        String::from_str("of"), String::from_str("to"), String::from_str("in"),
        String::from_str("on"), String::from_str("by"), String::from_str("with"),
        String::from_str("about"),
    ];
    proof {
        assert(views_of(v@) =~= stopword_seqs());
    }
    v
}

/// Whether `w` is one of the fixed stopwords.
pub fn is_stopword(w: &String) -> (r: bool)
    ensures
        r == is_stopword_seq(w@),
{
    let list = stopword_list();
    let n = list.len();
    let mut i: usize = 0;
    while i < n
        invariant
            n == list@.len(),
            i <= n,
            views_of(list@) == stopword_seqs(),
            forall|j: int| 0 <= j < i ==> list@[j]@ != w@,
        decreases n - i,
    {
        if list[i].eq(w) {
            proof {
                assert(stopword_seqs()[i as int] == w@);
            }
            return true;
        }
        i = i + 1;
    }
    proof {
        assert forall|j: int| 0 <= j < stopword_seqs().len() implies stopword_seqs()[j]
            != w@ by {
            assert(stopword_seqs()[j] == list@[j]@);
        }
    }
    false
}

/// Whether `w` is an admissible term: at least two characters and not a
/// stopword.
pub fn check_admissible(w: &String) -> (r: bool)
    ensures
        r == is_admissible(w@),
{
    if w.as_str().unicode_len() < 2 {
        return false;
    }
    !is_stopword(w)
}

/// Keeps only the admissible terms of `tokens`, in order.
pub fn filter_admissible(tokens: Vec<String>) -> (kept: Vec<String>)
    ensures
        views_of(kept@) == views_of(tokens@).filter(|t: Seq<char>| is_admissible(t)),
{
    let mut kept: Vec<String> = Vec::new();
    let n = tokens.len();
    let mut i: usize = 0;
    proof {
        assert(views_of(tokens@).take(0) =~= Seq::<Seq<char>>::empty());
        reveal(Seq::filter);
    }
    while i < n
        invariant
            n == tokens@.len(),
            i <= n,
            views_of(kept@) == views_of(tokens@).take(i as int).filter(
                |t: Seq<char>| is_admissible(t),
            ),
        decreases n - i,
    {
        let ghost pred = |t: Seq<char>| is_admissible(t);
        proof {
            assert(views_of(tokens@).take(i + 1).drop_last() =~= views_of(tokens@).take(
                i as int,
            ));
            assert(views_of(tokens@).take(i + 1).last() == tokens@[i as int]@);
            reveal(Seq::filter);
        }
        if check_admissible(&tokens[i]) {
            let ghost old_views = views_of(kept@);
            let w = tokens[i].clone();
            kept.push(w);
            proof {
                assert(views_of(kept@) =~= old_views.push(w@));
            }
        }
        i = i + 1;
    }
    proof {
        assert(views_of(tokens@).take(n as int) =~= views_of(tokens@));
    }
    kept
}

/// `needle` occurs in `hay` starting at position `i`.
pub open spec fn match_at(hay: Seq<char>, needle: Seq<char>, i: int) -> bool {
    0 <= i && i + needle.len() <= hay.len() && hay.subrange(i, i + needle.len()) == needle
}

/// `needle` occurs somewhere in `hay`. The empty needle occurs everywhere.
pub open spec fn contains_seq(hay: Seq<char>, needle: Seq<char>) -> bool {
    exists|i: int| match_at(hay, needle, i)
}

/// Position of the first occurrence of `needle` in `hay`, if any.
pub fn find_chars(hay: &str, needle: &str) -> (r: Option<usize>)
    ensures
        match r {
            Some(i) => match_at(hay@, needle@, i as int) && forall|j: int|
                0 <= j < i ==> !match_at(hay@, needle@, j),
            None => !contains_seq(hay@, needle@),
        },
{
    let n: usize = hay.unicode_len();
    let m: usize = needle.unicode_len();
    if m > n {
        proof {
            assert forall|i: int| !match_at(hay@, needle@, i) by {}
        }
        return None;
    }
    let mut i: usize = 0;
    while i <= n - m
        invariant
            n == hay@.len(),
            m == needle@.len(),
            m <= n,
            i <= n - m + 1,
            forall|j: int| 0 <= j < i ==> !match_at(hay@, needle@, j),
        decreases n - m + 1 - i,
    {
        let mut k: usize = 0;
        let mut all_eq: bool = true;
        while k < m
            invariant
                n == hay@.len(),
                m == needle@.len(),
                i + m <= n,
                k <= m,
                all_eq <==> (forall|t: int| 0 <= t < k ==> hay@[i + t] == needle@[t]),
            decreases m - k,
        {
            let hc = hay.get_char(i + k);
            let nc = needle.get_char(k);
            if hc != nc {
                all_eq = false;
                k = m;
            } else {
                k = k + 1;
            }
        }
        if all_eq {
            proof {
                assert(hay@.subrange(i as int, i + m) =~= needle@);
            }
            return Some(i);
        }
        proof {
            if match_at(hay@, needle@, i as int) {
                assert forall|t: int| 0 <= t < m implies hay@[i + t] == needle@[t] by {
                    assert(needle@[t] == hay@.subrange(i as int, i + m)[t]);
                }
                assert(false);
            }
        }
        i = i + 1;
    }
    proof {
        assert forall|j: int| !match_at(hay@, needle@, j) by {
            if 0 <= j <= n - m {
                assert(!match_at(hay@, needle@, j));
            }
        }
    }
    None
}

/// Whether `needle` occurs anywhere in `hay`.
pub fn contains_chars(hay: &str, needle: &str) -> (r: bool)
    ensures
        r == contains_seq(hay@, needle@),
{
    match find_chars(hay, needle) {
        Some(_) => true,
        None => false,
    }
}

/// Count of leading characters of `s` that are not word characters.
pub open spec fn leading_non_word(s: Seq<char>) -> nat
    decreases s.len(),
{
    if s.len() == 0 {
        0
    } else if is_word_char(s[0]) {
        0
    } else {
        1 + leading_non_word(s.drop_first())
    }
}

/// Count of trailing characters of `s` that are not word characters.
pub open spec fn trailing_non_word(s: Seq<char>) -> nat
    decreases s.len(),
{
    if s.len() == 0 {
        0
    } else if is_word_char(s.last()) {
        0
    } else {
        1 + trailing_non_word(s.drop_last())
    }
}

/// `s` with leading and trailing non-word characters removed; empty when
/// `s` has no word character at all.
pub open spec fn trim_non_word_seq(s: Seq<char>) -> Seq<char> {
    if leading_non_word(s) == s.len() {
        Seq::empty()
    } else {
        s.subrange(leading_non_word(s) as int, s.len() - trailing_non_word(s))
    }
}

proof fn lemma_leading_non_word(s: Seq<char>)
    ensures
        leading_non_word(s) <= s.len(),
        forall|j: int| 0 <= j < leading_non_word(s) ==> !is_word_char(s[j]),
        leading_non_word(s) < s.len() ==> is_word_char(s[leading_non_word(s) as int]),
    decreases s.len(),
{
    if s.len() > 0 && !is_word_char(s[0]) {
        lemma_leading_non_word(s.drop_first());
        assert forall|j: int| 0 <= j < leading_non_word(s) implies !is_word_char(s[j]) by {
            if j > 0 {
                assert(s[j] == s.drop_first()[j - 1]);
            }
        }
        if leading_non_word(s) < s.len() {
            assert(s[leading_non_word(s) as int] == s.drop_first()[leading_non_word(
                s.drop_first(),
            ) as int]);
        }
    }
}

proof fn lemma_trailing_non_word(s: Seq<char>)
    ensures
        trailing_non_word(s) <= s.len(),
        forall|j: int| s.len() - trailing_non_word(s) <= j < s.len() ==> !is_word_char(s[j]),
        trailing_non_word(s) < s.len() ==> is_word_char(
            s[s.len() - trailing_non_word(s) - 1],
        ),
    decreases s.len(),
{
    if s.len() > 0 && !is_word_char(s.last()) {
        lemma_trailing_non_word(s.drop_last());
        assert forall|j: int|
            s.len() - trailing_non_word(s) <= j < s.len() implies !is_word_char(s[j]) by {
            if j < s.len() - 1 {
                assert(s[j] == s.drop_last()[j]);
            }
        }
    }
}

/// Strips leading and trailing non-word characters from `w`, as the
/// highlighter does before testing a word against the query terms.
pub fn trim_non_word(w: &str) -> (r: String)
    ensures
        r@ == trim_non_word_seq(w@),
{
    let n: usize = w.unicode_len();
    let mut a: usize = 0;
    while a < n && !char_is_word(w.get_char(a))
        invariant
            n == w@.len(),
            a <= n,
            forall|j: int| 0 <= j < a ==> !is_word_char(w@[j]),
            leading_non_word(w@) >= a,
        decreases n - a,
    {
        proof {
            lemma_leading_skip(w@, a as int);
        }
        a = a + 1;
    }
    proof {
        lemma_leading_non_word(w@);
        if a < n {
            assert(leading_non_word(w@) == a);
        } else {
            assert(leading_non_word(w@) == n);
        }
    }
    if a == n {
        return String::new();
    }
    let mut b: usize = n;
    while b > a && !char_is_word(w.get_char(b - 1))
        invariant
            n == w@.len(),
            a < n,
            is_word_char(w@[a as int]),
            a <= b <= n,
            forall|j: int| b <= j < n ==> !is_word_char(w@[j]),
            trailing_non_word(w@) >= n - b,
        decreases b,
    {
        proof {
            lemma_trailing_skip(w@, b - 1);
        }
        b = b - 1;
    }
    proof {
        lemma_trailing_non_word(w@);
        assert(b > a);
        if b < n || trailing_non_word(w@) > 0 {
            assert(is_word_char(w@[b - 1]));
            assert(trailing_non_word(w@) == n - b);
        } else {
            assert(trailing_non_word(w@) == 0 && b == n);
        }
    }
    String::from_str(w.substring_char(a, b))
}

/// If the first `a` characters are non-word and `s[a]` is also non-word,
/// the leading run extends past `a`.
proof fn lemma_leading_skip(s: Seq<char>, a: int)
    requires
        0 <= a < s.len(),
        forall|j: int| 0 <= j < a ==> !is_word_char(s[j]),
        !is_word_char(s[a]),
    ensures
        leading_non_word(s) >= a + 1,
    decreases a,
{
    if a > 0 {
        assert(!is_word_char(s[0]));
        lemma_leading_skip(s.drop_first(), a - 1);
    }
}

/// If the last `n - b` characters are non-word and `s[b - 1]` is also
/// non-word, the trailing run extends past it.
proof fn lemma_trailing_skip(s: Seq<char>, b1: int)
    requires
        0 <= b1 < s.len(),
        forall|j: int| b1 < j < s.len() ==> !is_word_char(s[j]),
        !is_word_char(s[b1]),
    ensures
        trailing_non_word(s) >= s.len() - b1,
    decreases s.len(),
{
    assert(!is_word_char(s.last()));
    if b1 < s.len() - 1 {
        lemma_trailing_skip(s.drop_last(), b1);
    }
}

/// The words joined with single spaces: the snippet text for a window.
pub open spec fn join_spaces_seq(ws: Seq<Seq<char>>) -> Seq<char>
    decreases ws.len(),
{
    if ws.len() == 0 {
        Seq::empty()
    } else if ws.len() == 1 {
        ws[0]
    } else {
        join_spaces_seq(ws.drop_last()) + seq![' '] + ws.last()
    }
}

/// Joins `words[from..to]` with single spaces.
pub fn join_spaces(words: &Vec<String>, from: usize, to: usize) -> (r: String)
    requires
        from <= to <= words@.len(),
    ensures
        r@ == join_spaces_seq(views_of(words@).subrange(from as int, to as int)),
{
    let mut r = String::new();
    let mut i: usize = from;
    proof {
        assert(views_of(words@).subrange(from as int, from as int) =~= Seq::<Seq<char>>::empty());
    }
    while i < to
        invariant
            from <= i <= to <= words@.len(),
            r@ == join_spaces_seq(views_of(words@).subrange(from as int, i as int)),
        decreases to - i,
    {
        proof {
            assert(views_of(words@).subrange(from as int, i + 1).drop_last() =~= views_of(
                words@,
            ).subrange(from as int, i as int));
            assert(views_of(words@).subrange(from as int, i + 1).last() == words@[i as int]@);
        }
        if i > from {
            r.append(" ");
            proof {
                reveal_strlit(" ");
                assert(" "@ =~= seq![' ']);
            }
        }
        r.append(words[i].as_str());
        i = i + 1;
    }
    r
}


/// Position of the first occurrence of `needle` at or after `i`.
pub open spec fn first_match_from(hay: Seq<char>, needle: Seq<char>, i: int) -> Option<int>
    decreases hay.len() - i + 1,
{
    if i < 0 || i + needle.len() > hay.len() {
        None
    } else if match_at(hay, needle, i) {
        Some(i)
    } else {
        first_match_from(hay, needle, i + 1)
    }
}

/// Position of the first occurrence of `needle` in `hay`, if any.
pub open spec fn spec_find(hay: Seq<char>, needle: Seq<char>) -> Option<int> {
    first_match_from(hay, needle, 0)
}

proof fn lemma_first_match_some(hay: Seq<char>, needle: Seq<char>, i: int, j: int)
    requires
        0 <= j <= i,
        match_at(hay, needle, i),
        forall|t: int| 0 <= t < i ==> !match_at(hay, needle, t),
    ensures
        first_match_from(hay, needle, j) == Some(i),
    decreases i - j,
{
    if j < i {
        lemma_first_match_some(hay, needle, i, j + 1);
    }
}

proof fn lemma_first_match_none(hay: Seq<char>, needle: Seq<char>, j: int)
    requires
        j >= 0,
        forall|t: int| 0 <= t ==> !match_at(hay, needle, t),
    ensures
        first_match_from(hay, needle, j) is None,
    decreases hay.len() - j + 1,
{
    if !(j + needle.len() > hay.len()) {
        lemma_first_match_none(hay, needle, j + 1);
    }
}

/// Position of the first occurrence of `needle` in `hay`, as `spec_find`
/// gives it.
pub fn find_first(hay: &str, needle: &str) -> (r: Option<usize>)
    ensures
        match r {
            Some(i) => spec_find(hay@, needle@) == Some(i as int),
            None => spec_find(hay@, needle@) is None,
        },
{
    let r = find_chars(hay, needle);
    proof {
        match r {
            Some(i) => {
                lemma_first_match_some(hay@, needle@, i as int, 0);
            },
            None => {
                assert forall|t: int| 0 <= t implies !match_at(hay@, needle@, t) by {}
                lemma_first_match_none(hay@, needle@, 0);
            },
        }
    }
    r
}


} // verus!
