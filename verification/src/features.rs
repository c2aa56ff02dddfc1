//! Lexical text features shared by rerankers: tokenization and the
//! set-overlap counts behind query coverage, Jaccard overlap and term
//! frequency.

use vstd::prelude::*;
use vstd::string::*;

use crate::text::chars_of;

verus! {

/// Whether `c` is alphabetic or numeric in Unicode terms, as
/// `char::is_alphanumeric` decides it.
pub uninterp spec fn char_is_alphanumeric(c: char) -> bool;

/// The lowercase mapping of a string, as `str::to_lowercase` computes it.
pub uninterp spec fn lowercase(s: Seq<char>) -> Seq<char>;

/// An ASCII character.
pub open spec fn is_ascii_char(c: char) -> bool {
    (c as u32) < 0x80
}

/// Text made of ASCII characters only.
pub open spec fn is_ascii_text(s: Seq<char>) -> bool {
    forall|i: int| 0 <= i < s.len() ==> is_ascii_char(#[trigger] s[i])
}

/// An ASCII digit or letter (`0-9`, `A-Z`, `a-z`).
pub open spec fn is_ascii_alnum(c: char) -> bool {
    let u = c as u32;
    ||| 0x30 <= u <= 0x39
    ||| 0x41 <= u <= 0x5a
    ||| 0x61 <= u <= 0x7a
}

/// An ASCII digit or lowercase letter (`0-9`, `a-z`).
pub open spec fn is_ascii_lower_alnum(c: char) -> bool {
    let u = c as u32;
    ||| 0x30 <= u <= 0x39
    ||| 0x61 <= u <= 0x7a
}

/// The ASCII lowercase of `c`: `A-Z` become `a-z`, everything else stays.
pub open spec fn ascii_lower(c: char) -> char {
    let u = c as u32;
    if 0x41 <= u <= 0x5a { (u + 0x20) as char } else { c }
}

/// The ASCII lowercase of every character of `s`.
pub open spec fn ascii_lowercase(s: Seq<char>) -> Seq<char> {
    s.map_values(|c: char| ascii_lower(c))
}

/// Calls `char::is_alphanumeric`; the contract names its result, and for
/// an ASCII character it is true exactly for `0-9`, `A-Z` and `a-z` (the
/// method tests `is_alphabetic() || is_numeric()`, which below `0x80` are
/// the ASCII letters and digits).
#[verifier::external_body]
fn is_alphanumeric(c: char) -> (b: bool)
    ensures
        b == char_is_alphanumeric(c),
        is_ascii_char(c) ==> (b <==> is_ascii_alnum(c)),
{
    c.is_alphanumeric()
}

/// Calls `str::to_lowercase`; the contract names its result, and for ASCII
/// text it is the ASCII lowercase of the text (`A-Z` become `a-z`).
#[verifier::external_body]
fn to_lowercase(s: &str) -> (r: String)
    ensures
        r@ == lowercase(s@),
        is_ascii_text(s@) ==> r@ == ascii_lowercase(s@),
{
    s.to_lowercase()
}

/// For each character of `s`, whether it is alphanumeric.
pub open spec fn alnum_flags(s: Seq<char>) -> Seq<bool> {
    Seq::new(s.len(), |i: int| char_is_alphanumeric(s[i]))
}

/// Every span of `spans` is a maximal run of `true` in `flags`: a non-empty
/// half-open range `[start, end)` of `true` entries with `false` (or the
/// edge) on both sides.
#[verifier::opaque]
pub open spec fn runs_are_maximal(flags: Seq<bool>, spans: Seq<(usize, usize)>) -> bool {
    forall|t: int| 0 <= t < spans.len() ==> {
        let (s, e) = #[trigger] spans[t];
        &&& s < e <= flags.len()
        &&& forall|i: int| s <= i < e ==> flags[i]
        &&& s == 0 || !flags[s - 1]
        &&& e == flags.len() || !flags[e as int]
    }
}

/// The spans come left to right, each ending before the next starts.
#[verifier::opaque]
pub open spec fn runs_in_order(spans: Seq<(usize, usize)>) -> bool {
    forall|t: int| 0 <= t < spans.len() - 1 ==> (#[trigger] spans[t]).1 < spans[t + 1].0
}

/// Every `true` entry of `flags` lies in some span.
#[verifier::opaque]
pub open spec fn runs_cover(flags: Seq<bool>, spans: Seq<(usize, usize)>) -> bool {
    forall|i: int| 0 <= i < flags.len() && #[trigger] flags[i] ==> exists|t: int| 0 <= t < spans.len() && (#[trigger] spans[t]).0 <= i < spans[t].1
}

/// `spans` lists, left to right, every maximal run of `true` in `flags` as
/// a half-open range `[start, end)`.
pub open spec fn maximal_runs(flags: Seq<bool>, spans: Seq<(usize, usize)>) -> bool {
    &&& runs_are_maximal(flags, spans)
    &&& runs_in_order(spans)
    &&& runs_cover(flags, spans)
}

/// What `maximal_runs` says of one span.
pub proof fn lemma_run_span(flags: Seq<bool>, spans: Seq<(usize, usize)>, t: int)
    requires
        maximal_runs(flags, spans),
        0 <= t < spans.len(),
    ensures
        spans[t].0 < spans[t].1 <= flags.len(),
        forall|i: int| spans[t].0 <= i < spans[t].1 ==> flags[i],
        spans[t].0 == 0 || !flags[spans[t].0 - 1],
        spans[t].1 == flags.len() || !flags[spans[t].1 as int],
{
    reveal(runs_are_maximal);
    let (s, e) = spans[t];
}

/// What `maximal_runs` says of two neighbouring spans.
pub proof fn lemma_run_order(flags: Seq<bool>, spans: Seq<(usize, usize)>, t: int)
    requires
        maximal_runs(flags, spans),
        0 <= t < spans.len() - 1,
    ensures
        spans[t].1 < spans[t + 1].0,
{
    reveal(runs_in_order);
}

/// What `maximal_runs` says of a `true` entry.
pub proof fn lemma_run_cover(flags: Seq<bool>, spans: Seq<(usize, usize)>, i: int)
    requires
        maximal_runs(flags, spans),
        0 <= i < flags.len(),
        flags[i],
    ensures
        exists|t: int| 0 <= t < spans.len() && (#[trigger] spans[t]).0 <= i < spans[t].1,
{
    reveal(runs_cover);
}

/// The maximal runs of `true` in `flags`, left to right, as half-open
/// ranges.
pub fn token_spans(flags: &[bool]) -> (spans: Vec<(usize, usize)>)
    ensures
        maximal_runs(flags@, spans@),
{
    reveal(runs_are_maximal);
    reveal(runs_in_order);
    reveal(runs_cover);
    let n = flags.len();
    let mut spans: Vec<(usize, usize)> = Vec::new();
    let mut i: usize = 0;
    while i < n
        invariant
            n == flags@.len(),
            i <= n,
            i > 0 && flags@[i - 1] ==> (i == n || !flags@[i as int]),
            forall|t: int| 0 <= t < spans@.len() ==> {
                let (s, e) = #[trigger] spans@[t];
                &&& s < e <= i
                &&& forall|j: int| s <= j < e ==> flags@[j]
                &&& s == 0 || !flags@[s - 1]
                &&& e == n || !flags@[e as int]
            },
            forall|t: int| 0 <= t < spans@.len() - 1 ==> (#[trigger] spans@[t]).1 < spans@[t + 1].0,
            spans@.len() > 0 ==> spans@.last().1 <= i,
            forall|j: int| 0 <= j < i && #[trigger] flags@[j] ==> exists|t: int| 0 <= t < spans@.len() && (#[trigger] spans@[t]).0 <= j < spans@[t].1,
        decreases n - i,
    {
        if flags[i] {
            let start = i;
            while i < n && flags[i]
                invariant
                    n == flags@.len(),
                    start < n,
                    start <= i <= n,
                    forall|j: int| start <= j < i ==> flags@[j],
                    flags@[start as int],
                decreases n - i,
            {
                i = i + 1;
            }
            let ghost prev = spans@;
            proof {
                assert(start == 0 || !flags@[start - 1]);
                if prev.len() > 0 {
                    assert(prev.last().1 < start) by {
                        let t = prev.len() - 1;
                        assert(prev[t].1 <= start);
                        if prev[t].1 == start {
                            assert(flags@[start - 1]);
                        }
                    }
                }
            }
            spans.push((start, i));
            proof {
                assert forall|j: int| 0 <= j < i && #[trigger] flags@[j] implies exists|t: int| 0 <= t < spans@.len() && (#[trigger] spans@[t]).0 <= j < spans@[t].1 by {
                    if j < start {
                        let t = choose|t: int| 0 <= t < prev.len() && (#[trigger] prev[t]).0 <= j < prev[t].1;
                        assert(spans@[t] == prev[t]);
                    } else {
                        assert(spans@[prev.len() as int] == (start, i));
                    }
                }
                assert forall|t: int| 0 <= t < spans@.len() - 1 implies (#[trigger] spans@[t]).1 < spans@[t + 1].0 by {
                    if t < prev.len() - 1 {
                        assert(spans@[t] == prev[t]);
                        assert(spans@[t + 1] == prev[t + 1]);
                    } else {
                        assert(spans@[t] == prev.last());
                    }
                }
            }
        } else {
            i = i + 1;
        }
    }
    spans
}

/// The string contents of a list of tokens.
pub open spec fn views(s: Seq<String>) -> Seq<Seq<char>> {
    s.map_values(|t: String| t@)
}

/// For each character of `s`, whether it is an ASCII letter or digit.
pub open spec fn ascii_alnum_flags(s: Seq<char>) -> Seq<bool> {
    Seq::new(s.len(), |i: int| is_ascii_alnum(s[i]))
}

/// `tokens` are the ASCII-lowercased texts of the ranges `spans` of `text`.
pub open spec fn ascii_tokens_from_spans(text: Seq<char>, spans: Seq<(usize, usize)>, tokens: Seq<Seq<char>>) -> bool {
    &&& tokens.len() == spans.len()
    &&& forall|t: int| 0 <= t < spans.len() ==> #[trigger] tokens[t] == ascii_lowercase(text.subrange(spans[t].0 as int, spans[t].1 as int))
}

/// `tokens` are the lowercased texts of the ranges `spans` of `text`.
pub open spec fn tokens_from_spans(text: Seq<char>, spans: Seq<(usize, usize)>, tokens: Seq<Seq<char>>) -> bool {
    &&& tokens.len() == spans.len()
    &&& forall|t: int| 0 <= t < spans.len() ==> #[trigger] tokens[t] == lowercase(text.subrange(spans[t].0 as int, spans[t].1 as int))
}

/// Splits text into lowercase alphanumeric tokens: every maximal run of
/// alphanumeric characters, lowercased, left to right. On ASCII text these
/// are the maximal runs of ASCII letters and digits, ASCII-lowercased.
pub fn tokenize(text: &str) -> (tokens: Vec<String>)
    ensures
        exists|spans: Seq<(usize, usize)>| #[trigger] maximal_runs(alnum_flags(text@), spans) && tokens_from_spans(text@, spans, views(tokens@)),
        is_ascii_text(text@) ==> exists|spans: Seq<(usize, usize)>| #[trigger] maximal_runs(ascii_alnum_flags(text@), spans)
            && ascii_tokens_from_spans(text@, spans, views(tokens@)),
{
    let cs = chars_of(text);
    let n = cs.len();
    let mut flags: Vec<bool> = Vec::new();
    for i in 0..n
        invariant
            n == cs@.len(),
            cs@ == text@,
            flags@.len() == i,
            forall|j: int| 0 <= j < i ==> #[trigger] flags@[j] == char_is_alphanumeric(text@[j]),
            forall|j: int| 0 <= j < i && is_ascii_char(text@[j]) ==> (#[trigger] flags@[j] <==> is_ascii_alnum(text@[j])),
    {
        flags.push(is_alphanumeric(cs[i]));
    }
    assert(flags@ =~= alnum_flags(text@));
    proof {
        if is_ascii_text(text@) {
            assert(alnum_flags(text@) =~= ascii_alnum_flags(text@));
        }
    }
    let spans = token_spans(flags.as_slice());
    let mut tokens: Vec<String> = Vec::new();
    let m = spans.len();
    for t in 0..m
        invariant
            m == spans@.len(),
            maximal_runs(alnum_flags(text@), spans@),
            tokens@.len() == t,
            forall|u: int| 0 <= u < t ==> #[trigger] tokens@[u]@ == lowercase(text@.subrange(spans@[u].0 as int, spans@[u].1 as int)),
            is_ascii_text(text@) ==> forall|u: int| 0 <= u < t ==> #[trigger] tokens@[u]@ == ascii_lowercase(
                text@.subrange(spans@[u].0 as int, spans@[u].1 as int),
            ),
    {
        let (s, e) = spans[t];
        assert(spans@[t as int] == (s, e));
        proof {
            lemma_run_span(alnum_flags(text@), spans@, t as int);
        }
        let piece = text.substring_char(s, e);
        proof {
            if is_ascii_text(text@) {
                assert forall|i: int| 0 <= i < piece@.len() implies is_ascii_char(#[trigger] piece@[i]) by {
                    assert(piece@[i] == text@[s + i]);
                }
            }
        }
        tokens.push(to_lowercase(piece));
    }
    assert(tokens_from_spans(text@, spans@, views(tokens@)));
    proof {
        if is_ascii_text(text@) {
            assert(maximal_runs(ascii_alnum_flags(text@), spans@));
            assert(ascii_tokens_from_spans(text@, spans@, views(tokens@)));
        }
    }
    tokens
}

/// The distinct token texts of `s`.
pub open spec fn token_set(s: Seq<String>) -> Set<Seq<char>> {
    views(s).to_set()
}

/// Whether some token of `v` has the same text as `t`.
fn contains_token(v: &[String], t: &String) -> (b: bool)
    ensures
        b == views(v@).contains(t@),
{
    let n = v.len();
    for i in 0..n
        invariant
            n == v@.len(),
            forall|j: int| 0 <= j < i ==> views(v@)[j] != t@,
    {
        if v[i] == *t {
            assert(views(v@)[i as int] == t@);
            return true;
        }
    }
    false
}

/// The distinct tokens of `s`, each once, in order of first occurrence.
fn distinct_tokens(s: &[String]) -> (d: Vec<String>)
    ensures
        views(d@).no_duplicates(),
        views(d@).to_set() == token_set(s@),
        d@.len() <= s@.len(),
{
    let mut d: Vec<String> = Vec::new();
    let n = s.len();
    for i in 0..n
        invariant
            n == s@.len(),
            views(d@).no_duplicates(),
            views(d@).to_set() == views(s@.take(i as int)).to_set(),
            d@.len() <= i,
    {
        let ghost before = views(d@);
        if !contains_token(d.as_slice(), &s[i]) {
            d.push(s[i].clone());
            proof {
                assert(views(d@) =~= before.push(s@[i as int]@));
            }
        }
        proof {
            assert(views(s@.take(i + 1)) =~= views(s@.take(i as int)).push(s@[i as int]@));
            assert(views(d@).to_set() =~= views(s@.take(i + 1)).to_set()) by {
                let x = s@[i as int]@;
                views(s@.take(i as int)).lemma_push_to_set_commute(x);
                if views(d@) != before {
                    before.lemma_push_to_set_commute(x);
                } else {
                    assert(before.contains(x));
                    assert(before.to_set().contains(x));
                }
            }
        }
    }
    assert(s@.take(n as int) =~= s@);
    d
}

/// The number of entries of the duplicate-free `d` that also occur in
/// `other`: the size of the intersection of their token sets.
fn count_in(d: &[String], other: &[String]) -> (n: usize)
    requires
        views(d@).no_duplicates(),
    ensures
        n == views(d@).to_set().intersect(token_set(other@)).len(),
{
    let ghost set = token_set(other@);
    let ghost mut seen: Set<Seq<char>> = Set::empty();
    let mut n: usize = 0;
    let len = d.len();
    assert(seen.intersect(set) =~= Set::<Seq<char>>::empty());
    for i in 0..len
        invariant
            len == d@.len(),
            set == token_set(other@),
            views(d@).no_duplicates(),
            seen == views(d@.take(i as int)).to_set(),
            n == seen.intersect(set).len(),
            n <= i,
    {
        let hit = contains_token(other, &d[i]);
        proof {
            let vx = views(d@)[i as int];
            assert(views(d@.take(i + 1)) =~= views(d@.take(i as int)).push(vx));
            views(d@.take(i as int)).lemma_push_to_set_commute(vx);
            assert(!seen.contains(vx)) by {
                if seen.contains(vx) {
                    let j = choose|j: int| 0 <= j < i && views(d@.take(i as int))[j] == vx;
                    assert(views(d@)[j] == vx);
                }
            }
            if hit {
                assert(seen.insert(vx).intersect(set) =~= seen.intersect(set).insert(vx));
            } else {
                assert(seen.insert(vx).intersect(set) =~= seen.intersect(set));
            }
            seen = seen.insert(vx);
        }
        if hit {
            n = n + 1;
        }
    }
    assert(d@.take(len as int) =~= d@);
    n
}

/// `|A ∩ B|` and `|A ∪ B|` for the token sets `A` and `B` of two token
/// lists: the numerator and denominator of their Jaccard overlap (which is
/// defined as zero when both are empty, the only case of a zero union).
pub fn jaccard_counts(query_tokens: &[String], doc_tokens: &[String]) -> (r: (usize, usize))
    requires
        query_tokens@.len() + doc_tokens@.len() <= usize::MAX,
    ensures
        r.0 == token_set(query_tokens@).intersect(token_set(doc_tokens@)).len(),
        r.1 == token_set(query_tokens@).union(token_set(doc_tokens@)).len(),
{
    let q = distinct_tokens(query_tokens);
    let d = distinct_tokens(doc_tokens);
    let inter = count_in(q.as_slice(), doc_tokens);
    proof {
        views(q@).unique_seq_to_set();
        views(d@).unique_seq_to_set();
        let a = token_set(query_tokens@);
        let b = token_set(doc_tokens@);
        vstd::set_lib::lemma_set_intersect_union_lens(a, b);
        assert(a + b == a.union(b));
        vstd::set_lib::lemma_len_subset(a.intersect(b), a);
    }
    let union = q.len() - inter + d.len();
    (inter, union)
}

/// The counts behind the lexical features of a `(query, document)` pair.
#[derive(Debug, Clone, Copy, PartialEq, Eq, Structural)]
pub struct FeatureCounts {
    /// Distinct query terms that appear in the document (`|Q ∩ D|`).
    pub covered: usize,
    /// Distinct query terms (`|Q|`).
    pub query_terms: usize,
    /// Distinct terms of query and document together (`|Q ∪ D|`).
    pub union_terms: usize,
    /// Document tokens that are query terms, counted with repetition.
    pub term_frequency: usize,
}

/// The document tokens that are query terms, with repetition.
pub open spec fn query_term_occurrences(query_tokens: Seq<String>, doc_tokens: Seq<String>) -> Seq<Seq<char>> {
    views(doc_tokens).filter(|t: Seq<char>| token_set(query_tokens).contains(t))
}

impl FeatureCounts {
    /// Extracts the counts for a `(query, document)` pair from their token
    /// lists. Query coverage is `covered / query_terms` (zero without query
    /// terms), Jaccard overlap is `covered / union_terms` (zero for an empty
    /// union), and term frequency is `term_frequency`.
    pub fn extract(query_tokens: &[String], doc_tokens: &[String]) -> (f: FeatureCounts)
        requires
            query_tokens@.len() + doc_tokens@.len() <= usize::MAX,
        ensures
            f.covered == token_set(query_tokens@).intersect(token_set(doc_tokens@)).len(),
            f.query_terms == token_set(query_tokens@).len(),
            f.union_terms == token_set(query_tokens@).union(token_set(doc_tokens@)).len(),
            f.term_frequency == query_term_occurrences(query_tokens@, doc_tokens@).len(),
    {
        let (covered, union_terms) = jaccard_counts(query_tokens, doc_tokens);
        let q = distinct_tokens(query_tokens);
        proof {
            views(q@).unique_seq_to_set();
        }
        let query_terms = q.len();
        let ghost pred = |t: Seq<char>| token_set(query_tokens@).contains(t);
        let mut tf: usize = 0;
        let n = doc_tokens.len();
        for i in 0..n
            invariant
                n == doc_tokens@.len(),
                pred == (|t: Seq<char>| token_set(query_tokens@).contains(t)),
                tf == views(doc_tokens@.take(i as int)).filter(pred).len(),
                tf <= i,
        {
            let hit = contains_token(query_tokens, &doc_tokens[i]);
            proof {
                let x = doc_tokens@[i as int]@;
                assert(views(doc_tokens@.take(i + 1)) =~= views(doc_tokens@.take(i as int)).push(x));
                views(doc_tokens@.take(i as int)).lemma_filter_push(x, pred);
                assert(hit == token_set(query_tokens@).contains(x));
            }
            if hit {
                tf = tf + 1;
            }
        }
        assert(doc_tokens@.take(n as int) =~= doc_tokens@);
        FeatureCounts { covered, query_terms, union_terms, term_frequency: tf }
    }
}

/// Jaccard overlap is a ratio in `[0, 1]` with a zero denominator only for
/// two empty token lists, query coverage is at most one, and a token list
/// overlaps itself completely.
pub proof fn lemma_overlap_bounds(query_tokens: Seq<String>, doc_tokens: Seq<String>)
    ensures
        token_set(query_tokens).intersect(token_set(doc_tokens)).len()
            <= token_set(query_tokens).union(token_set(doc_tokens)).len(),
        token_set(query_tokens).intersect(token_set(doc_tokens)).len() <= token_set(query_tokens).len(),
        token_set(query_tokens).union(token_set(doc_tokens)).len() == 0
            <==> (query_tokens.len() == 0 && doc_tokens.len() == 0),
        token_set(query_tokens).intersect(token_set(query_tokens)).len()
            == token_set(query_tokens).union(token_set(query_tokens)).len(),
{
    let a = token_set(query_tokens);
    let b = token_set(doc_tokens);
    vstd::seq_lib::seq_to_set_is_finite(views(query_tokens));
    vstd::seq_lib::seq_to_set_is_finite(views(doc_tokens));
    vstd::set_lib::lemma_len_subset(a.intersect(b), a);
    vstd::set_lib::lemma_len_subset(a, a.union(b));
    vstd::set_lib::lemma_len_subset(b, a.union(b));
    views(query_tokens).lemma_cardinality_of_empty_set_is_0();
    views(doc_tokens).lemma_cardinality_of_empty_set_is_0();
    assert(a.union(b).len() == 0 ==> a.len() == 0 && b.len() == 0);
    if query_tokens.len() == 0 && doc_tokens.len() == 0 {
        assert(a =~= Set::<Seq<char>>::empty());
        assert(b =~= Set::<Seq<char>>::empty());
        assert(a.union(b) =~= Set::<Seq<char>>::empty());
    }
    assert(a.intersect(a) =~= a);
    assert(a.union(a) =~= a);
}

/// On ASCII text every token is non-empty and made of ASCII digits and
/// lowercase letters only.
pub proof fn lemma_ascii_tokens_are_lower_alnum(text: Seq<char>, spans: Seq<(usize, usize)>, tokens: Seq<Seq<char>>)
    requires
        is_ascii_text(text),
        maximal_runs(ascii_alnum_flags(text), spans),
        ascii_tokens_from_spans(text, spans, tokens),
    ensures
        forall|t: int| 0 <= t < tokens.len() ==> (#[trigger] tokens[t]).len() > 0,
        forall|t: int, i: int| 0 <= t < tokens.len() && 0 <= i < tokens[t].len() ==> is_ascii_lower_alnum(#[trigger] tokens[t][i]),
{
    assert forall|t: int, i: int| 0 <= t < tokens.len() && 0 <= i < tokens[t].len() implies is_ascii_lower_alnum(#[trigger] tokens[t][i]) by {
        lemma_run_span(ascii_alnum_flags(text), spans, t);
        let (s, e) = spans[t];
        let c = text[s + i];
        assert(ascii_alnum_flags(text)[s + i]);
        assert(tokens[t][i] == ascii_lower(c));
        let u = c as u32;
        if 0x41 <= u <= 0x5a {
            assert(((u + 0x20) as char) as u32 == u + 0x20);
        }
    }
    assert forall|t: int| 0 <= t < tokens.len() implies (#[trigger] tokens[t]).len() > 0 by {
        lemma_run_span(ascii_alnum_flags(text), spans, t);
    }
}

/// The tokens joined by single spaces.
pub open spec fn joined(ts: Seq<Seq<char>>) -> Seq<char>
    decreases ts.len(),
{
    if ts.len() == 0 {
        Seq::empty()
    } else if ts.len() == 1 {
        ts[0]
    } else {
        ts[0] + seq![' '] + joined(ts.drop_first())
    }
}

/// Every token is non-empty and made of ASCII digits and lowercase letters.
pub open spec fn lower_alnum_tokens(ts: Seq<Seq<char>>) -> bool {
    forall|t: int| 0 <= t < ts.len() ==> {
        &&& (#[trigger] ts[t]).len() > 0
        &&& forall|i: int| 0 <= i < ts[t].len() ==> is_ascii_lower_alnum(#[trigger] ts[t][i])
    }
}

/// `spans` moved `d` positions to the right.
pub open spec fn shift_spans(spans: Seq<(usize, usize)>, d: int) -> Seq<(usize, usize)> {
    spans.map_values(|x: (usize, usize)| ((x.0 + d) as usize, (x.1 + d) as usize))
}

/// Where the tokens stand in their space-joined text.
pub open spec fn joined_spans(ts: Seq<Seq<char>>) -> Seq<(usize, usize)>
    decreases ts.len(),
{
    if ts.len() == 0 {
        Seq::empty()
    } else {
        seq![(0usize, ts[0].len() as usize)] + shift_spans(joined_spans(ts.drop_first()), ts[0].len() + 1int)
    }
}

proof fn lemma_lower_alnum_is_fixed(s: Seq<char>)
    requires
        forall|i: int| 0 <= i < s.len() ==> is_ascii_lower_alnum(#[trigger] s[i]),
    ensures
        ascii_lowercase(s) == s,
{
    assert(ascii_lowercase(s) =~= s);
}

/// The joined text is ASCII, and its maximal runs of letters and digits are
/// exactly the tokens.
proof fn lemma_joined_runs(ts: Seq<Seq<char>>)
    requires
        lower_alnum_tokens(ts),
        joined(ts).len() <= usize::MAX,
    ensures
        is_ascii_text(joined(ts)),
        maximal_runs(ascii_alnum_flags(joined(ts)), joined_spans(ts)),
        ascii_tokens_from_spans(joined(ts), joined_spans(ts), ts),
    decreases ts.len(),
{
    let j = joined(ts);
    let c = joined_spans(ts);
    let f = ascii_alnum_flags(j);
    if ts.len() == 0 {
        assert(c =~= Seq::<(usize, usize)>::empty());
        assert(runs_are_maximal(f, c)) by {
            reveal(runs_are_maximal);
        }
        assert(runs_in_order(c)) by {
            reveal(runs_in_order);
        }
        assert(runs_cover(f, c)) by {
            reveal(runs_cover);
        }
    } else {
        let l0 = ts[0].len();
        assert(ts[0] == ts[0]);
        assert(forall|i: int| 0 <= i < l0 ==> is_ascii_lower_alnum(#[trigger] ts[0][i]));
        lemma_lower_alnum_is_fixed(ts[0]);
        let r = ts.drop_first();
        assert(lower_alnum_tokens(r)) by {
            assert forall|t: int| 0 <= t < r.len() implies {
                &&& (#[trigger] r[t]).len() > 0
                &&& forall|i: int| 0 <= i < r[t].len() ==> is_ascii_lower_alnum(#[trigger] r[t][i])
            } by {
                assert(r[t] == ts[t + 1]);
            }
        }
        if ts.len() == 1 {
            assert(j == ts[0]);
            assert(joined_spans(r) =~= Seq::<(usize, usize)>::empty());
            assert(c =~= seq![(0usize, l0 as usize)]);
            assert(j.subrange(0, l0 as int) =~= j);
            assert forall|i: int| 0 <= i < j.len() implies is_ascii_char(#[trigger] j[i]) by {
                assert(is_ascii_lower_alnum(ts[0][i]));
            }
            assert forall|i: int| 0 <= i < f.len() implies #[trigger] f[i] by {
                assert(is_ascii_lower_alnum(ts[0][i]));
            }
            assert(runs_are_maximal(f, c)) by {
                reveal(runs_are_maximal);
            }
            assert(runs_in_order(c)) by {
                reveal(runs_in_order);
            }
            assert(runs_cover(f, c)) by {
                reveal(runs_cover);
                assert forall|i: int| 0 <= i < f.len() && #[trigger] f[i] implies exists|t: int| 0 <= t < c.len() && (#[trigger] c[t]).0 <= i < c[t].1 by {
                    assert(c[0].0 <= i < c[0].1);
                }
            }
        } else {
            let jr = joined(r);
            let cr = joined_spans(r);
            let fr = ascii_alnum_flags(jr);
            assert(j == ts[0] + seq![' '] + jr);
            lemma_joined_runs(r);
            assert(j.len() == l0 + 1 + jr.len());
            assert(c =~= seq![(0usize, l0 as usize)] + shift_spans(cr, l0 + 1int));
            assert forall|i: int| 0 <= i < l0 implies j[i] == ts[0][i] && #[trigger] f[i] by {
                assert(is_ascii_lower_alnum(ts[0][i]));
            }
            assert(j[l0 as int] == ' ');
            assert(!f[l0 as int]);
            assert forall|p: int| 0 <= p < jr.len() implies #[trigger] j[l0 + 1 + p] == jr[p] && f[l0 + 1 + p] == fr[p] by {
            }
            assert(is_ascii_text(j)) by {
                assert forall|i: int| 0 <= i < j.len() implies is_ascii_char(#[trigger] j[i]) by {
                    if i < l0 {
                        assert(is_ascii_lower_alnum(ts[0][i]));
                    } else if i > l0 {
                        assert(j[l0 + 1 + (i - l0 - 1)] == jr[i - l0 - 1]);
                    }
                }
            }
            // Each span of the rest, moved past the first token and its space.
            assert forall|k: int| 0 <= k < cr.len() implies #[trigger] c[k + 1] == ((cr[k].0 + l0 + 1) as usize, (cr[k].1 + l0 + 1) as usize) by {
            }
            assert(runs_are_maximal(f, c)) by {
                reveal(runs_are_maximal);
                assert forall|t: int| 0 <= t < c.len() implies {
                    let (s, e) = #[trigger] c[t];
                    &&& s < e <= f.len()
                    &&& forall|i: int| s <= i < e ==> f[i]
                    &&& s == 0 || !f[s - 1]
                    &&& e == f.len() || !f[e as int]
                } by {
                    if t > 0 {
                        let k = t - 1;
                        lemma_run_span(fr, cr, k);
                        let (s0, e0) = cr[k];
                        assert(c[t] == ((s0 + l0 + 1) as usize, (e0 + l0 + 1) as usize));
                        assert forall|i: int| s0 + l0 + 1 <= i < e0 + l0 + 1 implies f[i] by {
                            assert(f[l0 + 1 + (i - l0 - 1)] == fr[i - l0 - 1]);
                        }
                        if s0 > 0 {
                            assert(f[l0 + 1 + (s0 - 1)] == fr[s0 - 1]);
                        }
                        if e0 < fr.len() {
                            assert(f[l0 + 1 + e0] == fr[e0 as int]);
                        }
                    }
                }
            }
            assert(runs_in_order(c)) by {
                reveal(runs_in_order);
                assert forall|t: int| 0 <= t < c.len() - 1 implies (#[trigger] c[t]).1 < c[t + 1].0 by {
                    if t == 0 {
                        lemma_run_span(fr, cr, 0);
                        assert(c[1] == ((cr[0].0 + l0 + 1) as usize, (cr[0].1 + l0 + 1) as usize));
                    } else {
                        lemma_run_span(fr, cr, t - 1);
                        lemma_run_span(fr, cr, t);
                        lemma_run_order(fr, cr, t - 1);
                        assert(c[t] == ((cr[t - 1].0 + l0 + 1) as usize, (cr[t - 1].1 + l0 + 1) as usize));
                        assert(c[t + 1] == ((cr[t].0 + l0 + 1) as usize, (cr[t].1 + l0 + 1) as usize));
                    }
                }
            }
            assert(runs_cover(f, c)) by {
                reveal(runs_cover);
                assert forall|i: int| 0 <= i < f.len() && #[trigger] f[i] implies exists|t: int| 0 <= t < c.len() && (#[trigger] c[t]).0 <= i < c[t].1 by {
                    if i < l0 {
                        assert(c[0].0 <= i < c[0].1);
                    } else {
                        let p = i - l0 - 1;
                        assert(f[l0 + 1 + p] == fr[p]);
                        lemma_run_cover(fr, cr, p);
                        let k = choose|k: int| 0 <= k < cr.len() && (#[trigger] cr[k]).0 <= p < cr[k].1;
                        lemma_run_span(fr, cr, k);
                        assert(c[k + 1] == ((cr[k].0 + l0 + 1) as usize, (cr[k].1 + l0 + 1) as usize));
                        assert(c[k + 1].0 <= i < c[k + 1].1);
                    }
                }
            }
            assert(ascii_tokens_from_spans(j, c, ts)) by {
                assert forall|t: int| 0 <= t < c.len() implies #[trigger] ts[t] == ascii_lowercase(j.subrange(c[t].0 as int, c[t].1 as int)) by {
                    if t == 0 {
                        assert(j.subrange(0, l0 as int) =~= ts[0]);
                    } else {
                        let k = t - 1;
                        lemma_run_span(fr, cr, k);
                        assert(c[t] == ((cr[k].0 + l0 + 1) as usize, (cr[k].1 + l0 + 1) as usize));
                        assert(c[t].0 == cr[k].0 + l0 + 1 && c[t].1 == cr[k].1 + l0 + 1);
                        assert forall|q: int| 0 <= q < cr[k].1 - cr[k].0 implies #[trigger] j.subrange(c[t].0 as int, c[t].1 as int)[q] == jr.subrange(cr[k].0 as int, cr[k].1 as int)[q] by {
                            assert(j[l0 + 1 + (cr[k].0 + q)] == jr[cr[k].0 + q]);
                        }
                        assert(j.subrange(c[t].0 as int, c[t].1 as int) =~= jr.subrange(cr[k].0 as int, cr[k].1 as int));
                        assert(ts[t] == r[k]);
                    }
                }
            }
        }
    }
}

proof fn lemma_starts_increase(flags: Seq<bool>, a: Seq<(usize, usize)>, i: int, j: int)
    requires
        maximal_runs(flags, a),
        0 <= i < j < a.len(),
    ensures
        a[i].0 < a[j].0,
    decreases j - i,
{
    lemma_run_span(flags, a, i);
    lemma_run_order(flags, a, i);
    if i + 1 < j {
        lemma_starts_increase(flags, a, i + 1, j);
    }
}

/// A position where a run of `true` starts is the start of a span.
proof fn lemma_run_start_has_span(flags: Seq<bool>, a: Seq<(usize, usize)>, p: int)
    requires
        maximal_runs(flags, a),
        0 <= p < flags.len(),
        flags[p],
        p == 0 || !flags[p - 1],
    ensures
        exists|t: int| 0 <= t < a.len() && (#[trigger] a[t]).0 == p,
{
    lemma_run_cover(flags, a, p);
    let t = choose|t: int| 0 <= t < a.len() && (#[trigger] a[t]).0 <= p < a[t].1;
    lemma_run_span(flags, a, t);
    let (s, e) = a[t];
    if s < p {
        assert(flags[p - 1]);
    }
}

/// Some span of `a` starts at `s`.
pub open spec fn has_start(a: Seq<(usize, usize)>, s: usize) -> bool {
    exists|u: int| 0 <= u < a.len() && a[u].0 == s
}

/// The maximal runs of a flag sequence are unique.
#[verifier::rlimit(30)]
proof fn lemma_maximal_runs_unique(flags: Seq<bool>, a: Seq<(usize, usize)>, b: Seq<(usize, usize)>)
    requires
        maximal_runs(flags, a),
        maximal_runs(flags, b),
    ensures
        a == b,
{
    // Each start of one is a start of the other.
    assert forall|t: int| 0 <= t < a.len() implies #[trigger] has_start(b, a[t].0) by {
        lemma_run_span(flags, a, t);
        lemma_run_start_has_span(flags, b, a[t].0 as int);
    }
    assert forall|t: int| 0 <= t < b.len() implies #[trigger] has_start(a, b[t].0) by {
        lemma_run_span(flags, b, t);
        lemma_run_start_has_span(flags, a, b[t].0 as int);
    }
    // Both list the starts in increasing order, so they agree position by position.
    assert forall|t: int| 0 <= t < a.len() && t < b.len() implies (#[trigger] a[t]).0 == b[t].0 by {
        lemma_same_start_at(flags, a, b, t);
    }
    if a.len() > b.len() {
        let t = b.len() as int;
        assert(has_start(b, a[t].0));
        let u = choose|u: int| 0 <= u < b.len() && b[u].0 == a[t].0;
        assert(a[u].0 == b[u].0);
        lemma_starts_increase(flags, a, u, t);
    }
    if b.len() > a.len() {
        let t = a.len() as int;
        assert(has_start(a, b[t].0));
        let u = choose|u: int| 0 <= u < a.len() && a[u].0 == b[t].0;
        assert(a[u].0 == b[u].0);
        lemma_starts_increase(flags, b, u, t);
    }
    assert forall|t: int| 0 <= t < a.len() implies #[trigger] a[t] == b[t] by {
        lemma_run_span(flags, a, t);
        lemma_run_span(flags, b, t);
        let (s, e1) = a[t];
        let (s2, e2) = b[t];
        assert(s == s2);
        if e1 < e2 {
            assert(flags[e1 as int]);
        } else if e2 < e1 {
            assert(flags[e2 as int]);
        }
    }
    assert(a =~= b);
}

#[verifier::rlimit(30)]
proof fn lemma_same_start_at(flags: Seq<bool>, a: Seq<(usize, usize)>, b: Seq<(usize, usize)>, t: int)
    requires
        maximal_runs(flags, a),
        maximal_runs(flags, b),
        0 <= t < a.len(),
        t < b.len(),
        forall|x: int| 0 <= x < a.len() ==> #[trigger] has_start(b, a[x].0),
        forall|x: int| 0 <= x < b.len() ==> #[trigger] has_start(a, b[x].0),
    ensures
        a[t].0 == b[t].0,
    decreases t,
{
    if t > 0 {
        assert forall|x: int| 0 <= x < t implies #[trigger] a[x].0 == b[x].0 by {
            lemma_same_start_at(flags, a, b, x);
        }
    }
    assert(has_start(b, a[t].0));
    let j = choose|u: int| 0 <= u < b.len() && b[u].0 == a[t].0;
    if j < t {
        assert(a[j].0 == b[j].0);
        lemma_starts_increase(flags, a, j, t);
    } else if j > t {
        lemma_starts_increase(flags, b, t, j);
        assert(has_start(a, b[t].0));
        let i = choose|u: int| 0 <= u < a.len() && a[u].0 == b[t].0;
        if i < t {
            assert(a[i].0 == b[i].0);
            lemma_starts_increase(flags, b, i, t);
        } else if i > t {
            lemma_starts_increase(flags, a, t, i);
        }
    }
}

/// Tokenizing is idempotent on its own output: ASCII tokens (non-empty,
/// digits and lowercase letters) joined by single spaces tokenize back into
/// the same tokens. With `tokenize`'s contract on ASCII text, this gives
/// `tokenize(tokens.join(" ")) == tokens` for the tokens of any ASCII text.
pub proof fn lemma_tokenize_joined_is_identity(
    tokens: Seq<Seq<char>>,
    spans: Seq<(usize, usize)>,
    again: Seq<Seq<char>>,
)
    requires
        lower_alnum_tokens(tokens),
        joined(tokens).len() <= usize::MAX,
        maximal_runs(ascii_alnum_flags(joined(tokens)), spans),
        ascii_tokens_from_spans(joined(tokens), spans, again),
    ensures
        is_ascii_text(joined(tokens)),
        again == tokens,
{
    lemma_joined_runs(tokens);
    lemma_maximal_runs_unique(ascii_alnum_flags(joined(tokens)), spans, joined_spans(tokens));
    assert(again =~= tokens);
}

} // verus!

