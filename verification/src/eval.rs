//! The integer side of offline relevance evaluation.
//!
//! Every standard metric at a cutoff `k` (NDCG, MRR, Recall, Precision and
//! Average Precision) is a function of three things computed here: the
//! grades of the top-`k` ranked documents in rank order, the top-`k` of the
//! ideal (descending) grade vector, and the number of documents judged
//! relevant for the query.

use vstd::prelude::*;

use crate::candidate::{ids_of, RankedList};
use crate::error::{CoreError, RerankError};
use crate::ids::{DocId, QueryId};
use crate::qrel::{count_of, docs_with_grade, equals, grade, grades_of, non_increasing, relevant_docs, Qrels};

verus! {

/// `s` is the ideal gain vector of the grades `g`: every positive grade,
/// as often as it was given, highest first.
pub open spec fn is_ideal_gains(g: Map<u64, u8>, s: Seq<u8>) -> bool {
    &&& non_increasing(s)
    &&& count_of(s, 0) == 0
    &&& forall|v: u8| v > 0 ==> #[trigger] count_of(s, v) == docs_with_grade(g, v).len()
}

/// The smaller of `a` and `b`.
pub open spec fn min(a: int, b: int) -> int {
    if a <= b { a } else { b }
}

/// The document at position `i` of `ranking` already occurs earlier in it.
pub open spec fn repeats_earlier(ranking: Seq<DocId>, i: int) -> bool {
    exists|j: int| 0 <= j < i && ranking[j] == ranking[i]
}

/// The gain of position `i` of `ranking`: the document's grade for query
/// `q`, or zero where the document already occurred earlier (a document is
/// credited once, at its first position).
pub open spec fn ranked_grade(m: Map<u64, Map<u64, u8>>, q: QueryId, ranking: Seq<DocId>, i: int) -> u8 {
    if repeats_earlier(ranking, i) { 0 } else { grade(m, q.0, ranking[i].0) }
}

/// `j` is what evaluating `ranking` for query `q` at cutoff `k` against the
/// judgments `m` yields.
pub open spec fn judges(m: Map<u64, Map<u64, u8>>, k: usize, q: QueryId, ranking: Seq<DocId>, j: JudgedRanking) -> bool {
    let g = grades_of(m, q.0);
    &&& j.k == k
    &&& j.gains@.len() == min(k as int, ranking.len() as int)
    &&& forall|i: int| 0 <= i < j.gains@.len() ==> #[trigger] j.gains@[i] == ranked_grade(m, q, ranking, i)
    &&& j.total_relevant == relevant_docs(g).len()
    &&& exists|full: Seq<u8>| #[trigger] is_ideal_gains(g, full) && j.ideal@ == full.take(min(k as int, full.len() as int))
}

/// What evaluating one ranked list against the judgments yields.
#[derive(Debug, Clone, PartialEq, Eq)]
pub struct JudgedRanking {
    /// The cutoff.
    pub k: usize,
    /// Grade of each of the top-`k` ranked documents, in rank order; a
    /// document repeated in the ranking is credited only at its first
    /// position (zero at the later ones).
    pub gains: Vec<u8>,
    /// The first `k` entries of the ideal gain vector.
    pub ideal: Vec<u8>,
    /// Number of documents judged relevant for the query.
    pub total_relevant: usize,
}

/// Number of positive entries of `s`.
pub open spec fn hits(s: Seq<u8>) -> nat
    decreases s.len(),
{
    if s.len() == 0 {
        0
    } else {
        hits(s.drop_last()) + if s.last() > 0 { 1nat } else { 0nat }
    }
}

/// Index of the first positive entry of `s`, if any.
pub open spec fn first_hit(s: Seq<u8>) -> Option<int> {
    if exists|i: int| 0 <= i < s.len() && s[i] > 0 {
        Some(choose|i: int| 0 <= i < s.len() && s[i] > 0 && forall|j: int| 0 <= j < i ==> s[j] == 0)
    } else {
        None
    }
}

impl JudgedRanking {
    /// Number of relevant documents among the top `k` (the numerator of
    /// Precision@k and Recall@k).
    pub fn relevant_in_top(&self) -> (n: usize)
        ensures
            n == hits(self.gains@),
    {
        let mut n: usize = 0;
        let len = self.gains.len();
        for i in 0..len
            invariant
                len == self.gains@.len(),
                n == hits(self.gains@.take(i as int)),
                n <= i,
        {
            assert(self.gains@.take(i + 1).drop_last() =~= self.gains@.take(i as int));
            if self.gains[i] > 0 {
                n = n + 1;
            }
        }
        assert(self.gains@.take(len as int) =~= self.gains@);
        n
    }

    /// Zero-based rank of the first relevant document among the top `k`
    /// (Mean Reciprocal Rank uses its reciprocal, one-based).
    pub fn first_relevant(&self) -> (r: Option<usize>)
        ensures
            match r {
                Some(i) => i < self.gains@.len() && self.gains@[i as int] > 0
                    && forall|j: int| 0 <= j < i ==> self.gains@[j] == 0,
                None => forall|j: int| 0 <= j < self.gains@.len() ==> self.gains@[j] == 0,
            },
    {
        let len = self.gains.len();
        for i in 0..len
            invariant
                len == self.gains@.len(),
                forall|j: int| 0 <= j < i ==> self.gains@[j] == 0,
        {
            if self.gains[i] > 0 {
                return Some(i);
            }
        }
        None
    }
}

/// Evaluates one ranked list of documents for `query` at cutoff `k`,
/// crediting each document once, at its first position.
///
/// Fails with `ZeroCutoff` exactly when `k == 0`.
pub fn evaluate_query(query: QueryId, ranking: &[DocId], qrels: &Qrels, k: usize) -> (r: Result<JudgedRanking, CoreError>)
    ensures
        r is Err <==> k == 0,
        r matches Err(e) ==> e == CoreError::Invalid(RerankError::ZeroCutoff),
        r matches Ok(j) ==> judges(qrels@, k, query, ranking@, j),
{
    if k == 0 {
        return Err(CoreError::Invalid(RerankError::ZeroCutoff));
    }
    let top = if ranking.len() < k { ranking.len() } else { k };
    let mut gains: Vec<u8> = Vec::new();
    for i in 0..top
        invariant
            top <= ranking@.len(),
            gains@.len() == i,
            forall|j: int| 0 <= j < i ==> #[trigger] gains@[j] == ranked_grade(qrels@, query, ranking@, j),
    {
        let d = ranking[i];
        let mut seen = false;
        for j in 0..i
            invariant
                i < ranking@.len(),
                d == ranking@[i as int],
                seen <==> exists|x: int| 0 <= x < j && ranking@[x] == d,
        {
            if ranking[j] == d {
                seen = true;
            }
        }
        if seen {
            gains.push(0);
        } else {
            gains.push(qrels.relevance(query, d));
        }
    }
    let full = qrels.ideal_gains(query);
    let cut = if full.len() < k { full.len() } else { k };
    let mut ideal: Vec<u8> = Vec::new();
    for i in 0..cut
        invariant
            cut <= full@.len(),
            ideal@ == full@.take(i as int),
    {
        assert(full@.take(i + 1) =~= full@.take(i as int).push(full@[i as int]));
        ideal.push(full[i]);
    }
    let total_relevant = qrels.relevant_count(query);
    proof {
        assert(is_ideal_gains(grades_of(qrels@, query.0), full@));
    }
    Ok(JudgedRanking { k, gains, ideal, total_relevant })
}

/// The documents among the first `n` of `ranking` whose grade in `gains` is positive.
pub open spec fn hit_docs(ranking: Seq<DocId>, gains: Seq<u8>, n: int) -> Set<u64> {
    Set::new(|d: u64| exists|i: int| 0 <= i < n && ranking[i].0 == d && gains[i] > 0)
}

proof fn lemma_hit_docs(query: QueryId, ranking: Seq<DocId>, gains: Seq<u8>, m: Map<u64, Map<u64, u8>>, n: int)
    requires
        0 <= n <= gains.len() <= ranking.len(),
        forall|i: int| 0 <= i < gains.len() ==> #[trigger] gains[i] == ranked_grade(m, query, ranking, i),
        grades_of(m, query.0).dom().finite(),
    ensures
        hit_docs(ranking, gains, n).subset_of(relevant_docs(grades_of(m, query.0))),
        hit_docs(ranking, gains, n).finite(),
        hit_docs(ranking, gains, n).len() == hits(gains.take(n)),
    decreases n,
{
    let g = grades_of(m, query.0);
    let s = hit_docs(ranking, gains, n);
    assert forall|d: u64| s.contains(d) implies relevant_docs(g).contains(d) by {
        let i = choose|i: int| 0 <= i < n && ranking[i].0 == d && gains[i] > 0;
        assert(gains[i] == ranked_grade(m, query, ranking, i));
    }
    vstd::set_lib::lemma_set_subset_finite(relevant_docs(g), s);
    if n == 0 {
        assert(s =~= Set::<u64>::empty());
        assert(gains.take(0) =~= Seq::<u8>::empty());
    } else {
        lemma_hit_docs(query, ranking, gains, m, n - 1);
        let prev = hit_docs(ranking, gains, n - 1);
        assert(gains.take(n).drop_last() =~= gains.take(n - 1));
        let d = ranking[n - 1].0;
        if gains[n - 1] > 0 {
            assert(s =~= prev.insert(d));
            assert(!prev.contains(d)) by {
                if prev.contains(d) {
                    let i = choose|i: int| 0 <= i < n - 1 && ranking[i].0 == d && gains[i] > 0;
                    assert(ranking[i] == ranking[n - 1]);
                    assert(repeats_earlier(ranking, n - 1));
                    assert(gains[n - 1] == ranked_grade(m, query, ranking, n - 1));
                }
            }
        } else {
            assert(s =~= prev);
        }
    }
}

/// Recall never exceeds one: the relevant documents credited among the top
/// `k` (each document once) are at most all the documents judged relevant
/// for the query, whatever the ranking.
pub proof fn lemma_hits_at_most_relevant(query: QueryId, ranking: Seq<DocId>, qrels: Qrels, j: JudgedRanking)
    requires
        judges(qrels@, j.k, query, ranking, j),
    ensures
        hits(j.gains@) <= j.total_relevant,
{
    qrels.lemma_finite();
    let n = j.gains@.len() as int;
    lemma_hit_docs(query, ranking, j.gains@, qrels@, n);
    assert(j.gains@.take(n) =~= j.gains@);
    vstd::set_lib::lemma_len_subset(hit_docs(ranking, j.gains@, n), relevant_docs(grades_of(qrels@, query.0)));
}

/// Precision never exceeds one: the relevant documents among the top `k`
/// are at most the documents there.
pub proof fn lemma_hits_at_most_len(s: Seq<u8>)
    ensures
        hits(s) <= s.len(),
    decreases s.len(),
{
    if s.len() > 0 {
        lemma_hits_at_most_len(s.drop_last());
    }
}

/// Evaluates many `(query, ranking)` pairs at cutoff `k`, in order.
///
/// Fails with `ZeroCutoff` exactly when `k == 0` and there is at least one
/// ranking to evaluate (an empty batch evaluates to nothing).
pub fn evaluate(rankings: &[(QueryId, RankedList)], qrels: &Qrels, k: usize) -> (r: Result<Vec<JudgedRanking>, CoreError>)
    ensures
        r is Err <==> (k == 0 && rankings@.len() > 0),
        r matches Err(e) ==> e == CoreError::Invalid(RerankError::ZeroCutoff),
        r matches Ok(v) ==> v@.len() == rankings@.len() && forall|i: int| 0 <= i < v@.len() ==>
            judges(qrels@, k, rankings@[i].0, ids_of(rankings@[i].1.items@), #[trigger] v@[i]),
{
    let mut out: Vec<JudgedRanking> = Vec::new();
    let n = rankings.len();
    for i in 0..n
        invariant
            n == rankings@.len(),
            out@.len() == i,
            forall|a: int| 0 <= a < i ==> judges(qrels@, k, rankings@[a].0, ids_of(rankings@[a].1.items@), #[trigger] out@[a]),
    {
        if k == 0 {
            return Err(CoreError::Invalid(RerankError::ZeroCutoff));
        }
        let (q, list) = &rankings[i];
        let ids = list.doc_ids();
        let j = match evaluate_query(*q, ids.as_slice(), qrels, k) {
            Ok(j) => j,
            Err(e) => return Err(e),
        };
        let ghost prev = out@;
        out.push(j);
        proof {
            assert forall|a: int| 0 <= a < i + 1 implies judges(qrels@, k, rankings@[a].0, ids_of(rankings@[a].1.items@), #[trigger] out@[a]) by {
                if a < i {
                    assert(out@[a] == prev[a]);
                } else {
                    assert(out@[a] == j);
                }
            }
        }
    }
    if k == 0 && n > 0 {
        return Err(CoreError::Invalid(RerankError::ZeroCutoff));
    }
    Ok(out)
}

/// An evaluator bound to a judgment set and a cutoff.
#[derive(Debug, Clone)]
pub struct RerankEvaluator {
    qrels: Qrels,
    k: usize,
}

impl RerankEvaluator {
    /// Creates an evaluator.
    pub fn new(qrels: Qrels, k: usize) -> (e: RerankEvaluator)
        ensures
            e.judgments() == qrels@,
            e.cutoff() == k,
    {
        RerankEvaluator { qrels, k }
    }

    /// The judgments this evaluator scores against.
    pub closed spec fn judgments(&self) -> Map<u64, Map<u64, u8>> {
        self.qrels@
    }

    /// The cutoff this evaluator uses.
    pub closed spec fn cutoff(&self) -> usize {
        self.k
    }

    /// Evaluates a single query's ranked list.
    pub fn evaluate_one(&self, query: QueryId, ranking: &RankedList) -> (r: Result<JudgedRanking, CoreError>)
        ensures
            r is Err <==> self.cutoff() == 0,
            r matches Err(e) ==> e == CoreError::Invalid(RerankError::ZeroCutoff),
            r matches Ok(j) ==> judges(self.judgments(), self.cutoff(), query, ids_of(ranking.items@), j),
    {
        let ids = ranking.doc_ids();
        evaluate_query(query, ids.as_slice(), &self.qrels, self.k)
    }

    /// Evaluates many queries in order.
    pub fn evaluate_all(&self, rankings: &[(QueryId, RankedList)]) -> (r: Result<Vec<JudgedRanking>, CoreError>)
        ensures
            r is Err <==> (self.cutoff() == 0 && rankings@.len() > 0),
            r matches Err(e) ==> e == CoreError::Invalid(RerankError::ZeroCutoff),
            r matches Ok(v) ==> v@.len() == rankings@.len() && forall|i: int| 0 <= i < v@.len() ==>
                judges(self.judgments(), self.cutoff(), rankings@[i].0, ids_of(rankings@[i].1.items@), #[trigger] v@[i]),
    {
        evaluate(rankings, &self.qrels, self.k)
    }
}

/// How often `v` occurs in a sequence that starts with `x`: once more than
/// in the rest when `x == v`.
proof fn lemma_count_of_first(s: Seq<u8>, v: u8)
    requires
        s.len() > 0,
    ensures
        count_of(s, v) == count_of(s.drop_first(), v) + if s[0] == v { 1int } else { 0int },
{
    let f = equals(v);
    assert(s =~= seq![s[0]] + s.drop_first());
    Seq::filter_distributes_over_add(seq![s[0]], s.drop_first(), f);
    assert(seq![s[0]].filter(f) =~= if s[0] == v { seq![s[0]] } else { Seq::<u8>::empty() }) by {
        reveal_with_fuel(Seq::filter, 2);
    }
}

/// Two non-increasing grade sequences in which every grade occurs equally
/// often are the same sequence.
proof fn lemma_sorted_by_counts_unique(a: Seq<u8>, b: Seq<u8>)
    requires
        non_increasing(a),
        non_increasing(b),
        forall|v: u8| #[trigger] count_of(a, v) == count_of(b, v),
    ensures
        a == b,
    decreases a.len() + b.len(),
{
    if a.len() == 0 || b.len() == 0 {
        if a.len() > 0 {
            lemma_count_of_first(a, a[0]);
            lemma_count_of_first(b, a[0]);
            assert(count_of(b, a[0]) == 0) by {
                assert(b.filter(equals(a[0])) =~= Seq::<u8>::empty());
            }
        } else if b.len() > 0 {
            lemma_count_of_first(b, b[0]);
            assert(count_of(a, b[0]) == 0) by {
                assert(a.filter(equals(b[0])) =~= Seq::<u8>::empty());
            }
        }
        assert(a =~= b);
    } else {
        // The first entry of each is its largest grade, and each largest
        // grade occurs in the other sequence.
        assert(a[0] == b[0]) by {
            lemma_count_of_first(a, a[0]);
            lemma_count_of_first(b, b[0]);
            if a[0] > b[0] {
                assert(count_of(b, a[0]) > 0);
                lemma_present(b, a[0]);
            } else if b[0] > a[0] {
                assert(count_of(a, b[0]) > 0);
                lemma_present(a, b[0]);
            }
        }
        let (ra, rb) = (a.drop_first(), b.drop_first());
        assert forall|v: u8| #[trigger] count_of(ra, v) == count_of(rb, v) by {
            lemma_count_of_first(a, v);
            lemma_count_of_first(b, v);
        }
        lemma_sorted_by_counts_unique(ra, rb);
        assert(a =~= seq![a[0]] + ra);
        assert(b =~= seq![b[0]] + rb);
    }
}

/// A grade that occurs in a sequence sits at some position of it.
proof fn lemma_present(s: Seq<u8>, v: u8)
    requires
        count_of(s, v) > 0,
    ensures
        exists|i: int| 0 <= i < s.len() && s[i] == v,
{
    if forall|i: int| 0 <= i < s.len() ==> s[i] != v {
        assert(s.filter(equals(v)) =~= Seq::<u8>::empty()) by {
            s.filter_lemma(equals(v));
            if s.filter(equals(v)).len() > 0 {
                let x = s.filter(equals(v))[0];
                assert(s.filter(equals(v)).contains(x));
                s.lemma_filter_contains_rev(equals(v), x);
                assert(s.contains(x));
            }
        }
    }
}

/// Evaluation is a function of its inputs: two results that both judge the
/// same ranking against the same judgments at the same cutoff agree, so the
/// evaluator's methods and the free functions give equal results.
pub proof fn lemma_judgment_is_unique(
    m: Map<u64, Map<u64, u8>>,
    k: usize,
    q: QueryId,
    ranking: Seq<DocId>,
    a: JudgedRanking,
    b: JudgedRanking,
)
    requires
        judges(m, k, q, ranking, a),
        judges(m, k, q, ranking, b),
    ensures
        a.k == b.k,
        a.gains@ == b.gains@,
        a.ideal@ == b.ideal@,
        a.total_relevant == b.total_relevant,
{
    assert(a.gains@ =~= b.gains@);
    let g = grades_of(m, q.0);
    let fa = choose|full: Seq<u8>| #[trigger] is_ideal_gains(g, full) && a.ideal@ == full.take(min(k as int, full.len() as int));
    let fb = choose|full: Seq<u8>| #[trigger] is_ideal_gains(g, full) && b.ideal@ == full.take(min(k as int, full.len() as int));
    assert forall|v: u8| #[trigger] count_of(fa, v) == count_of(fb, v) by {
        if v == 0 {
        } else {
            assert(count_of(fa, v) == docs_with_grade(g, v).len());
        }
    }
    lemma_sorted_by_counts_unique(fa, fb);
}

} // verus!
