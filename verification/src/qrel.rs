//! Relevance judgments (`qrels`): the labeled ground truth for offline
//! evaluation. A judgment maps a `(query, document)` pair to a graded
//! relevance level.

use std::collections::HashMap;

use vstd::prelude::*;
use vstd::std_specs::hash::*;
use vstd::std_specs::iter::IteratorSpec;

use crate::ids::{DocId, QueryId};

verus! {

broadcast use vstd::std_specs::hash::group_hash_axioms;

/// A single graded relevance judgment for a `(query, document)` pair.
///
/// Grades follow the TREC convention: `0` is not relevant and larger
/// positive integers denote increasing relevance.
#[derive(Debug, Clone, Copy, PartialEq, Eq, Structural)]
pub struct Judgment {
    /// The judged document.
    pub doc: DocId,
    /// Graded relevance (`0` = irrelevant, higher = more relevant).
    pub relevance: u8,
}

impl Judgment {
    /// Creates a judgment.
    pub fn new(doc: DocId, relevance: u8) -> (j: Judgment)
        ensures
            j.doc == doc,
            j.relevance == relevance,
    {
        Judgment { doc, relevance }
    }

    /// Whether this judgment counts the document as relevant.
    pub fn is_relevant(self) -> (b: bool)
        ensures
            b == (self.relevance > 0),
    {
        self.relevance > 0
    }
}

/// The grades recorded for query `q` (empty if the query has none).
pub open spec fn grades_of(m: Map<u64, Map<u64, u8>>, q: u64) -> Map<u64, u8> {
    if m.contains_key(q) {
        m[q]
    } else {
        Map::empty()
    }
}

/// The grade of document `d` for query `q` (`0` when unjudged).
pub open spec fn grade(m: Map<u64, Map<u64, u8>>, q: u64, d: u64) -> u8 {
    let g = grades_of(m, q);
    if g.contains_key(d) {
        g[d]
    } else {
        0
    }
}

/// The documents judged with exactly grade `v`.
pub open spec fn docs_with_grade(g: Map<u64, u8>, v: u8) -> Set<u64> {
    g.dom().filter(|d: u64| g[d] == v)
}

/// The documents judged relevant (grade above zero).
pub open spec fn relevant_docs(g: Map<u64, u8>) -> Set<u64> {
    g.dom().filter(|d: u64| g[d] > 0)
}

/// `s` is ordered from the highest to the lowest grade.
pub open spec fn non_increasing(s: Seq<u8>) -> bool {
    forall|i: int, j: int| 0 <= i < j < s.len() ==> s[i] >= s[j]
}

/// A collection of relevance judgments, indexed by query.
#[derive(Debug)]
pub struct Qrels {
    by_query: HashMap<u64, HashMap<u64, u8>>,
}

impl Clone for Qrels {
    fn clone(&self) -> (c: Self)
        ensures
            c@ == self@,
    {
        let c = Qrels { by_query: self.by_query.clone() };
        assert(c@ =~= self@);
        c
    }
}

impl Default for Qrels {
    /// An empty judgment set.
    fn default() -> (q: Qrels)
        ensures
            q@ == Map::<u64, Map<u64, u8>>::empty(),
    {
        Qrels::new()
    }
}

impl View for Qrels {
    type V = Map<u64, Map<u64, u8>>;

    /// Query id to (document id to grade).
    closed spec fn view(&self) -> Map<u64, Map<u64, u8>> {
        Map::new(|q: u64| self.by_query@.contains_key(q), |q: u64| self.by_query@[q]@)
    }
}

/// Selects the documents with a positive grade (`pos`), or else those with grade `v`.
spec fn grade_selector(g: Map<u64, u8>, pos: bool, v: u8) -> spec_fn(u64) -> bool {
    |d: u64| if pos { g[d] > 0 } else { g[d] == v }
}

/// `out` lists every `(query, document, grade)` judgment of `m` exactly once.
pub open spec fn lists_judgments(m: Map<u64, Map<u64, u8>>, out: Seq<(QueryId, DocId, u8)>) -> bool {
    &&& forall|i: int| 0 <= i < out.len() ==> {
        &&& m.contains_key((#[trigger] out[i]).0.0)
        &&& m[out[i].0.0].contains_key(out[i].1.0)
        &&& m[out[i].0.0][out[i].1.0] == out[i].2
    }
    &&& forall|i: int, j: int| 0 <= i < j < out.len() ==> ((#[trigger] out[i]).0 != (#[trigger] out[j]).0 || out[i].1 != out[j].1)
    &&& forall|q: u64, d: u64| m.contains_key(q) && #[trigger] m[q].contains_key(d) ==> exists|i: int| 0 <= i < out.len() && (#[trigger] out[i]).0.0 == q && out[i].1.0 == d
}

/// Number of keys of `m` whose grade satisfies `pred`, computed by a walk
/// over the keys.
fn count_grades(m: &HashMap<u64, u8>, pos: bool, v: u8) -> (n: usize)
    ensures
        pos ==> n == relevant_docs(m@).len(),
        !pos ==> n == docs_with_grade(m@, v).len(),
{
    let ghost pred = grade_selector(m@, pos, v);
    let ghost mut seen: Set<u64> = Set::empty();
    let mut n: usize = 0;
    assert(m.len() == m@.len());
    assert(seen.filter(pred) =~= Set::<u64>::empty());
    let ghost keys_seq = spec_keys_iter(m).remaining();
    let ghost mut idx: int = 0;
    for k in it: m.keys()
        invariant
            it.seq() == keys_seq,
            keys_seq == spec_keys_iter(m).remaining(),
            pred == grade_selector(m@, pos, v),
            idx == it.index(),
            forall|x: u64| #[trigger] seen.contains(x) <==> exists|i: int| 0 <= i < idx && keys_seq[i] == x,
            seen.finite(),
            n == seen.filter(pred).len(),
            seen.len() == it.index(),
            n <= it.index(),
            it.seq().len() == m@.dom().len(),
            m@.len() <= usize::MAX,
    {
        proof {
            let i = idx;
            assert(it.seq()[i] == *k);
            assert(spec_keys_iter(m).remaining().unref()[i] == *k);
            assert(spec_keys_iter(m).remaining().unref().to_set().contains(*k));
            assert(m@.contains_key(*k));
        }
        let g: u8 = match m.get(k) {
            Some(g) => *g,
            None => 0,
        };
        assert(m@[*k] == g);
        let hit = if pos { g > 0 } else { g == v };
        proof {
            assert(!seen.contains(*k)) by {
                if seen.contains(*k) {
                    let i = choose|i: int| 0 <= i < it.index() && it.seq()[i] == *k;
                    assert(it.seq().no_duplicates());
                }
            }
        }
        if hit {
            n = n + 1;
        }
        proof {
            assert(pred(*k) == hit);
            let s2 = seen.insert(*k);
            if hit {
                assert(s2.filter(pred) =~= seen.filter(pred).insert(*k));
            } else {
                assert(s2.filter(pred) =~= seen.filter(pred));
            }
            seen = s2;
            idx = idx + 1;
        }
    }
    proof {
        assert(idx == keys_seq.len());
        assert(seen =~= m@.dom()) by {
            let u = keys_seq.unref();
            assert forall|x: u64| m@.dom().contains(x) implies seen.contains(x) by {
                assert(u.to_set().contains(x));
                let i = choose|i: int| 0 <= i < u.len() && u[i] == x;
                assert(keys_seq[i] == x);
            }
            assert forall|x: u64| seen.contains(x) implies m@.dom().contains(x) by {
                let i = choose|i: int| 0 <= i < idx && keys_seq[i] == x;
                assert(u[i] == x);
                assert(u.contains(x));
                assert(u.to_set().contains(x));
            }
        }
        if pos {
            assert(seen.filter(pred) =~= relevant_docs(m@));
        } else {
            assert(seen.filter(pred) =~= docs_with_grade(m@, v));
        }
    }
    n
}

/// The number of entries of `s` equal to `v`.
pub open spec fn count_of(s: Seq<u8>, v: u8) -> nat {
    entries_equal_to(s, v).len()
}

/// The entries of `s` equal to `v`, in order.
pub open spec fn entries_equal_to(s: Seq<u8>, v: u8) -> Seq<u8> {
    s.filter(equals(v))
}

/// The predicate "is equal to `v`".
pub open spec fn equals(v: u8) -> spec_fn(u8) -> bool {
    |x: u8| x == v
}

/// Sorts grades from highest to lowest, keeping every grade's multiplicity.
fn sort_grades_desc(input: &Vec<u8>) -> (out: Vec<u8>)
    ensures
        non_increasing(out@),
        forall|v: u8| #[trigger] count_of(out@, v) == count_of(input@, v),
        out@.len() == input@.len(),
{
    let mut out: Vec<u8> = Vec::new();
    let n = input.len();
    for i in 0..n
        invariant
            n == input.len(),
            out@.len() == i,
            non_increasing(out@),
            forall|v: u8| #[trigger] entries_equal_to(out@, v) == entries_equal_to(input@.take(i as int), v),
    {
        let x = input[i];
        let mut p = out.len();
        while p > 0 && out[p - 1] < x
            invariant
                p <= out.len(),
                non_increasing(out@),
                forall|j: int| p <= j < out.len() ==> out@[j] < x,
            decreases p,
        {
            p = p - 1;
        }
        let ghost old_out = out@;
        out.insert(p, x);
        proof {
            assert(forall|j: int| 0 <= j < p ==> old_out[j] >= x) by {
                if p > 0 {
                    assert(old_out[p - 1] >= x);
                }
            }
            assert(out@ =~= old_out.take(p as int) + seq![x] + old_out.skip(p as int));
            assert(old_out =~= old_out.take(p as int) + old_out.skip(p as int));
            assert(input@.take(i + 1) =~= input@.take(i as int).push(x));
            assert forall|v: u8| #[trigger] entries_equal_to(out@, v) == entries_equal_to(input@.take(i + 1), v) by {
                let f = equals(v);
                let a = old_out.take(p as int);
                let b = old_out.skip(p as int);
                Seq::filter_distributes_over_add(a + seq![x], b, f);
                Seq::filter_distributes_over_add(a, seq![x], f);
                Seq::filter_distributes_over_add(a, b, f);
                input@.take(i as int).lemma_filter_push(x, f);
                assert(entries_equal_to(old_out, v) == entries_equal_to(input@.take(i as int), v));
                if x == v {
                    assert(b.filter(f) =~= Seq::<u8>::empty()) by {
                        if b.filter(f).len() > 0 {
                            b.lemma_filter_pred(f, 0);
                            let e = b.filter(f)[0];
                            assert(b.filter(f).contains(e));
                            b.lemma_filter_contains_rev(f, e);
                            let j = choose|j: int| 0 <= j < b.len() && b[j] == e;
                            assert(old_out[p + j] < x);
                        }
                    }
                    assert(seq![x].filter(f) =~= seq![x]) by {
                        reveal_with_fuel(Seq::filter, 2);
                    }
                    assert(old_out.filter(f) =~= a.filter(f));
                    assert(out@.filter(f) =~= a.filter(f).push(x));
                } else {
                    assert(seq![x].filter(f) =~= Seq::<u8>::empty()) by {
                        reveal_with_fuel(Seq::filter, 2);
                    }
                    assert(out@.filter(f) =~= old_out.filter(f));
                }
            }
        }
    }
    proof {
        assert(input@.take(n as int) =~= input@);
        assert forall|v: u8| #[trigger] count_of(out@, v) == count_of(input@, v) by {
            assert(entries_equal_to(out@, v) == entries_equal_to(input@.take(n as int), v));
        }
    }
    out
}

impl Qrels {
    /// Creates an empty judgment set.
    pub fn new() -> (q: Qrels)
        ensures
            q@ == Map::<u64, Map<u64, u8>>::empty(),
    {
        let q = Qrels { by_query: HashMap::new() };
        assert(q@ =~= Map::<u64, Map<u64, u8>>::empty());
        q
    }

    /// Adds or overwrites a judgment.
    pub fn insert(&mut self, query: QueryId, judgment: Judgment)
        ensures
            final(self)@ == old(self)@.insert(
                query.0,
                grades_of(old(self)@, query.0).insert(judgment.doc.0, judgment.relevance),
            ),
    {
        let ghost before = self@;
        let mut inner = match self.by_query.remove(&query.0) {
            Some(m) => m,
            None => HashMap::new(),
        };
        assert(inner@ == grades_of(before, query.0));
        inner.insert(judgment.doc.0, judgment.relevance);
        self.by_query.insert(query.0, inner);
        assert(self@ =~= before.insert(
            query.0,
            grades_of(before, query.0).insert(judgment.doc.0, judgment.relevance),
        ));
    }

    /// The graded relevance of a document for a query (`0` if unjudged).
    pub fn relevance(&self, query: QueryId, doc: DocId) -> (r: u8)
        ensures
            r == grade(self@, query.0, doc.0),
    {
        match self.by_query.get(&query.0) {
            Some(m) => match m.get(&doc.0) {
                Some(r) => *r,
                None => 0,
            },
            None => 0,
        }
    }

    /// The number of documents judged relevant (grade above zero) for a query.
    pub fn relevant_count(&self, query: QueryId) -> (n: usize)
        ensures
            n == relevant_docs(grades_of(self@, query.0)).len(),
    {
        match self.by_query.get(&query.0) {
            Some(m) => count_grades(m, true, 0),
            None => {
                assert(relevant_docs(grades_of(self@, query.0)) =~= Set::<u64>::empty());
                0
            },
        }
    }

    /// The ideal (descending) relevance vector for a query: every positive
    /// grade judged for the query, each as often as it was given, highest
    /// first. It is the denominator of normalized DCG.
    pub fn ideal_gains(&self, query: QueryId) -> (gains: Vec<u8>)
        ensures
            non_increasing(gains@),
            count_of(gains@, 0) == 0,
            forall|v: u8| v > 0 ==> #[trigger] count_of(gains@, v) == docs_with_grade(grades_of(self@, query.0), v).len(),
            gains@.len() == relevant_docs(grades_of(self@, query.0)).len(),
    {
        let positive = match self.by_query.get(&query.0) {
            Some(m) => positive_grades(m),
            None => {
                let e: Vec<u8> = Vec::new();
                assert forall|v: u8| v > 0 implies #[trigger] count_of(e@, v) == docs_with_grade(grades_of(self@, query.0), v).len() by {
                    assert(e@.filter(equals(v)) =~= Seq::<u8>::empty());
                    assert(docs_with_grade(grades_of(self@, query.0), v) =~= Set::<u64>::empty());
                }
                assert(e@.filter(equals(0)) =~= Seq::<u8>::empty());
                assert(relevant_docs(grades_of(self@, query.0)) =~= Set::<u64>::empty());
                e
            },
        };
        sort_grades_desc(&positive)
    }

    /// Every judgment as a `(query, document, grade)` triple, each exactly
    /// once, in the map's walk order.
    pub fn iter(&self) -> (out: Vec<(QueryId, DocId, u8)>)
        ensures
            lists_judgments(self@, out@),
    {
        let mut out: Vec<(QueryId, DocId, u8)> = Vec::new();
        let ghost m = self@;
        let ghost qkeys = spec_keys_iter(&self.by_query).remaining();
        let ghost mut qidx: int = 0;
        // For each triple, the position of its query among the walked keys.
        let ghost mut origin: Seq<int> = Seq::empty();
        // Where each listed `(query, document)` pair stands in `out`.
        let ghost mut at: Map<(u64, u64), int> = Map::empty();
        for q in itq: self.by_query.keys()
            invariant
                m == self@,
                itq.seq() == qkeys,
                qkeys == spec_keys_iter(&self.by_query).remaining(),
                qidx == itq.index(),
                origin.len() == out.len(),
                forall|i: int| 0 <= i < out.len() ==> {
                    &&& m.contains_key((#[trigger] out@[i]).0.0)
                    &&& m[out@[i].0.0].contains_key(out@[i].1.0)
                    &&& m[out@[i].0.0][out@[i].1.0] == out@[i].2
                    &&& 0 <= origin[i] < qidx
                    &&& *qkeys[origin[i]] == out@[i].0.0
                },
                forall|i: int, j: int| 0 <= i < j < out.len() ==> ((#[trigger] out@[i]).0 != (#[trigger] out@[j]).0 || out@[i].1 != out@[j].1),
                forall|a: int, d: u64| 0 <= a < qidx && #[trigger] m[*qkeys[a]].contains_key(d) ==> at.contains_key((*qkeys[a], d)),
                forall|k: (u64, u64)| #[trigger] at.contains_key(k) ==> 0 <= at[k] < out.len() && out@[at[k]].0.0 == k.0 && out@[at[k]].1.0 == k.1,
        {
            let ghost qv: u64 = *q;
            proof {
                assert(itq.seq()[qidx] == q);
                assert(qkeys.unref()[qidx] == qv);
                assert(qkeys.unref().to_set().contains(qv));
            }
            let inner = self.by_query.get(q).unwrap();
            assert(inner@ == m[qv]);
            let ghost dkeys = spec_keys_iter(inner).remaining();
            let ghost mut didx: int = 0;
            let ghost before = out@.len();
            // For the triples of this query, the position of their document among the walked keys.
            let ghost mut dorigin: Map<int, int> = Map::empty();
            for d in itd: inner.keys()
                invariant
                    *q == qv,
                    m == self@,
                    qkeys == spec_keys_iter(&self.by_query).remaining(),
                    0 <= qidx < qkeys.len(),
                    *qkeys[qidx] == qv,
                    inner@ == m[qv],
                    m.contains_key(qv),
                    itd.seq() == dkeys,
                    dkeys == spec_keys_iter(inner).remaining(),
                    didx == itd.index(),
                    before <= out.len(),
                    origin.len() == out.len(),
                    forall|i: int| 0 <= i < out.len() ==> {
                        &&& m.contains_key((#[trigger] out@[i]).0.0)
                        &&& m[out@[i].0.0].contains_key(out@[i].1.0)
                        &&& m[out@[i].0.0][out@[i].1.0] == out@[i].2
                        &&& 0 <= origin[i] <= qidx
                        &&& *qkeys[origin[i]] == out@[i].0.0
                        &&& (origin[i] == qidx <==> i >= before)
                    },
                    forall|i: int| before <= i < out.len() ==> #[trigger] dorigin.contains_key(i) && 0 <= dorigin[i] < didx && *dkeys[dorigin[i]] == out@[i].1.0,
                    forall|i: int, j: int| 0 <= i < j < out.len() ==> ((#[trigger] out@[i]).0 != (#[trigger] out@[j]).0 || out@[i].1 != out@[j].1),
                    forall|a: int, dd: u64| 0 <= a < qidx && #[trigger] m[*qkeys[a]].contains_key(dd) ==> at.contains_key((*qkeys[a], dd)),
                    forall|b: int| 0 <= b < didx ==> at.contains_key((qv, #[trigger] *dkeys[b])),
                    forall|k: (u64, u64)| #[trigger] at.contains_key(k) ==> 0 <= at[k] < out.len() && out@[at[k]].0.0 == k.0 && out@[at[k]].1.0 == k.1,
            {
                let ghost dv: u64 = *d;
                proof {
                    assert(itd.seq()[didx] == d);
                    assert(dkeys.unref()[didx] == dv);
                    assert(dkeys.unref().to_set().contains(dv));
                }
                let r = *inner.get(d).unwrap();
                let ghost prev = out@;
                out.push((QueryId(*q), DocId(*d), r));
                proof {
                    let n = prev.len() as int;
                    assert forall|i: int, j: int| 0 <= i < j < out.len() implies ((#[trigger] out@[i]).0 != (#[trigger] out@[j]).0 || out@[i].1 != out@[j].1) by {
                        assert(out@[i] == prev[i]);
                        if j < n {
                            assert(out@[j] == prev[j]);
                        }
                        if j == n && out@[i].0 == out@[j].0 && out@[i].1 == out@[j].1 {
                            if i < before {
                                assert(qkeys.no_duplicates());
                                assert(*qkeys[origin[i]] == *qkeys[qidx]);
                            } else {
                                assert(dorigin.contains_key(i));
                                assert(dkeys.no_duplicates());
                                assert(*dkeys[dorigin[i]] == *dkeys[didx]);
                            }
                        }
                    }
                    origin = origin.push(qidx);
                    dorigin = dorigin.insert(n, didx);
                    at = at.insert((qv, dv), n);
                    assert forall|i: int| 0 <= i < out.len() implies {
                        &&& m.contains_key((#[trigger] out@[i]).0.0)
                        &&& m[out@[i].0.0].contains_key(out@[i].1.0)
                        &&& m[out@[i].0.0][out@[i].1.0] == out@[i].2
                        &&& 0 <= origin[i] <= qidx
                        &&& *qkeys[origin[i]] == out@[i].0.0
                        &&& (origin[i] == qidx <==> i >= before)
                    } by {
                        if i < n {
                            assert(out@[i] == prev[i]);
                        }
                    }
                    assert forall|i: int| before <= i < out.len() implies #[trigger] dorigin.contains_key(i) && 0 <= dorigin[i] < didx + 1 && *dkeys[dorigin[i]] == out@[i].1.0 by {
                        if i < n {
                            assert(out@[i] == prev[i]);
                        }
                    }
                    assert forall|k: (u64, u64)| #[trigger] at.contains_key(k) implies 0 <= at[k] < out.len() && out@[at[k]].0.0 == k.0 && out@[at[k]].1.0 == k.1 by {
                        if k != (qv, dv) {
                            assert(out@[at[k]] == prev[at[k]]);
                        }
                    }
                    didx = didx + 1;
                }
            }
            proof {
                assert forall|a: int, dd: u64| 0 <= a < qidx + 1 && #[trigger] m[*qkeys[a]].contains_key(dd) implies at.contains_key((*qkeys[a], dd)) by {
                    if a == qidx {
                        let u = dkeys.unref();
                        assert(inner@.dom().contains(dd));
                        assert(u.to_set().contains(dd));
                        let b = choose|b: int| 0 <= b < u.len() && u[b] == dd;
                        assert(*dkeys[b] == dd);
                    }
                }
                qidx = qidx + 1;
            }
        }
        proof {
            assert forall|qq: u64, dd: u64| m.contains_key(qq) && #[trigger] m[qq].contains_key(dd) implies exists|i: int| 0 <= i < out.len() && (#[trigger] out@[i]).0.0 == qq && out@[i].1.0 == dd by {
                let u = qkeys.unref();
                assert(self.by_query@.dom().contains(qq));
                assert(u.to_set().contains(qq));
                let a = choose|a: int| 0 <= a < u.len() && u[a] == qq;
                assert(*qkeys[a] == qq);
                assert(m[*qkeys[a]].contains_key(dd));
                assert(at.contains_key((qq, dd)));
                let i = at[(qq, dd)];
                assert(out@[i].0.0 == qq);
            }
        }
        out
    }

    /// Every query's judgments are finite.
    pub proof fn lemma_finite(&self)
        ensures
            forall|q: u64| #[trigger] grades_of(self@, q).dom().finite(),
    {
        assert forall|q: u64| #[trigger] grades_of(self@, q).dom().finite() by {
            if self@.contains_key(q) {
                assert(self.by_query@[q]@.dom().finite());
            } else {
                assert(Map::<u64, u8>::empty().dom() =~= Set::<u64>::empty());
            }
        }
    }

    /// Whether any judgments exist.
    pub fn is_empty(&self) -> (b: bool)
        ensures
            b == (self@.dom() == Set::<u64>::empty()),
    {
        let b = self.by_query.is_empty();
        assert(self@.dom() =~= self.by_query@.dom());
        b
    }
}

/// The positive grades of `m`, one entry per judged document, in walk order.
fn positive_grades(m: &HashMap<u64, u8>) -> (out: Vec<u8>)
    ensures
        out@.len() == relevant_docs(m@).len(),
        count_of(out@, 0) == 0,
        forall|v: u8| v > 0 ==> #[trigger] count_of(out@, v) == docs_with_grade(m@, v).len(),
{
    let ghost mut seen: Set<u64> = Set::empty();
    let mut out: Vec<u8> = Vec::new();
    let ghost keys_seq = spec_keys_iter(m).remaining();
    let ghost mut idx: int = 0;
    assert forall|v: u8| #[trigger] count_of(out@, v) == 0 && seen.filter(grade_selector(m@, false, v)) =~= Set::<u64>::empty() by {
        assert(out@.filter(equals(v)) =~= Seq::<u8>::empty());
    }
    assert(seen.filter(grade_selector(m@, true, 0)) =~= Set::<u64>::empty());
    for k in it: m.keys()
        invariant
            it.seq() == keys_seq,
            keys_seq == spec_keys_iter(m).remaining(),
            idx == it.index(),
            forall|x: u64| #[trigger] seen.contains(x) <==> exists|i: int| 0 <= i < idx && keys_seq[i] == x,
            seen.finite(),
            out@.len() == seen.filter(grade_selector(m@, true, 0)).len(),
            count_of(out@, 0) == 0,
            forall|v: u8| v > 0 ==> #[trigger] count_of(out@, v) == seen.filter(grade_selector(m@, false, v)).len(),
    {
        proof {
            assert(it.seq()[idx] == *k);
            assert(keys_seq.unref()[idx] == *k);
            assert(keys_seq.unref().to_set().contains(*k));
            assert(!seen.contains(*k)) by {
                if seen.contains(*k) {
                    let i = choose|i: int| 0 <= i < idx && keys_seq[i] == *k;
                    assert(keys_seq.no_duplicates());
                }
            }
        }
        let g: u8 = match m.get(k) {
            Some(g) => *g,
            None => 0,
        };
        assert(m@[*k] == g);
        let ghost old_out = out@;
        if g > 0 {
            out.push(g);
        }
        proof {
            let s2 = seen.insert(*k);
            assert forall|v: u8| v > 0 implies #[trigger] count_of(out@, v) == s2.filter(grade_selector(m@, false, v)).len() by {
                let f = equals(v);
                let sel = grade_selector(m@, false, v);
                assert(count_of(old_out, v) == seen.filter(sel).len());
                if g > 0 {
                    old_out.lemma_filter_push(g, f);
                } else {
                    assert(out@ == old_out);
                }
                if g == v {
                    assert(sel(*k));
                    assert(s2.filter(sel) =~= seen.filter(sel).insert(*k));
                    assert(!seen.filter(sel).contains(*k));
                    assert(count_of(out@, v) == count_of(old_out, v) + 1);
                } else {
                    assert(!sel(*k));
                    assert(s2.filter(sel) =~= seen.filter(sel));
                    assert(count_of(out@, v) == count_of(old_out, v));
                }
            }
            if g > 0 {
                old_out.lemma_filter_push(g, equals(0));
            }
            let pos = grade_selector(m@, true, 0);
            if g > 0 {
                assert(s2.filter(pos) =~= seen.filter(pos).insert(*k));
                assert(!seen.filter(pos).contains(*k));
            } else {
                assert(s2.filter(pos) =~= seen.filter(pos));
            }
            seen = s2;
            idx = idx + 1;
        }
    }
    proof {
        assert(seen =~= m@.dom()) by {
            let u = keys_seq.unref();
            assert forall|x: u64| m@.dom().contains(x) implies seen.contains(x) by {
                assert(u.to_set().contains(x));
                let i = choose|i: int| 0 <= i < u.len() && u[i] == x;
                assert(keys_seq[i] == x);
            }
            assert forall|x: u64| seen.contains(x) implies m@.dom().contains(x) by {
                let i = choose|i: int| 0 <= i < idx && keys_seq[i] == x;
                assert(u[i] == x);
                assert(u.contains(x));
                assert(u.to_set().contains(x));
            }
        }
        assert forall|v: u8| v > 0 implies #[trigger] count_of(out@, v) == docs_with_grade(m@, v).len() by {
            assert(seen.filter(grade_selector(m@, false, v)) =~= docs_with_grade(m@, v));
        }
        assert(seen.filter(grade_selector(m@, true, 0)) =~= relevant_docs(m@));
    }
    out
}

/// Judging document `d` for query `q` with grade `g` makes the grade read
/// back for `(q, d)` equal to `g` and leaves every other pair's grade as it
/// was.
pub proof fn lemma_insert_then_grade(m: Map<u64, Map<u64, u8>>, q: u64, d: u64, g: u8, q2: u64, d2: u64)
    ensures
        grade(m.insert(q, grades_of(m, q).insert(d, g)), q, d) == g,
        q2 != q || d2 != d ==> grade(m.insert(q, grades_of(m, q).insert(d, g)), q2, d2) == grade(m, q2, d2),
{
}

} // verus!
