//! A deterministic synthetic scenario generator.
//!
//! It fabricates queries, each with a pool of candidate documents and a
//! matching judgment set. Relevant documents are seeded with the query's own
//! terms, while the first-stage retrieval score is drawn independently of
//! relevance, so the gap between first-stage and reranked order is
//! observable.

use vstd::arithmetic::div_mod::lemma_add_mod_noop;
use vstd::prelude::*;

use crate::ids::{DocId, QueryId};
use crate::qrel::{grades_of, relevant_docs, Judgment, Qrels};
use crate::query::Query;
use crate::text::is_blank;

verus! {

/// The splitmix64 increment.
pub const GOLDEN_GAMMA: u64 = 0x9E37_79B9_7F4A_7C15;

/// The splitmix64 output function applied to an advanced state.
pub open spec fn splitmix_mix(z0: u64) -> u64 {
    let z1 = (((z0 ^ (z0 >> 30u64)) as nat * 0xBF58_476D_1CE4_E5B9nat) % 0x1_0000_0000_0000_0000nat) as u64;
    let z2 = (((z1 ^ (z1 >> 27u64)) as nat * 0x94D0_49BB_1331_11EBnat) % 0x1_0000_0000_0000_0000nat) as u64;
    z2 ^ (z2 >> 31u64)
}

/// The generator state after `t` draws from `seed`.
pub open spec fn state_after(seed: u64, t: int) -> u64 {
    ((seed + t * GOLDEN_GAMMA) % 0x1_0000_0000_0000_0000) as u64
}

/// The `t`-th (zero-based) number drawn from `seed`.
pub open spec fn draw(seed: u64, t: int) -> u64 {
    splitmix_mix(state_after(seed, t + 1))
}

/// Query topics, cycled through by query index.
pub open spec fn topic(i: nat) -> Seq<char> {
    if i == 0 { "rust async runtime"@ }
    else if i == 1 { "vector database search"@ }
    else if i == 2 { "distributed consensus raft"@ }
    else if i == 3 { "graph neural networks"@ }
    else if i == 4 { "reranking relevance evaluation"@ }
    else if i == 5 { "tokio scheduler tasks"@ }
    else if i == 6 { "bm25 inverted index"@ }
    else { "transformer attention layers"@ }
}

/// Filler words appended to generated documents.
pub open spec fn filler(i: nat) -> Seq<char> {
    if i == 0 { "system"@ }
    else if i == 1 { "design"@ }
    else if i == 2 { "overview"@ }
    else if i == 3 { "guide"@ }
    else if i == 4 { "notes"@ }
    else if i == 5 { "reference"@ }
    else if i == 6 { "example"@ }
    else if i == 7 { "tutorial"@ }
    else if i == 8 { "deep"@ }
    else if i == 9 { "dive"@ }
    else if i == 10 { "practical"@ }
    else { "advanced"@ }
}

fn topic_str(i: u64) -> (s: &'static str)
    requires
        i < 8,
    ensures
        s@ == topic(i as nat),
        !is_blank(s@),
{
    proof {
        reveal_strlit("rust async runtime");
        reveal_strlit("vector database search");
        reveal_strlit("distributed consensus raft");
        reveal_strlit("graph neural networks");
        reveal_strlit("reranking relevance evaluation");
        reveal_strlit("tokio scheduler tasks");
        reveal_strlit("bm25 inverted index");
        reveal_strlit("transformer attention layers");
    }
    let s = match i {
        0 => "rust async runtime",
        1 => "vector database search",
        2 => "distributed consensus raft",
        3 => "graph neural networks",
        4 => "reranking relevance evaluation",
        5 => "tokio scheduler tasks",
        6 => "bm25 inverted index",
        _ => "transformer attention layers",
    };
    assert(!crate::text::is_space(s@[0]));
    s
}

fn filler_str(i: u64) -> (s: &'static str)
    requires
        i < 12,
    ensures
        s@ == filler(i as nat),
{
    match i {
        0 => "system",
        1 => "design",
        2 => "overview",
        3 => "guide",
        4 => "notes",
        5 => "reference",
        6 => "example",
        7 => "tutorial",
        8 => "deep",
        9 => "dive",
        10 => "practical",
        _ => "advanced",
    }
}

/// Random draws used by one query: four per relevant slot (two fillers, a
/// retrieval score, a grade) and three per other slot (a topic, a filler, a
/// retrieval score).
pub open spec fn draws_per_query(pool: int, r: int) -> int {
    4 * r + 3 * (pool - r)
}

/// Index of the first draw used for slot `s` of query `q`.
pub open spec fn slot_base(pool: int, r: int, q: int, s: int) -> int {
    q * draws_per_query(pool, r) + if s < r { 4 * s } else { 4 * r + 3 * (s - r) }
}

/// Text of the document in slot `s` of query `q`: relevant slots repeat the
/// query's topic and add two filler words; the others name a random topic
/// and one filler word.
pub open spec fn doc_text(seed: u64, pool: int, r: int, q: int, s: int) -> Seq<char> {
    let b = slot_base(pool, r, q, s);
    if s < r {
        topic((q % 8) as nat) + " "@ + filler((draw(seed, b) % 12) as nat) + " "@ + filler((draw(seed, b + 1) % 12) as nat)
    } else {
        topic((draw(seed, b) % 8) as nat) + " "@ + filler((draw(seed, b + 1) % 12) as nat)
    }
}

/// First-stage score of the document in slot `s` of query `q`, in
/// thousandths (the score is this value divided by 1000).
pub open spec fn doc_retrieval(seed: u64, pool: int, r: int, q: int, s: int) -> int {
    (draw(seed, slot_base(pool, r, q, s) + 2) % 1000) as int
}

/// Grade (1 to 3) of the relevant document in slot `s` of query `q`.
pub open spec fn doc_grade(seed: u64, pool: int, r: int, q: int, s: int) -> u8 {
    (1 + draw(seed, slot_base(pool, r, q, s) + 3) % 3) as u8
}

/// The judgments of the first `n` slots of query `q`.
pub open spec fn judged_slots(seed: u64, pool: int, r: int, q: int, n: int) -> Map<u64, u8> {
    Map::new(
        |d: u64| q * pool <= d < q * pool + n,
        |d: u64| doc_grade(seed, pool, r, q, d - q * pool),
    )
}

/// The judgments of the first `nq` queries: each query's `r` relevant slots.
pub open spec fn scenario_judgments(seed: u64, pool: int, r: int, nq: int) -> Map<u64, Map<u64, u8>> {
    Map::new(|q: u64| q < nq && r > 0, |q: u64| judged_slots(seed, pool, r, q as int, r))
}

/// A generated candidate document.
#[derive(Debug, Clone, PartialEq, Eq)]
pub struct ScenarioDoc {
    /// Document identifier.
    pub id: DocId,
    /// Document text.
    pub text: String,
    /// First-stage retrieval score in thousandths (`0..1000`).
    pub retrieval_permille: u16,
}

/// Whether `d` is the document generated for slot `s` of query `q`: its
/// identifier numbers the slots of all queries in order.
pub open spec fn is_generated_doc(seed: u64, pool: int, r: int, q: int, s: int, d: ScenarioDoc) -> bool {
    &&& d.id.0 == q * pool + s
    &&& d.text@ == doc_text(seed, pool, r, q, s)
    &&& d.retrieval_permille == doc_retrieval(seed, pool, r, q, s)
}

/// Whether `docs` is the candidate pool generated for query `q`.
pub open spec fn is_generated_pool(seed: u64, pool: int, r: int, q: int, docs: Seq<ScenarioDoc>) -> bool {
    &&& docs.len() == pool
    &&& forall|s: int| 0 <= s < pool ==> is_generated_doc(seed, pool, r, q, s, #[trigger] docs[s])
}

/// A fully materialized evaluation scenario.
#[derive(Debug, Clone)]
pub struct Scenario {
    /// The queries to rerank.
    pub queries: Vec<Query>,
    /// Candidate lists, aligned by index with `queries`.
    pub candidates: Vec<(QueryId, Vec<ScenarioDoc>)>,
    /// Ground-truth relevance judgments.
    pub qrels: Qrels,
}

proof fn lemma_advance(seed: u64, t: int)
    ensures
        ((state_after(seed, t) + GOLDEN_GAMMA) % 0x1_0000_0000_0000_0000) as u64 == state_after(seed, t + 1),
{
    let m: int = 0x1_0000_0000_0000_0000;
    let x: int = seed + t * GOLDEN_GAMMA;
    lemma_add_mod_noop(x, GOLDEN_GAMMA as int, m);
    assert(x + GOLDEN_GAMMA == seed + (t + 1) * GOLDEN_GAMMA) by (nonlinear_arith)
        requires
            x == seed + t * GOLDEN_GAMMA,
    {
    }
}

/// The number of relevant slots per query: `relevant`, at most `pool`.
pub open spec fn relevant_slots(pool: usize, relevant: usize) -> int {
    if relevant < pool { relevant as int } else { pool as int }
}

/// `sc` is the scenario generated from `seed` with `queries` queries of
/// `pool` candidates, the first `relevant` (at most `pool`) of them relevant:
/// query `q` has id `q` and the `q % 8`-th topic as its text, its candidates
/// are the generated pool, and the judgments grade each query's relevant
/// slots.
pub open spec fn generated(seed: u64, queries: usize, pool: usize, relevant: usize, sc: Scenario) -> bool {
    let r = relevant_slots(pool, relevant);
    &&& sc.queries@.len() == queries
    &&& sc.candidates@.len() == queries
    &&& forall|q: int| 0 <= q < queries ==> {
        &&& (#[trigger] sc.queries@[q]).id.0 == q
        &&& sc.queries@[q].text@ == topic((q % 8) as nat)
        &&& sc.candidates@[q].0.0 == q
        &&& is_generated_pool(seed, pool as int, r, q, sc.candidates@[q].1@)
    }
    &&& sc.qrels@ == scenario_judgments(seed, pool as int, r, queries as int)
}

/// Generation is deterministic: two scenarios generated from the same seed
/// and sizes hold the same queries, candidates and judgments.
pub proof fn lemma_generation_is_deterministic(
    seed: u64,
    queries: usize,
    pool: usize,
    relevant: usize,
    a: Scenario,
    b: Scenario,
)
    requires
        generated(seed, queries, pool, relevant, a),
        generated(seed, queries, pool, relevant, b),
    ensures
        a.qrels@ == b.qrels@,
        a.queries@.len() == b.queries@.len(),
        a.candidates@.len() == b.candidates@.len(),
        forall|q: int| 0 <= q < a.queries@.len() ==> {
            &&& (#[trigger] a.queries@[q]).id == b.queries@[q].id
            &&& a.queries@[q].text@ == b.queries@[q].text@
        },
        forall|q: int| 0 <= q < a.candidates@.len() ==> {
            &&& (#[trigger] a.candidates@[q]).0 == b.candidates@[q].0
            &&& a.candidates@[q].1@.len() == b.candidates@[q].1@.len()
            &&& forall|s: int| 0 <= s < a.candidates@[q].1@.len() ==> {
                &&& (#[trigger] a.candidates@[q].1@[s]).id == b.candidates@[q].1@[s].id
                &&& a.candidates@[q].1@[s].text@ == b.candidates@[q].1@[s].text@
                &&& a.candidates@[q].1@[s].retrieval_permille == b.candidates@[q].1@[s].retrieval_permille
            }
        },
{
    let r = relevant_slots(pool, relevant);
    assert forall|q: int| 0 <= q < a.queries@.len() implies {
        &&& (#[trigger] a.queries@[q]).id == b.queries@[q].id
        &&& a.queries@[q].text@ == b.queries@[q].text@
    } by {
        assert(a.queries@[q].id.0 == b.queries@[q].id.0);
    }
    assert forall|q: int| 0 <= q < a.candidates@.len() implies {
        &&& (#[trigger] a.candidates@[q]).0 == b.candidates@[q].0
        &&& a.candidates@[q].1@.len() == b.candidates@[q].1@.len()
        &&& forall|s: int| 0 <= s < a.candidates@[q].1@.len() ==> {
            &&& (#[trigger] a.candidates@[q].1@[s]).id == b.candidates@[q].1@[s].id
            &&& a.candidates@[q].1@[s].text@ == b.candidates@[q].1@[s].text@
            &&& a.candidates@[q].1@[s].retrieval_permille == b.candidates@[q].1@[s].retrieval_permille
        }
    } by {
        assert(a.queries@[q].id.0 == q);
        assert(b.queries@[q].id.0 == q);
        let da = a.candidates@[q].1@;
        let db = b.candidates@[q].1@;
        assert(is_generated_pool(seed, pool as int, r, q, da));
        assert(is_generated_pool(seed, pool as int, r, q, db));
        assert forall|s: int| 0 <= s < da.len() implies {
            &&& (#[trigger] da[s]).id == db[s].id
            &&& da[s].text@ == db[s].text@
            &&& da[s].retrieval_permille == db[s].retrieval_permille
        } by {
            assert(is_generated_doc(seed, pool as int, r, q, s, da[s]));
            assert(is_generated_doc(seed, pool as int, r, q, s, db[s]));
        }
    }
}

/// Generates deterministic scenarios from a seed.
#[derive(Debug, Clone, Copy, PartialEq, Eq, Structural)]
pub struct ScenarioGenerator {
    seed: u64,
}

impl ScenarioGenerator {
    /// Creates a generator with the given seed.
    pub fn new(seed: u64) -> (g: ScenarioGenerator)
        ensures
            g.seed() == seed,
    {
        ScenarioGenerator { seed }
    }

    /// The seed.
    pub closed spec fn seed(&self) -> u64 {
        self.seed
    }

    /// Builds a scenario with `queries` queries and `pool` candidates each, of
    /// which the first `relevant` (at most `pool`) are seeded as relevant.
    pub fn generate(&self, queries: usize, pool: usize, relevant: usize) -> (sc: Scenario)
        requires
            queries * pool <= u64::MAX,
        ensures
            generated(self.seed(), queries, pool, relevant, sc),
    {
        let seed = self.seed;
        let mut state = seed;
        let nq = queries as u64;
        let p = pool as u64;
        let r: u64 = if relevant < pool { relevant as u64 } else { pool as u64 };
        let ghost d = draws_per_query(p as int, r as int);
        let mut out_queries: Vec<Query> = Vec::new();
        let mut out_candidates: Vec<(QueryId, Vec<ScenarioDoc>)> = Vec::new();
        let mut qrels = Qrels::new();
        proof {
            assert(state_after(seed, 0) == seed);
            assert(qrels@ =~= scenario_judgments(seed, p as int, r as int, 0));
        }
        let mut qi: u64 = 0;
        while qi < nq
            invariant
                nq == queries,
                p == pool,
                r <= p,
                r == (if relevant < pool { relevant as int } else { pool as int }),
                nq * p <= u64::MAX,
                qi <= nq,
                d == draws_per_query(p as int, r as int),
                state == state_after(seed, qi * d),
                qrels@ == scenario_judgments(seed, p as int, r as int, qi as int),
                out_queries@.len() == qi,
                out_candidates@.len() == qi,
                forall|q: int| 0 <= q < qi ==> {
                    &&& (#[trigger] out_queries@[q]).id.0 == q
                    &&& out_queries@[q].text@ == topic((q % 8) as nat)
                    &&& out_candidates@[q].0.0 == q
                    &&& is_generated_pool(seed, p as int, r as int, q, out_candidates@[q].1@)
                },
            decreases nq - qi,
        {
            proof {
                assert(qi * p + p <= nq * p) by (nonlinear_arith)
                    requires
                        qi < nq,
                {
                }
            }
            let qid = QueryId(qi);
            let text = topic_str(qi % 8);
            let query = match Query::new(qid, String::from_str(text)) {
                Ok(q) => q,
                Err(_) => {
                    proof {
                        assert(false);
                    }
                    return Scenario { queries: out_queries, candidates: out_candidates, qrels };
                },
            };
            let docs = Self::generate_query(&mut state, Ghost(seed), qi, p, r, &mut qrels);
            out_queries.push(query);
            out_candidates.push((qid, docs));
            proof {
                assert((qi + 1) * d == qi * d + d) by (nonlinear_arith);
            }
            qi = qi + 1;
        }
        let sc = Scenario { queries: out_queries, candidates: out_candidates, qrels };
        proof {
            assert(r == relevant_slots(pool, relevant));
            assert(qi == queries);
            assert forall|q: int| 0 <= q < queries implies {
                &&& (#[trigger] sc.queries@[q]).id.0 == q
                &&& sc.queries@[q].text@ == topic((q % 8) as nat)
                &&& sc.candidates@[q].0.0 == q
                &&& is_generated_pool(seed, pool as int, relevant_slots(pool, relevant), q, sc.candidates@[q].1@)
            } by {
                assert(sc.queries@[q] == out_queries@[q]);
            }
        }
        sc
    }

    /// One splitmix64 step: advances `state` by the golden gamma and returns
    /// the mixed new state.
    pub fn next(state: &mut u64) -> (r: u64)
        ensures
            *final(state) == ((*old(state) + GOLDEN_GAMMA) % 0x1_0000_0000_0000_0000) as u64,
            r == splitmix_mix(*final(state)),
    {
        *state = state.wrapping_add(0x9E37_79B9_7F4A_7C15);
        let mut z = *state;
        z = (z ^ (z >> 30)).wrapping_mul(0xBF58_476D_1CE4_E5B9);
        z = (z ^ (z >> 27)).wrapping_mul(0x94D0_49BB_1331_11EB);
        z ^ (z >> 31)
    }

    /// Draws the next number, tracking how many have been drawn.
    fn draw_next(state: &mut u64, Ghost(seed): Ghost<u64>, Ghost(t): Ghost<int>) -> (r: u64)
        requires
            *old(state) == state_after(seed, t),
        ensures
            *final(state) == state_after(seed, t + 1),
            r == draw(seed, t),
    {
        let r = Self::next(state);
        proof {
            lemma_advance(seed, t);
        }
        r
    }

    /// The judgments recorded while generating query `q`, once its first
    /// `slot` slots are done.
    spec fn partial_judgments(seed: u64, pool: int, r: int, q: u64, slot: int) -> Map<u64, Map<u64, u8>> {
        let n = if slot < r { slot } else { r };
        let before = scenario_judgments(seed, pool, r, q as int);
        if n == 0 {
            before
        } else {
            before.insert(q, judged_slots(seed, pool, r, q as int, n))
        }
    }

    /// Generates the document in slot `slot` of query `qi`, recording its
    /// judgment when the slot is relevant.
    fn generate_doc(
        state: &mut u64,
        Ghost(seed): Ghost<u64>,
        qi: u64,
        pool: u64,
        r: u64,
        slot: u64,
        qrels: &mut Qrels,
    ) -> (doc: ScenarioDoc)
        requires
            r <= pool,
            slot < pool,
            qi * pool + pool <= u64::MAX,
            *old(state) == state_after(seed, slot_base(pool as int, r as int, qi as int, slot as int)),
            old(qrels)@ == Self::partial_judgments(seed, pool as int, r as int, qi, slot as int),
        ensures
            *final(state) == state_after(seed, slot_base(pool as int, r as int, qi as int, slot + 1)),
            final(qrels)@ == Self::partial_judgments(seed, pool as int, r as int, qi, slot + 1),
            doc.id.0 == qi * pool + slot,
            doc.text@ == doc_text(seed, pool as int, r as int, qi as int, slot as int),
            doc.retrieval_permille == doc_retrieval(seed, pool as int, r as int, qi as int, slot as int),
    {
        let ghost p = pool as int;
        let ghost rr = r as int;
        let ghost q = qi as int;
        let ghost b = slot_base(p, rr, q, slot as int);
        let id = DocId(qi * pool + slot);
        let relevant = slot < r;
        let text = if relevant {
            let f1 = Self::draw_next(state, Ghost(seed), Ghost(b));
            let f2 = Self::draw_next(state, Ghost(seed), Ghost(b + 1));
            String::from_str(topic_str(qi % 8)).concat(" ").concat(filler_str(f1 % 12)).concat(" ").concat(filler_str(f2 % 12))
        } else {
            let other = Self::draw_next(state, Ghost(seed), Ghost(b));
            let f = Self::draw_next(state, Ghost(seed), Ghost(b + 1));
            String::from_str(topic_str(other % 8)).concat(" ").concat(filler_str(f % 12))
        };
        let retrieval = Self::draw_next(state, Ghost(seed), Ghost(b + 2));
        let retrieval_permille = (retrieval % 1000) as u16;
        proof {
            assert(slot_base(p, rr, q, slot + 1) == b + if slot < r { 4int } else { 3int });
        }
        if relevant {
            let g = Self::draw_next(state, Ghost(seed), Ghost(b + 3));
            let grade = (1 + g % 3) as u8;
            let ghost old_q = qrels@;
            qrels.insert(QueryId(qi), Judgment::new(id, grade));
            proof {
                assert(!scenario_judgments(seed, p, rr, q).contains_key(qi));
                assert(grades_of(old_q, qi) =~= judged_slots(seed, p, rr, q, slot as int));
                assert(judged_slots(seed, p, rr, q, slot as int).insert(id.0, grade) =~= judged_slots(seed, p, rr, q, slot + 1));
                assert(qrels@ =~= Self::partial_judgments(seed, p, rr, qi, slot + 1));
            }
        }
        ScenarioDoc { id, text, retrieval_permille }
    }

    /// Generates the documents of query `qi`, recording the judgments of its
    /// relevant slots.
    fn generate_query(
        state: &mut u64,
        Ghost(seed): Ghost<u64>,
        qi: u64,
        pool: u64,
        r: u64,
        qrels: &mut Qrels,
    ) -> (docs: Vec<ScenarioDoc>)
        requires
            r <= pool,
            qi * pool + pool <= u64::MAX,
            *old(state) == state_after(seed, qi * draws_per_query(pool as int, r as int)),
            old(qrels)@ == scenario_judgments(seed, pool as int, r as int, qi as int),
        ensures
            *final(state) == state_after(seed, (qi + 1) * draws_per_query(pool as int, r as int)),
            final(qrels)@ == scenario_judgments(seed, pool as int, r as int, qi + 1),
            is_generated_pool(seed, pool as int, r as int, qi as int, docs@),
    {
        let mut docs: Vec<ScenarioDoc> = Vec::new();
        proof {
            assert(slot_base(pool as int, r as int, qi as int, 0) == qi * draws_per_query(pool as int, r as int));
            assert(qrels@ =~= Self::partial_judgments(seed, pool as int, r as int, qi, 0));
        }
        for slot in 0..pool
            invariant
                r <= pool,
                qi * pool + pool <= u64::MAX,
                *state == state_after(seed, slot_base(pool as int, r as int, qi as int, slot as int)),
                qrels@ == Self::partial_judgments(seed, pool as int, r as int, qi, slot as int),
                docs@.len() == slot,
                forall|s: int| 0 <= s < slot ==> is_generated_doc(seed, pool as int, r as int, qi as int, s, #[trigger] docs@[s]),
        {
            let d = Self::generate_doc(state, Ghost(seed), qi, pool, r, slot, qrels);
            docs.push(d);
        }
        proof {
            let p = pool as int;
            let rr = r as int;
            assert(slot_base(p, rr, qi as int, p) == (qi + 1) * draws_per_query(p, rr)) by (nonlinear_arith)
                requires
                    rr <= p,
            {
            }
            assert(qrels@ =~= scenario_judgments(seed, p, rr, qi + 1));
        }
        docs
    }
}

/// Every generated query has exactly `min(relevant, pool)` relevant
/// documents: the judgments of query `q` grade its first `r` documents, all
/// with a positive grade.
pub proof fn lemma_generated_relevant_count(seed: u64, pool: int, r: int, nq: int, q: u64)
    requires
        0 <= r <= pool,
        q < nq,
        nq * pool <= u64::MAX,
    ensures
        relevant_docs(grades_of(scenario_judgments(seed, pool, r, nq), q)).len() == r,
        relevant_docs(grades_of(scenario_judgments(seed, pool, r, nq), q)).finite(),
{
    let lo = q * pool;
    assert(lo + r <= nq * pool) by (nonlinear_arith)
        requires
            q < nq,
            0 <= r <= pool,
            lo == q * pool,
    {
    }
    let g = grades_of(scenario_judgments(seed, pool, r, nq), q);
    lemma_u64_range_len(lo, r);
    if r == 0 {
        assert(relevant_docs(g) =~= u64_range(lo, 0));
    } else {
        assert(relevant_docs(g) =~= u64_range(lo, r)) by {
            assert forall|d: u64| #[trigger] u64_range(lo, r).contains(d) implies relevant_docs(g).contains(d) by {
                assert(g.contains_key(d));
                assert(g[d] == doc_grade(seed, pool, r, q as int, d - lo));
            }
        }
    }
}

/// The `n` consecutive document ids from `lo`.
pub open spec fn u64_range(lo: int, n: int) -> Set<u64> {
    Set::new(|d: u64| lo <= d < lo + n)
}

proof fn lemma_u64_range_len(lo: int, n: int)
    requires
        0 <= lo,
        0 <= n,
        lo + n <= u64::MAX + 1,
    ensures
        u64_range(lo, n).finite(),
        u64_range(lo, n).len() == n,
    decreases n,
{
    if n == 0 {
        assert(u64_range(lo, n) =~= Set::<u64>::empty());
    } else {
        lemma_u64_range_len(lo, n - 1);
        let last = (lo + n - 1) as u64;
        assert(u64_range(lo, n) =~= u64_range(lo, n - 1).insert(last));
    }
}

/// A generated document's first-stage score is the third number drawn for
/// its slot, reduced below a thousand, by one formula for relevant and
/// irrelevant slots alike: the score is drawn independently of relevance.
/// Its text starts with the query's topic on a relevant slot.
pub proof fn lemma_retrieval_ignores_relevance(seed: u64, pool: int, r: int, q: int, s: int, d: ScenarioDoc)
    requires
        is_generated_doc(seed, pool, r, q, s, d),
    ensures
        d.retrieval_permille == splitmix_mix(state_after(seed, slot_base(pool, r, q, s) + 3)) % 1000,
        d.retrieval_permille < 1000,
        d.id.0 == q * pool + s,
        s < r ==> d.text@.take(topic((q % 8) as nat).len() as int) == topic((q % 8) as nat),
{
    if s < r {
        let t = topic((q % 8) as nat);
        let b = slot_base(pool, r, q, s);
        assert(d.text@ == t + " "@ + filler((draw(seed, b) % 12) as nat) + " "@ + filler((draw(seed, b + 1) % 12) as nat));
        assert(d.text@.take(t.len() as int) =~= t);
    }
}

} // verus!
