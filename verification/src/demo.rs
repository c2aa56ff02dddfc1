//! The offline demo: its arguments and the first-stage baseline it compares
//! the reranked order against.

use vstd::prelude::*;

use crate::candidate::{stable_best_first, Candidate, RankedList, ScoredCandidate};

verus! {

/// Seed of the synthetic scenario the demo and the benchmark run on.
pub const DEMO_SEED: u64 = 0xC0FF_EE00;

/// Arguments of the demo and benchmark runs.
#[derive(Debug, Clone, Copy, PartialEq, Eq, Structural)]
pub struct DemoArgs {
    /// Number of synthetic queries.
    pub queries: usize,
    /// Candidates per query.
    pub pool: usize,
    /// Relevant documents per query.
    pub relevant: usize,
    /// Evaluation cutoff `k`.
    pub k: usize,
}

impl Default for DemoArgs {
    /// Two hundred queries of fifty candidates, eight of them relevant,
    /// evaluated at cutoff ten.
    fn default() -> (a: DemoArgs)
        ensures
            a.queries == 200,
            a.pool == 50,
            a.relevant == 8,
            a.k == 10,
    {
        DemoArgs { queries: 200, pool: 50, relevant: 8, k: 10 }
    }
}

/// Each candidate scored by its own retrieval score.
pub open spec fn retrieval_scored(cs: Seq<Candidate>) -> Seq<ScoredCandidate> {
    cs.map_values(|c: Candidate| ScoredCandidate { id: c.id, score_bits: c.retrieval_bits, retrieval_bits: c.retrieval_bits })
}

/// The first-stage ranking: candidates ordered by their retrieval score
/// alone, ties keeping their input order.
pub fn baseline_ranking(candidates: &[Candidate]) -> (r: RankedList)
    ensures
        stable_best_first(retrieval_scored(candidates@), r.items@),
{
    let mut scored: Vec<ScoredCandidate> = Vec::new();
    for i in 0..candidates.len()
        invariant
            scored@ == retrieval_scored(candidates@.take(i as int)),
    {
        let c = &candidates[i];
        scored.push(ScoredCandidate::new(c.id, c.retrieval_bits, c.retrieval_bits));
        proof {
            assert(retrieval_scored(candidates@.take(i + 1)) =~= retrieval_scored(candidates@.take(i as int)).push(
                ScoredCandidate { id: c.id, score_bits: c.retrieval_bits, retrieval_bits: c.retrieval_bits },
            ));
        }
    }
    proof {
        assert(candidates@.take(candidates@.len() as int) =~= candidates@);
    }
    RankedList::from_scored(scored)
}

} // verus!
