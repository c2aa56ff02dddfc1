//! Domain events emitted on the reranking path, and their flattened view
//! for subscribers.

use vstd::prelude::*;

use crate::ids::QueryId;

verus! {

/// An event describing something that happened during reranking.
#[derive(Debug, Clone, PartialEq, Eq, Structural)]
pub enum RerankEvent {
    /// A query was reranked.
    QueryReranked {
        /// The query that was reranked.
        query: QueryId,
        /// Number of candidates considered.
        candidates: usize,
        /// Whether the AI path produced the ranking (`false`: the heuristic
        /// reranker did, configured or as the AI reranker's fallback).
        used_ai: bool,
    },
}

impl RerankEvent {
    /// A short, stable label for the event kind.
    pub fn kind(&self) -> (s: &'static str)
        ensures
            s@ == "query_reranked"@,
    {
        match self {
            RerankEvent::QueryReranked { .. } => "query_reranked",
        }
    }
}

/// The event published after reranking `candidates` candidates for `query`:
/// `used_ai` is whether the AI path produced the ranking (`ai_produced`),
/// false when the heuristic reranker did, also as a fallback.
pub fn reranked_event(query: QueryId, candidates: usize, ai_produced: bool) -> (e: RerankEvent)
    ensures
        e == (RerankEvent::QueryReranked { query, candidates, used_ai: ai_produced }),
{
    RerankEvent::QueryReranked { query, candidates, used_ai: ai_produced }
}

/// A flattened view of a domain event for subscribers.
#[derive(Debug, Clone)]
pub struct RerankEventView {
    /// Event kind (`query_reranked`).
    pub kind: String,
    /// The query that was reranked.
    pub query_id: u64,
    /// Number of candidates considered, truncated to 32 bits.
    pub candidates: u32,
    /// Whether the AI reranker was used.
    pub used_ai: bool,
}

impl RerankEventView {
    /// Flattens a domain event.
    pub fn from(e: RerankEvent) -> (v: RerankEventView)
        ensures
            v.kind@ == "query_reranked"@,
            match e {
                RerankEvent::QueryReranked { query, candidates, used_ai } => {
                    &&& v.query_id == query.0
                    &&& v.candidates == candidates as u32
                    &&& v.used_ai == used_ai
                },
            },
    {
        match e {
            RerankEvent::QueryReranked { query, candidates, used_ai } => RerankEventView {
                kind: String::from_str("query_reranked"),
                query_id: query.value(),
                candidates: #[verifier::truncate] (candidates as u32),
                used_ai,
            },
        }
    }
}

} // verus!
