//! RerankLab: second-stage reranking and offline relevance evaluation.
//!
//! The verified core of the service: identifiers, queries and candidates, the
//! NaN-safe best-first ordering of scored candidates, relevance judgments,
//! the integer side of the evaluation metrics, lexical tokenization and
//! overlap counts, the generative reranker's prompt and reply handling,
//! domain events, the circuit breaker, retry backoff, and the synthetic
//! scenario generator.

pub mod ai;
pub mod breaker;
pub mod candidate;
pub mod clock;
pub mod demo;
pub mod error;
pub mod eval;
pub mod event;
pub mod features;
pub mod generator;
pub mod ids;
pub mod qrel;
pub mod query;
pub mod retry;
pub mod store;
pub mod text;

pub use ai::{ai_plan, ai_step, build_prompt, completion_from_reply, scores_for_candidates, AiStep, ModelConfig};
pub use breaker::{BreakerConfig, BreakerState, CircuitBreaker};
pub use candidate::{candidates_from_inputs, Candidate, RankedList, ScoredCandidate};
pub use clock::{Clock, SystemClock};
pub use demo::{baseline_ranking, DemoArgs, DEMO_SEED};
pub use error::{AiError, CoreError, PortError, RerankError};
pub use eval::{evaluate, evaluate_query, JudgedRanking, RerankEvaluator};
pub use event::{reranked_event, RerankEvent, RerankEventView};
pub use features::{jaccard_counts, token_spans, tokenize, FeatureCounts};
pub use generator::{Scenario, ScenarioDoc, ScenarioGenerator};
pub use ids::{DocId, QueryId};
pub use qrel::{Judgment, Qrels};
pub use query::Query;
pub use retry::{RetryPolicy, RetryStep, TimeoutError};
pub use store::InMemoryCandidateStore;
