# RerankLab

Second-stage reranking with offline relevance evaluation, as a Verus library
with a thin runtime around it.

## Layout

- `src/` — the verified library (`reranklab`):
  - `ids`, `query`, `candidate`: identifiers, queries and candidates; the
    NaN-safe, stable best-first ordering of scored candidates (scores are
    carried as `f32` bit patterns and ordered by an integer rank).
  - `qrel`, `eval`: relevance judgments and the integer side of offline
    evaluation (graded gains at a cutoff, the ideal gain vector, relevant
    counts, first hit).
  - `features`: tokenization and the set-overlap counts behind coverage,
    Jaccard overlap and term frequency.
  - `ai`: model configuration, the scoring prompt, reading a chat reply, and
    keeping only the model scores that name offered candidates.
  - `event`, `demo`, `generator`, `store`: domain events, the demo's
    baseline, the deterministic splitmix64 scenario generator, and the
    candidate store.
  - `breaker`, `retry`, `clock`: the circuit breaker state machine, retry
    decisions and jittered exponential backoff, and the monotonic clock.
- `app/` — the program: CLI, GraphQL/HTTP server, asynchronous ports and
  adapters, the floating-point metrics and lexical scoring, the rate limiter,
  retry/timeout loops, and the HTTP chat model.
- `tests/` — executable tests of the library.

Every function in `src/` carries a contract proved by Verus, except the
small `external_body` wrappers around `std` and `dashmap` calls (the clock,
the character classes and lowercasing, the candidate map), whose contracts
are trusted and say only what those libraries document. The laws that relate
several functions are public proof functions next to them.
