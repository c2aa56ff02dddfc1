use reranklab::{
    evaluate, evaluate_query, jaccard_counts, reranked_event, tokenize, token_spans, CoreError,
    DocId, FeatureCounts, Judgment, PortError, Qrels, QueryId, RankedList, RerankError,
    RerankEvaluator, RerankEvent, RerankEventView, ScoredCandidate,
};

fn qrels() -> Qrels {
    let mut q = Qrels::new();
    q.insert(QueryId(1), Judgment::new(DocId(10), 3));
    q.insert(QueryId(1), Judgment::new(DocId(11), 1));
    q
}

fn ranking(ids: &[u64]) -> RankedList {
    let scored = ids
        .iter()
        .rev()
        .enumerate()
        .map(|(i, &id)| ScoredCandidate::new(DocId(id), (i as f32).to_bits(), 0.0f32.to_bits()))
        .collect();
    RankedList::from_scored(scored)
}

#[test]
fn port_error_retryability() {
    assert!(PortError::Timeout.is_retryable());
    assert!(PortError::Unavailable("x".into()).is_retryable());
    assert!(!PortError::Internal("x".into()).is_retryable());
}

#[test]
fn core_error_codes() {
    assert_eq!(CoreError::from(RerankError::ZeroCutoff).code(), "zero_cutoff");
    assert_eq!(CoreError::from(PortError::Timeout).code(), "timeout");
}

#[test]
fn port_error_messages() {
    assert_eq!(PortError::Unavailable("rate limited".into()).to_string(), "port unavailable: rate limited");
    assert_eq!(PortError::Timeout.to_string(), "port timed out");
    assert_eq!(CoreError::from(PortError::Internal("x".into())).code(), "internal");
    assert_eq!(CoreError::from(RerankError::EmptyQuery).to_string(), RerankError::EmptyQuery.to_string());
}

#[test]
fn kind_is_stable() {
    let e = RerankEvent::QueryReranked { query: QueryId(1), candidates: 5, used_ai: false };
    assert_eq!(e.kind(), "query_reranked");
}

#[test]
fn reranked_event_reports_the_path_used() {
    assert_eq!(
        reranked_event(QueryId(2), 3, false),
        RerankEvent::QueryReranked { query: QueryId(2), candidates: 3, used_ai: false }
    );
    assert_eq!(
        reranked_event(QueryId(2), 3, true),
        RerankEvent::QueryReranked { query: QueryId(2), candidates: 3, used_ai: true }
    );
}

#[test]
fn event_view_flattens_the_event() {
    let v = RerankEventView::from(RerankEvent::QueryReranked {
        query: QueryId(7),
        candidates: (1usize << 32) + 5,
        used_ai: true,
    });
    assert_eq!(v.kind, "query_reranked");
    assert_eq!(v.query_id, 7);
    assert_eq!(v.candidates, 5);
    assert!(v.used_ai);
}

#[test]
fn tokenize_lowercases_and_splits() {
    assert_eq!(tokenize("Rust, Async! runtime"), ["rust", "async", "runtime"]);
    assert!(tokenize("   ").is_empty());
}

#[test]
fn tokenize_keeps_unicode_letters_and_digits() {
    assert_eq!(tokenize("BM25 Ünïcode—ÉTÉ 42"), ["bm25", "ünïcode", "été", "42"]);
    assert!(tokenize("").is_empty());
    assert_eq!(tokenize("a"), ["a"]);
}

#[test]
fn token_spans_are_maximal_runs() {
    assert_eq!(token_spans(&[true, true, false, true, false, false, true]), vec![(0, 2), (3, 4), (6, 7)]);
    assert!(token_spans(&[false, false]).is_empty());
    assert!(token_spans(&[]).is_empty());
}

#[test]
fn jaccard_counts_bounds() {
    let a = tokenize("rust async runtime");
    assert_eq!(jaccard_counts(&a, &a), (3, 3));
    let b = tokenize("python threads");
    assert_eq!(jaccard_counts(&a, &b), (0, 5));
    assert_eq!(jaccard_counts(&[], &[]), (0, 0));
}

#[test]
fn feature_counts_extraction() {
    let q = tokenize("rust async");
    let d = tokenize("rust rust async runtime concurrency");
    let f = FeatureCounts::extract(&q, &d);
    assert_eq!(f.covered, 2);
    assert_eq!(f.query_terms, 2);
    assert_eq!(f.union_terms, 4);
    assert_eq!(f.term_frequency, 3);
    let p = FeatureCounts::extract(&tokenize("rust python"), &tokenize("rust runtime"));
    assert_eq!((p.covered, p.query_terms), (1, 2));
}

#[test]
fn zero_cutoff_errors() {
    let err = evaluate_query(QueryId(1), &[DocId(10)], &qrels(), 0).unwrap_err();
    assert_eq!(err.code(), "zero_cutoff");
}

#[test]
fn precision_and_recall_counts_at_k() {
    let j = evaluate_query(QueryId(1), &[DocId(10), DocId(98)], &qrels(), 2).unwrap();
    assert_eq!(j.gains, vec![3, 0]);
    assert_eq!(j.relevant_in_top(), 1);
    assert_eq!(j.total_relevant, 2);
    assert_eq!(j.first_relevant(), Some(0));
}

#[test]
fn perfect_ranking_matches_the_ideal() {
    let j = evaluate_query(QueryId(1), &[DocId(10), DocId(11)], &qrels(), 2).unwrap();
    assert_eq!(j.gains, j.ideal);
    assert_eq!(j.ideal, vec![3, 1]);
}

#[test]
fn worst_ranking_has_no_hits() {
    let j = evaluate_query(QueryId(1), &[DocId(98), DocId(99)], &qrels(), 2).unwrap();
    assert_eq!(j.gains, vec![0, 0]);
    assert_eq!(j.relevant_in_top(), 0);
    assert_eq!(j.first_relevant(), None);
}

#[test]
fn cutoff_truncates_ranking_and_ideal() {
    let j = evaluate_query(QueryId(1), &[DocId(98), DocId(11), DocId(10)], &qrels(), 2).unwrap();
    assert_eq!(j.k, 2);
    assert_eq!(j.gains, vec![0, 1]);
    assert_eq!(j.ideal, vec![3, 1]);
    assert_eq!(j.first_relevant(), Some(1));
    let short = evaluate_query(QueryId(1), &[DocId(11)], &qrels(), 5).unwrap();
    assert_eq!(short.gains, vec![1]);
    assert_eq!(short.ideal, vec![3, 1]);
}

#[test]
fn recall_never_exceeds_one() {
    // Distinct documents: hits cannot exceed the judged-relevant count.
    let j = evaluate_query(QueryId(1), &[DocId(10), DocId(11), DocId(12)], &qrels(), 3).unwrap();
    assert!(j.relevant_in_top() <= j.total_relevant);
}

#[test]
fn evaluate_batch_and_evaluator_agree() {
    let q = qrels();
    let rankings = vec![(QueryId(1), ranking(&[10, 11])), (QueryId(1), ranking(&[98, 99]))];
    let all = evaluate(&rankings, &q, 2).unwrap();
    assert_eq!(all.len(), 2);
    assert_eq!(all[0].gains, vec![3, 1]);
    assert_eq!(all[1].gains, vec![0, 0]);
    let ev = RerankEvaluator::new(q.clone(), 2);
    assert_eq!(ev.evaluate_all(&rankings).unwrap(), all);
    assert!(evaluate(&rankings, &q, 0).is_err());
    assert!(evaluate(&[], &q, 0).unwrap().is_empty());
}

#[test]
fn evaluator_wrapper_matches_free_fn() {
    let q = qrels();
    let ev = RerankEvaluator::new(q.clone(), 2);
    let list = ranking(&[10, 11]);
    let a = ev.evaluate_one(QueryId(1), &list).unwrap();
    let b = evaluate_query(QueryId(1), &list.doc_ids(), &q, 2).unwrap();
    assert_eq!(a, b);
}

#[test]
fn tokenizing_joined_tokens_is_identity() {
    let tokens = tokenize("Rust, Async! runtime -- BM25 v2");
    assert_eq!(tokens, ["rust", "async", "runtime", "bm25", "v2"]);
    assert!(tokens.iter().all(|t| !t.is_empty() && t.chars().all(|c| c.is_ascii_digit() || c.is_ascii_lowercase())));
    assert_eq!(tokenize(&tokens.join(" ")), tokens);
}

#[test]
fn repeated_documents_are_credited_once() {
    let j = evaluate_query(QueryId(1), &[DocId(10), DocId(10), DocId(11), DocId(10)], &qrels(), 4).unwrap();
    assert_eq!(j.gains, vec![3, 0, 1, 0]);
    assert_eq!(j.relevant_in_top(), 2);
    assert!(j.relevant_in_top() <= j.total_relevant);
}
