use reranklab::{
    ai_step, build_prompt, AiStep, completion_from_reply, scores_for_candidates, AiError, Candidate, DocId,
    ModelConfig, Query, QueryId,
};

fn cand(id: u64, text: &str, retrieval: f32) -> Candidate {
    Candidate::new(DocId(id), text.to_string(), retrieval.to_bits()).unwrap()
}

#[test]
fn default_config_is_sane() {
    let c = ModelConfig::default();
    assert!(c.endpoint.starts_with("https://"));
    assert!(c.timeout_nanos > 0);
    assert_eq!(c.model, "gpt-4o-mini");
    assert!(c.api_key.is_empty());
}

#[test]
fn retryability_rules() {
    assert!(AiError::Timeout.is_retryable());
    assert!(AiError::Transport("x".into()).is_retryable());
    assert!(AiError::Status(503).is_retryable());
    assert!(AiError::Status(429).is_retryable());
    assert!(!AiError::Status(400).is_retryable());
    assert!(!AiError::Parse("x".into()).is_retryable());
}

#[test]
fn error_codes_are_stable() {
    assert_eq!(AiError::Timeout.code(), "timeout");
    assert_eq!(AiError::Status(500).code(), "status");
    assert_eq!(AiError::Transport("x".into()).code(), "transport");
    assert_eq!(AiError::Parse("x".into()).code(), "parse");
}

#[test]
fn prompt_lists_every_candidate() {
    let q = Query::new(QueryId(1), "rust async runtime".to_string()).unwrap();
    let p = build_prompt(&q, &[cand(1, "python threads", 0.9), cand(22, "rust async runtime tokio", 0.1)]);
    let expected = "You are a search reranker. Score each document's relevance to the query \
                    from 0.0 (irrelevant) to 1.0 (perfect). Reply ONLY with a JSON array of \
                    objects like [{\"id\": <id>, \"score\": <float>}].\n\nQuery: rust async runtime\
                    \n\nDocuments:\n- id 1: python threads\n- id 22: rust async runtime tokio\n";
    assert_eq!(p, expected);
}

#[test]
fn prompt_snippets_are_bounded() {
    let q = Query::new(QueryId(1), "q".to_string()).unwrap();
    let long: String = "é".repeat(300);
    let p = build_prompt(&q, &[cand(5, &long, 0.0)]);
    let line = p.lines().last().unwrap();
    assert_eq!(line, format!("- id 5: {}", "é".repeat(240)));
}

#[test]
fn uses_model_scores_when_valid() {
    let cs = vec![cand(1, "python threads", 0.9), cand(2, "rust async runtime tokio", 0.1)];
    let items = [(1, 0.1f32.to_bits()), (2, 0.95f32.to_bits())];
    let scored = scores_for_candidates(&items, &cs).unwrap();
    let list = reranklab::RankedList::from_scored(scored);
    assert_eq!(list.doc_ids().first(), Some(&DocId(2)));
}

#[test]
fn ignores_unknown_ids_from_model() {
    let cs = vec![cand(1, "python threads", 0.9), cand(2, "rust async runtime tokio", 0.1)];
    let items = [(999, 1.0f32.to_bits()), (2, 0.8f32.to_bits())];
    let scored = scores_for_candidates(&items, &cs).unwrap();
    assert_eq!(scored.len(), 1);
    assert_eq!(scored[0].id, DocId(2));
    assert_eq!(scored[0].score_bits, 0.8f32.to_bits());
    assert_eq!(scored[0].retrieval_bits, 0.1f32.to_bits());
}

#[test]
fn no_known_ids_is_a_parse_error() {
    let cs = vec![cand(1, "python threads", 0.9)];
    match scores_for_candidates(&[(7, 0)], &cs) {
        Err(AiError::Parse(m)) => assert_eq!(m, "no valid scored candidates"),
        other => panic!("unexpected {other:?}"),
    }
    assert!(scores_for_candidates(&[], &cs).is_err());
}

#[test]
fn repeated_candidate_id_uses_last_retrieval() {
    let cs = vec![cand(1, "first", 0.2), cand(1, "second", 0.7)];
    let scored = scores_for_candidates(&[(1, 0.5f32.to_bits()), (1, 0.6f32.to_bits())], &cs).unwrap();
    assert_eq!(scored.len(), 2);
    assert_eq!(scored[0].retrieval_bits, 0.7f32.to_bits());
    assert_eq!(scored[1].score_bits, 0.6f32.to_bits());
}

#[test]
fn reply_status_and_choices() {
    match completion_from_reply(503, vec!["x".to_string()]) {
        Err(AiError::Status(s)) => assert_eq!(s, 503),
        other => panic!("unexpected {other:?}"),
    }
    match completion_from_reply(200, vec![]) {
        Err(AiError::Parse(m)) => assert_eq!(m, "no choices in response"),
        other => panic!("unexpected {other:?}"),
    }
    assert_eq!(completion_from_reply(200, vec!["a".to_string(), "b".to_string()]).unwrap(), "a");
    assert!(completion_from_reply(199, vec!["a".to_string()]).is_err());
    assert!(completion_from_reply(300, vec!["a".to_string()]).is_err());
}

#[test]
fn error_messages_are_readable() {
    assert_eq!(AiError::Status(503).to_string(), "model returned status 503");
    assert_eq!(AiError::Timeout.to_string(), "model request timed out");
    assert_eq!(AiError::Transport("down".into()).to_string(), "model transport error: down");
    assert_eq!(AiError::Parse("bad".into()).to_string(), "model returned an unparseable response: bad");
}

#[test]
fn plan_skips_the_model_without_candidates() {
    let q = Query::new(QueryId(1), "rust".to_string()).unwrap();
    assert!(reranklab::ai_plan(&q, &[]).is_none());
    let cs = vec![cand(3, "rust book", 0.5)];
    assert_eq!(reranklab::ai_plan(&q, &cs), Some(build_prompt(&q, &cs)));
}

#[test]
fn step_ranks_or_falls_back() {
    let cs = vec![cand(1, "python threads", 0.9), cand(2, "rust async runtime tokio", 0.1)];
    match ai_step(Ok(vec![(1, 0.1f32.to_bits()), (2, 0.95f32.to_bits())]), &cs) {
        AiStep::Ranked(list) => assert_eq!(list.doc_ids(), vec![DocId(2), DocId(1)]),
        other => panic!("unexpected {other:?}"),
    }
    match ai_step(Ok(vec![(999, 0)]), &cs) {
        AiStep::Fallback(AiError::Parse(m)) => assert_eq!(m, "no valid scored candidates"),
        other => panic!("unexpected {other:?}"),
    }
    match ai_step(Err(AiError::Status(400)), &cs) {
        AiStep::Fallback(AiError::Status(400)) => {}
        other => panic!("unexpected {other:?}"),
    }
}
