use reranklab::{
    candidates_from_inputs, Candidate, DocId, Judgment, Qrels, Query, QueryId, RankedList,
    RerankError, ScoredCandidate,
};

fn sample() -> Qrels {
    let mut q = Qrels::new();
    q.insert(QueryId(1), Judgment::new(DocId(10), 3));
    q.insert(QueryId(1), Judgment::new(DocId(11), 1));
    q.insert(QueryId(1), Judgment::new(DocId(12), 0));
    q
}

fn scored(id: u64, score: f32) -> ScoredCandidate {
    ScoredCandidate::new(DocId(id), score.to_bits(), 0.0f32.to_bits())
}

#[test]
fn codes_are_stable() {
    assert_eq!(RerankError::EmptyQuery.code(), "empty_query");
    assert_eq!(RerankError::EmptyCandidate.code(), "empty_candidate");
    assert_eq!(RerankError::ZeroCutoff.code(), "zero_cutoff");
}

#[test]
fn display_is_human_readable() {
    assert!(RerankError::EmptyQuery.to_string().contains("empty"));
}

#[test]
fn display_is_prefixed() {
    assert_eq!(DocId(7).to_string(), "doc:7");
    assert_eq!(QueryId(3).to_string(), "q:3");
}

#[test]
fn display_renders_multi_digit_ids() {
    assert_eq!(DocId(0).to_string(), "doc:0");
    assert_eq!(DocId(1204).to_string(), "doc:1204");
    assert_eq!(QueryId(u64::MAX).to_string(), "q:18446744073709551615");
}

#[test]
fn value_round_trips() {
    assert_eq!(DocId::from(42).value(), 42);
    assert_eq!(QueryId::from(9).value(), 9);
}

#[test]
fn ordering_is_numeric() {
    let mut v = vec![DocId(3), DocId(1), DocId(2)];
    v.sort();
    assert_eq!(v, [DocId(1), DocId(2), DocId(3)]);
}

#[test]
fn rejects_blank_text() {
    assert_eq!(
        Query::new(QueryId(1), "   ".to_string()).unwrap_err(),
        RerankError::EmptyQuery
    );
}

#[test]
fn accepts_valid_query() {
    let q = Query::new(QueryId(1), "rust async runtime".to_string()).unwrap();
    assert_eq!(q.text(), "rust async runtime");
    assert_eq!(q.id, QueryId(1));
}

#[test]
fn query_rejects_unicode_whitespace_only() {
    assert_eq!(
        Query::new(QueryId(2), "\u{3000}\t\u{a0}\n".to_string()).unwrap_err(),
        RerankError::EmptyQuery
    );
    assert!(Query::new(QueryId(2), "".to_string()).is_err());
    assert!(Query::new(QueryId(2), " x ".to_string()).is_ok());
}

#[test]
fn candidate_rejects_blank() {
    assert_eq!(
        Candidate::new(DocId(1), "  ".to_string(), 1.0f32.to_bits()).unwrap_err(),
        RerankError::EmptyCandidate
    );
}

#[test]
fn candidate_keeps_its_fields() {
    let c = Candidate::new(DocId(4), "hello world".to_string(), 0.25f32.to_bits()).unwrap();
    assert_eq!(c.id, DocId(4));
    assert_eq!(c.text, "hello world");
    assert_eq!(f32::from_bits(c.retrieval_bits), 0.25);
}

#[test]
fn candidates_from_inputs_keeps_order_and_rejects_blank() {
    let ok = candidates_from_inputs(&[
        (10, "rust async".to_string(), 0.1f32.to_bits()),
        (11, "python".to_string(), 0.9f32.to_bits()),
    ])
    .unwrap();
    assert_eq!(ok.len(), 2);
    assert_eq!(ok[0].id, DocId(10));
    assert_eq!(ok[1].text, "python");
    let err = candidates_from_inputs(&[
        (10, "rust".to_string(), 0),
        (11, " ".to_string(), 0),
    ])
    .unwrap_err();
    assert_eq!(err, RerankError::EmptyCandidate);
    assert!(candidates_from_inputs(&[]).unwrap().is_empty());
}

#[test]
fn ranked_list_sorts_descending() {
    let list = RankedList::from_scored(vec![scored(1, 0.2), scored(2, 0.9), scored(3, 0.5)]);
    assert_eq!(list.doc_ids(), vec![DocId(2), DocId(3), DocId(1)]);
}

#[test]
fn nan_scores_sink_to_bottom() {
    let list = RankedList::from_scored(vec![scored(1, f32::NAN), scored(2, 0.5)]);
    assert_eq!(list.doc_ids(), vec![DocId(2), DocId(1)]);
}

#[test]
fn negative_and_infinite_scores_are_ordered() {
    let list = RankedList::from_scored(vec![
        scored(1, -1.0),
        scored(2, f32::INFINITY),
        scored(3, -0.0),
        scored(4, f32::NEG_INFINITY),
        scored(5, 0.0),
        scored(6, -f32::NAN),
    ]);
    // Equal scores (0.0 and -0.0) keep their input order; NaN goes last.
    assert_eq!(
        list.doc_ids(),
        vec![DocId(2), DocId(3), DocId(5), DocId(1), DocId(4), DocId(6)]
    );
}

#[test]
fn ties_keep_input_order() {
    let list = RankedList::from_scored(vec![scored(5, 0.5), scored(1, 0.7), scored(3, 0.5)]);
    assert_eq!(list.doc_ids(), vec![DocId(1), DocId(5), DocId(3)]);
}

#[test]
fn cmp_desc_puts_higher_first() {
    let a = scored(1, 0.9);
    let b = scored(2, 0.1);
    assert_eq!(a.cmp_desc(&b), std::cmp::Ordering::Less);
    assert_eq!(b.cmp_desc(&a), std::cmp::Ordering::Greater);
    assert_eq!(scored(3, f32::NAN).cmp_desc(&scored(4, f32::NAN)), std::cmp::Ordering::Equal);
}

#[test]
fn truncate_keeps_top_k() {
    let mut list = RankedList::from_scored(vec![scored(1, 0.9), scored(2, 0.5), scored(3, 0.1)]);
    list.truncate(2);
    assert_eq!(list.len(), 2);
    assert_eq!(list.doc_ids(), vec![DocId(1), DocId(2)]);
    list.truncate(10);
    assert_eq!(list.len(), 2);
}

#[test]
fn empty_list_reports_empty() {
    assert!(RankedList::default().is_empty());
}

#[test]
fn relevance_lookup() {
    let q = sample();
    assert_eq!(q.relevance(QueryId(1), DocId(10)), 3);
    assert_eq!(q.relevance(QueryId(1), DocId(12)), 0);
    assert_eq!(q.relevance(QueryId(1), DocId(999)), 0);
    assert_eq!(q.relevance(QueryId(9), DocId(10)), 0);
}

#[test]
fn relevant_count_ignores_zero() {
    assert_eq!(sample().relevant_count(QueryId(1)), 2);
}

#[test]
fn ideal_gains_are_descending() {
    assert_eq!(sample().ideal_gains(QueryId(1)), vec![3, 1]);
}

#[test]
fn ideal_gains_keep_repeated_grades() {
    let mut q = sample();
    q.insert(QueryId(1), Judgment::new(DocId(13), 3));
    q.insert(QueryId(1), Judgment::new(DocId(14), 2));
    assert_eq!(q.ideal_gains(QueryId(1)), vec![3, 3, 2, 1]);
    assert!(q.ideal_gains(QueryId(5)).is_empty());
}

#[test]
fn judgment_relevance_flag() {
    assert!(Judgment::new(DocId(1), 2).is_relevant());
    assert!(!Judgment::new(DocId(1), 0).is_relevant());
}

#[test]
fn iter_yields_all_triples() {
    let q = sample();
    let mut triples: Vec<_> = q.iter();
    triples.sort_by_key(|&(_, d, _)| d.value());
    assert_eq!(
        triples,
        vec![
            (QueryId(1), DocId(10), 3),
            (QueryId(1), DocId(11), 1),
            (QueryId(1), DocId(12), 0),
        ]
    );
}

#[test]
fn insert_overwrites_a_judgment() {
    let mut q = sample();
    assert!(!q.is_empty());
    q.insert(QueryId(1), Judgment::new(DocId(10), 0));
    assert_eq!(q.relevance(QueryId(1), DocId(10)), 0);
    assert_eq!(q.relevant_count(QueryId(1)), 1);
    assert!(Qrels::new().is_empty());
}

#[test]
fn default_qrels_are_empty() {
    let q = Qrels::default();
    assert!(q.is_empty());
    assert!(q.iter().is_empty());
    assert_eq!(q.relevant_count(QueryId(1)), 0);
}

#[test]
fn ideal_gains_length_is_the_relevant_count() {
    let mut q = sample();
    q.insert(QueryId(1), Judgment::new(DocId(20), 2));
    q.insert(QueryId(2), Judgment::new(DocId(21), 0));
    assert_eq!(q.ideal_gains(QueryId(1)).len(), q.relevant_count(QueryId(1)));
    assert_eq!(q.ideal_gains(QueryId(2)).len(), 0);
    assert_eq!(q.relevant_count(QueryId(2)), 0);
}
