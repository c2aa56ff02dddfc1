use reranklab::{baseline_ranking, Candidate, DemoArgs, DocId, QueryId, ScenarioGenerator, DEMO_SEED};

#[test]
fn is_deterministic() {
    let a = ScenarioGenerator::new(42).generate(4, 10, 3);
    let b = ScenarioGenerator::new(42).generate(4, 10, 3);
    assert_eq!(a.queries, b.queries);
    assert_eq!(a.candidates, b.candidates);
}

#[test]
fn shapes_are_correct() {
    let s = ScenarioGenerator::new(1).generate(5, 8, 2);
    assert_eq!(s.queries.len(), 5);
    assert_eq!(s.candidates.len(), 5);
    for (_, cands) in &s.candidates {
        assert_eq!(cands.len(), 8);
    }
}

#[test]
fn relevant_docs_are_judged() {
    let s = ScenarioGenerator::new(7).generate(3, 10, 4);
    for q in &s.queries {
        assert_eq!(s.qrels.relevant_count(q.id), 4);
    }
}

#[test]
fn relevant_docs_contain_query_terms() {
    let s = ScenarioGenerator::new(3).generate(1, 6, 3);
    let query = &s.queries[0];
    let first_term = query.text().split_whitespace().next().unwrap();
    let (_, cands) = &s.candidates[0];
    let mentions = cands.iter().filter(|c| c.text.contains(first_term)).count();
    assert!(mentions >= 3, "expected >=3 mentions, got {mentions}");
}

#[test]
fn relevant_clamped_to_pool() {
    let s = ScenarioGenerator::new(1).generate(1, 3, 99);
    assert_eq!(s.qrels.relevant_count(QueryId(0)), 3);
}

#[test]
fn ids_topics_and_scores_follow_the_layout() {
    let s = ScenarioGenerator::new(9).generate(10, 4, 1);
    assert_eq!(s.queries[0].text(), "rust async runtime");
    assert_eq!(s.queries[8].text(), "rust async runtime");
    assert_eq!(s.queries[9].text(), "vector database search");
    for (qi, (qid, docs)) in s.candidates.iter().enumerate() {
        assert_eq!(*qid, QueryId(qi as u64));
        for (slot, d) in docs.iter().enumerate() {
            assert_eq!(d.id, DocId((qi * 4 + slot) as u64));
            assert!(d.retrieval_permille < 1000);
            let grade = s.qrels.relevance(*qid, d.id);
            if slot < 1 {
                assert!((1..=3).contains(&grade));
                assert!(d.text.starts_with(s.queries[qi].text()));
            } else {
                assert_eq!(grade, 0);
            }
        }
    }
}

#[test]
fn first_draw_is_splitmix64() {
    // splitmix64 seeded with 0: the first output is 0xE220A8397B1DCDAF.
    let mut state = 0u64;
    assert_eq!(ScenarioGenerator::next(&mut state), 0xE220_A839_7B1D_CDAF);
    assert_eq!(state, 0x9E37_79B9_7F4A_7C15);
    assert_eq!(ScenarioGenerator::next(&mut state), 0x6E78_9E6A_A1B9_65F4);
}

#[test]
fn demo_defaults() {
    let a = DemoArgs::default();
    assert_eq!((a.queries, a.pool, a.relevant, a.k), (200, 50, 8, 10));
    assert_eq!(DEMO_SEED, 0xC0FF_EE00);
}

#[test]
fn baseline_orders_by_retrieval() {
    let cs = vec![
        Candidate::new(DocId(1), "a".to_string(), 0.2f32.to_bits()).unwrap(),
        Candidate::new(DocId(2), "b".to_string(), 0.9f32.to_bits()).unwrap(),
        Candidate::new(DocId(3), "c".to_string(), 0.2f32.to_bits()).unwrap(),
    ];
    let list = baseline_ranking(&cs);
    assert_eq!(list.doc_ids(), vec![DocId(2), DocId(1), DocId(3)]);
    assert_eq!(list.items[0].score_bits, list.items[0].retrieval_bits);
}
