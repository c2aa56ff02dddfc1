use reranklab::{Candidate, DocId, InMemoryCandidateStore, QueryId};

fn cand(id: u64, text: &str) -> Candidate {
    Candidate::new(DocId(id), text.to_string(), 0.5f32.to_bits()).unwrap()
}

#[test]
fn candidate_round_trip() {
    let mut store = InMemoryCandidateStore::new();
    assert!(store.is_empty());
    store.insert(QueryId(1), vec![cand(1, "hello world")]);
    assert_eq!(store.len(), 1);
    let got = store.candidates(QueryId(1));
    assert_eq!(got.len(), 1);
    assert_eq!(got[0].id, DocId(1));
}

#[test]
fn missing_query_returns_empty() {
    let store = InMemoryCandidateStore::new();
    assert!(store.candidates(QueryId(9)).is_empty());
}

#[test]
fn insert_replaces_a_query_list() {
    let mut store = InMemoryCandidateStore::default();
    store.insert(QueryId(1), vec![cand(1, "a"), cand(2, "b")]);
    store.insert(QueryId(2), vec![cand(3, "c")]);
    store.insert(QueryId(1), vec![cand(4, "d")]);
    assert_eq!(store.len(), 2);
    let got = store.candidates(QueryId(1));
    assert_eq!(got.len(), 1);
    assert_eq!(got[0].id, DocId(4));
    assert_eq!(got[0].text, "d");
    assert_eq!(store.candidates(QueryId(2))[0].id, DocId(3));
    assert!(!store.is_empty());
}
