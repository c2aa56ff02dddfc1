//! An in-memory candidate store: a concurrent map from query id to the
//! first-stage candidate list retrieved for it.

use dashmap::DashMap;

use vstd::prelude::*;

use crate::candidate::Candidate;
use crate::ids::QueryId;

verus! {

#[verifier::external_type_specification]
#[verifier::external_body]
#[verifier::reject_recursive_types(K)]
#[verifier::reject_recursive_types(V)]
#[verifier::reject_recursive_types(S)]
pub struct ExDashMap<K, V, S>(DashMap<K, V, S>);

/// A concurrent map from query id to candidate list.
pub type CandidateMap = DashMap<u64, Vec<Candidate>>;

/// The candidate lists a map holds, by query id.
pub uninterp spec fn stored_lists(m: CandidateMap) -> Map<u64, Seq<Candidate>>;

/// Calls `DashMap::new`, which makes a map holding nothing.
#[verifier::external_body]
fn new_list_map() -> (map: CandidateMap)
    ensures
        stored_lists(map) =~= Map::empty(),
{
    DashMap::new()
}

/// Calls `DashMap::insert`, which stores `list` under `key`, replacing any
/// list stored there before.
#[verifier::external_body]
fn insert_list(m: &mut CandidateMap, key: u64, list: Vec<Candidate>)
    ensures
        stored_lists(*final(m)) == stored_lists(*old(m)).insert(key, list@),
{
    m.insert(key, list);
}

/// Calls `DashMap::get` and clones the list found: `None` when nothing is
/// stored under `key`, else a copy of the stored list (each candidate cloned
/// field by field by its derived `Clone`).
#[verifier::external_body]
fn cloned_list(m: &CandidateMap, key: u64) -> (r: Option<Vec<Candidate>>)
    ensures
        match r {
            Some(v) => stored_lists(*m).contains_key(key) && v@ == stored_lists(*m)[key],
            None => !stored_lists(*m).contains_key(key),
        },
{
    m.get(&key).map(|entry| entry.value().clone())
}

/// Calls `DashMap::len`, the number of keys stored.
#[verifier::external_body]
fn list_count(m: &CandidateMap) -> (n: usize)
    ensures
        n == stored_lists(*m).len(),
{
    m.len()
}

/// Calls `DashMap::is_empty`, which holds when no key is stored.
#[verifier::external_body]
fn no_lists(m: &CandidateMap) -> (b: bool)
    ensures
        b == (stored_lists(*m).len() == 0),
{
    m.is_empty()
}

/// An in-memory candidate store.
#[derive(Debug)]
pub struct InMemoryCandidateStore {
    by_query: CandidateMap,
}

impl View for InMemoryCandidateStore {
    type V = Map<u64, Seq<Candidate>>;

    closed spec fn view(&self) -> Map<u64, Seq<Candidate>> {
        stored_lists(self.by_query)
    }
}

impl Default for InMemoryCandidateStore {
    /// An empty store.
    fn default() -> (s: InMemoryCandidateStore)
        ensures
            s@ == Map::<u64, Seq<Candidate>>::empty(),
    {
        InMemoryCandidateStore { by_query: new_list_map() }
    }
}

impl InMemoryCandidateStore {
    /// Creates an empty store.
    pub fn new() -> (s: InMemoryCandidateStore)
        ensures
            s@ == Map::<u64, Seq<Candidate>>::empty(),
    {
        InMemoryCandidateStore { by_query: new_list_map() }
    }

    /// Inserts (or replaces) the candidate list for a query.
    pub fn insert(&mut self, query: QueryId, candidates: Vec<Candidate>)
        ensures
            final(self)@ == old(self)@.insert(query.0, candidates@),
    {
        insert_list(&mut self.by_query, query.0, candidates);
    }

    /// The number of queries with stored candidates.
    pub fn len(&self) -> (n: usize)
        ensures
            n == self@.len(),
    {
        list_count(&self.by_query)
    }

    /// Whether the store holds no queries.
    pub fn is_empty(&self) -> (b: bool)
        ensures
            b == (self@.len() == 0),
    {
        no_lists(&self.by_query)
    }

    /// The candidates stored for a query; none when the query is unknown.
    pub fn candidates(&self, query: QueryId) -> (r: Vec<Candidate>)
        ensures
            r@ == if self@.contains_key(query.0) { self@[query.0] } else { Seq::<Candidate>::empty() },
    {
        match cloned_list(&self.by_query, query.0) {
            Some(v) => v,
            None => Vec::new(),
        }
    }
}

/// A later insert for the same query replaces the earlier list, and an
/// insert leaves every other query's list as it was.
pub proof fn lemma_insert_then_read(s: Map<u64, Seq<Candidate>>, q: u64, list: Seq<Candidate>, other: u64)
    ensures
        s.insert(q, list).contains_key(q),
        s.insert(q, list)[q] == list,
        other != q ==> (s.insert(q, list).contains_key(other) == s.contains_key(other)),
        other != q && s.contains_key(other) ==> s.insert(q, list)[other] == s[other],
{
}

} // verus!
