//! The query a reranker scores candidates against.

use vstd::prelude::*;

use crate::error::RerankError;
use crate::ids::QueryId;
use crate::text::{is_blank, text_is_blank};

verus! {

/// A search query: an identifier plus its natural-language text.
#[derive(Debug, Clone, PartialEq, Eq)]
pub struct Query {
    /// Stable query identifier.
    pub id: QueryId,
    /// The natural-language query text.
    pub text: String,
}

impl Query {
    /// Creates a query, rejecting empty (or whitespace-only) text.
    pub fn new(id: QueryId, text: String) -> (r: Result<Query, RerankError>)
        ensures
            is_blank(text@) <==> r is Err,
            r matches Err(e) ==> e == RerankError::EmptyQuery,
            r matches Ok(q) ==> q.id == id && q.text@ == text@,
    {
        if text_is_blank(text.as_str()) {
            return Err(RerankError::EmptyQuery);
        }
        Ok(Query { id, text })
    }

    /// Returns the query text.
    pub fn text(&self) -> (s: &str)
        ensures
            s@ == self.text@,
    {
        self.text.as_str()
    }
}

} // verus!
