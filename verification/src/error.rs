//! Error types of the reranking, evaluation and model layers, with stable
//! machine-readable codes.

use vstd::prelude::*;
use vstd::std_specs::convert::FromSpecImpl;

use crate::ids::{decimal, push_decimal};

verus! {

/// Errors that arise from constructing or manipulating domain values.
#[derive(Debug, Clone, Copy, PartialEq, Eq, Structural)]
pub enum RerankError {
    /// A query was created with empty text.
    EmptyQuery,
    /// A candidate was created with empty text.
    EmptyCandidate,
    /// A cutoff `k` of zero was supplied to a metric.
    ZeroCutoff,
}

/// The stable code of a domain error.
pub open spec fn rerank_error_code(e: RerankError) -> Seq<char> {
    match e {
        RerankError::EmptyQuery => "empty_query"@,
        RerankError::EmptyCandidate => "empty_candidate"@,
        RerankError::ZeroCutoff => "zero_cutoff"@,
    }
}

impl RerankError {
    /// A short, stable, machine-readable error code.
    pub fn code(&self) -> (s: &'static str)
        ensures
            s@ == rerank_error_code(*self),
    {
        match self {
            RerankError::EmptyQuery => "empty_query",
            RerankError::EmptyCandidate => "empty_candidate",
            RerankError::ZeroCutoff => "zero_cutoff",
        }
    }

    /// The human-readable description of the error.
    pub fn to_string(&self) -> (s: String)
        ensures
            s@ == match *self {
                RerankError::EmptyQuery => "query text must not be empty"@,
                RerankError::EmptyCandidate => "candidate text must not be empty"@,
                RerankError::ZeroCutoff => "metric cutoff k must be greater than zero"@,
            },
    {
        match self {
            RerankError::EmptyQuery => String::from_str("query text must not be empty"),
            RerankError::EmptyCandidate => String::from_str("candidate text must not be empty"),
            RerankError::ZeroCutoff => String::from_str("metric cutoff k must be greater than zero"),
        }
    }
}

/// Errors returned by ports (adapters): storage, rerankers, event sinks.
#[derive(Debug)]
pub enum PortError {
    /// The backing resource is temporarily unavailable.
    Unavailable(String),
    /// The operation exceeded its deadline.
    Timeout,
    /// An unexpected internal failure.
    Internal(String),
}

/// The stable code of a port error.
pub open spec fn port_error_code(e: PortError) -> Seq<char> {
    match e {
        PortError::Unavailable(_) => "unavailable"@,
        PortError::Timeout => "timeout"@,
        PortError::Internal(_) => "internal"@,
    }
}

impl PortError {
    /// Whether retrying the operation could plausibly succeed.
    pub fn is_retryable(&self) -> (b: bool)
        ensures
            b == (self is Unavailable || self is Timeout),
    {
        match self {
            PortError::Unavailable(_) => true,
            PortError::Timeout => true,
            PortError::Internal(_) => false,
        }
    }

    /// A short, stable error code.
    pub fn code(&self) -> (s: &'static str)
        ensures
            s@ == port_error_code(*self),
    {
        match self {
            PortError::Unavailable(_) => "unavailable",
            PortError::Timeout => "timeout",
            PortError::Internal(_) => "internal",
        }
    }

    /// The human-readable description of the error.
    pub fn to_string(&self) -> (s: String)
        ensures
            s@ == match *self {
                PortError::Unavailable(m) => "port unavailable: "@ + m@,
                PortError::Timeout => "port timed out"@,
                PortError::Internal(m) => "port internal error: "@ + m@,
            },
    {
        match self {
            PortError::Unavailable(m) => String::from_str("port unavailable: ").concat(m.as_str()),
            PortError::Timeout => String::from_str("port timed out"),
            PortError::Internal(m) => String::from_str("port internal error: ").concat(m.as_str()),
        }
    }
}

/// The top-level error for core operations.
#[derive(Debug)]
pub enum CoreError {
    /// A domain value was invalid (empty query, bad cutoff, ...).
    Invalid(RerankError),
    /// A downstream port failed.
    Port(PortError),
}

impl CoreError {
    /// A short, stable error code spanning both variants.
    pub fn code(&self) -> (s: &'static str)
        ensures
            s@ == match *self {
                CoreError::Invalid(e) => rerank_error_code(e),
                CoreError::Port(e) => port_error_code(e),
            },
    {
        match self {
            CoreError::Invalid(e) => e.code(),
            CoreError::Port(e) => e.code(),
        }
    }

    /// The human-readable description: that of the wrapped error.
    pub fn to_string(&self) -> (s: String)
        ensures
            s@ == match *self {
                CoreError::Invalid(e) => match e {
                    RerankError::EmptyQuery => "query text must not be empty"@,
                    RerankError::EmptyCandidate => "candidate text must not be empty"@,
                    RerankError::ZeroCutoff => "metric cutoff k must be greater than zero"@,
                },
                CoreError::Port(e) => match e {
                    PortError::Unavailable(m) => "port unavailable: "@ + m@,
                    PortError::Timeout => "port timed out"@,
                    PortError::Internal(m) => "port internal error: "@ + m@,
                },
            },
    {
        match self {
            CoreError::Invalid(e) => e.to_string(),
            CoreError::Port(e) => e.to_string(),
        }
    }
}

impl From<RerankError> for CoreError {
    fn from(e: RerankError) -> (c: CoreError) {
        CoreError::Invalid(e)
    }
}

impl FromSpecImpl<RerankError> for CoreError {
    open spec fn obeys_from_spec() -> bool {
        true
    }

    open spec fn from_spec(e: RerankError) -> CoreError {
        CoreError::Invalid(e)
    }
}

impl From<PortError> for CoreError {
    fn from(e: PortError) -> (c: CoreError) {
        CoreError::Port(e)
    }
}

impl FromSpecImpl<PortError> for CoreError {
    open spec fn obeys_from_spec() -> bool {
        true
    }

    open spec fn from_spec(e: PortError) -> CoreError {
        CoreError::Port(e)
    }
}

/// Failures that can occur when calling a generative model.
#[derive(Debug)]
pub enum AiError {
    /// The HTTP transport failed (connection, DNS, TLS, ...).
    Transport(String),
    /// The model did not respond within the deadline.
    Timeout,
    /// The model returned a non-success HTTP status.
    Status(u16),
    /// The model's response could not be parsed into scores.
    Parse(String),
}

/// The stable code of a model error.
pub open spec fn ai_error_code(e: AiError) -> Seq<char> {
    match e {
        AiError::Transport(_) => "transport"@,
        AiError::Timeout => "timeout"@,
        AiError::Status(_) => "status"@,
        AiError::Parse(_) => "parse"@,
    }
}

impl AiError {
    /// Whether the failure is transient and worth retrying: transport
    /// failures, timeouts, and the statuses 429 and 5xx.
    pub fn is_retryable(&self) -> (b: bool)
        ensures
            b == match *self {
                AiError::Timeout => true,
                AiError::Transport(_) => true,
                AiError::Status(code) => code == 429 || code >= 500,
                AiError::Parse(_) => false,
            },
    {
        match self {
            AiError::Timeout => true,
            AiError::Transport(_) => true,
            AiError::Status(code) => *code == 429 || *code >= 500,
            AiError::Parse(_) => false,
        }
    }

    /// The human-readable message.
    pub fn to_string(&self) -> (s: String)
        ensures
            s@ == match *self {
                AiError::Transport(m) => "model transport error: "@ + m@,
                AiError::Timeout => "model request timed out"@,
                AiError::Status(code) => "model returned status "@ + decimal(code as nat),
                AiError::Parse(m) => "model returned an unparseable response: "@ + m@,
            },
    {
        match self {
            AiError::Transport(m) => String::from_str("model transport error: ").concat(m.as_str()),
            AiError::Timeout => String::from_str("model request timed out"),
            AiError::Status(code) => {
                let mut s = String::from_str("model returned status ");
                push_decimal(&mut s, *code as u64);
                s
            },
            AiError::Parse(m) => String::from_str("model returned an unparseable response: ").concat(m.as_str()),
        }
    }

    /// A short, stable error code.
    pub fn code(&self) -> (s: &'static str)
        ensures
            s@ == ai_error_code(*self),
    {
        match self {
            AiError::Transport(_) => "transport",
            AiError::Timeout => "timeout",
            AiError::Status(_) => "status",
            AiError::Parse(_) => "parse",
        }
    }
}

} // verus!
