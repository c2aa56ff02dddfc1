//! Strongly-typed identifiers for queries and documents.

use vstd::prelude::*;

verus! {

/// The decimal digit character for `d` (`0 <= d < 10`).
pub open spec fn digit_char(d: nat) -> char {
    if d == 0 { '0' }
    else if d == 1 { '1' }
    else if d == 2 { '2' }
    else if d == 3 { '3' }
    else if d == 4 { '4' }
    else if d == 5 { '5' }
    else if d == 6 { '6' }
    else if d == 7 { '7' }
    else if d == 8 { '8' }
    else { '9' }
}

/// The base-ten rendering of `n`, most significant digit first, without
/// leading zeros (`0` renders as `"0"`).
pub open spec fn decimal(n: nat) -> Seq<char>
    decreases n,
{
    if n < 10 {
        seq![digit_char(n)]
    } else {
        decimal(n / 10).push(digit_char(n % 10))
    }
}

fn digit_str(d: u64) -> (s: &'static str)
    requires
        d < 10,
    ensures
        s@ == seq![digit_char(d as nat)],
{
    proof {
        reveal_strlit("0");
        reveal_strlit("1");
        reveal_strlit("2");
        reveal_strlit("3");
        reveal_strlit("4");
        reveal_strlit("5");
        reveal_strlit("6");
        reveal_strlit("7");
        reveal_strlit("8");
        reveal_strlit("9");
    }
    match d {
        0 => "0",
        1 => "1",
        2 => "2",
        3 => "3",
        4 => "4",
        5 => "5",
        6 => "6",
        7 => "7",
        8 => "8",
        _ => "9",
    }
}

/// Appends the decimal rendering of `n` to `out`.
pub fn push_decimal(out: &mut String, n: u64)
    ensures
        final(out)@ == old(out)@ + decimal(n as nat),
    decreases n,
{
    if n >= 10 {
        push_decimal(out, n / 10);
    }
    let d = digit_str(n % 10);
    out.append(d);
    proof {
        if n >= 10 {
            assert(decimal(n as nat) == decimal((n / 10) as nat).push(digit_char((n % 10) as nat)));
        }
    }
}

/// A document identifier. Newtype over `u64` so a document id can never be
/// confused with any other numeric quantity.
#[derive(Debug, Clone, Copy, PartialEq, Eq, Structural, PartialOrd, Ord, Hash)]
pub struct DocId(pub u64);

impl DocId {
    /// Returns the underlying numeric value.
    pub fn value(self) -> (v: u64)
        ensures
            v == self.0,
    {
        self.0
    }

    /// Wraps a raw value.
    pub fn from(v: u64) -> (d: DocId)
        ensures
            d.0 == v,
    {
        DocId(v)
    }

    /// The human-readable form `doc:<n>`.
    pub fn to_string(&self) -> (s: String)
        ensures
            s@ == "doc:"@ + decimal(self.0 as nat),
    {
        let mut s = String::from_str("doc:");
        push_decimal(&mut s, self.0);
        s
    }
}

/// A query identifier. Newtype over `u64`.
#[derive(Debug, Clone, Copy, PartialEq, Eq, Structural, PartialOrd, Ord, Hash)]
pub struct QueryId(pub u64);

impl QueryId {
    /// Returns the underlying numeric value.
    pub fn value(self) -> (v: u64)
        ensures
            v == self.0,
    {
        self.0
    }

    /// Wraps a raw value.
    pub fn from(v: u64) -> (q: QueryId)
        ensures
            q.0 == v,
    {
        QueryId(v)
    }

    /// The human-readable form `q:<n>`.
    pub fn to_string(&self) -> (s: String)
        ensures
            s@ == "q:"@ + decimal(self.0 as nat),
    {
        let mut s = String::from_str("q:");
        push_decimal(&mut s, self.0);
        s
    }
}

} // verus!
