//! Retrieval candidates and their scored, ranked forms.
//!
//! Scores are single-precision floats. This module holds each one as its
//! IEEE-754 bit pattern (`f32::to_bits`) and orders them as `f32` compares
//! them, with every `NaN` sunk below every number.

use std::cmp::Ordering;

use vstd::arithmetic::div_mod::{lemma_div_is_ordered, lemma_fundamental_div_mod, lemma_mod_pos_bound};
use vstd::arithmetic::power2::{lemma_pow2_pos, lemma_pow2_strictly_increases, lemma_pow2_unfold, pow2};
use vstd::prelude::*;

use crate::error::RerankError;
use crate::ids::DocId;
use crate::text::{is_blank, text_is_blank};

verus! {

/// The sign-free part of an `f32` bit pattern (exponent and mantissa).
pub open spec fn magnitude(bits: u32) -> int {
    if bits >= 0x8000_0000 {
        bits - 0x8000_0000
    } else {
        bits as int
    }
}

/// The bit pattern encodes a `NaN` (all exponent bits set, mantissa non-zero).
pub open spec fn is_nan_bits(bits: u32) -> bool {
    magnitude(bits) > 0x7f80_0000
}

/// The position of an `f32` on the number line, as an integer that orders
/// patterns exactly as `f32::partial_cmp` orders the numbers they encode
/// (`-0.0` and `+0.0` tie at zero, infinities at the ends), with every `NaN`
/// below negative infinity.
pub open spec fn score_rank(bits: u32) -> int {
    if is_nan_bits(bits) {
        -0x7f80_0001
    } else if bits >= 0x8000_0000 {
        -magnitude(bits)
    } else {
        magnitude(bits)
    }
}

/// The rank of `bits`, computed.
pub fn rank_of(bits: u32) -> (r: i64)
    ensures
        r == score_rank(bits),
{
    let m: u32 = if bits >= 0x8000_0000 { bits - 0x8000_0000 } else { bits };
    if m > 0x7f80_0000 {
        -0x7f80_0001
    } else if bits >= 0x8000_0000 {
        -(m as i64)
    } else {
        m as i64
    }
}

/// A first-stage retrieval candidate: a document plus the score the
/// retriever assigned it.
#[derive(Debug, Clone)]
pub struct Candidate {
    /// Document identifier.
    pub id: DocId,
    /// The document text (title and body already joined by the retriever).
    pub text: String,
    /// Bit pattern of the first-stage retrieval score (an `f32`).
    pub retrieval_bits: u32,
}

impl Candidate {
    /// Creates a candidate, rejecting empty (or whitespace-only) text.
    pub fn new(id: DocId, text: String, retrieval_bits: u32) -> (r: Result<Candidate, RerankError>)
        ensures
            is_blank(text@) <==> r is Err,
            r matches Err(e) ==> e == RerankError::EmptyCandidate,
            r matches Ok(c) ==> c.id == id && c.text@ == text@ && c.retrieval_bits == retrieval_bits,
    {
        if text_is_blank(text.as_str()) {
            return Err(RerankError::EmptyCandidate);
        }
        Ok(Candidate { id, text, retrieval_bits })
    }
}

/// Builds candidates from raw `(id, text, retrieval score bits)` inputs, in
/// order; fails with [`RerankError::EmptyCandidate`] if any text is blank.
pub fn candidates_from_inputs(inputs: &[(u64, String, u32)]) -> (r: Result<Vec<Candidate>, RerankError>)
    ensures
        (exists|i: int| 0 <= i < inputs@.len() && is_blank((#[trigger] inputs@[i]).1@)) <==> r is Err,
        r matches Err(e) ==> e == RerankError::EmptyCandidate,
        r matches Ok(v) ==> {
            &&& v@.len() == inputs@.len()
            &&& forall|i: int| 0 <= i < inputs@.len() ==> {
                &&& (#[trigger] v@[i]).id.0 == inputs@[i].0
                &&& v@[i].text@ == inputs@[i].1@
                &&& v@[i].retrieval_bits == inputs@[i].2
            }
        },
{
    let mut out: Vec<Candidate> = Vec::new();
    for i in 0..inputs.len()
        invariant
            out@.len() == i,
            forall|j: int| 0 <= j < i ==> !is_blank((#[trigger] inputs@[j]).1@),
            forall|j: int| 0 <= j < i ==> {
                &&& (#[trigger] out@[j]).id.0 == inputs@[j].0
                &&& out@[j].text@ == inputs@[j].1@
                &&& out@[j].retrieval_bits == inputs@[j].2
            },
    {
        let (id, text, bits) = &inputs[i];
        match Candidate::new(DocId(*id), text.clone(), *bits) {
            Ok(c) => out.push(c),
            Err(e) => {
                return Err(e);
            },
        }
    }
    Ok(out)
}

/// A candidate after second-stage scoring. Carries both the first-stage
/// retrieval score and the new reranker score.
#[derive(Debug, Clone, Copy)]
pub struct ScoredCandidate {
    /// Document identifier.
    pub id: DocId,
    /// Bit pattern of the reranker's score (an `f32`, higher is more relevant).
    pub score_bits: u32,
    /// Bit pattern of the first-stage retrieval score (an `f32`).
    pub retrieval_bits: u32,
}

impl ScoredCandidate {
    /// Creates a scored candidate.
    pub fn new(id: DocId, score_bits: u32, retrieval_bits: u32) -> (c: ScoredCandidate)
        ensures
            c.id == id,
            c.score_bits == score_bits,
            c.retrieval_bits == retrieval_bits,
    {
        ScoredCandidate { id, score_bits, retrieval_bits }
    }

    /// Total best-first order by score: higher scores first, ties between
    /// equal scores (and between two `NaN`s), every `NaN` last.
    /// `Less` means `self` sorts before `other`.
    pub fn cmp_desc(&self, other: &ScoredCandidate) -> (o: Ordering)
        ensures
            o == Ordering::Less <==> score_rank(self.score_bits) > score_rank(other.score_bits),
            o == Ordering::Equal <==> score_rank(self.score_bits) == score_rank(other.score_bits),
            o == Ordering::Greater <==> score_rank(self.score_bits) < score_rank(other.score_bits),
    {
        let a = rank_of(self.score_bits);
        let b = rank_of(other.score_bits);
        if a > b {
            Ordering::Less
        } else if a == b {
            Ordering::Equal
        } else {
            Ordering::Greater
        }
    }
}

/// The rank of a scored candidate's reranker score.
pub open spec fn rank(c: ScoredCandidate) -> int {
    score_rank(c.score_bits)
}

/// `s` is ordered best-first: ranks never increase along it.
pub open spec fn best_first(s: Seq<ScoredCandidate>) -> bool {
    forall|i: int, j: int| 0 <= i < j < s.len() ==> rank(s[i]) >= rank(s[j])
}

/// The predicate "has rank `v`".
pub open spec fn has_rank(v: int) -> spec_fn(ScoredCandidate) -> bool {
    |c: ScoredCandidate| rank(c) == v
}

/// The entries of `s` whose rank is `v`, in their order in `s`.
pub open spec fn rank_class(s: Seq<ScoredCandidate>, v: int) -> Seq<ScoredCandidate> {
    s.filter(has_rank(v))
}

/// `out` is the stable best-first sort of `input`: ordered best-first, and
/// for every rank the entries of that rank appear in `out` exactly as, and
/// in the same order as, they appear in `input`.
pub open spec fn stable_best_first(input: Seq<ScoredCandidate>, out: Seq<ScoredCandidate>) -> bool {
    &&& best_first(out)
    &&& forall|v: int| #[trigger] rank_class(out, v) == rank_class(input, v)
}

/// The document ids of `s`, in order.
pub open spec fn ids_of(s: Seq<ScoredCandidate>) -> Seq<DocId> {
    s.map_values(|c: ScoredCandidate| c.id)
}

/// An ordered list of scored candidates, sorted best-first.
#[derive(Debug, Clone)]
pub struct RankedList {
    /// Scored candidates in descending score order.
    pub items: Vec<ScoredCandidate>,
}

impl Default for RankedList {
    /// An empty list.
    fn default() -> (r: RankedList)
        ensures
            r.items@ == Seq::<ScoredCandidate>::empty(),
    {
        RankedList { items: Vec::new() }
    }
}

impl RankedList {
    /// Builds a ranked list from scored candidates, sorting them best-first;
    /// candidates whose scores tie keep their input order.
    pub fn from_scored(items: Vec<ScoredCandidate>) -> (r: RankedList)
        ensures
            stable_best_first(items@, r.items@),
    {
        let mut out: Vec<ScoredCandidate> = Vec::new();
        let n = items.len();
        for i in 0..n
            invariant
                n == items.len(),
                best_first(out@),
                forall|v: int| #[trigger] rank_class(out@, v) == rank_class(items@.take(i as int), v),
        {
            let x = items[i];
            let kx = rank_of(x.score_bits);
            let mut p = out.len();
            while p > 0 && rank_of(out[p - 1].score_bits) < kx
                invariant
                    p <= out.len(),
                    best_first(out@),
                    kx == rank(x),
                    forall|j: int| p <= j < out.len() ==> rank(out@[j]) < rank(x),
                decreases p,
            {
                p = p - 1;
            }
            let ghost old_out = out@;
            out.insert(p, x);
            proof {
                assert(forall|j: int| 0 <= j < p ==> rank(old_out[j]) >= rank(x)) by {
                    if p > 0 {
                        assert(rank(old_out[p - 1]) >= rank(x));
                    }
                }
                assert(out@ =~= old_out.take(p as int) + seq![x] + old_out.skip(p as int));
                assert(old_out =~= old_out.take(p as int) + old_out.skip(p as int));
                assert(items@.take(i + 1) =~= items@.take(i as int).push(x));
                assert forall|v: int| #[trigger] rank_class(out@, v) == rank_class(items@.take(i + 1), v) by {
                    let f = has_rank(v);
                    let a = old_out.take(p as int);
                    let b = old_out.skip(p as int);
                    Seq::filter_distributes_over_add(a + seq![x], b, f);
                    Seq::filter_distributes_over_add(a, seq![x], f);
                    Seq::filter_distributes_over_add(a, b, f);
                    items@.take(i as int).lemma_filter_push(x, f);
                    assert(rank_class(old_out, v) == rank_class(items@.take(i as int), v));
                    if rank(x) == v {
                        assert(b.filter(f) =~= Seq::<ScoredCandidate>::empty()) by {
                            if b.filter(f).len() > 0 {
                                b.lemma_filter_pred(f, 0);
                                let e = b.filter(f)[0];
                                assert(b.filter(f).contains(e));
                                b.lemma_filter_contains_rev(f, e);
                                let j = choose|j: int| 0 <= j < b.len() && b[j] == e;
                                assert(rank(old_out[p + j]) < rank(x));
                            }
                        }
                        assert(seq![x].filter(f) =~= seq![x]) by {
                            reveal_with_fuel(Seq::filter, 2);
                        }
                        assert(old_out.filter(f) =~= a.filter(f));
                        assert(out@.filter(f) =~= a.filter(f).push(x));
                    } else {
                        assert(seq![x].filter(f) =~= Seq::<ScoredCandidate>::empty()) by {
                            reveal_with_fuel(Seq::filter, 2);
                        }
                        assert(out@.filter(f) =~= old_out.filter(f));
                    }
                }
                assert forall|a: int, b: int| 0 <= a < b < out@.len() implies rank(out@[a]) >= rank(out@[b]) by {
                    if a < p && b > p {
                        assert(out@[b] == old_out[b - 1]);
                        assert(out@[a] == old_out[a]);
                    } else if a < p {
                        assert(out@[a] == old_out[a]);
                    } else if a == p {
                        assert(out@[b] == old_out[b - 1]);
                    } else {
                        assert(out@[a] == old_out[a - 1]);
                        assert(out@[b] == old_out[b - 1]);
                    }
                }
            }
        }
        proof {
            assert(items@.take(n as int) =~= items@);
        }
        RankedList { items: out }
    }

    /// The number of candidates.
    pub fn len(&self) -> (n: usize)
        ensures
            n == self.items@.len(),
    {
        self.items.len()
    }

    /// Whether the list is empty.
    pub fn is_empty(&self) -> (b: bool)
        ensures
            b == (self.items@.len() == 0),
    {
        self.items.len() == 0
    }

    /// The document ids in rank order: the input to ranking metrics.
    pub fn doc_ids(&self) -> (ids: Vec<DocId>)
        ensures
            ids@ == ids_of(self.items@),
    {
        let mut ids: Vec<DocId> = Vec::new();
        let n = self.items.len();
        for i in 0..n
            invariant
                n == self.items@.len(),
                ids@.len() == i,
                forall|j: int| 0 <= j < i ==> #[trigger] ids@[j] == self.items@[j].id,
        {
            ids.push(self.items[i].id);
        }
        assert(ids@ =~= ids_of(self.items@));
        ids
    }

    /// Truncates the list to the top `k` results in place.
    pub fn truncate(&mut self, k: usize)
        ensures
            final(self).items@ == if k < old(self).items@.len() {
                old(self).items@.take(k as int)
            } else {
                old(self).items@
            },
    {
        self.items.truncate(k);
    }
}

proof fn lemma_count_in_rank_class(s: Seq<ScoredCandidate>, e: ScoredCandidate)
    ensures
        rank_class(s, rank(e)).to_multiset().count(e) == s.to_multiset().count(e),
    decreases s.len(),
{
    broadcast use vstd::seq_lib::to_multiset_build;
    broadcast use vstd::seq_lib::to_multiset_contains;
    broadcast use vstd::multiset::group_multiset_axioms;

    if s.len() == 0 {
        assert(rank_class(s, rank(e)) =~= Seq::<ScoredCandidate>::empty());
        assert(!s.contains(e));
        assert(!rank_class(s, rank(e)).contains(e));
    } else {
        let t = s.drop_last();
        let x = s.last();
        lemma_count_in_rank_class(t, e);
        assert(s =~= t.push(x));
        t.lemma_filter_push(x, has_rank(rank(e)));
    }
}

/// Sorting keeps every scored candidate: the output of a stable best-first
/// sort holds exactly the input's entries, each as often as the input does.
pub proof fn lemma_sort_is_permutation(input: Seq<ScoredCandidate>, out: Seq<ScoredCandidate>)
    requires
        stable_best_first(input, out),
    ensures
        out.to_multiset() =~= input.to_multiset(),
        out.len() == input.len(),
{
    broadcast use vstd::seq_lib::to_multiset_len;

    assert forall|e: ScoredCandidate| out.to_multiset().count(e) == input.to_multiset().count(e) by {
        lemma_count_in_rank_class(out, e);
        lemma_count_in_rank_class(input, e);
        assert(rank_class(out, rank(e)) == rank_class(input, rank(e)));
    }
    assert(out.to_multiset() =~= input.to_multiset());
    assert(out.len() == out.to_multiset().len());
    assert(input.len() == input.to_multiset().len());
}

/// In a best-first list every `NaN` score comes after every other score.
pub proof fn lemma_nan_last(s: Seq<ScoredCandidate>, i: int, j: int)
    requires
        best_first(s),
        0 <= i < j < s.len(),
        is_nan_bits(s[i].score_bits),
    ensures
        is_nan_bits(s[j].score_bits),
{
    assert(rank(s[i]) >= rank(s[j]));
}

/// The first entry of `s` of rank `rank(s[0])` is `s[0]`, and dropping the
/// first entry removes exactly it from its rank class.
proof fn lemma_rank_class_drop_first(s: Seq<ScoredCandidate>, v: int)
    requires
        s.len() > 0,
    ensures
        rank(s[0]) == v ==> rank_class(s, v) == seq![s[0]] + rank_class(s.drop_first(), v),
        rank(s[0]) != v ==> rank_class(s, v) == rank_class(s.drop_first(), v),
{
    let p = has_rank(v);
    assert(s =~= seq![s[0]] + s.drop_first());
    Seq::filter_distributes_over_add(seq![s[0]], s.drop_first(), p);
    assert(seq![s[0]].filter(p) =~= if rank(s[0]) == v { seq![s[0]] } else { Seq::<ScoredCandidate>::empty() }) by {
        reveal_with_fuel(Seq::filter, 2);
    }
    if rank(s[0]) != v {
        assert(Seq::<ScoredCandidate>::empty() + rank_class(s.drop_first(), v) =~= rank_class(s.drop_first(), v));
    }
}

/// An entry of rank `v` makes the rank class of `v` non-empty.
proof fn lemma_rank_class_nonempty(s: Seq<ScoredCandidate>, i: int)
    requires
        0 <= i < s.len(),
    ensures
        rank_class(s, rank(s[i])).len() > 0,
{
    let p = has_rank(rank(s[i]));
    s.filter_lemma(p);
    assert(p(s[i]));
    assert(rank_class(s, rank(s[i])).contains(s[i]));
}

/// Sorting is deterministic: two stable best-first orders of the same input
/// are the same sequence (so sorting an already sorted list changes nothing).
pub proof fn lemma_stable_sort_unique(input: Seq<ScoredCandidate>, a: Seq<ScoredCandidate>, b: Seq<ScoredCandidate>)
    requires
        stable_best_first(input, a),
        stable_best_first(input, b),
    ensures
        a == b,
{
    lemma_best_first_by_classes_unique(a, b);
}

proof fn lemma_best_first_by_classes_unique(a: Seq<ScoredCandidate>, b: Seq<ScoredCandidate>)
    requires
        best_first(a),
        best_first(b),
        forall|v: int| #[trigger] rank_class(a, v) == rank_class(b, v),
    ensures
        a == b,
    decreases a.len() + b.len(),
{
    if a.len() == 0 || b.len() == 0 {
        if a.len() > 0 {
            lemma_rank_class_nonempty(a, 0);
            assert(rank_class(b, rank(a[0])) =~= Seq::<ScoredCandidate>::empty());
        } else if b.len() > 0 {
            lemma_rank_class_nonempty(b, 0);
            assert(rank_class(a, rank(b[0])) =~= Seq::<ScoredCandidate>::empty());
        }
        assert(a =~= b);
    } else {
        let (ra, rb) = (rank(a[0]), rank(b[0]));
        // The leading ranks agree: each is the largest rank of its sequence
        // and occurs in the other.
        assert(ra == rb) by {
            if ra > rb {
                lemma_rank_class_nonempty(a, 0);
                let c = rank_class(b, ra);
                b.filter_lemma(has_rank(ra));
                assert(c.len() > 0);
                assert(has_rank(ra)(c[0]));
                assert(c.contains(c[0]));
                b.lemma_filter_contains_rev(has_rank(ra), c[0]);
                let j = choose|j: int| 0 <= j < b.len() && b[j] == c[0];
                assert(rank(b[0]) >= rank(b[j]));
            } else if rb > ra {
                lemma_rank_class_nonempty(b, 0);
                let c = rank_class(a, rb);
                a.filter_lemma(has_rank(rb));
                assert(c.len() > 0);
                assert(has_rank(rb)(c[0]));
                assert(c.contains(c[0]));
                a.lemma_filter_contains_rev(has_rank(rb), c[0]);
                let j = choose|j: int| 0 <= j < a.len() && a[j] == c[0];
                assert(rank(a[0]) >= rank(a[j]));
            }
        }
        lemma_rank_class_drop_first(a, ra);
        lemma_rank_class_drop_first(b, ra);
        assert(a[0] == b[0]) by {
            assert(rank_class(a, ra)[0] == a[0]);
            assert(rank_class(b, ra)[0] == b[0]);
        }
        let (ta, tb) = (a.drop_first(), b.drop_first());
        assert forall|v: int| #[trigger] rank_class(ta, v) == rank_class(tb, v) by {
            lemma_rank_class_drop_first(a, v);
            lemma_rank_class_drop_first(b, v);
            if v == ra {
                assert(rank_class(ta, v) =~= rank_class(a, v).drop_first());
                assert(rank_class(tb, v) =~= rank_class(b, v).drop_first());
            }
        }
        lemma_best_first_by_classes_unique(ta, tb);
        assert(a =~= seq![a[0]] + ta);
        assert(b =~= seq![b[0]] + tb);
    }
}

/// The encoded magnitude `x` (exponent and mantissa fields of a finite
/// `f32`) read as a number: `|value| * 2^149`, an integer. The exponent is
/// `x / 2^23` and the mantissa `x % 2^23`; exponent zero is subnormal.
pub open spec fn scaled_magnitude(x: int) -> int {
    let e = x / 0x80_0000;
    let m = x % 0x80_0000;
    if e == 0 {
        m
    } else {
        (0x80_0000 + m) * pow2((e - 1) as nat)
    }
}

/// The bit pattern encodes an infinity.
pub open spec fn is_infinite_bits(bits: u32) -> bool {
    magnitude(bits) == 0x7f80_0000
}

/// The sign bit is set.
pub open spec fn is_negative_bits(bits: u32) -> bool {
    bits >= 0x8000_0000
}

/// The value of a finite `f32` bit pattern, times `2^149` (so an integer).
pub open spec fn scaled_value(bits: u32) -> int {
    if is_negative_bits(bits) {
        -scaled_magnitude(magnitude(bits))
    } else {
        scaled_magnitude(magnitude(bits))
    }
}

/// `a < b` on the `f32` numbers the (non-NaN) bit patterns encode, as IEEE
/// 754 orders them: negative infinity below every other number, positive
/// infinity above, finite numbers by value (so `-0.0` and `+0.0` are equal).
pub open spec fn f32_less(a: u32, b: u32) -> bool {
    &&& !is_nan_bits(a)
    &&& !is_nan_bits(b)
    &&& if is_infinite_bits(a) && is_negative_bits(a) {
        !(is_infinite_bits(b) && is_negative_bits(b))
    } else if is_infinite_bits(b) && !is_negative_bits(b) {
        !(is_infinite_bits(a) && !is_negative_bits(a))
    } else if is_infinite_bits(a) || is_infinite_bits(b) {
        false
    } else {
        scaled_value(a) < scaled_value(b)
    }
}

proof fn lemma_scaled_magnitude_increases(x: int, y: int)
    requires
        0 <= x < y,
    ensures
        0 <= scaled_magnitude(x) < scaled_magnitude(y),
{
    let c: int = 0x80_0000;
    let (ex, mx) = (x / c, x % c);
    let (ey, my) = (y / c, y % c);
    lemma_fundamental_div_mod(x, c);
    lemma_fundamental_div_mod(y, c);
    lemma_mod_pos_bound(x, c);
    lemma_mod_pos_bound(y, c);
    lemma_div_is_ordered(x, y, c);
    assert(ex >= 0) by {
        lemma_div_is_ordered(0, x, c);
    }
    if ex >= 1 {
        lemma_pow2_pos((ex - 1) as nat);
        let p = pow2((ex - 1) as nat);
        assert((c + mx) * p >= 0) by (nonlinear_arith)
            requires
                p > 0,
                mx >= 0,
                c == 0x80_0000,
        {
        }
    }
    if ex == ey {
        assert(mx < my) by (nonlinear_arith)
            requires
                x == c * ex + mx,
                y == c * ey + my,
                ex == ey,
                x < y,
        {
        }
        if ex >= 1 {
            let p = pow2((ex - 1) as nat);
            lemma_pow2_pos((ex - 1) as nat);
            assert((c + mx) * p < (c + my) * p) by (nonlinear_arith)
                requires
                    p > 0,
                    mx < my,
            {
            }
        }
    } else {
        // ex < ey: the larger exponent wins.
        assert(ey >= 1);
        let q = pow2((ey - 1) as nat);
        lemma_pow2_pos((ey - 1) as nat);
        assert(c * q <= (c + my) * q) by (nonlinear_arith)
            requires
                q > 0,
                my >= 0,
        {
        }
        if ex == 0 {
            assert(c <= c * q) by (nonlinear_arith)
                requires
                    q >= 1,
                    c == 0x80_0000,
            {
            }
        } else {
            let p = pow2((ex - 1) as nat);
            lemma_pow2_pos((ex - 1) as nat);
            lemma_pow2_unfold(ex as nat);
            if ex < ey - 1 {
                lemma_pow2_strictly_increases(ex as nat, (ey - 1) as nat);
            }
            assert(pow2(ex as nat) <= q);
            assert((c + mx) * p < c * q) by (nonlinear_arith)
                requires
                    p > 0,
                    0 <= mx < c,
                    2 * p <= q,
                    c == 0x80_0000,
            {
            }
        }
    }
}

/// The rank orders scores exactly as `f32` numbers are ordered: a smaller
/// number has a smaller rank (so among negative scores a larger magnitude
/// ranks lower), equal numbers (`-0.0` and `+0.0`) share a rank, and every
/// `NaN` ranks below every number.
pub proof fn lemma_rank_follows_f32_order(a: u32, b: u32)
    ensures
        f32_less(a, b) ==> score_rank(a) < score_rank(b),
        !is_nan_bits(a) && !is_nan_bits(b) && !f32_less(a, b) && !f32_less(b, a) ==> score_rank(a) == score_rank(b),
        is_nan_bits(a) && !is_nan_bits(b) ==> score_rank(a) < score_rank(b),
        is_nan_bits(a) && is_nan_bits(b) ==> score_rank(a) == score_rank(b),
{
    let (ma, mb) = (magnitude(a) as int, magnitude(b) as int);
    if !is_nan_bits(a) && !is_nan_bits(b) && !is_infinite_bits(a) && !is_infinite_bits(b) {
        // Finite numbers: the value is the sign applied to a strictly
        // increasing function of the magnitude, which is zero at zero.
        if ma < mb {
            lemma_scaled_magnitude_increases(ma, mb);
        } else if mb < ma {
            lemma_scaled_magnitude_increases(mb, ma);
        }
        if ma > 0 {
            lemma_scaled_magnitude_increases(0, ma);
        }
        if mb > 0 {
            lemma_scaled_magnitude_increases(0, mb);
        }
        assert(scaled_magnitude(0) == 0) by {
            assert(0int / 0x80_0000 == 0);
            assert(0int % 0x80_0000 == 0);
        }
    }
}

/// A best-first list never puts a smaller score before a larger one.
pub proof fn lemma_best_first_follows_f32_order(s: Seq<ScoredCandidate>, i: int, j: int)
    requires
        best_first(s),
        0 <= i < j < s.len(),
    ensures
        !f32_less(s[i].score_bits, s[j].score_bits),
{
    lemma_rank_follows_f32_order(s[i].score_bits, s[j].score_bits);
    assert(rank(s[i]) >= rank(s[j]));
}

} // verus!
