//! The generative reranker's side of the model conversation: the model
//! configuration, the scoring prompt, the reading of a chat reply, and the
//! turning of the model's `(id, score)` items into scored candidates.

use std::collections::HashMap;

use vstd::prelude::*;
use vstd::std_specs::hash::*;
use vstd::string::*;

use crate::candidate::{stable_best_first, Candidate, RankedList, ScoredCandidate};
use crate::error::AiError;
use crate::ids::{decimal, push_decimal, DocId};
use crate::query::Query;

verus! {

broadcast use vstd::std_specs::hash::group_hash_axioms;

/// Configuration of the HTTP chat model.
#[derive(Debug, Clone)]
pub struct ModelConfig {
    /// Full URL of the chat-completions endpoint.
    pub endpoint: String,
    /// Bearer API key (sent as `Authorization: Bearer ...`).
    pub api_key: String,
    /// Model identifier (e.g. `gpt-4o-mini`).
    pub model: String,
    /// Per-request timeout, in nanoseconds.
    pub timeout_nanos: u128,
}

impl Default for ModelConfig {
    /// The OpenAI chat-completions endpoint, no key, `gpt-4o-mini`, and a
    /// ten-second timeout.
    fn default() -> (c: ModelConfig)
        ensures
            c.endpoint@ == "https://api.openai.com/v1/chat/completions"@,
            c.api_key@ == Seq::<char>::empty(),
            c.model@ == "gpt-4o-mini"@,
            c.timeout_nanos == 10_000_000_000,
    {
        ModelConfig {
            endpoint: String::from_str("https://api.openai.com/v1/chat/completions"),
            api_key: String::new(),
            model: String::from_str("gpt-4o-mini"),
            timeout_nanos: 10_000_000_000,
        }
    }
}

/// The instructions that open every scoring prompt, ending in `Query: `.
pub open spec fn prompt_preamble() -> Seq<char> {
    "You are a search reranker. Score each document's relevance to the query from 0.0 (irrelevant) to 1.0 (perfect). Reply ONLY with a JSON array of objects like [{\"id\": <id>, \"score\": <float>}].\n\nQuery: "@
}

fn preamble() -> (s: &'static str)
    ensures
        s@ == prompt_preamble(),
{
    "You are a search reranker. Score each document's relevance to the query from 0.0 (irrelevant) to 1.0 (perfect). Reply ONLY with a JSON array of objects like [{\"id\": <id>, \"score\": <float>}].\n\nQuery: "
}

/// Longest document snippet, in characters, quoted in a prompt.
pub const SNIPPET_CHARS: usize = 240;

/// The first [`SNIPPET_CHARS`] characters of `text` (all of it when shorter).
pub open spec fn snippet(text: Seq<char>) -> Seq<char> {
    if text.len() <= SNIPPET_CHARS { text } else { text.take(SNIPPET_CHARS as int) }
}

/// The prompt line listing one candidate: `- id <id>: <snippet>` and a newline.
pub open spec fn candidate_line(c: Candidate) -> Seq<char> {
    "- id "@ + decimal(c.id.0 as nat) + ": "@ + snippet(c.text@) + "\n"@
}

/// The prompt lines of `cs`, in order.
pub open spec fn candidate_lines(cs: Seq<Candidate>) -> Seq<char>
    decreases cs.len(),
{
    if cs.len() == 0 {
        Seq::empty()
    } else {
        candidate_lines(cs.drop_last()) + candidate_line(cs.last())
    }
}

/// The whole scoring prompt for a query text and its candidates.
pub open spec fn prompt_text(query: Seq<char>, cs: Seq<Candidate>) -> Seq<char> {
    prompt_preamble() + query + "\n\nDocuments:\n"@ + candidate_lines(cs)
}

fn snippet_of(text: &str) -> (s: &str)
    ensures
        s@ == snippet(text@),
{
    let n = text.unicode_len();
    if n <= SNIPPET_CHARS {
        text
    } else {
        text.substring_char(0, SNIPPET_CHARS)
    }
}

/// Builds the scoring prompt listing every candidate with the first 240
/// characters of its text.
pub fn build_prompt(query: &Query, candidates: &[Candidate]) -> (p: String)
    ensures
        p@ == prompt_text(query.text@, candidates@),
{
    let mut p = String::from_str(preamble());
    p.append(query.text());
    p.append("\n\nDocuments:\n");
    let ghost head = prompt_preamble() + query.text@ + "\n\nDocuments:\n"@;
    proof {
        assert(candidates@.take(0) =~= Seq::<Candidate>::empty());
        assert(p@ =~= head + candidate_lines(candidates@.take(0)));
    }
    for i in 0..candidates.len()
        invariant
            p@ == head + candidate_lines(candidates@.take(i as int)),
    {
        let c = &candidates[i];
        p.append("- id ");
        push_decimal(&mut p, c.id.value());
        p.append(": ");
        p.append(snippet_of(c.text.as_str()));
        p.append("\n");
        proof {
            let t = candidates@.take(i + 1);
            assert(t.drop_last() =~= candidates@.take(i as int));
            assert(t.last() == candidates@[i as int]);
            assert(p@ =~= head + candidate_lines(t));
        }
    }
    proof {
        assert(candidates@.take(candidates@.len() as int) =~= candidates@);
    }
    p
}

/// The retrieval score (bits) of each candidate id; where an id occurs more
/// than once, its last occurrence wins.
pub open spec fn retrieval_by_id(cs: Seq<Candidate>) -> Map<u64, u32>
    decreases cs.len(),
{
    if cs.len() == 0 {
        Map::empty()
    } else {
        retrieval_by_id(cs.drop_last()).insert(cs.last().id.0, cs.last().retrieval_bits)
    }
}

/// The model's `(id, score bits)` items turned into scored candidates, in
/// the model's order, keeping only ids that were offered as candidates; each
/// keeps its candidate's retrieval score.
pub open spec fn scored_items(items: Seq<(u64, u32)>, cs: Seq<Candidate>) -> Seq<ScoredCandidate>
    decreases items.len(),
{
    if items.len() == 0 {
        Seq::empty()
    } else {
        let rest = scored_items(items.drop_last(), cs);
        let (id, score) = items.last();
        let m = retrieval_by_id(cs);
        if m.contains_key(id) {
            rest.push(ScoredCandidate { id: DocId(id), score_bits: score, retrieval_bits: m[id] })
        } else {
            rest
        }
    }
}

/// The error given when none of the model's items names a candidate.
pub open spec fn no_valid_scores(e: AiError) -> bool {
    e matches AiError::Parse(m) && m@ == "no valid scored candidates"@
}

/// Turns the model's parsed `(id, score bits)` items into scored
/// candidates, dropping ids that were not offered. Fails with a parse error
/// when nothing is left.
pub fn scores_for_candidates(items: &[(u64, u32)], candidates: &[Candidate]) -> (r: Result<Vec<ScoredCandidate>, AiError>)
    ensures
        scored_items(items@, candidates@).len() == 0 <==> r is Err,
        r matches Err(e) ==> no_valid_scores(e),
        r matches Ok(v) ==> v@ == scored_items(items@, candidates@),
{
    let mut retrieval: HashMap<u64, u32> = HashMap::new();
    proof {
        assert(candidates@.take(0) =~= Seq::<Candidate>::empty());
        assert(retrieval@ =~= retrieval_by_id(candidates@.take(0)));
    }
    for i in 0..candidates.len()
        invariant
            retrieval@ == retrieval_by_id(candidates@.take(i as int)),
    {
        retrieval.insert(candidates[i].id.value(), candidates[i].retrieval_bits);
        proof {
            let t = candidates@.take(i + 1);
            assert(t.drop_last() =~= candidates@.take(i as int));
        }
    }
    proof {
        assert(candidates@.take(candidates@.len() as int) =~= candidates@);
    }
    let mut scored: Vec<ScoredCandidate> = Vec::new();
    proof {
        assert(items@.take(0) =~= Seq::<(u64, u32)>::empty());
    }
    for i in 0..items.len()
        invariant
            retrieval@ == retrieval_by_id(candidates@),
            scored@ == scored_items(items@.take(i as int), candidates@),
    {
        let (id, score) = items[i];
        match retrieval.get(&id) {
            Some(r) => {
                scored.push(ScoredCandidate::new(DocId(id), score, *r));
            },
            None => {},
        }
        proof {
            let t = items@.take(i + 1);
            assert(t.drop_last() =~= items@.take(i as int));
            assert(t.last() == items@[i as int]);
        }
    }
    proof {
        assert(items@.take(items@.len() as int) =~= items@);
    }
    if scored.len() == 0 {
        return Err(AiError::Parse(String::from_str("no valid scored candidates")));
    }
    Ok(scored)
}

/// What the generative reranker does with the model's reply.
#[derive(Debug)]
pub enum AiStep {
    /// Use the model's ranking.
    Ranked(RankedList),
    /// Fall back to the heuristic reranker, for this reason.
    Fallback(AiError),
}

/// The first step of the generative reranker: no model call when there are
/// no candidates (`None`: the answer is the empty ranking), else the prompt
/// to send.
pub fn ai_plan(query: &Query, candidates: &[Candidate]) -> (p: Option<String>)
    ensures
        candidates@.len() == 0 <==> p is None,
        p matches Some(s) ==> s@ == prompt_text(query.text@, candidates@),
{
    if candidates.len() == 0 {
        None
    } else {
        Some(build_prompt(query, candidates))
    }
}

/// The second step, on the model's reply (already read into `(id, score
/// bits)` items, or the error met on the way): the model's ranking when some
/// item names an offered candidate, and otherwise (any error, or no usable
/// item) the heuristic fallback with its reason. The reranker never fails a
/// request: every reply leads to a ranking or to the fallback.
pub fn ai_step(reply: Result<Vec<(u64, u32)>, AiError>, candidates: &[Candidate]) -> (s: AiStep)
    ensures
        match reply {
            Err(e) => s == AiStep::Fallback(e),
            Ok(items) => if scored_items(items@, candidates@).len() > 0 {
                s matches AiStep::Ranked(l) && stable_best_first(scored_items(items@, candidates@), l.items@)
            } else {
                s matches AiStep::Fallback(e) && no_valid_scores(e)
            },
        },
{
    match reply {
        Err(e) => AiStep::Fallback(e),
        Ok(items) => match scores_for_candidates(items.as_slice(), candidates) {
            Ok(scored) => AiStep::Ranked(RankedList::from_scored(scored)),
            Err(e) => AiStep::Fallback(e),
        },
    }
}

/// Whether an HTTP status is a success (2xx).
pub open spec fn is_success_status(status: u16) -> bool {
    200 <= status < 300
}

/// Reads a chat-completions reply: a non-success status is an error
/// carrying the status; otherwise the first choice's content, or a parse
/// error when there is no choice.
pub fn completion_from_reply(status: u16, choices: Vec<String>) -> (r: Result<String, AiError>)
    ensures
        !is_success_status(status) ==> (r matches Err(AiError::Status(s)) && s == status),
        is_success_status(status) && choices@.len() > 0 ==> (r matches Ok(t) && t@ == choices@[0]@),
        is_success_status(status) && choices@.len() == 0 ==> (r matches Err(AiError::Parse(m))
            && m@ == "no choices in response"@),
{
    if status < 200 || status >= 300 {
        return Err(AiError::Status(status));
    }
    let mut choices = choices;
    if choices.len() == 0 {
        return Err(AiError::Parse(String::from_str("no choices in response")));
    }
    Ok(choices.swap_remove(0))
}

/// The model's scores only ever keep ids that were offered: every scored
/// candidate names an offered candidate and carries that candidate's
/// retrieval score, and there are never more of them than items.
pub proof fn lemma_scores_name_offered_ids(items: Seq<(u64, u32)>, cs: Seq<Candidate>)
    ensures
        scored_items(items, cs).len() <= items.len(),
        forall|i: int| 0 <= i < scored_items(items, cs).len() ==> {
            &&& retrieval_by_id(cs).contains_key((#[trigger] scored_items(items, cs)[i]).id.0)
            &&& scored_items(items, cs)[i].retrieval_bits == retrieval_by_id(cs)[scored_items(items, cs)[i].id.0]
        },
    decreases items.len(),
{
    if items.len() > 0 {
        lemma_scores_name_offered_ids(items.drop_last(), cs);
        let rest = scored_items(items.drop_last(), cs);
        assert forall|i: int| 0 <= i < scored_items(items, cs).len() implies {
            &&& retrieval_by_id(cs).contains_key((#[trigger] scored_items(items, cs)[i]).id.0)
            &&& scored_items(items, cs)[i].retrieval_bits == retrieval_by_id(cs)[scored_items(items, cs)[i].id.0]
        } by {
            if i < rest.len() {
                assert(scored_items(items, cs)[i] == rest[i]);
            }
        }
    }
}

/// Every offered id appears in the retrieval lookup.
pub proof fn lemma_offered_ids_are_known(cs: Seq<Candidate>, i: int)
    requires
        0 <= i < cs.len(),
    ensures
        retrieval_by_id(cs).contains_key(cs[i].id.0),
    decreases cs.len(),
{
    if i < cs.len() - 1 {
        lemma_offered_ids_are_known(cs.drop_last(), i);
    }
}

/// The prompt lists every candidate, in order, each on its own line: after
/// the instructions, the query and the `Documents:` heading, the prompt is
/// exactly the candidates' lines one after the other, one line per
/// candidate. A line is `- id <id>: <snippet>` and a newline, where the
/// snippet is the first `min(len, 240)` characters of the candidate's text.
pub proof fn lemma_prompt_lists_every_candidate(query: Seq<char>, cs: Seq<Candidate>)
    ensures
        prompt_text(query, cs) == prompt_preamble() + query + "\n\nDocuments:\n"@
            + cs.map_values(|c: Candidate| candidate_line(c)).flatten(),
        forall|i: int| 0 <= i < cs.len() ==> {
            let t = (#[trigger] cs[i]).text@;
            &&& snippet(t).len() == if t.len() <= 240 { t.len() } else { 240 }
            &&& snippet(t) == t.take(snippet(t).len() as int)
        },
    decreases cs.len(),
{
    lemma_lines_are_flattened(cs);
    assert forall|i: int| 0 <= i < cs.len() implies {
        let t = (#[trigger] cs[i]).text@;
        &&& snippet(t).len() == if t.len() <= 240 { t.len() } else { 240 }
        &&& snippet(t) == t.take(snippet(t).len() as int)
    } by {
        let t = cs[i].text@;
        if t.len() <= 240 {
            assert(t.take(t.len() as int) =~= t);
        }
    }
}

proof fn lemma_lines_are_flattened(cs: Seq<Candidate>)
    ensures
        candidate_lines(cs) == cs.map_values(|c: Candidate| candidate_line(c)).flatten(),
    decreases cs.len(),
{
    let f = |c: Candidate| candidate_line(c);
    if cs.len() == 0 {
        assert(cs.map_values(f) =~= Seq::<Seq<char>>::empty());
    } else {
        lemma_lines_are_flattened(cs.drop_last());
        assert(cs.map_values(f) =~= cs.drop_last().map_values(f).push(candidate_line(cs.last())));
        cs.drop_last().map_values(f).lemma_flatten_push(candidate_line(cs.last()));
    }
}

/// Some candidate of `cs` has id `id`.
pub open spec fn is_offered(cs: Seq<Candidate>, id: u64) -> bool {
    exists|i: int| 0 <= i < cs.len() && cs[i].id.0 == id
}

/// `r` is the retrieval score of the last candidate of `cs` with id `id`.
pub open spec fn last_retrieval_is(cs: Seq<Candidate>, id: u64, r: u32) -> bool {
    exists|i: int| 0 <= i < cs.len() && cs[i].id.0 == id && cs[i].retrieval_bits == r
        && forall|j: int| i < j < cs.len() ==> cs[j].id.0 != id
}

/// The model items that name an offered candidate, in the model's order.
pub open spec fn offered_items(items: Seq<(u64, u32)>, cs: Seq<Candidate>) -> Seq<(u64, u32)> {
    items.filter(|it: (u64, u32)| is_offered(cs, it.0))
}

proof fn lemma_retrieval_lookup(cs: Seq<Candidate>, id: u64)
    ensures
        retrieval_by_id(cs).contains_key(id) <==> is_offered(cs, id),
        retrieval_by_id(cs).contains_key(id) ==> last_retrieval_is(cs, id, retrieval_by_id(cs)[id]),
    decreases cs.len(),
{
    if cs.len() > 0 {
        let t = cs.drop_last();
        lemma_retrieval_lookup(t, id);
        let n = cs.len() - 1;
        if cs.last().id.0 == id {
            assert(cs[n].id.0 == id);
        } else {
            if is_offered(cs, id) {
                let i = choose|i: int| 0 <= i < cs.len() && cs[i].id.0 == id;
                assert(t[i].id.0 == id);
            }
            if is_offered(t, id) {
                let i = choose|i: int| 0 <= i < t.len() && t[i].id.0 == id;
                assert(cs[i].id.0 == id);
            }
            if retrieval_by_id(cs).contains_key(id) {
                let r = retrieval_by_id(cs)[id];
                let i = choose|i: int| 0 <= i < t.len() && t[i].id.0 == id && t[i].retrieval_bits == r
                    && forall|j: int| i < j < t.len() ==> t[j].id.0 != id;
                assert(cs[i] == t[i]);
                assert forall|j: int| i < j < cs.len() implies cs[j].id.0 != id by {
                    if j < n {
                        assert(cs[j] == t[j]);
                    }
                }
            }
        }
    }
}

/// The model's reply keeps exactly the items that name an offered
/// candidate, whatever their score: one scored candidate per such item, in
/// the model's order, with the item's id and score bits, and with the
/// retrieval score of the last offered candidate with that id.
pub proof fn lemma_scores_keep_every_offered_item(items: Seq<(u64, u32)>, cs: Seq<Candidate>)
    ensures
        scored_items(items, cs).len() == offered_items(items, cs).len(),
        forall|k: int| 0 <= k < scored_items(items, cs).len() ==> {
            &&& (#[trigger] scored_items(items, cs)[k]).id.0 == offered_items(items, cs)[k].0
            &&& scored_items(items, cs)[k].score_bits == offered_items(items, cs)[k].1
            &&& last_retrieval_is(cs, offered_items(items, cs)[k].0, scored_items(items, cs)[k].retrieval_bits)
        },
    decreases items.len(),
{
    let p = |it: (u64, u32)| is_offered(cs, it.0);
    if items.len() == 0 {
        assert(offered_items(items, cs) =~= Seq::<(u64, u32)>::empty());
    } else {
        let rest = items.drop_last();
        lemma_scores_keep_every_offered_item(rest, cs);
        let x = items.last();
        assert(items =~= rest.push(x));
        rest.lemma_filter_push(x, p);
        assert(offered_items(items, cs) == if p(x) { offered_items(rest, cs).push(x) } else { offered_items(rest, cs) });
        lemma_retrieval_lookup(cs, x.0);
        let sr = scored_items(rest, cs);
        let or = offered_items(rest, cs);
        assert forall|k: int| 0 <= k < scored_items(items, cs).len() implies {
            &&& (#[trigger] scored_items(items, cs)[k]).id.0 == offered_items(items, cs)[k].0
            &&& scored_items(items, cs)[k].score_bits == offered_items(items, cs)[k].1
            &&& last_retrieval_is(cs, offered_items(items, cs)[k].0, scored_items(items, cs)[k].retrieval_bits)
        } by {
            if k < sr.len() {
                assert(scored_items(items, cs)[k] == sr[k]);
                assert(offered_items(items, cs)[k] == or[k]);
            }
        }
    }
}

} // verus!
