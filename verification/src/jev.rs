//! The live source: one request per ant, answered whenever it is answered.
//!
//! This is the only module that knows both an ant and the API. It turns a
//! single ant's view into a request, offers exactly the moves that ant can
//! make, and checks the answer against that list again when it arrives.

use vstd::prelude::*;

use crate::action::Action;
use crate::api::{
    distinct_keys, options_distinct, ApiError, Answer, Client, Question, RequestState, SystemOneRequest, SystemOneResponse, MODEL,
    REQUEST_TIMEOUT_MS,
};
use crate::config::{MAX_IN_FLIGHT, MIN_CONFIDENCE_PPM, VISION_RADIUS};
use crate::decisions::{view_record, AntId, AntMove, AntView, DecisionSource, Exchange, Link, Origin, Outcome, ViewRecord};
use crate::text::{
    copy_texts, decimal, decimal_string, is_before, is_blank, same_text, text_before, trimmed,
    trimmed_text, two_places, two_places_string,
};

verus! {

/// The question key.
pub const STEP_QUESTION: &'static str = "step";

/// An option as the request names it: key and description.
pub open spec fn criterion(a: Action) -> (Seq<char>, Seq<char>) {
    (a.key_text(), a.description_text())
}

pub open spec fn pair_view(p: (String, String)) -> (Seq<char>, Seq<char>) {
    (p.0@, p.1@)
}

pub open spec fn text_view(s: String) -> Seq<char> {
    s@
}

/// The `vision` line of every ant's state.
pub open spec fn vision_text() -> Seq<char> {
    "This ant sees "@ + decimal(VISION_RADIUS as nat) + " cells in every direction."@
}

/// The criteria of a request: every option, key and description, in the
/// order offered.
pub fn criteria_of(options: &Vec<Action>) -> (c: Vec<(String, String)>)
    ensures
        c@.map_values(|p: (String, String)| pair_view(p)) == options@.map_values(|a: Action| criterion(a)),
{
    let mut c: Vec<(String, String)> = Vec::new();
    let mut i: usize = 0;
    while i < options.len()
        invariant
            i <= options.len(),
            c@.map_values(|p: (String, String)| pair_view(p)) == options@.take(i as int).map_values(
                |a: Action| criterion(a),
            ),
        decreases options.len() - i,
    {
        let option = options[i];
        let ghost prev = c@;
        let key = option.key();
        let description = option.description();
        c.push((key, description));
        proof {
            assert(options@.take(i + 1) =~= options@.take(i as int).push(option));
            assert(c@ == prev.push((key, description)));
            assert(c@.map_values(|p: (String, String)| pair_view(p)) =~= prev.map_values(
                |p: (String, String)| pair_view(p),
            ).push(criterion(option)));
            assert(options@.take(i + 1).map_values(|a: Action| criterion(a)) =~= options@.take(
                i as int,
            ).map_values(|a: Action| criterion(a)).push(criterion(option)));
        }
        i = i + 1;
    }
    assert(options@.take(options.len() as int) =~= options@);
    c
}

/// What the request for an ant holds: its options under `step`, with the
/// question text in force; the order when there is one, trimmed; "a fruit"
/// when it carries one; how far it sees; and what it sees, or that it sees
/// nothing.
pub open spec fn asks_for(r: SystemOneRequest, ant: AntView<'_>) -> bool {
    &&& r.model@ == MODEL@
    &&& r.questions@.len() == 1
    &&& r.questions@[0].0@ == STEP_QUESTION@
    &&& r.questions@[0].1 matches Question::Choice { instructions, criteria } && instructions@
        == ant.instructions@ && criteria@.map_values(|p: (String, String)| pair_view(p))
        == ant.options@.map_values(|a: Action| criterion(a))
    &&& trimmed_text(ant.order@).len() == 0 ==> r.state.order_from_the_ant_queen is None
    &&& trimmed_text(ant.order@).len() > 0 ==> (r.state.order_from_the_ant_queen matches Some(o)
        && o@ == trimmed_text(ant.order@))
    &&& ant.carrying ==> (r.state.carrying matches Some(c) && c@ == "a fruit"@)
    &&& !ant.carrying ==> r.state.carrying is None
    &&& r.state.vision@ == vision_text()
    &&& ant.sightings@.len() == 0 ==> r.state.nearby@.map_values(|s: String| text_view(s))
        == seq!["nothing within sight"@]
    &&& ant.sightings@.len() > 0 ==> r.state.nearby@ == ant.sightings@
}

/// One ant's view, turned into a request. Options with keys of their own
/// give a request whose every key is its own, as the wire form needs.
pub fn build_request(ant: &AntView<'_>) -> (r: SystemOneRequest)
    ensures
        asks_for(r, *ant),
        (forall|i: int, j: int| 0 <= i < j < ant.options@.len() ==> #[trigger] ant.options@[i].key_text()
            != #[trigger] ant.options@[j].key_text()) ==> r.wf(),
{
    let criteria = criteria_of(&ant.options);
    let choice = Question::Choice { instructions: String::from_str(ant.instructions), criteria };
    let mut questions: Vec<(String, Question)> = Vec::new();
    questions.push((String::from_str(STEP_QUESTION), choice));

    // An empty order is left out entirely rather than sent as an empty string.
    let order: Option<String> = if is_blank(ant.order) {
        None
    } else {
        Some(String::from_str(trimmed(ant.order)))
    };
    // Left out when the ant is empty-handed, like the empty order.
    let carrying: Option<String> = if ant.carrying {
        Some(String::from_str("a fruit"))
    } else {
        None
    };
    let mut vision = String::from_str("This ant sees ");
    let radius = decimal_string(VISION_RADIUS as u32);
    vision.append(radius.as_str());
    vision.append(" cells in every direction.");
    let nearby: Vec<String> = if ant.sightings.len() == 0 {
        let mut none: Vec<String> = Vec::new();
        none.push(String::from_str("nothing within sight"));
        assert(none@.map_values(|s: String| text_view(s)) =~= seq!["nothing within sight"@]);
        none
    } else {
        copy_texts(&ant.sightings)
    };
    let r = SystemOneRequest {
        model: String::from_str(MODEL),
        state: RequestState { order_from_the_ant_queen: order, carrying, vision, nearby },
        questions,
    };
    proof {
        if forall|i: int, j: int| 0 <= i < j < ant.options@.len() ==> #[trigger] ant.options@[i].key_text()
            != #[trigger] ant.options@[j].key_text() {
            match r.questions@[0].1 {
                Question::Choice { criteria, .. } => {
                    let crit = criteria@.map_values(|p: (String, String)| pair_view(p));
                    let opts = ant.options@.map_values(|a: Action| criterion(a));
                    assert(crit.len() == opts.len());
                    assert(criteria@.len() == ant.options@.len());
                    assert forall|i: int, j: int| 0 <= i < j < criteria@.len() implies #[trigger] criteria@[i].0@
                        != #[trigger] criteria@[j].0@ by {
                        assert(crit[i] == opts[i]);
                        assert(crit[j] == opts[j]);
                        assert(ant.options@[i].key_text() != ant.options@[j].key_text());
                    }
                },
                _ => {},
            }
            assert forall|i: int| 0 <= i < r.questions@.len() implies options_distinct(#[trigger] r.questions@[i].1) by {
                assert(i == 0);
            }
        }
    }
    r
}

/// In a well-formed response the answer to the step question is the one
/// answer filed under its key, wherever it stands.
pub proof fn lemma_the_step_answer(response: SystemOneResponse, k: int)
    requires
        response.wf(),
        0 <= k < response.answers@.len(),
        response.answers@[k].0@ == STEP_QUESTION@,
    ensures
        step_answer(response) == Some(response.answers@[k].1),
{
    lemma_answer_under_only(response.answers@, STEP_QUESTION@, k, response.answers@.len());
}

proof fn lemma_answer_under_only(s: Seq<(String, Answer)>, key: Seq<char>, k: int, n: nat)
    requires
        distinct_keys(s),
        0 <= k < n <= s.len(),
        s[k].0@ == key,
    ensures
        answer_under(s, key, n) == Some(s[k].1),
    decreases n,
{
    if n > k + 1 {
        lemma_answer_under_only(s, key, k, (n - 1) as nat);
    } else {
        assert forall|i: int| 0 <= i < k implies s[i].0@ != key by {
            assert(s[i].0@ != s[k].0@);
        }
        lemma_answer_under_none(s, key, k as nat);
    }
}

proof fn lemma_answer_under_none(s: Seq<(String, Answer)>, key: Seq<char>, n: nat)
    requires
        n <= s.len(),
        forall|i: int| 0 <= i < n ==> s[i].0@ != key,
    ensures
        answer_under(s, key, n) is None,
    decreases n,
{
    if n > 0 {
        lemma_answer_under_none(s, key, (n - 1) as nat);
    }
}

/// The answer under `key` among the first `n` answers, the first one if there
/// were several.
pub open spec fn answer_under(s: Seq<(String, Answer)>, key: Seq<char>, n: nat) -> Option<Answer>
    decreases n,
{
    if n == 0 {
        None
    } else {
        match answer_under(s, key, (n - 1) as nat) {
            Some(a) => Some(a),
            None => if s[n - 1].0@ == key { Some(s[n - 1].1) } else { None },
        }
    }
}

/// The answer to the step question.
pub open spec fn step_answer(response: SystemOneResponse) -> Option<Answer> {
    answer_under(response.answers@, STEP_QUESTION@, response.answers@.len())
}

proof fn lemma_answer_under_stays(s: Seq<(String, Answer)>, key: Seq<char>, n: nat, m: nat)
    requires
        n <= m,
        answer_under(s, key, n) is Some,
    ensures
        answer_under(s, key, m) == answer_under(s, key, n),
    decreases m - n,
{
    if n < m {
        lemma_answer_under_stays(s, key, n, (m - 1) as nat);
    }
}

fn find_step(response: &SystemOneResponse) -> (r: Option<&Answer>)
    ensures
        r matches Some(a) ==> step_answer(*response) == Some(*a),
        r is None ==> step_answer(*response) is None,
{
    let mut i: usize = 0;
    while i < response.answers.len()
        invariant
            i <= response.answers@.len(),
            answer_under(response.answers@, STEP_QUESTION@, i as nat) is None,
        decreases response.answers.len() - i,
    {
        if same_text(response.answers[i].0.as_str(), STEP_QUESTION) {
            proof {
                lemma_answer_under_stays(
                    response.answers@,
                    STEP_QUESTION@,
                    (i + 1) as nat,
                    response.answers@.len(),
                );
            }
            return Some(&response.answers[i].1);
        }
        i = i + 1;
    }
    None
}

/// The first offered option among the first `n` whose key is `key`.
pub open spec fn offered_under(offered: Seq<Action>, key: Seq<char>, n: nat) -> Option<Action>
    decreases n,
{
    if n == 0 {
        None
    } else {
        match offered_under(offered, key, (n - 1) as nat) {
            Some(a) => Some(a),
            None => if offered[n - 1].key_text() == key { Some(offered[n - 1]) } else { None },
        }
    }
}

proof fn lemma_offered_under(offered: Seq<Action>, key: Seq<char>, n: nat, m: nat)
    requires
        n <= m <= offered.len(),
        offered_under(offered, key, n) is Some,
    ensures
        offered_under(offered, key, m) == offered_under(offered, key, n),
    decreases m - n,
{
    if n < m {
        lemma_offered_under(offered, key, n, (m - 1) as nat);
    }
}

/// What `offered_under` finds is one of the options, and has that key.
proof fn lemma_offered_under_found(offered: Seq<Action>, key: Seq<char>, n: nat)
    requires
        n <= offered.len(),
    ensures
        offered_under(offered, key, n) matches Some(a) ==> offered.contains(a) && a.key_text() == key,
    decreases n,
{
    if n > 0 {
        lemma_offered_under_found(offered, key, (n - 1) as nat);
        if offered_under(offered, key, (n - 1) as nat) is None && offered[n - 1].key_text() == key {
            assert(offered[n - 1] == offered[(n - 1) as int]);
        }
    }
}

/// Why an answer was refused because it was not sure enough.
pub open spec fn too_close_text(confidence: nat) -> Seq<char> {
    "confidence "@ + two_places(confidence) + " is too close to chance (below 0.22)"@
}

/// Why an answer was refused because it named something never offered.
pub open spec fn never_offered_text(choice: Seq<char>) -> Seq<char> {
    "'"@ + choice + "' was never offered to this ant"@
}

/// Why an answer was refused because there was no choice in it.
pub open spec fn no_choice_text() -> Seq<char> {
    "no choice answer under 'step'"@
}

/// What `read_step` makes of a response: the move and its confidence, or why
/// there is none.
pub open spec fn step_verdict(response: SystemOneResponse, offered: Seq<Action>) -> Result<
    (Action, u32),
    Seq<char>,
> {
    match step_answer(response) {
        Some(Answer::Choice { choice, confidence, .. }) => {
            if confidence < MIN_CONFIDENCE_PPM {
                Err(too_close_text(confidence as nat))
            } else {
                match offered_under(offered, choice@, offered.len()) {
                    Some(a) => Ok((a, confidence)),
                    None => Err(never_offered_text(choice@)),
                }
            }
        },
        _ => Err(no_choice_text()),
    }
}

/// The answer, checked twice: the option must have been offered, and the
/// model must be sure enough. Either check failing means the ant does not act
/// this round — nothing decides in its place.
pub fn read_step(response: &SystemOneResponse, offered: &[Action]) -> (r: Result<(Action, u32), String>)
    ensures
        r matches Ok(m) ==> step_verdict(*response, offered@) == Ok::<(Action, u32), Seq<char>>(m),
        r matches Err(why) ==> step_verdict(*response, offered@) == Err::<(Action, u32), Seq<char>>(why@),
        r matches Ok(m) ==> offered@.contains(m.0) && m.1 >= MIN_CONFIDENCE_PPM,
{
    let found = find_step(response);
    let (choice, confidence): (&String, u32) = match found {
        Some(Answer::Choice { choice, confidence, .. }) => (choice, *confidence),
        _ => {
            return Err(String::from_str("no choice answer under 'step'"));
        },
    };
    proof {
        assert(step_answer(*response) matches Some(Answer::Choice { choice: c, confidence: k, .. })
            && c == *choice && k == confidence);
        if confidence >= MIN_CONFIDENCE_PPM {
            assert(step_verdict(*response, offered@) == match offered_under(offered@, choice@, offered@.len()) {
                Some(a) => Ok::<(Action, u32), Seq<char>>((a, confidence)),
                None => Err::<(Action, u32), Seq<char>>(never_offered_text(choice@)),
            });
        }
    }
    if confidence < MIN_CONFIDENCE_PPM {
        let mut why = String::from_str("confidence ");
        let figure = two_places_string(confidence);
        why.append(figure.as_str());
        why.append(" is too close to chance (below 0.22)");
        return Err(why);
    }
    // Looking the key up in the list the ant was offered is both the parse
    // and the guard: anything the model made up is simply not in there.
    let mut i: usize = 0;
    while i < offered.len()
        invariant
            i <= offered@.len(),
            offered_under(offered@, choice@, i as nat) is None,
            confidence >= MIN_CONFIDENCE_PPM,
            step_verdict(*response, offered@) == match offered_under(offered@, choice@, offered@.len()) {
                Some(a) => Ok::<(Action, u32), Seq<char>>((a, confidence)),
                None => Err::<(Action, u32), Seq<char>>(never_offered_text(choice@)),
            },
        decreases offered.len() - i,
    {
        let key = offered[i].key();
        if same_text(key.as_str(), choice.as_str()) {
            proof {
                assert(offered@[i as int].key_text() == choice@);
                assert(offered_under(offered@, choice@, (i + 1) as nat) == Some(offered@[i as int]));
                lemma_offered_under(offered@, choice@, (i + 1) as nat, offered@.len());
                lemma_offered_under_found(offered@, choice@, offered@.len());
                assert(step_verdict(*response, offered@) == Ok::<(Action, u32), Seq<char>>((offered@[i as int], confidence)));
            }
            return Ok((offered[i], confidence));
        }
        i = i + 1;
    }
    let mut why = String::from_str("'");
    why.append(choice.as_str());
    why.append("' was never offered to this ant");
    Err(why)
}

/// A probability as a plain value.
pub open spec fn weight_view(p: (String, u32)) -> (Seq<char>, u32) {
    (p.0@, p.1)
}

/// `a` is listed after `b`: it weighs less, or as much with a later key.
pub open spec fn listed_after(a: (Seq<char>, u32), b: (Seq<char>, u32)) -> bool {
    a.1 < b.1 || (a.1 == b.1 && text_before(b.0, a.0))
}

pub open spec fn tail_listed_after(s: Seq<(Seq<char>, u32)>, x: (Seq<char>, u32)) -> nat
    decreases s.len(),
{
    if s.len() == 0 {
        0
    } else if listed_after(s.last(), x) {
        1 + tail_listed_after(s.drop_last(), x)
    } else {
        0
    }
}

/// The distribution highest first, ties broken by key, an insertion sort
/// that keeps equal entries in the order they came.
pub open spec fn sort_weights(s: Seq<(Seq<char>, u32)>) -> Seq<(Seq<char>, u32)>
    decreases s.len(),
{
    if s.len() == 0 {
        s
    } else {
        let sorted = sort_weights(s.drop_last());
        sorted.insert(sorted.len() - tail_listed_after(sorted, s.last()), s.last())
    }
}

/// The full distribution of the step answer, highest first; empty when there
/// is no choice answer.
pub open spec fn distribution_spec(response: SystemOneResponse) -> Seq<(Seq<char>, u32)> {
    match step_answer(response) {
        Some(Answer::Choice { probabilities, .. }) => sort_weights(
            probabilities@.map_values(|p: (String, u32)| weight_view(p)),
        ),
        _ => Seq::empty(),
    }
}

fn comes_after(a: &(String, u32), b: &(String, u32)) -> (r: bool)
    ensures
        r == listed_after(weight_view(*a), weight_view(*b)),
{
    a.1 < b.1 || (a.1 == b.1 && is_before(b.0.as_str(), a.0.as_str()))
}

proof fn lemma_tail_prefix(s: Seq<(Seq<char>, u32)>, x: (Seq<char>, u32), p: int)
    requires
        0 <= p < s.len(),
        listed_after(s[p], x),
    ensures
        tail_listed_after(s.take(p + 1), x) == 1 + tail_listed_after(s.take(p), x),
{
    assert(s.take(p + 1).drop_last() =~= s.take(p));
}

/// The full distribution the model returned, highest first, ties broken by
/// key, so the same answer always lists the same way. Read out even when the
/// answer is about to be refused.
pub fn distribution(response: &SystemOneResponse) -> (v: Vec<(String, u32)>)
    ensures
        v@.map_values(|p: (String, u32)| weight_view(p)) == distribution_spec(*response),
{
    let probabilities: &Vec<(String, u32)> = match find_step(response) {
        Some(Answer::Choice { probabilities, .. }) => probabilities,
        _ => {
            let none: Vec<(String, u32)> = Vec::new();
            assert(none@.map_values(|p: (String, u32)| weight_view(p)) =~= Seq::<(Seq<char>, u32)>::empty());
            return none;
        },
    };
    let ghost all = probabilities@.map_values(|p: (String, u32)| weight_view(p));
    let mut sorted: Vec<(String, u32)> = Vec::new();
    let mut i: usize = 0;
    while i < probabilities.len()
        invariant
            i <= probabilities.len(),
            all == probabilities@.map_values(|p: (String, u32)| weight_view(p)),
            sorted@.map_values(|p: (String, u32)| weight_view(p)) == sort_weights(all.take(i as int)),
        decreases probabilities.len() - i,
    {
        let x = (probabilities[i].0.clone(), probabilities[i].1);
        assert(weight_view(x) == all[i as int]);
        let ghost s = sorted@.map_values(|p: (String, u32)| weight_view(p));
        let mut p: usize = sorted.len();
        assert(s.take(p as int) =~= s);
        while p > 0 && comes_after(&sorted[p - 1], &x)
            invariant
                p <= sorted.len(),
                s == sorted@.map_values(|q: (String, u32)| weight_view(q)),
                tail_listed_after(s, weight_view(x)) == (sorted.len() - p) + tail_listed_after(
                    s.take(p as int),
                    weight_view(x),
                ),
            decreases p,
        {
            proof {
                lemma_tail_prefix(s, weight_view(x), p - 1);
                assert(s[p - 1] == weight_view(sorted@[p - 1]));
            }
            p = p - 1;
        }
        proof {
            if p > 0 {
                assert(s.take(p as int).last() == s[p - 1]);
                assert(s[p - 1] == weight_view(sorted@[p - 1]));
            } else {
                assert(s.take(0).len() == 0);
            }
            assert(tail_listed_after(s.take(p as int), weight_view(x)) == 0);
        }
        sorted.insert(p, x);
        proof {
            assert(all.take(i + 1).drop_last() =~= all.take(i as int));
            assert(all.take(i + 1).last() == weight_view(x));
            assert(sorted@.map_values(|q: (String, u32)| weight_view(q)) =~= s.insert(
                p as int,
                weight_view(x),
            ));
        }
        i = i + 1;
    }
    assert(all.take(probabilities.len() as int) =~= all);
    sorted
}

/// What `serde_json` makes of `body` when it reads it as a
/// `serde_json::Value` and writes that back with `to_string_pretty`: the
/// indented text, or none where the body does not parse.
pub uninterp spec fn pretty_json(body: Seq<char>) -> Option<Seq<char>>;

/// The reply body as the inspector shows it: indented where it parsed, and
/// exactly as it arrived where it did not.
pub open spec fn readable(body: Seq<char>) -> Seq<char> {
    match pretty_json(body) {
        Some(p) => p,
        None => body,
    }
}

/// `body` parsed by `serde_json::from_str::<serde_json::Value>` and written
/// again by `serde_json::to_string_pretty`. The contract claims only that
/// the outcome is a function of the body: none exactly where one of the two
/// calls fails, and otherwise the text written. What that text looks like is
/// serde_json's affair and is not stated.
#[verifier::external_body]
fn pretty_json_text(body: &str) -> (r: Option<String>)
    ensures
        r is Some <==> pretty_json(body@) is Some,
        r matches Some(p) ==> pretty_json(body@) == Some(p@),
{
    match serde_json::from_str::<serde_json::Value>(body) {
        Ok(parsed) => serde_json::to_string_pretty(&parsed).ok(),
        Err(_) => None,
    }
}

/// What the inspector shows of a reply, given what the pretty printer made
/// of it: the indented text if there is one, else the body unaltered.
pub fn shown_body(body: &str, pretty: Option<String>) -> (r: String)
    ensures
        r@ == match pretty {
            Some(p) => p@,
            None => body@,
        },
{
    match pretty {
        Some(p) => p,
        None => String::from_str(body),
    }
}

/// The reply body indented so it can be read. One that will not parse is
/// kept exactly as it arrived: an answer the game could not make sense of is
/// the one most worth looking at unaltered.
pub fn readable_body(body: &str) -> (r: String)
    ensures
        r@ == readable(body@),
{
    let pretty = pretty_json_text(body);
    shown_body(body, pretty)
}

/// What came back for one request.
pub enum Arrival {
    /// A successful round trip: the parsed response, how long it took, and
    /// the body exactly as it arrived.
    Reply { response: SystemOneResponse, latency_ms: u32, body: String },
    /// The request failed.
    Error(ApiError),
}

/// The request side of an exchange, held while the answer is out.
pub struct Asked {
    pub order: String,
    pub carrying: bool,
    pub sightings: Vec<String>,
    pub instructions: String,
    /// The body that went out, formatted for reading.
    pub body: String,
}

/// A request whose answer has not arrived yet.
pub struct InFlight {
    /// What the request is known by until its answer is delivered.
    pub ticket: u64,
    pub ant: AntId,
    /// Exactly the options this ant was offered. An answer is checked against
    /// this list, so an action that was never offered can never be carried out.
    pub offered: Vec<Action>,
    pub asked: Asked,
    /// Insurance against an answer that never comes, in milliseconds.
    pub deadline_ms: u64,
}

/// The live source. Requests it wants sent wait in an outbox; whoever sends
/// them delivers what comes back, tells the time, and polls.
pub struct JevSource {
    client: Client,
    in_flight: Vec<InFlight>,
    /// Answers thrown away, and questions that never went out.
    discarded: u32,
    /// How the last round trip went, for the lamp.
    link: Link,
    /// Finished exchanges waiting to be picked up.
    exchanges: Vec<Exchange>,
    outbox: Vec<(u64, SystemOneRequest)>,
    arrivals: Vec<(u64, Arrival)>,
    now_ms: u64,
    next_ticket: u64,
    /// Every view asked about, oldest first.
    asked: Ghost<Seq<ViewRecord>>,
}

/// What `poll` may return: moves the model chose among what the ant was
/// offered, sure enough to act on.
pub open spec fn move_from(flights: Seq<InFlight>, m: AntMove) -> bool {
    &&& m.origin matches Origin::Jev { confidence, .. } && confidence >= MIN_CONFIDENCE_PPM
    &&& exists|k: int| 0 <= k < flights.len() && flights[k].ant == m.id && (#[trigger] flights[k]).offered@.contains(m.action)
}

/// Where the first arrival for `ticket` among the first `n` is.
pub open spec fn first_for(arrivals: Seq<(u64, Arrival)>, ticket: u64, n: nat) -> Option<int>
    decreases n,
{
    if n == 0 {
        None
    } else {
        match first_for(arrivals, ticket, (n - 1) as nat) {
            Some(i) => Some(i),
            None => if arrivals[n - 1].0 == ticket { Some(n - 1) } else { None },
        }
    }
}

/// The arrival for `ticket`, if one came, and what is left waiting.
pub open spec fn taken(arrivals: Seq<(u64, Arrival)>, ticket: u64) -> (Option<Arrival>, Seq<(u64, Arrival)>) {
    match first_for(arrivals, ticket, arrivals.len()) {
        Some(i) => (Some(arrivals[i].1), arrivals.remove(i)),
        None => (None, arrivals),
    }
}

/// The move one settled request makes: the model's answer, if it names
/// something the ant was offered and is sure enough.
pub open spec fn settled_move(flight: InFlight, arrival: Option<Arrival>) -> Seq<AntMove> {
    match arrival {
        Some(Arrival::Reply { response, latency_ms, .. }) => match step_verdict(response, flight.offered@) {
            Ok((action, confidence)) => seq![
                AntMove {
                    id: flight.ant,
                    action,
                    origin: Origin::Jev {
                        confidence,
                        latency_ms,
                        input_tokens: response.usage.input_tokens,
                    },
                },
            ],
            Err(_) => Seq::empty(),
        },
        _ => Seq::empty(),
    }
}

/// Whether a request that got `arrival` by `now` counts as thrown away: the
/// answer was refused, the request failed, or the deadline passed.
pub open spec fn wasted(flight: InFlight, arrival: Option<Arrival>, now: u64) -> bool {
    match arrival {
        Some(Arrival::Reply { response, .. }) => step_verdict(response, flight.offered@) is Err,
        Some(Arrival::Error(_)) => true,
        None => now >= flight.deadline_ms,
    }
}

/// The first `n` requests settled by `now` against what has arrived: the
/// moves they make, the arrivals left over, how many were thrown away, and
/// the tickets of those still waiting.
pub open spec fn settle(flights: Seq<InFlight>, arrivals: Seq<(u64, Arrival)>, now: u64, n: nat) -> (
    Seq<AntMove>,
    Seq<(u64, Arrival)>,
    nat,
    Seq<InFlight>,
)
    decreases n,
{
    if n == 0 {
        (Seq::empty(), arrivals, 0, Seq::empty())
    } else {
        let before = settle(flights, arrivals, now, (n - 1) as nat);
        let f = flights[n - 1];
        let t = taken(before.1, f.ticket);
        (
            before.0 + settled_move(f, t.0),
            t.1,
            before.2 + if wasted(f, t.0, now) { 1nat } else { 0nat },
            if t.0 is None && now < f.deadline_ms { before.3.push(f) } else { before.3 },
        )
    }
}

/// What one request settled with `arrival` by `now` says of the line:
/// answering (`Some(None)`), not answering and why (`Some(Some(reason))`),
/// or nothing while it still waits (`None`).
pub open spec fn line_word(flight: InFlight, arrival: Option<Arrival>, now: u64) -> Option<Option<Seq<char>>> {
    match arrival {
        Some(Arrival::Reply { .. }) => Some(None),
        Some(Arrival::Error(error)) => Some(Some(error.message_text())),
        None => if now >= flight.deadline_ms {
            Some(Some("no answer before the deadline"@))
        } else {
            None
        },
    }
}

/// Whether an answer came back for any of the first `n` requests settled by `now`.
pub open spec fn replied(flights: Seq<InFlight>, arrivals: Seq<(u64, Arrival)>, now: u64, n: nat) -> bool
    decreases n,
{
    if n == 0 {
        false
    } else {
        let f = flights[n - 1];
        let t = taken(settle(flights, arrivals, now, (n - 1) as nat).1, f.ticket);
        replied(flights, arrivals, now, (n - 1) as nat) || line_word(f, t.0, now) == Some(None::<Seq<char>>)
    }
}

/// Why the last of the first `n` requests settled by `now` that failed or ran
/// out of time did so, if any did.
pub open spec fn last_failure(flights: Seq<InFlight>, arrivals: Seq<(u64, Arrival)>, now: u64, n: nat) -> Option<
    Seq<char>,
>
    decreases n,
{
    if n == 0 {
        None
    } else {
        let f = flights[n - 1];
        let t = taken(settle(flights, arrivals, now, (n - 1) as nat).1, f.ticket);
        match line_word(f, t.0, now) {
            Some(Some(reason)) => Some(reason),
            _ => last_failure(flights, arrivals, now, (n - 1) as nat),
        }
    }
}

/// The requests among the first `n` settled by `now` that leave an exchange
/// behind, in order, each with what arrived for it.
pub open spec fn settled_exchanges(flights: Seq<InFlight>, arrivals: Seq<(u64, Arrival)>, now: u64, n: nat) -> Seq<
    (InFlight, Option<Arrival>),
>
    decreases n,
{
    if n == 0 {
        Seq::empty()
    } else {
        let before = settled_exchanges(flights, arrivals, now, (n - 1) as nat);
        let f = flights[n - 1];
        let t = taken(settle(flights, arrivals, now, (n - 1) as nat).1, f.ticket);
        if line_word(f, t.0, now) is Some {
            before.push((f, t.0))
        } else {
            before
        }
    }
}

/// What became of a request that got `arrival`, as the exchange records it:
/// the option chosen with its confidence, the distribution, the round trip and
/// the tokens when the answer moved the ant; the reason with the distribution
/// and the round trip when it was refused; the reason when nothing usable came.
pub open spec fn outcome_of(flight: InFlight, arrival: Option<Arrival>, outcome: Outcome) -> bool {
    match arrival {
        Some(Arrival::Reply { response, latency_ms, .. }) => match step_verdict(response, flight.offered@) {
            Ok((action, confidence)) => outcome matches Outcome::Taken {
                chosen: c,
                confidence: k,
                probabilities: p,
                latency_ms: l,
                input_tokens: t,
            } && c@ == action.key_text() && k == confidence && p@.map_values(|w: (String, u32)| weight_view(w))
                == distribution_spec(response) && l == latency_ms && t == response.usage.input_tokens,
            Err(why) => outcome matches Outcome::Refused { reason: r, probabilities: p, latency_ms: l } && r@
                == why && p@.map_values(|w: (String, u32)| weight_view(w)) == distribution_spec(response) && l
                == latency_ms,
        },
        Some(Arrival::Error(error)) => outcome matches Outcome::Failed { reason: r } && r@ == error.message_text(),
        None => outcome matches Outcome::Failed { reason: r } && r@ == "no answer before the deadline"@,
    }
}

/// Whether `e` is the whole record of a request that got `arrival`: what was
/// asked, exactly as it went out, the body that came back if one did (made
/// readable), and
/// what became of it.
pub open spec fn is_record_of(e: Exchange, flight: InFlight, arrival: Option<Arrival>) -> bool {
    &&& e.ant == flight.ant
    &&& e.order == flight.asked.order
    &&& e.carrying == flight.asked.carrying
    &&& e.sightings@ == flight.asked.sightings@
    &&& e.instructions == flight.asked.instructions
    &&& e.request == flight.asked.body
    &&& e.offered@.map_values(|p: (String, String)| pair_view(p)) == flight.offered@.map_values(
        |a: Action| criterion(a),
    )
    &&& match arrival {
        Some(Arrival::Reply { body, .. }) => e.response matches Some(r) && r@ == readable(body@),
        _ => e.response is None,
    }
    &&& outcome_of(flight, arrival, e.outcome)
}

/// Whether the lamp `l` says what `word` says: answering, or down for that reason.
pub open spec fn shows(l: Link, word: Option<Seq<char>>) -> bool {
    match word {
        None => l is Live,
        Some(reason) => l matches Link::Down(r) && r@ == reason,
    }
}

/// Whether `a` is the request `b`, copied field for field.
pub open spec fn same_flight(a: InFlight, b: InFlight) -> bool {
    &&& a.ticket == b.ticket
    &&& a.ant == b.ant
    &&& a.offered@ == b.offered@
    &&& a.asked.order == b.asked.order
    &&& a.asked.carrying == b.asked.carrying
    &&& a.asked.sightings@ == b.asked.sightings@
    &&& a.asked.instructions == b.asked.instructions
    &&& a.asked.body == b.asked.body
    &&& a.deadline_ms == b.deadline_ms
}

/// A copy of an option list.
fn copy_actions(v: &Vec<Action>) -> (r: Vec<Action>)
    ensures
        r@ == v@,
{
    let mut r: Vec<Action> = Vec::new();
    let mut k: usize = 0;
    while k < v.len()
        invariant
            k <= v.len(),
            r@ == v@.take(k as int),
        decreases v.len() - k,
    {
        r.push(v[k]);
        assert(v@.take(k + 1) =~= v@.take(k as int).push(v@[k as int]));
        k = k + 1;
    }
    assert(v@.take(v.len() as int) =~= v@);
    r
}

/// Puts the two halves of an exchange together once the answer is in.
fn exchange(flight: &InFlight, outcome: Outcome, response: Option<String>) -> (e: Exchange)
    ensures
        e.ant == flight.ant,
        e.order == flight.asked.order,
        e.carrying == flight.asked.carrying,
        e.sightings@ == flight.asked.sightings@,
        e.instructions == flight.asked.instructions,
        e.request == flight.asked.body,
        e.offered@.map_values(|p: (String, String)| pair_view(p)) == flight.offered@.map_values(
            |a: Action| criterion(a),
        ),
        e.outcome == outcome,
        e.response == response,
{
    Exchange {
        ant: flight.ant,
        order: flight.asked.order.clone(),
        carrying: flight.asked.carrying,
        sightings: copy_texts(&flight.asked.sightings),
        instructions: flight.asked.instructions.clone(),
        request: flight.asked.body.clone(),
        response,
        offered: criteria_of(&flight.offered),
        outcome,
    }
}

impl JevSource {
    pub closed spec fn flights(self) -> Seq<InFlight> {
        self.in_flight@
    }

    pub closed spec fn discard_count(self) -> u32 {
        self.discarded
    }

    pub closed spec fn waiting(self) -> Seq<(u64, SystemOneRequest)> {
        self.outbox@
    }

    pub closed spec fn clock(self) -> u64 {
        self.now_ms
    }

    /// What has arrived and not been settled yet, by ticket.
    pub closed spec fn arrived(self) -> Seq<(u64, Arrival)> {
        self.arrivals@
    }

    /// How the last round trip went, as the lamp shows it.
    pub closed spec fn lamp(self) -> Link {
        self.link
    }

    /// Finished exchanges not picked up yet, oldest first.
    pub closed spec fn log(self) -> Seq<Exchange> {
        self.exchanges@
    }

    /// The client the requests are meant for.
    pub closed spec fn target(self) -> Client {
        self.client
    }

    pub fn new(client: Client) -> (s: JevSource)
        ensures
            s.flights().len() == 0,
            s.discard_count() == 0,
            s.waiting().len() == 0,
            s.arrived().len() == 0,
            s.lamp() is Untried,
            s.log().len() == 0,
            s.clock() == 0,
            s.target() == client,
    {
        JevSource {
            client,
            in_flight: Vec::new(),
            discarded: 0,
            link: Link::Untried,
            exchanges: Vec::new(),
            outbox: Vec::new(),
            arrivals: Vec::new(),
            now_ms: 0,
            next_ticket: 0,
            asked: Ghost(Seq::empty()),
        }
    }

    /// The client the requests are meant for.
    pub fn client(&self) -> (c: &Client)
        ensures
            *c == self.target(),
    {
        &self.client
    }

    /// Tells the source what time it is, in milliseconds.
    pub fn set_clock(&mut self, now_ms: u64)
        ensures
            final(self).clock() == now_ms,
            final(self).flights() == old(self).flights(),
            final(self).waiting() == old(self).waiting(),
            final(self).arrived() == old(self).arrived(),
            final(self).discard_count() == old(self).discard_count(),
            final(self).log() == old(self).log(),
            final(self).lamp() == old(self).lamp(),
    {
        self.now_ms = now_ms;
    }

    /// The requests waiting to be sent, each with its ticket.
    pub fn take_outbox(&mut self) -> (v: Vec<(u64, SystemOneRequest)>)
        ensures
            v@ == old(self).waiting(),
            final(self).waiting().len() == 0,
            final(self).flights() == old(self).flights(),
            final(self).arrived() == old(self).arrived(),
            final(self).clock() == old(self).clock(),
            final(self).discard_count() == old(self).discard_count(),
            final(self).log() == old(self).log(),
            final(self).lamp() == old(self).lamp(),
    {
        let mut out: Vec<(u64, SystemOneRequest)> = Vec::new();
        std::mem::swap(&mut out, &mut self.outbox);
        out
    }

    /// The body of a request as it went out, for the inspector.
    pub fn record_body(&mut self, ticket: u64, body: String)
        ensures
            final(self).flights().len() == old(self).flights().len(),
            forall|i: int| 0 <= i < old(self).flights().len() ==> #[trigger] final(self).flights()[i] == if old(self).flights()[i].ticket == ticket
                && forall|j: int| 0 <= j < i ==> old(self).flights()[j].ticket != ticket {
                InFlight { asked: Asked { body, ..old(self).flights()[i].asked }, ..old(self).flights()[i] }
            } else {
                old(self).flights()[i]
            },
            final(self).waiting() == old(self).waiting(),
            final(self).arrived() == old(self).arrived(),
            final(self).clock() == old(self).clock(),
            final(self).discard_count() == old(self).discard_count(),
            final(self).log() == old(self).log(),
            final(self).lamp() == old(self).lamp(),
    {
        let mut i: usize = 0;
        while i < self.in_flight.len()
            invariant
                *self == *old(self),
                i <= self.in_flight.len(),
                forall|j: int| 0 <= j < i ==> self.flights()[j].ticket != ticket,
            decreases self.in_flight.len() - i,
        {
            if self.in_flight[i].ticket == ticket {
                let mut flight = self.in_flight.remove(i);
                flight.asked.body = body;
                self.in_flight.insert(i, flight);
                proof {
                    assert forall|k: int| 0 <= k < old(self).flights().len() implies #[trigger] self.flights()[k]
                        == if old(self).flights()[k].ticket == ticket && forall|j: int| 0 <= j < k ==> old(self).flights()[j].ticket != ticket {
                        InFlight { asked: Asked { body, ..old(self).flights()[k].asked }, ..old(self).flights()[k] }
                    } else {
                        old(self).flights()[k]
                    } by {
                        if k > i {
                            assert(old(self).flights()[i as int].ticket == ticket);
                        }
                    }
                }
                return;
            }
            i = i + 1;
        }
    }

    /// What came back for a request, to be taken into account at the next poll.
    pub fn deliver(&mut self, ticket: u64, arrival: Arrival)
        ensures
            final(self).flights() == old(self).flights(),
            final(self).arrived() == old(self).arrived().push((ticket, arrival)),
            final(self).clock() == old(self).clock(),
            final(self).discard_count() == old(self).discard_count(),
            final(self).waiting() == old(self).waiting(),
            final(self).log() == old(self).log(),
            final(self).lamp() == old(self).lamp(),
    {
        self.arrivals.push((ticket, arrival));
    }

    /// Whatever went wrong, the ant simply does not act this round.
    fn discard(&mut self)
        ensures
            final(self).discard_count() == (if old(self).discard_count() == u32::MAX {
                0
            } else {
                old(self).discard_count() + 1
            }),
            final(self).flights() == old(self).flights(),
            final(self).waiting() == old(self).waiting(),
            final(self).arrived() == old(self).arrived(),
            final(self).clock() == old(self).clock(),
            final(self).log() == old(self).log(),
            final(self).lamp() == old(self).lamp(),
            final(self).asked == old(self).asked,
    {
        self.discarded = self.discarded.wrapping_add(1);
    }

    fn take_arrival(&mut self, ticket: u64) -> (a: Option<Arrival>)
        ensures
            final(self).flights() == old(self).flights(),
            (a, final(self).arrived()) == taken(old(self).arrived(), ticket),
            final(self).clock() == old(self).clock(),
            final(self).discard_count() == old(self).discard_count(),
            final(self).log() == old(self).log(),
            final(self).lamp() == old(self).lamp(),
            final(self).asked == old(self).asked,
    {
        let mut i: usize = 0;
        while i < self.arrivals.len()
            invariant
                self.flights() == old(self).flights(),
                self.arrived() == old(self).arrived(),
                self.clock() == old(self).clock(),
                self.discard_count() == old(self).discard_count(),
                self.log() == old(self).log(),
                self.lamp() == old(self).lamp(),
                self.asked == old(self).asked,
                i <= self.arrivals@.len(),
                first_for(self.arrivals@, ticket, i as nat) is None,
            decreases self.arrivals.len() - i,
        {
            if self.arrivals[i].0 == ticket {
                proof {
                    assert(first_for(self.arrivals@, ticket, (i + 1) as nat) == Some(i as int));
                    lemma_first_for_stays(self.arrivals@, ticket, (i + 1) as nat, self.arrivals@.len());
                }
                let (_, arrival) = self.arrivals.remove(i);
                return Some(arrival);
            }
            i = i + 1;
        }
        None
    }
}

proof fn lemma_first_for_stays(arrivals: Seq<(u64, Arrival)>, ticket: u64, n: nat, m: nat)
    requires
        n <= m,
        first_for(arrivals, ticket, n) is Some,
    ensures
        first_for(arrivals, ticket, m) == first_for(arrivals, ticket, n),
    decreases m - n,
{
    if n < m {
        lemma_first_for_stays(arrivals, ticket, n, (m - 1) as nat);
    }
}

impl DecisionSource for JevSource {
    closed spec fn requested(&self) -> Seq<ViewRecord> {
        self.asked@
    }

    /// The moves that what has arrived makes, by the clock as it stands.
    open spec fn ready(&self) -> Seq<AntMove> {
        settle(self.flights(), self.arrived(), self.clock(), self.flights().len()).0
    }

    open spec fn thrown_away(&self) -> u32 {
        self.discard_count()
    }

    /// Builds the request for one ant and puts it in the outbox — unless too
    /// many are in the air already, in which case the question is dropped and
    /// counted: by the time a queued request went out, the ant would have
    /// moved on.
    fn request(&mut self, ant: &AntView<'_>)
        ensures
            old(self).flights().len() >= MAX_IN_FLIGHT ==> final(self).flights() == old(self).flights()
                && final(self).waiting() == old(self).waiting(),
            old(self).flights().len() < MAX_IN_FLIGHT ==> {
                &&& final(self).flights().len() == old(self).flights().len() + 1
                &&& final(self).flights().drop_last() == old(self).flights()
                &&& final(self).flights().last().ant == ant.id
                &&& final(self).flights().last().offered@ == ant.options@
                &&& final(self).waiting().len() == old(self).waiting().len() + 1
                &&& final(self).waiting().drop_last() == old(self).waiting()
                &&& final(self).waiting().last().0 == final(self).flights().last().ticket
                &&& asks_for(final(self).waiting().last().1, *ant)
                &&& final(self).flights().last().deadline_ms == (if old(self).clock() + REQUEST_TIMEOUT_MS * 2 > u64::MAX {
                    u64::MAX as int
                } else {
                    old(self).clock() + REQUEST_TIMEOUT_MS * 2
                })
            },
            final(self).discard_count() == if old(self).flights().len() >= MAX_IN_FLIGHT {
                (old(self).discard_count() + 1) % 0x1_0000_0000
            } else {
                old(self).discard_count() as int
            },
            final(self).arrived() == old(self).arrived(),
            final(self).clock() == old(self).clock(),
            final(self).log() == old(self).log(),
            final(self).lamp() == old(self).lamp(),
    {
        proof {
            self.asked@ = self.asked@.push(view_record(*ant));
        }
        if self.in_flight.len() >= MAX_IN_FLIGHT {
            self.discard();
            return;
        }
        let request = build_request(ant);
        let ticket: u64 = self.next_ticket;
        self.next_ticket = self.next_ticket.wrapping_add(1);
        let deadline: u64 = self.now_ms.saturating_add(REQUEST_TIMEOUT_MS * 2);
        let mut offered: Vec<Action> = Vec::new();
        let mut k: usize = 0;
        while k < ant.options.len()
            invariant
                k <= ant.options.len(),
                offered@ == ant.options@.take(k as int),
            decreases ant.options.len() - k,
        {
            offered.push(ant.options[k]);
            assert(ant.options@.take(k + 1) =~= ant.options@.take(k as int).push(ant.options@[k as int]));
            k = k + 1;
        }
        assert(ant.options@.take(ant.options.len() as int) =~= ant.options@);
        let ghost before = self.in_flight@;
        self.in_flight.push(
            InFlight {
                ticket,
                ant: ant.id,
                offered,
                asked: Asked {
                    order: String::from_str(ant.order),
                    carrying: ant.carrying,
                    sightings: copy_texts(&ant.sightings),
                    instructions: String::from_str(ant.instructions),
                    body: String::new(),
                },
                deadline_ms: deadline,
            },
        );
        let ghost waiting_before = self.outbox@;
        self.outbox.push((ticket, request));
        proof {
            assert(self.in_flight@.drop_last() =~= before);
            assert(self.outbox@.drop_last() =~= waiting_before);
        }
    }

    fn name(&self) -> (s: &'static str)
        ensures
            s@ == "Jev"@,
    {
        "Jev"
    }

    fn discarded(&self) -> (d: u32)
        ensures
            d == self.discard_count(),
    {
        self.discarded
    }

    fn link(&self) -> (l: Link)
        ensures
            match self.lamp() {
                Link::Untried => l is Untried,
                Link::Live => l is Live,
                Link::Down(r) => l matches Link::Down(s) && s@ == r@,
            },
    {
        match &self.link {
            Link::Untried => Link::Untried,
            Link::Live => Link::Live,
            Link::Down(reason) => Link::Down(reason.clone()),
        }
    }

    fn drain_exchanges(&mut self) -> (v: Vec<Exchange>)
        ensures
            v@ == old(self).log(),
            final(self).log().len() == 0,
            final(self).flights() == old(self).flights(),
            final(self).waiting() == old(self).waiting(),
            final(self).arrived() == old(self).arrived(),
            final(self).clock() == old(self).clock(),
            final(self).discard_count() == old(self).discard_count(),
            final(self).lamp() == old(self).lamp(),
    {
        let mut out: Vec<Exchange> = Vec::new();
        std::mem::swap(&mut out, &mut self.exchanges);
        out
    }

    /// Settles every request whose answer has arrived or whose deadline has
    /// passed. An answer becomes a move only if it names something the ant
    /// was offered and is sure enough; every answer, used or not, is written
    /// down as an exchange, and every one that moved nobody is counted as
    /// discarded. The lamp is judged by the round trip alone: an answer that
    /// came back in this poll turns it green, even beside a failure in the same
    /// poll, since one that came back says more about the line than one that
    /// did not; without one, the last failure turns it red, but only once
    /// nothing is left in the air.
    fn poll(&mut self) -> (moves: Vec<AntMove>)
        ensures
            forall|i: int| 0 <= i < moves@.len() ==> move_from(old(self).flights(), #[trigger] moves@[i]),
            final(self).flights().len() <= old(self).flights().len(),
            ({
                let st = settle(old(self).flights(), old(self).arrived(), old(self).clock(), old(self).flights().len());
                &&& moves@ == st.0
                &&& final(self).arrived() == st.1
                &&& final(self).discard_count() == (old(self).discard_count() + st.2) % 0x1_0000_0000
                &&& final(self).flights().len() == st.3.len()
                &&& forall|k: int| 0 <= k < st.3.len() ==> same_flight(#[trigger] final(self).flights()[k], st.3[k])
            }),
            final(self).clock() == old(self).clock(),
            final(self).log().take(old(self).log().len() as int) == old(self).log(),
            ({
                let written = final(self).log().skip(old(self).log().len() as int);
                let settled = settled_exchanges(old(self).flights(), old(self).arrived(), old(self).clock(), old(self).flights().len());
                &&& written.len() == settled.len()
                &&& forall|k: int| 0 <= k < written.len() ==> is_record_of(#[trigger] written[k], settled[k].0, settled[k].1)
            }),
            ({
                let n = old(self).flights().len();
                if replied(old(self).flights(), old(self).arrived(), old(self).clock(), n) {
                    final(self).lamp() is Live
                } else if last_failure(old(self).flights(), old(self).arrived(), old(self).clock(), n) is Some
                    && final(self).flights().len() == 0 {
                    shows(
                        final(self).lamp(),
                        last_failure(old(self).flights(), old(self).arrived(), old(self).clock(), n),
                    )
                } else {
                    final(self).lamp() == old(self).lamp()
                }
            }),
    {
        let now: u64 = self.now_ms;
        let mut moves: Vec<AntMove> = Vec::new();
        let mut failed: usize = 0;
        let mut green: bool = false;
        let mut red: Option<String> = None;
        let mut records: Vec<Exchange> = Vec::new();
        let mut flights: Vec<InFlight> = Vec::new();
        std::mem::swap(&mut flights, &mut self.in_flight);
        let ghost all = flights@;
        assert(all.len() == old(self).flights().len());
        let mut still: Vec<InFlight> = Vec::new();
        let ghost arrived = old(self).arrived();
        let mut i: usize = 0;
        while i < flights.len()
            invariant
                flights@ == all,
                all.len() == old(self).flights().len(),
                i <= flights.len(),
                still@.len() <= i,
                forall|j: int| 0 <= j < moves@.len() ==> move_from(all, #[trigger] moves@[j]),
                now == old(self).clock(),
                self.clock() == old(self).clock(),
                self.discard_count() == old(self).discard_count(),
                arrived == old(self).arrived(),
                moves@ == settle(all, arrived, now, i as nat).0,
                self.arrived() == settle(all, arrived, now, i as nat).1,
                failed == settle(all, arrived, now, i as nat).2,
                failed <= i,
                still@.len() == settle(all, arrived, now, i as nat).3.len(),
                forall|k: int| 0 <= k < still@.len() ==> same_flight(#[trigger] still@[k], settle(all, arrived, now, i as nat).3[k]),
                self.log() == old(self).log(),
                self.lamp() == old(self).lamp(),
                self.asked == old(self).asked,
                records@.len() == settled_exchanges(all, arrived, now, i as nat).len(),
                forall|k: int| 0 <= k < records@.len() ==> is_record_of(#[trigger] records@[k], settled_exchanges(all, arrived, now, i as nat)[k].0, settled_exchanges(all, arrived, now, i as nat)[k].1),
                green == replied(all, arrived, now, i as nat),
                match last_failure(all, arrived, now, i as nat) {
                    None => red is None,
                    Some(r) => red matches Some(t) && t@ == r,
                },
            decreases flights.len() - i,
        {
            let flight = &flights[i];
            let ghost st = settle(all, arrived, now, i as nat);
            let ghost prev_still = still@.map_values(|f: InFlight| f.ticket);
            let ghost prev_moves = moves@;
            assert(*flight == all[i as int]);
            let got = self.take_arrival(flight.ticket);
            let ghost t = taken(st.1, flight.ticket);
            assert(got == t.0);
            match got {
                Some(Arrival::Reply { response, latency_ms, body }) => {
                    green = true;
                    let probabilities = distribution(&response);
                    let tokens: u32 = response.usage.input_tokens;
                    match read_step(&response, flight.offered.as_slice()) {
                        Ok((action, confidence)) => {
                            records.push(
                                exchange(
                                    flight,
                                    Outcome::Taken {
                                        chosen: action.key(),
                                        confidence,
                                        probabilities,
                                        latency_ms,
                                        input_tokens: tokens,
                                    },
                                    Some(readable_body(body.as_str())),
                                ),
                            );
                            let m = AntMove {
                                id: flight.ant,
                                action,
                                origin: Origin::Jev { confidence, latency_ms, input_tokens: tokens },
                            };
                            let ghost prev = moves@;
                            moves.push(m);
                            proof {
                                assert(all[i as int] == *flight);
                                assert(move_from(all, m));
                                assert forall|j: int| 0 <= j < moves@.len() implies move_from(all, #[trigger] moves@[j]) by {
                                    if j < prev.len() {
                                        assert(moves@[j] == prev[j]);
                                    }
                                }
                            }
                        },
                        Err(reason) => {
                            records.push(
                                exchange(
                                    flight,
                                    Outcome::Refused { reason, probabilities, latency_ms },
                                    Some(readable_body(body.as_str())),
                                ),
                            );
                            failed = failed + 1;
                        },
                    }
                },
                Some(Arrival::Error(error)) => {
                    let reason = error.message();
                    red = Some(reason.clone());
                    records.push(exchange(flight, Outcome::Failed { reason }, None));
                    failed = failed + 1;
                },
                None => {
                    if now >= flight.deadline_ms {
                        let reason = String::from_str("no answer before the deadline");
                        red = Some(reason.clone());
                        records.push(exchange(flight, Outcome::Failed { reason }, None));
                        failed = failed + 1;
                    } else {
                        still.push(
                            InFlight {
                                ticket: flight.ticket,
                                ant: flight.ant,
                                offered: copy_actions(&flight.offered),
                                asked: Asked {
                                    order: flight.asked.order.clone(),
                                    carrying: flight.asked.carrying,
                                    sightings: copy_texts(&flight.asked.sightings),
                                    instructions: flight.asked.instructions.clone(),
                                    body: flight.asked.body.clone(),
                                },
                                deadline_ms: flight.deadline_ms,
                            },
                        );
                    }
                },
            }
            proof {
                let next = settle(all, arrived, now, (i + 1) as nat);
                assert(next.0 == st.0 + settled_move(all[i as int], t.0));
                assert(moves@ =~= next.0);

            }
            i = i + 1;
        }
        self.in_flight = still;
        let ghost written = records@;
        self.exchanges.append(&mut records);
        proof {
            assert(self.log().take(old(self).log().len() as int) =~= old(self).log());
            assert(self.log().skip(old(self).log().len() as int) =~= written);
        }
        if green {
            self.link = Link::Live;
        } else {
            match red {
                Some(reason) => {
                    if self.in_flight.len() == 0 {
                        self.link = Link::Down(reason);
                    }
                },
                None => {},
            }
        }
        let ghost lamp_after = self.lamp();
        let mut k: usize = 0;
        while k < failed
            invariant
                self.flights().len() <= old(self).flights().len(),
                self.flights() == still@,
                self.arrived() == settle(all, arrived, now, all.len()).1,
                self.clock() == old(self).clock(),
                k <= failed,
                self.discard_count() == (old(self).discard_count() + k) % 0x1_0000_0000,
                self.log() == old(self).log() + written,
                self.lamp() == lamp_after,
                self.asked == old(self).asked,
            decreases failed - k,
        {
            self.discard();
            k = k + 1;
        }
        moves
    }
}


/// What `tail_listed_after` counts: the entries at the end of `s` listed
/// after `x`, up to the first that is not.
proof fn lemma_tail_listed_after(s: Seq<(Seq<char>, u32)>, x: (Seq<char>, u32))
    ensures
        tail_listed_after(s, x) <= s.len(),
        forall|k: int| s.len() - tail_listed_after(s, x) <= k < s.len() ==> (#[trigger] s[k]).1 <= x.1,
        tail_listed_after(s, x) < s.len() ==> s[s.len() - tail_listed_after(s, x) - 1].1 >= x.1,
    decreases s.len(),
{
    if s.len() > 0 {
        lemma_tail_listed_after(s.drop_last(), x);
        let t = s.drop_last();
        assert forall|k: int| s.len() - tail_listed_after(s, x) <= k < s.len() implies (#[trigger] s[k]).1 <= x.1 by {
            if k < s.len() - 1 {
                assert(s[k] == t[k]);
            }
        }
        if tail_listed_after(s, x) < s.len() && listed_after(s.last(), x) {
            assert(s[s.len() - tail_listed_after(s, x) - 1] == t[t.len() - tail_listed_after(t, x) - 1]);
        }
    }
}

/// The distribution comes back highest first, with every entry that came.
pub proof fn lemma_distribution_highest_first(s: Seq<(Seq<char>, u32)>)
    ensures
        sort_weights(s).len() == s.len(),
        forall|i: int, j: int| 0 <= i < j < s.len() ==> (#[trigger] sort_weights(s)[i]).1 >= (
        #[trigger] sort_weights(s)[j]).1,
        sort_weights(s).to_multiset() == s.to_multiset(),
    decreases s.len(),
{
    broadcast use vstd::seq_lib::group_to_multiset_ensures;

    if s.len() > 0 {
        lemma_distribution_highest_first(s.drop_last());
        let t = sort_weights(s.drop_last());
        let x = s.last();
        lemma_tail_listed_after(t, x);
        let p = t.len() - tail_listed_after(t, x);
        let u = t.insert(p, x);
        assert(sort_weights(s) == u);
        assert forall|i: int, j: int| 0 <= i < j < u.len() implies (#[trigger] u[i]).1 >= (#[trigger] u[j]).1 by {
            if j < p {
                assert(u[i] == t[i] && u[j] == t[j]);
            } else if j == p {
                assert(u[i] == t[i]);
                assert(t[i].1 >= t[p - 1].1 || i == p - 1);
            } else if i > p {
                assert(u[i] == t[i - 1] && u[j] == t[j - 1]);
            } else if i == p {
                assert(u[j] == t[j - 1]);
            } else {
                assert(u[i] == t[i] && u[j] == t[j - 1]);
            }
        }
        assert(s.drop_last().push(x) =~= s);
        vstd::seq_lib::to_multiset_insert(t, p, x);
        assert(s.drop_last().push(x).to_multiset() == s.drop_last().to_multiset().insert(x));
    }
}

} // verus!
