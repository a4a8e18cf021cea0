//! What the inspector shows of one ant: what it was asked, and what came
//! back. Laid out as lines, each with how it is set; drawing them is left to
//! whoever has a screen.
//!
//! Three things become visible here that can otherwise only be asserted: the
//! options were built from the board, confidence is the distance from pure
//! chance, and the state an ant is asked about is tiny.

use vstd::prelude::*;

use crate::api::ENDPOINT_PATH;
use crate::decisions::{AntId, Exchange, Outcome};
use crate::panels::{ant_name, ant_title};
use crate::text::{decimal, decimal_string, same_text, two_places, two_places_string, wide_decimal_string};

verus! {

/// How a line is set.
#[derive(Clone, Copy, PartialEq, Eq, Debug, Structural)]
pub enum Tone {
    /// A section title.
    Heading,
    /// A name as the API spells it: small, monospace, dim.
    Api,
    Plain,
    Small,
    /// Small and monospace.
    Mono,
    Italic,
    /// A remark about the exchange rather than part of it.
    Quiet,
    /// The option that was chosen.
    Chosen,
    /// Something refused, failed or never offered.
    Refused,
    /// A body as it went out or came back, to be selected and copied.
    Code,
}

/// One line of the inspector: how it is set, what it says, and, for a bar of
/// the distribution, how full the bar is (parts per million).
pub struct Line {
    pub tone: Tone,
    pub text: String,
    pub bar: Option<u32>,
}

pub open spec fn line_view(l: Line) -> (Tone, Seq<char>, Option<u32>) {
    (l.tone, l.text@, l.bar)
}

pub open spec fn said(tone: Tone, text: Seq<char>) -> (Tone, Seq<char>, Option<u32>) {
    (tone, text, None)
}

pub open spec fn lines_view(v: Seq<Line>) -> Seq<(Tone, Seq<char>, Option<u32>)> {
    v.map_values(|l: Line| line_view(l))
}

/// Which side of the exchange is on screen.
#[derive(Clone, Copy, PartialEq, Eq, Debug, Structural)]
pub enum Tab {
    /// The exchange laid out in sentences, with the API name against each part.
    Read,
    /// The two bodies exactly as they went out and came back.
    Raw,
}

impl Tab {
    pub fn default() -> (t: Tab)
        ensures
            t is Read,
    {
        Tab::Read
    }
}

fn put(lines: &mut Vec<Line>, tone: Tone, text: String)
    ensures
        lines_view(final(lines)@) == lines_view(old(lines)@).push(said(tone, text@)),
{
    let ghost before = lines_view(lines@);
    lines.push(Line { tone, text, bar: None });
    proof {
        assert(lines_view(lines@) =~= before.push(said(tone, text@)));
    }
}

fn put_str(lines: &mut Vec<Line>, tone: Tone, text: &str)
    ensures
        lines_view(final(lines)@) == lines_view(old(lines)@).push(said(tone, text@)),
{
    put(lines, tone, String::from_str(text));
}

/// A section heading with the name the API gives that part.
pub open spec fn heading(text: Seq<char>, api_field: Seq<char>) -> Seq<(Tone, Seq<char>, Option<u32>)> {
    seq![said(Tone::Heading, text), said(Tone::Api, api_field)]
}

fn put_heading(lines: &mut Vec<Line>, text: String, api_field: &str)
    ensures
        lines_view(final(lines)@) == lines_view(old(lines)@) + heading(text@, api_field@),
{
    let ghost before = lines_view(lines@);
    let ghost t = text@;
    put(lines, Tone::Heading, text);
    put_str(lines, Tone::Api, api_field);
    proof {
        assert(lines_view(lines@) =~= before + heading(t, api_field@));
    }
}

pub open spec fn sighting_line(s: String) -> (Tone, Seq<char>, Option<u32>) {
    said(Tone::Small, "  \u{b7} "@ + s@)
}

pub open spec fn option_line(p: (String, String)) -> (Tone, Seq<char>, Option<u32>) {
    said(Tone::Mono, p.0@ + " \u{2014} "@ + p.1@)
}

/// What the ant sent: its order, whether it carries, and what it sees.
pub open spec fn sent_lines(e: Exchange) -> Seq<(Tone, Seq<char>, Option<u32>)> {
    heading("What it sent"@, "state"@) + (if e.order@.len() == 0 {
        seq![said(Tone::Quiet, "no order \u{2014} the field is left out of the state entirely"@)]
    } else {
        seq![said(Tone::Api, "order_from_the_ant_queen"@), said(Tone::Plain, "  \""@ + e.order@ + "\""@)]
    }) + (if e.carrying {
        seq![said(Tone::Api, "carrying"@), said(Tone::Plain, "  \"a fruit\""@)]
    } else {
        Seq::empty()
    }) + seq![said(Tone::Api, "nearby"@)] + e.sightings@.map_values(|s: String| sighting_line(s)) + (
    if e.sightings@.len() == 0 {
        seq![said(Tone::Small, "  \u{b7} nothing within sight"@)]
    } else {
        Seq::empty()
    }) + seq![
        said(Tone::Quiet, "The state also carries a constant `vision` line saying how far this ant sees."@),
    ]
}

/// What the ant was asked.
pub open spec fn asked_lines(e: Exchange) -> Seq<(Tone, Seq<char>, Option<u32>)> {
    heading("What it was asked"@, "questions.step.instructions"@) + seq![
        said(Tone::Italic, e.instructions@),
        said(
            Tone::Quiet,
            "Asked as \"type\": \"choice\" under the key `step`. Questions are evaluated independently against the same state, so a second one could be added here without chaining it onto this one."@,
        ),
    ]
}

/// The options the ant was given, as offered.
pub open spec fn option_lines(e: Exchange) -> Seq<(Tone, Seq<char>, Option<u32>)> {
    heading(
        "The options it was given ("@ + decimal(e.offered@.len()) + ")"@,
        "questions.step.criteria"@,
    ) + e.offered@.map_values(|p: (String, String)| option_line(p)) + seq![
        said(
            Tone::Quiet,
            "This list is built from what the ant can see, every request. An answer outside it is refused, so a fruit that is not there cannot be fetched."@,
        ),
    ]
}

/// Whether `key` is one of the option keys offered.
pub open spec fn was_offered(offered: Seq<(String, String)>, key: Seq<char>) -> bool {
    exists|i: int| 0 <= i < offered.len() && #[trigger] offered[i].0@ == key
}

/// One bar of the distribution: the key and its weight, an arrow on the one
/// chosen, and a mark on a key that was never offered, which with a real
/// option list should never appear.
pub open spec fn bar_line(p: (String, u32), chosen: Option<Seq<char>>, offered: Seq<(String, String)>) -> (
    Tone,
    Seq<char>,
    Option<u32>,
) {
    let is_chosen = chosen == Some(p.0@);
    let listed = was_offered(offered, p.0@);
    let text = p.0@ + "  "@ + two_places(p.1 as nat);
    let text = if is_chosen { "\u{2192} "@ + text } else { text };
    let text = if listed { text } else { text + "  (never offered)"@ };
    let tone = if !listed { Tone::Refused } else if is_chosen { Tone::Chosen } else { Tone::Quiet };
    (tone, text, Some(p.1))
}

/// A key that was never offered is marked wherever it shows up in the
/// distribution: the bar is set as refused and says so in words. With a real
/// option list it should never appear.
pub proof fn lemma_never_offered_is_marked(p: (String, u32), chosen: Option<Seq<char>>, offered: Seq<(String, String)>)
    requires
        !was_offered(offered, p.0@),
    ensures
        bar_line(p, chosen, offered).0 is Refused,
        bar_line(p, chosen, offered).1.len() >= "  (never offered)"@.len(),
        bar_line(p, chosen, offered).1.subrange(
            bar_line(p, chosen, offered).1.len() - "  (never offered)"@.len(),
            bar_line(p, chosen, offered).1.len() as int,
        ) == "  (never offered)"@,
        bar_line(p, chosen, offered).2 == Some(p.1),
{
    let text = p.0@ + "  "@ + two_places(p.1 as nat);
    let text = if chosen == Some(p.0@) { "\u{2192} "@ + text } else { text };
    assert((text + "  (never offered)"@).subrange(text.len() as int, (text + "  (never offered)"@).len() as int)
        =~= "  (never offered)"@);
}

/// The distribution as bars, highest first, or a word that none came.
pub open spec fn distribution_lines(
    probabilities: Seq<(String, u32)>,
    chosen: Option<Seq<char>>,
    offered: Seq<(String, String)>,
) -> Seq<(Tone, Seq<char>, Option<u32>)> {
    if probabilities.len() == 0 {
        seq![said(Tone::Quiet, "no distribution in the answer"@)]
    } else {
        probabilities.map_values(|p: (String, u32)| bar_line(p, chosen, offered))
    }
}

/// What came back, and what became of it.
pub open spec fn answer_lines(e: Exchange) -> Seq<(Tone, Seq<char>, Option<u32>)> {
    heading("What came back"@, "answers.step"@) + match e.outcome {
        Outcome::Taken { chosen, confidence, probabilities, latency_ms, input_tokens } => seq![
            said(Tone::Api, "choice"@),
            said(Tone::Small, "  \""@ + chosen@ + "\""@),
            said(Tone::Api, "probabilities"@),
        ] + distribution_lines(probabilities@, Some(chosen@), e.offered@) + seq![
            said(
                Tone::Small,
                "confidence "@ + two_places(confidence as nat) + " \u{b7} usage.input_tokens "@ + decimal(
                    input_tokens as nat,
                ),
            ),
            said(Tone::Quiet, decimal(latency_ms as nat) + " ms, measured around the request"@),
            said(
                Tone::Quiet,
                "Confidence is the distance from pure chance over "@ + decimal(e.offered@.len())
                    + " options, not the top probability."@,
            ),
        ],
        Outcome::Refused { reason, probabilities, latency_ms } => seq![
            said(Tone::Refused, "Thrown away \u{2014} "@ + reason@),
            said(
                Tone::Quiet,
                "The answer arrived after "@ + decimal(latency_ms as nat)
                    + " ms and was paid for. The ant did not act this round; nothing decided in its place."@,
            ),
            said(Tone::Api, "probabilities"@),
        ] + distribution_lines(probabilities@, None, e.offered@),
        Outcome::Failed { reason } => seq![said(Tone::Refused, "Nothing came back \u{2014} "@ + reason@)],
    }
}

/// The exchange laid out in sentences, with the API name against each part.
pub open spec fn reading(e: Exchange) -> Seq<(Tone, Seq<char>, Option<u32>)> {
    sent_lines(e) + asked_lines(e) + option_lines(e) + answer_lines(e)
}

/// The two bodies, as they really were.
pub open spec fn raw(e: Exchange) -> Seq<(Tone, Seq<char>, Option<u32>)> {
    seq![said(Tone::Mono, "POST "@ + ENDPOINT_PATH@), said(Tone::Heading, "Request body"@), said(Tone::Code, e.request@)]
        + match (e.response, e.outcome) {
        (Some(body), _) => seq![said(Tone::Heading, "Response body"@), said(Tone::Code, body@)],
        (None, Outcome::Failed { reason }) => seq![
            said(Tone::Heading, "Response body"@),
            said(Tone::Refused, "Nothing came back \u{2014} "@ + reason@),
        ],
        (None, _) => Seq::empty(),
    }
}

/// What the window says of an ant nothing was asked of yet.
pub open spec fn nothing_yet() -> Seq<(Tone, Seq<char>, Option<u32>)> {
    seq![
        said(Tone::Plain, "Nothing asked of this ant yet."@),
        said(
            Tone::Quiet,
            "Before the queen's first order the colony sleeps, and an ant that is busy pursuing an intent is not asked again until it is done."@,
        ),
    ]
}

/// The window's title: which ant it is about.
pub fn title(ant: AntId) -> (s: String)
    ensures
        s@ == ant_name(ant),
{
    ant_title(ant)
}

/// The two tabs, by name.
pub fn tab_name(tab: Tab) -> (s: &'static str)
    ensures
        s@ == match tab {
            Tab::Read => "Reading"@,
            Tab::Raw => "Request & response"@,
        },
{
    match tab {
        Tab::Read => "Reading",
        Tab::Raw => "Request & response",
    }
}

/// Everything in the window under the tabs: the exchange as read or raw, or
/// that nothing has been asked of this ant yet.
pub fn window_lines(exchange: Option<&Exchange>, tab: Tab) -> (v: Vec<Line>)
    ensures
        lines_view(v@) == match exchange {
            None => nothing_yet(),
            Some(e) => match tab {
                Tab::Read => reading(*e),
                Tab::Raw => raw(*e),
            },
        },
{
    let mut lines: Vec<Line> = Vec::new();
    assert(lines_view(lines@) =~= Seq::empty());
    match exchange {
        None => {
            put_str(&mut lines, Tone::Plain, "Nothing asked of this ant yet.");
            put_str(
                &mut lines,
                Tone::Quiet,
                "Before the queen's first order the colony sleeps, and an ant that is busy pursuing an intent is not asked again until it is done.",
            );
            assert(lines_view(lines@) =~= nothing_yet());
        },
        Some(e) => match tab {
            Tab::Read => {
                put_sent(&mut lines, e);
                put_asked(&mut lines, e);
                put_options(&mut lines, e);
                put_answer(&mut lines, e);
                assert(lines_view(lines@) =~= reading(*e));
            },
            Tab::Raw => {
                put_raw(&mut lines, e);
                assert(lines_view(lines@) =~= raw(*e));
            },
        },
    }
    lines
}

fn put_sent(lines: &mut Vec<Line>, e: &Exchange)
    ensures
        lines_view(final(lines)@) == lines_view(old(lines)@) + sent_lines(*e),
{
    let ghost start = lines_view(lines@);
    put_heading(lines, String::from_str("What it sent"), "state");
    if e.order.unicode_len() == 0 {
        put_str(lines, Tone::Quiet, "no order \u{2014} the field is left out of the state entirely");
    } else {
        put_str(lines, Tone::Api, "order_from_the_ant_queen");
        let mut quoted = String::from_str("  \"");
        quoted.append(e.order.as_str());
        quoted.append("\"");
        put(lines, Tone::Plain, quoted);
    }
    if e.carrying {
        put_str(lines, Tone::Api, "carrying");
        put_str(lines, Tone::Plain, "  \"a fruit\"");
    }
    put_str(lines, Tone::Api, "nearby");
    let ghost before_sightings = lines_view(lines@);
    let mut i: usize = 0;
    while i < e.sightings.len()
        invariant
            i <= e.sightings@.len(),
            lines_view(lines@) == before_sightings + e.sightings@.take(i as int).map_values(|s: String| sighting_line(s)),
        decreases e.sightings@.len() - i,
    {
        let mut text = String::from_str("  \u{b7} ");
        text.append(e.sightings[i].as_str());
        put(lines, Tone::Small, text);
        proof {
            assert(e.sightings@.take(i + 1) =~= e.sightings@.take(i as int).push(e.sightings@[i as int]));
            assert(e.sightings@.take(i + 1).map_values(|s: String| sighting_line(s)) =~= e.sightings@.take(
                i as int,
            ).map_values(|s: String| sighting_line(s)).push(sighting_line(e.sightings@[i as int])));
        }
        i = i + 1;
    }
    proof {
        assert(e.sightings@.take(e.sightings@.len() as int) =~= e.sightings@);
    }
    if e.sightings.len() == 0 {
        put_str(lines, Tone::Small, "  \u{b7} nothing within sight");
    }
    put_str(lines, Tone::Quiet, "The state also carries a constant `vision` line saying how far this ant sees.");
    proof {
        assert(lines_view(lines@) =~= start + sent_lines(*e));
    }
}

fn put_asked(lines: &mut Vec<Line>, e: &Exchange)
    ensures
        lines_view(final(lines)@) == lines_view(old(lines)@) + asked_lines(*e),
{
    let ghost start = lines_view(lines@);
    put_heading(lines, String::from_str("What it was asked"), "questions.step.instructions");
    put(lines, Tone::Italic, e.instructions.clone());
    put_str(
        lines,
        Tone::Quiet,
        "Asked as \"type\": \"choice\" under the key `step`. Questions are evaluated independently against the same state, so a second one could be added here without chaining it onto this one.",
    );
    proof {
        assert(lines_view(lines@) =~= start + asked_lines(*e));
    }
}

fn put_options(lines: &mut Vec<Line>, e: &Exchange)
    ensures
        lines_view(final(lines)@) == lines_view(old(lines)@) + option_lines(*e),
{
    let ghost start = lines_view(lines@);
    let mut title = String::from_str("The options it was given (");
    let count = wide_decimal_string(e.offered.len() as u64);
    title.append(count.as_str());
    title.append(")");
    put_heading(lines, title, "questions.step.criteria");
    let ghost before_options = lines_view(lines@);
    let mut i: usize = 0;
    while i < e.offered.len()
        invariant
            i <= e.offered@.len(),
            lines_view(lines@) == before_options + e.offered@.take(i as int).map_values(
                |p: (String, String)| option_line(p),
            ),
        decreases e.offered@.len() - i,
    {
        let mut text = e.offered[i].0.clone();
        text.append(" \u{2014} ");
        text.append(e.offered[i].1.as_str());
        put(lines, Tone::Mono, text);
        proof {
            assert(e.offered@.take(i + 1) =~= e.offered@.take(i as int).push(e.offered@[i as int]));
            assert(e.offered@.take(i + 1).map_values(|p: (String, String)| option_line(p)) =~= e.offered@.take(
                i as int,
            ).map_values(|p: (String, String)| option_line(p)).push(option_line(e.offered@[i as int])));
        }
        i = i + 1;
    }
    proof {
        assert(e.offered@.take(e.offered@.len() as int) =~= e.offered@);
    }
    put_str(
        lines,
        Tone::Quiet,
        "This list is built from what the ant can see, every request. An answer outside it is refused, so a fruit that is not there cannot be fetched.",
    );
    proof {
        assert(lines_view(lines@) =~= start + option_lines(*e));
    }
}

/// Whether `key` is among the offered option keys.
fn offered_key(offered: &Vec<(String, String)>, key: &str) -> (b: bool)
    ensures
        b == was_offered(offered@, key@),
{
    let mut i: usize = 0;
    while i < offered.len()
        invariant
            i <= offered@.len(),
            forall|k: int| 0 <= k < i ==> offered@[k].0@ != key@,
        decreases offered@.len() - i,
    {
        if same_text(offered[i].0.as_str(), key) {
            assert(offered@[i as int].0@ == key@);
            return true;
        }
        i = i + 1;
    }
    false
}

fn put_distribution(
    lines: &mut Vec<Line>,
    probabilities: &Vec<(String, u32)>,
    chosen: Option<&str>,
    offered: &Vec<(String, String)>,
)
    ensures
        lines_view(final(lines)@) == lines_view(old(lines)@) + distribution_lines(
            probabilities@,
            match chosen {
                Some(c) => Some(c@),
                None => None,
            },
            offered@,
        ),
{
    let ghost chosen_text: Option<Seq<char>> = match chosen {
        Some(c) => Some(c@),
        None => None,
    };
    let ghost start = lines_view(lines@);
    if probabilities.len() == 0 {
        put_str(lines, Tone::Quiet, "no distribution in the answer");
        assert(lines_view(lines@) =~= start + distribution_lines(probabilities@, chosen_text, offered@));
        return;
    }
    let mut i: usize = 0;
    while i < probabilities.len()
        invariant
            i <= probabilities@.len(),
            chosen_text == match chosen {
                Some(c) => Some(c@),
                None => None::<Seq<char>>,
            },
            lines_view(lines@) == start + probabilities@.take(i as int).map_values(
                |p: (String, u32)| bar_line(p, chosen_text, offered@),
            ),
        decreases probabilities@.len() - i,
    {
        let key: &String = &probabilities[i].0;
        let weight: u32 = probabilities[i].1;
        let is_chosen: bool = match chosen {
            Some(c) => same_text(c, key.as_str()),
            None => false,
        };
        let listed = offered_key(offered, key.as_str());
        let mut text = if is_chosen {
            String::from_str("\u{2192} ")
        } else {
            String::new()
        };
        text.append(key.as_str());
        text.append("  ");
        let figure = two_places_string(weight);
        text.append(figure.as_str());
        if !listed {
            text.append("  (never offered)");
        }
        let tone = if !listed {
            Tone::Refused
        } else if is_chosen {
            Tone::Chosen
        } else {
            Tone::Quiet
        };
        let ghost before = lines_view(lines@);
        lines.push(Line { tone, text, bar: Some(weight) });
        proof {
            let p = probabilities@[i as int];
            assert(line_view(Line { tone, text, bar: Some(weight) }) == bar_line(p, chosen_text, offered@));
            assert(lines_view(lines@) =~= before.push(bar_line(p, chosen_text, offered@)));
            assert(probabilities@.take(i + 1) =~= probabilities@.take(i as int).push(p));
            assert(probabilities@.take(i + 1).map_values(|p: (String, u32)| bar_line(p, chosen_text, offered@))
                =~= probabilities@.take(i as int).map_values(|p: (String, u32)| bar_line(p, chosen_text, offered@)).push(
                bar_line(p, chosen_text, offered@),
            ));
        }
        i = i + 1;
    }
    proof {
        assert(probabilities@.take(probabilities@.len() as int) =~= probabilities@);
    }
}

fn put_answer(lines: &mut Vec<Line>, e: &Exchange)
    ensures
        lines_view(final(lines)@) == lines_view(old(lines)@) + answer_lines(*e),
{
    let ghost start = lines_view(lines@);
    put_heading(lines, String::from_str("What came back"), "answers.step");
    match &e.outcome {
        Outcome::Taken { chosen, confidence, probabilities, latency_ms, input_tokens } => {
            put_str(lines, Tone::Api, "choice");
            let mut quoted = String::from_str("  \"");
            quoted.append(chosen.as_str());
            quoted.append("\"");
            put(lines, Tone::Small, quoted);
            put_str(lines, Tone::Api, "probabilities");
            put_distribution(lines, probabilities, Some(chosen.as_str()), &e.offered);
            let mut sure = String::from_str("confidence ");
            let figure = two_places_string(*confidence);
            sure.append(figure.as_str());
            sure.append(" \u{b7} usage.input_tokens ");
            let tokens = decimal_string(*input_tokens);
            sure.append(tokens.as_str());
            put(lines, Tone::Small, sure);
            let mut measured = decimal_string(*latency_ms);
            measured.append(" ms, measured around the request");
            put(lines, Tone::Quiet, measured);
            let mut meaning = String::from_str("Confidence is the distance from pure chance over ");
            let count = wide_decimal_string(e.offered.len() as u64);
            meaning.append(count.as_str());
            meaning.append(" options, not the top probability.");
            put(lines, Tone::Quiet, meaning);
            proof {
                assert(lines_view(lines@) =~= start + answer_lines(*e));
            }
        },
        Outcome::Refused { reason, probabilities, latency_ms } => {
            let mut thrown = String::from_str("Thrown away \u{2014} ");
            thrown.append(reason.as_str());
            put(lines, Tone::Refused, thrown);
            let mut arrived = String::from_str("The answer arrived after ");
            let ms = decimal_string(*latency_ms);
            arrived.append(ms.as_str());
            arrived.append(
                " ms and was paid for. The ant did not act this round; nothing decided in its place.",
            );
            put(lines, Tone::Quiet, arrived);
            put_str(lines, Tone::Api, "probabilities");
            put_distribution(lines, probabilities, None, &e.offered);
            proof {
                assert(lines_view(lines@) =~= start + answer_lines(*e));
            }
        },
        Outcome::Failed { reason } => {
            let mut nothing = String::from_str("Nothing came back \u{2014} ");
            nothing.append(reason.as_str());
            put(lines, Tone::Refused, nothing);
            proof {
                assert(lines_view(lines@) =~= start + answer_lines(*e));
            }
        },
    }
}

fn put_raw(lines: &mut Vec<Line>, e: &Exchange)
    ensures
        lines_view(final(lines)@) == lines_view(old(lines)@) + raw(*e),
{
    let ghost start = lines_view(lines@);
    let mut post = String::from_str("POST ");
    post.append(ENDPOINT_PATH);
    put(lines, Tone::Mono, post);
    put_str(lines, Tone::Heading, "Request body");
    put(lines, Tone::Code, e.request.clone());
    match (&e.response, &e.outcome) {
        (Some(body), _) => {
            put_str(lines, Tone::Heading, "Response body");
            put(lines, Tone::Code, body.clone());
        },
        (None, Outcome::Failed { reason }) => {
            put_str(lines, Tone::Heading, "Response body");
            let mut nothing = String::from_str("Nothing came back \u{2014} ");
            nothing.append(reason.as_str());
            put(lines, Tone::Refused, nothing);
        },
        (None, _) => {},
    }
    proof {
        assert(lines_view(lines@) =~= start + raw(*e));
    }
}

} // verus!
