//! What the bar at the top and the labels over the ants say: who is
//! deciding, what it has cost in requests and time, and what each ant last
//! chose and how sure the model was.
//!
//! The intent and confidence over every ant is the actual demo: without it, a
//! colony steered by Jev looks exactly like one following pheromones.

use vstd::prelude::*;

use crate::decisions::DecisionStats;
use crate::panels::confidence_rgb;
use crate::text::{decimal, decimal_string, joined, two_places, two_places_string, wide_decimal_string};
use crate::world::LastDecision;

verus! {

/// The rules have no confidence, so they get their own colour rather than a
/// made-up number.
pub const CLASSIC_RGB: (u8, u8, u8) = (140, 150, 170);

/// The ant the inspector is open on: blue, because nothing else on the board is.
pub const SELECTED_RGB: (u8, u8, u8) = (86, 148, 246);

/// Who is deciding. Naming the source before the queen has spoken would be a
/// lie: nothing is being asked yet, and nothing has been paid for.
pub fn deciding(awake: bool, source: &str) -> (s: String)
    ensures
        s@ == if awake {
            "Deciding: "@ + source@
        } else {
            "Deciding: nobody yet \u{2014} the queen has not spoken"@
        },
{
    if awake {
        joined("Deciding: ", source)
    } else {
        String::from_str("Deciding: nobody yet \u{2014} the queen has not spoken")
    }
}

/// "<n> stored": the colony first, that is the game.
pub fn stored_text(stored: u32) -> (s: String)
    ensures
        s@ == decimal(stored as nat) + " stored"@,
{
    let mut s = decimal_string(stored);
    s.append(" stored");
    s
}

/// "· <n> fruits on the board".
pub fn on_the_board_text(on_the_board: usize) -> (s: String)
    ensures
        s@ == "\u{b7} "@ + decimal(on_the_board as nat) + " fruits on the board"@,
{
    let mut s = String::from_str("\u{b7} ");
    let n = wide_decimal_string(on_the_board as u64);
    s.append(n.as_str());
    s.append(" fruits on the board");
    s
}

/// How many decisions came from the model, and how many answers were thrown away.
pub fn decisions_text(stats: &DecisionStats) -> (s: String)
    ensures
        s@ == decimal(stats.from_jev as nat) + " decisions from Jev, "@ + decimal(stats.discarded as nat)
            + " discarded"@,
{
    let mut s = decimal_string(stats.from_jev);
    s.append(" decisions from Jev, ");
    let discarded = decimal_string(stats.discarded);
    s.append(discarded.as_str());
    s.append(" discarded");
    s
}

/// The mean round trip.
pub fn latency_text(stats: &DecisionStats) -> (s: String)
    ensures
        s@ == decimal(
            (if stats.from_jev == 0 {
                0
            } else {
                stats.latency_sum() / (stats.from_jev as nat)
            }) as nat,
        ) + " ms average"@,
{
    let average = stats.average_latency_ms();
    let mut s = wide_decimal_string(average);
    s.append(" ms average");
    s
}

/// Which keys do what, depending on whether the intents are showing.
pub fn keys_hint(debug_on: bool) -> (s: &'static str)
    ensures
        s@ == if debug_on {
            "F3 hides the intents \u{b7} F2 the question \u{b7} click an ant to see its request"@
        } else {
            "F3 shows the intents \u{b7} F2 the question \u{b7} click an ant to see its request"@
        },
{
    if debug_on {
        "F3 hides the intents \u{b7} F2 the question \u{b7} click an ant to see its request"
    } else {
        "F3 shows the intents \u{b7} F2 the question \u{b7} click an ant to see its request"
    }
}

/// The colour of an ant on the board, or `None` for its plain body colour.
/// Selection wins over the confidence colour and over the intents being hidden.
pub fn ant_tint(selected: bool, intents_shown: bool, confidence: Option<u32>) -> (rgb: Option<(u8, u8, u8)>)
    ensures
        rgb == if selected {
            Some(SELECTED_RGB)
        } else if !intents_shown {
            None
        } else {
            match confidence {
                Some(c) => Some(
                    if c >= 600_000 {
                        (120u8, 220u8, 130u8)
                    } else if c >= 350_000 {
                        (232u8, 208u8, 110u8)
                    } else {
                        (228u8, 130u8, 110u8)
                    },
                ),
                None => Some(CLASSIC_RGB),
            }
        },
{
    if selected {
        Some(SELECTED_RGB)
    } else if !intents_shown {
        None
    } else {
        match confidence {
            Some(c) => Some(confidence_rgb(c)),
            None => Some(CLASSIC_RGB),
        }
    }
}

/// The label over an ant: what it last chose and how sure the model was, or
/// "classic" when the rules chose. Nothing over an ant that has not decided yet.
pub fn intent_label(last: LastDecision) -> (l: Option<(String, (u8, u8, u8))>)
    ensures
        last.action is None ==> l is None,
        last.action matches Some(a) ==> (l matches Some((text, rgb)) && text@ == a.label_text() + match last.confidence {
            Some(c) => " "@ + two_places(c as nat),
            None => " classic"@,
        } && rgb == match last.confidence {
            Some(c) => if c >= 600_000 {
                (120u8, 220u8, 130u8)
            } else if c >= 350_000 {
                (232u8, 208u8, 110u8)
            } else {
                (228u8, 130u8, 110u8)
            },
            None => CLASSIC_RGB,
        }),
{
    let action = match last.action {
        Some(a) => a,
        None => {
            return None;
        },
    };
    let mut text = action.label();
    match last.confidence {
        Some(c) => {
            text.append(" ");
            let figure = two_places_string(c);
            text.append(figure.as_str());
            Some((text, confidence_rgb(c)))
        },
        None => {
            text.append(" classic");
            Some((text, CLASSIC_RGB))
        },
    }
}

} // verus!
