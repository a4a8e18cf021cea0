//! What the panels around the board decide, apart from drawing it: which
//! colour a confidence gets, what the lamp shows, why an answer was thrown
//! away, which orders the input bar remembers, and which panels are open.

use vstd::prelude::*;

use crate::config::REMEMBERED_ORDERS;
use crate::decisions::{AntId, Exchange, Link, Outcome};
use crate::questions::{Questions, QUESTIONS_PATH};
use crate::text::{
    decimal, decimal_string, joined, same_text, trimmed, trimmed_text, two_places, two_places_string,
};

verus! {

/// Green when the model is sure, yellow in between, red when it only just
/// cleared the threshold. The bands follow the measured range: a plain
/// compass order scores around 0.99, a nuanced one between 0.29 and 0.44.
pub fn confidence_rgb(confidence_ppm: u32) -> (rgb: (u8, u8, u8))
    ensures
        rgb == if confidence_ppm >= 600_000 {
            (120u8, 220u8, 130u8)
        } else if confidence_ppm >= 350_000 {
            (232u8, 208u8, 110u8)
        } else {
            (228u8, 130u8, 110u8)
        },
{
    if confidence_ppm >= 600_000 {
        (120, 220, 130)
    } else if confidence_ppm >= 350_000 {
        (232, 208, 110)
    } else {
        (228, 130, 110)
    }
}

/// The colour of the lamp: green when the last request came back, red when it
/// failed, grey before the first.
pub fn lamp_rgb(link: &Link) -> (rgb: (u8, u8, u8))
    ensures
        rgb == match link {
            Link::Live => (90u8, 205u8, 110u8),
            Link::Down(_) => (224u8, 88u8, 78u8),
            Link::Untried => (128u8, 134u8, 146u8),
        },
{
    match link {
        Link::Live => (90, 205, 110),
        Link::Down(_) => (224, 88, 78),
        Link::Untried => (128, 134, 146),
    }
}

/// Why an answer did not become a move.
pub fn why(exchange: &Exchange) -> (s: &str)
    ensures
        s@ == match exchange.outcome {
            Outcome::Refused { reason, .. } => reason@,
            Outcome::Failed { reason } => reason@,
            Outcome::Taken { .. } => "used after all"@,
        },
{
    match &exchange.outcome {
        Outcome::Refused { reason, .. } => reason.as_str(),
        Outcome::Failed { reason } => reason.as_str(),
        Outcome::Taken { .. } => "used after all",
    }
}

/// `h` without every entry that reads `o`.
pub open spec fn without(h: Seq<Seq<char>>, o: Seq<char>) -> Seq<Seq<char>>
    decreases h.len(),
{
    if h.len() == 0 {
        h
    } else {
        let rest = without(h.drop_last(), o);
        if h.last() == o {
            rest
        } else {
            rest.push(h.last())
        }
    }
}

/// The orders remembered after `o` was given: on top, and only once, and no
/// more than `REMEMBERED_ORDERS` of them. Saying nothing is not remembered.
pub open spec fn remembered(h: Seq<Seq<char>>, o: Seq<char>) -> Seq<Seq<char>> {
    if o.len() == 0 {
        h
    } else {
        let l = seq![o] + without(h, o);
        if l.len() > REMEMBERED_ORDERS {
            l.take(REMEMBERED_ORDERS as int)
        } else {
            l
        }
    }
}

/// The last few orders, newest first, for the input bar to offer again.
pub struct OrderHistory(pub Vec<String>);

impl OrderHistory {
    pub open spec fn orders(&self) -> Seq<Seq<char>> {
        self.0@.map_values(|s: String| s@)
    }

    pub fn default() -> (h: OrderHistory)
        ensures
            h.orders().len() == 0,
    {
        OrderHistory(Vec::new())
    }

    /// A history holding just `order`, or nothing if it is empty.
    pub fn starting_with(order: &str) -> (h: OrderHistory)
        ensures
            h.orders() == remembered(Seq::empty(), order@),
    {
        let mut history = OrderHistory::default();
        proof {
            assert(history.orders() =~= Seq::<Seq<char>>::empty());
        }
        history.remember(order);
        history
    }

    /// An order given twice moves back to the top instead of appearing twice.
    pub fn remember(&mut self, order: &str)
        ensures
            final(self).orders() == remembered(old(self).orders(), order@),
    {
        if order.unicode_len() == 0 {
            return;
        }
        let mut kept: Vec<String> = Vec::new();
        kept.push(String::from_str(order));
        let mut i: usize = 0;
        while i < self.0.len()
            invariant
                i <= self.0@.len(),
                self.orders() == old(self).orders(),
                kept@.map_values(|s: String| s@) == seq![order@] + without(
                    self.orders().take(i as int),
                    order@,
                ),
            decreases self.0@.len() - i,
        {
            let ghost h = self.orders();
            proof {
                assert(h.take(i + 1).drop_last() =~= h.take(i as int));
                assert(h.take(i + 1).last() == self.0@[i as int]@);
            }
            if !same_text(self.0[i].as_str(), order) {
                let ghost before = kept@.map_values(|s: String| s@);
                kept.push(self.0[i].clone());
                proof {
                    assert(kept@.map_values(|s: String| s@) =~= before.push(self.0@[i as int]@));
                }
            }
            i = i + 1;
        }
        proof {
            assert(self.orders().take(self.0@.len() as int) =~= self.orders());
        }
        if kept.len() > REMEMBERED_ORDERS {
            let ghost long = kept@.map_values(|s: String| s@);
            kept.truncate(REMEMBERED_ORDERS);
            proof {
                assert(kept@.map_values(|s: String| s@) =~= long.take(REMEMBERED_ORDERS as int));
            }
        }
        self.0 = kept;
    }
}

/// The question text being edited, and what the last load or commit did.
pub struct QuestionDraft {
    pub text: String,
    pub note: String,
}

impl QuestionDraft {
    /// The field starts on the question in force, not on an empty box.
    pub fn starting_from(questions: &Questions) -> (d: QuestionDraft)
        ensures
            d.text@ == questions.step@,
            d.note@.len() == 0,
    {
        QuestionDraft { text: questions.step.clone(), note: String::new() }
    }

    /// Whether "Ask with this" is live: the draft says something, and
    /// something other than the question in force.
    pub fn can_ask(&self, in_force: &str) -> (b: bool)
        ensures
            b == (trimmed_text(self.text@) != trimmed_text(in_force@) && trimmed_text(self.text@).len() > 0),
    {
        let draft = trimmed(self.text.as_str());
        let current = trimmed(in_force);
        !same_text(draft, current) && draft.unicode_len() > 0
    }

    /// "Ask with this": the draft, trimmed, becomes the question, and the note
    /// says so. Nothing happens while the button is dead.
    pub fn ask(&mut self, in_force: &str) -> (committed: Option<String>)
        ensures
            old(self).text@ == final(self).text@,
            (trimmed_text(old(self).text@) != trimmed_text(in_force@) && trimmed_text(old(self).text@).len() > 0)
                ==> (committed matches Some(q) && q@ == trimmed_text(old(self).text@))
                && final(self).note@ == "In force \u{2014} every ant is being asked again."@,
            !(trimmed_text(old(self).text@) != trimmed_text(in_force@) && trimmed_text(old(self).text@).len() > 0)
                ==> committed is None && final(self).note@ == old(self).note@,
    {
        if !self.can_ask(in_force) {
            return None;
        }
        let committed = String::from_str(trimmed(self.text.as_str()));
        self.note = String::from_str("In force \u{2014} every ant is being asked again.");
        Some(committed)
    }

    /// "Reload from file", given what reading the file gave: the texts that
    /// were read go into the field and into force, and the note says where
    /// they came from; a file that would not read leaves everything but the
    /// note, which says why.
    pub fn reloaded(&mut self, read: Result<Questions, String>) -> (committed: Option<String>)
        ensures
            read matches Ok(q) ==> (committed matches Some(c) && c@ == q.step@) && final(self).text@ == q.step@
                && final(self).note@ == "Read from "@ + QUESTIONS_PATH@ + "."@,
            read matches Err(reason) ==> committed is None && final(self).text@ == old(self).text@
                && final(self).note@ == reason@,
    {
        match read {
            Ok(q) => {
                self.text = q.step.clone();
                let mut note = String::from_str("Read from ");
                note.append(QUESTIONS_PATH);
                note.append(".");
                self.note = note;
                Some(q.step)
            },
            Err(reason) => {
                self.note = reason;
                None
            },
        }
    }
}

/// `n` with at least two digits, a zero in front of a single one.
pub open spec fn two_digits(n: nat) -> Seq<char> {
    if n < 10 {
        "0"@ + decimal(n)
    } else {
        decimal(n)
    }
}

pub fn two_digits_string(n: u32) -> (s: String)
    ensures
        s@ == two_digits(n as nat),
{
    let digits = decimal_string(n);
    if n < 10 {
        joined("0", digits.as_str())
    } else {
        digits
    }
}

/// "Ant <nn>": how an ant is named on screen.
pub open spec fn ant_name(id: AntId) -> Seq<char> {
    "Ant "@ + two_digits(id.0 as nat)
}

pub fn ant_title(id: AntId) -> (s: String)
    ensures
        s@ == ant_name(id),
{
    let number = two_digits_string(id.0);
    joined("Ant ", number.as_str())
}

/// What the reason of a thrown-away answer reads.
pub open spec fn why_text(exchange: Exchange) -> Seq<char> {
    match exchange.outcome {
        Outcome::Refused { reason, .. } => reason@,
        Outcome::Failed { reason } => reason@,
        Outcome::Taken { .. } => "used after all"@,
    }
}

/// A thrown-away answer on the bench: whose, and why.
pub fn discard_line(exchange: &Exchange) -> (s: String)
    ensures
        s@ == ant_name(exchange.ant) + " \u{2014} "@ + why_text(*exchange),
{
    let mut s = ant_title(exchange.ant);
    s.append(" \u{2014} ");
    s.append(why(exchange));
    s
}

/// "<key> <weight>", the weight with two decimals.
pub open spec fn weight_text(p: (String, u32)) -> Seq<char> {
    p.0@ + " "@ + two_places(p.1 as nat)
}

/// The first `n` weights, each as `weight_text`, with a dot between them.
pub open spec fn weights_joined(s: Seq<(String, u32)>, n: nat) -> Seq<char>
    decreases n,
{
    if n == 0 {
        Seq::empty()
    } else if n == 1 {
        weight_text(s[0])
    } else {
        weights_joined(s, (n - 1) as nat) + "  \u{b7}  "@ + weight_text(s[n - 1])
    }
}

/// How many weights the bench shows: the top three, or fewer if fewer came.
pub open spec fn shown_weights(len: nat) -> nat {
    if len < 3 { len } else { 3 }
}

/// The top of the distribution under a thrown-away answer, or nothing when
/// no distribution came: three options within a hair of each other show at a
/// glance why an answer was too close to chance.
pub fn top_weights_line(exchange: &Exchange) -> (line: Option<String>)
    ensures
        exchange.probabilities_spec().len() == 0 ==> line is None,
        exchange.probabilities_spec().len() > 0 ==> (line matches Some(l) && l@ == "   "@ + weights_joined(
            exchange.probabilities_spec(),
            shown_weights(exchange.probabilities_spec().len()),
        )),
{
    let weights = exchange.probabilities();
    if weights.len() == 0 {
        return None;
    }
    let n: usize = if weights.len() < 3 { weights.len() } else { 3 };
    let mut s = String::from_str("   ");
    let mut i: usize = 0;
    while i < n
        invariant
            weights@ == exchange.probabilities_spec(),
            n == shown_weights(weights@.len() as nat),
            n <= weights@.len(),
            i <= n,
            s@ == "   "@ + weights_joined(weights@, i as nat),
        decreases n - i,
    {
        if i > 0 {
            s.append("  \u{b7}  ");
        }
        s.append(weights[i].0.as_str());
        s.append(" ");
        let figure = two_places_string(weights[i].1);
        s.append(figure.as_str());
        proof {
            if i == 0 {
                assert(weights_joined(weights@, 1) == weight_text(weights@[0]));
            }
        }
        i = i + 1;
    }
    Some(s)
}

/// What the bench says while nothing has been thrown away.
pub const NOTHING_THROWN_AWAY: &'static str = "Nothing thrown away yet.";

/// Intent and confidence over every ant. On by default: it is the whole
/// point of the demo.
pub struct DebugLayer(pub bool);

impl DebugLayer {
    pub fn default() -> (d: DebugLayer)
        ensures
            d.0,
    {
        DebugLayer(true)
    }
}

/// Whether the question bench is open. Closed at the start: the board comes
/// first.
pub struct LabOpen(pub bool);

impl LabOpen {
    pub fn default() -> (l: LabOpen)
        ensures
            !l.0,
    {
        LabOpen(false)
    }
}

/// One key flips the overlay, the other the bench.
pub fn toggle_panels(overlay_key: bool, bench_key: bool, layer: &mut DebugLayer, lab: &mut LabOpen)
    ensures
        final(layer).0 == (old(layer).0 != overlay_key),
        final(lab).0 == (old(lab).0 != bench_key),
{
    if overlay_key {
        layer.0 = !layer.0;
    }
    if bench_key {
        lab.0 = !lab.0;
    }
}

/// The ant the inspector is open on, if any.
pub struct Selected(pub Option<AntId>);


/// Nothing that reads `o` is left in `without(h, o)`, and nothing new is in it.
proof fn lemma_without(h: Seq<Seq<char>>, o: Seq<char>)
    ensures
        forall|k: int| 0 <= k < without(h, o).len() ==> #[trigger] without(h, o)[k] != o && h.contains(without(h, o)[k]),
        without(h, o).len() <= h.len(),
    decreases h.len(),
{
    if h.len() > 0 {
        lemma_without(h.drop_last(), o);
        let rest = without(h.drop_last(), o);
        let now = without(h, o);
        assert forall|k: int| 0 <= k < now.len() implies #[trigger] now[k] != o && h.contains(now[k]) by {
            if k < rest.len() {
                assert(now[k] == rest[k]);
                let m = choose|m: int| 0 <= m < h.drop_last().len() && h.drop_last()[m] == rest[k];
                assert(h[m] == rest[k]);
            } else {
                assert(now[k] == h.last());
                assert(h[h.len() - 1] == h.last());
            }
        }
    }
}

/// An order given twice moves back to the top instead of appearing twice:
/// after remembering `o` it is on top, it is there once, and everything else
/// was there before. The list never grows past its limit.
pub proof fn lemma_remembered_on_top_once(h: Seq<Seq<char>>, o: Seq<char>)
    requires
        o.len() > 0,
    ensures
        remembered(h, o)[0] == o,
        forall|k: int| 0 < k < remembered(h, o).len() ==> #[trigger] remembered(h, o)[k] != o && h.contains(
            remembered(h, o)[k],
        ),
        remembered(h, o).len() <= REMEMBERED_ORDERS,
{
    lemma_without(h, o);
    let l = seq![o] + without(h, o);
    assert forall|k: int| 0 < k < remembered(h, o).len() implies #[trigger] remembered(h, o)[k] != o && h.contains(
        remembered(h, o)[k],
    ) by {
        assert(remembered(h, o)[k] == l[k]);
        assert(l[k] == without(h, o)[k - 1]);
    }
}

} // verus!
