//! What the bar at the bottom and the key dialog decide: when a typed order
//! is said, what the line under the field reports, what the task line and the
//! level picker read, and when a typed key is taken.
//!
//! What is half-typed is kept apart from what is meant: the colony reacts to
//! an order only once it is said, and the client holds a key only once it is
//! handed over.

use vstd::prelude::*;

use crate::api::usable_key;
use crate::panels::{remembered, OrderHistory};
use crate::text::{decimal, decimal_string, is_blank, same_text, trimmed, trimmed_text, wide_decimal_string};

verus! {

/// What is being typed but has not been said yet.
pub struct OrderDraft(pub String);

/// What the queen did, if anything.
pub enum OrderChange {
    Say(String),
    Silence,
}

impl OrderDraft {
    pub fn default() -> (d: OrderDraft)
        ensures
            d.0@.len() == 0,
    {
        OrderDraft(String::new())
    }

    /// "Say": an empty field says nothing; otherwise the words, trimmed, are
    /// said and remembered, and the field is cleared for the next order.
    pub fn say(&mut self, history: &mut OrderHistory) -> (c: Option<OrderChange>)
        ensures
            trimmed_text(old(self).0@).len() == 0 ==> c is None && final(self).0@ == old(self).0@
                && final(history).orders() == old(history).orders(),
            trimmed_text(old(self).0@).len() > 0 ==> (c matches Some(OrderChange::Say(s)) && s@ == trimmed_text(
                old(self).0@,
            )) && final(self).0@.len() == 0 && final(history).orders() == remembered(
                old(history).orders(),
                trimmed_text(old(self).0@),
            ),
    {
        if is_blank(self.0.as_str()) {
            return None;
        }
        let said = String::from_str(trimmed(self.0.as_str()));
        history.remember(said.as_str());
        self.0 = String::new();
        Some(OrderChange::Say(said))
    }

    /// "Say nothing": the field is cleared and the order taken back.
    pub fn say_nothing(&mut self) -> (c: OrderChange)
        ensures
            c is Silence,
            final(self).0@.len() == 0,
    {
        self.0 = String::new();
        OrderChange::Silence
    }
}

/// The line under the field. Three states, not two: never spoken at all is
/// not the same as having taken an order back.
pub open spec fn status_text(awake: bool, order: Seq<char>) -> Seq<char> {
    if !awake {
        "The colony waits in the nest. Nothing is asked until the queen speaks."@
    } else if order.len() == 0 {
        "No order \u{2014} every ant decides on its own."@
    } else {
        "The colony has heard: \""@ + order + "\""@
    }
}

pub fn status_line(awake: bool, order: &str) -> (s: String)
    ensures
        s@ == status_text(awake, order@),
{
    if !awake {
        String::from_str("The colony waits in the nest. Nothing is asked until the queen speaks.")
    } else if order.unicode_len() == 0 {
        String::from_str("No order \u{2014} every ant decides on its own.")
    } else {
        let mut s = String::from_str("The colony has heard: \"");
        s.append(order);
        s.append("\"");
        s
    }
}

/// What the empty field suggests.
pub fn order_hint(awake: bool) -> (s: &'static str)
    ensures
        s@ == if awake {
            "tell the colony what to do"@
        } else {
            "say the first word \u{2014} until then nothing happens"@
        },
{
    if awake {
        "tell the colony what to do"
    } else {
        "say the first word \u{2014} until then nothing happens"
    }
}

/// "<stored> of <target> fruits home."
pub open spec fn fruits_home_text(stored: nat, target: nat) -> Seq<char> {
    decimal(stored) + " of "@ + decimal(target) + " fruits home."@
}

/// The task, when a board sets one. The open field has none.
pub struct Task<'a> {
    pub briefing: &'a str,
    pub stored: u32,
    pub target: u32,
    pub solved: bool,
}

impl<'a> Task<'a> {
    /// What the bar says of the task: that it is solved, or the briefing and
    /// how far the colony has got.
    pub fn lines(&self) -> (v: Vec<String>)
        ensures
            v@.map_values(|s: String| s@) == if self.solved {
                seq!["Solved \u{2014} "@ + fruits_home_text(self.stored as nat, self.target as nat)]
            } else {
                seq![self.briefing@, fruits_home_text(self.stored as nat, self.target as nat)]
            },
    {
        let mut progress = decimal_string(self.stored);
        progress.append(" of ");
        let target = decimal_string(self.target);
        progress.append(target.as_str());
        progress.append(" fruits home.");
        let mut v: Vec<String> = Vec::new();
        if self.solved {
            let mut solved = String::from_str("Solved \u{2014} ");
            solved.append(progress.as_str());
            v.push(solved);
            assert(v@.map_values(|s: String| s@) =~= seq![
                "Solved \u{2014} "@ + fruits_home_text(self.stored as nat, self.target as nat),
            ]);
        } else {
            v.push(String::from_str(self.briefing));
            v.push(progress);
            assert(v@.map_values(|s: String| s@) =~= seq![
                self.briefing@,
                fruits_home_text(self.stored as nat, self.target as nat),
            ]);
        }
        v
    }
}

/// "<n>. <name>": a level as the picker numbers it, from one.
pub open spec fn level_label_text(index: nat, name: Seq<char>) -> Seq<char> {
    decimal(index + 1) + ". "@ + name
}

/// The entries of the level picker after the first `n` levels: the open
/// field, then every level by number, each with whether it is the one being
/// played.
pub open spec fn picker(names: Seq<String>, playing: Option<Seq<char>>, n: nat) -> Seq<(Seq<char>, bool)>
    decreases n,
{
    if n == 0 {
        seq![("Open field"@, playing is None)]
    } else {
        picker(names, playing, (n - 1) as nat).push(
            (level_label_text((n - 1) as nat, names[n - 1]@), playing == Some(names[n - 1]@)),
        )
    }
}

pub open spec fn entry_view(e: (String, bool)) -> (Seq<char>, bool) {
    (e.0@, e.1)
}

/// What the picker needs: what is on offer, and what is running (`None` is
/// the open field).
pub struct LevelList<'a> {
    pub names: &'a [String],
    pub playing: Option<&'a str>,
}

impl<'a> LevelList<'a> {
    pub open spec fn playing_text(&self) -> Option<Seq<char>> {
        match self.playing {
            Some(p) => Some(p@),
            None => None,
        }
    }

    /// The entries to pick from, and which one is lit.
    pub fn entries(&self) -> (v: Vec<(String, bool)>)
        ensures
            v@.map_values(|e: (String, bool)| entry_view(e)) == picker(
                self.names@,
                self.playing_text(),
                self.names@.len(),
            ),
    {
        let mut v: Vec<(String, bool)> = Vec::new();
        v.push((String::from_str("Open field"), self.playing.is_none()));
        assert(v@.map_values(|e: (String, bool)| entry_view(e)) =~= picker(self.names@, self.playing_text(), 0));
        let mut i: usize = 0;
        while i < self.names.len()
            invariant
                i <= self.names@.len(),
                v@.map_values(|e: (String, bool)| entry_view(e)) == picker(self.names@, self.playing_text(), i as nat),
            decreases self.names@.len() - i,
        {
            let name: &String = &self.names[i];
            let mut label = wide_decimal_string((i + 1) as u64);
            label.append(". ");
            label.append(name.as_str());
            let current: bool = match self.playing {
                Some(p) => same_text(p, name.as_str()),
                None => false,
            };
            let ghost before = v@.map_values(|e: (String, bool)| entry_view(e));
            v.push((label, current));
            proof {
                assert(v@.map_values(|e: (String, bool)| entry_view(e)) =~= before.push(entry_view((label, current))));
            }
            i = i + 1;
        }
        v
    }
}

/// Where to get a key. Named rather than hidden, since the dialog cannot be
/// waved away.
pub const CONSOLE_URL: &'static str = "https://console.typesafe.ai/keys";

/// Where a key is typed: what is half-typed is not yet meant. A key is a
/// secret, so it is dotted out unless the player turns it around.
pub struct KeyDraft {
    pub text: String,
    pub visible: bool,
}

impl KeyDraft {
    pub fn default() -> (d: KeyDraft)
        ensures
            d.text@.len() == 0,
            !d.visible,
    {
        KeyDraft { text: String::new(), visible: false }
    }

    /// Whether the button is live: an empty field is not an answer.
    pub fn has_key(&self) -> (b: bool)
        ensures
            b == (trimmed_text(self.text@).len() > 0),
    {
        !is_blank(self.text.as_str())
    }

    /// The key, once the player commits to one, trimmed. It is gone from the
    /// field the moment it is handed over; with nothing in the field there is
    /// no answer and nothing changes.
    pub fn commit(&mut self) -> (k: Option<String>)
        ensures
            trimmed_text(old(self).text@).len() == 0 ==> k is None && final(self).text@ == old(self).text@,
            trimmed_text(old(self).text@).len() > 0 ==> (k matches Some(key) && key@ == trimmed_text(
                old(self).text@,
            )) && final(self).text@.len() == 0,
            final(self).visible == old(self).visible,
    {
        let key = usable_key(self.text.as_str());
        if key.is_some() {
            self.text = String::new();
        }
        key
    }
}

} // verus!
