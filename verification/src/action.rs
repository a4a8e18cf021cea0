//! What an ant can decide to do, and how each choice is named and described
//! to the model.

use vstd::prelude::*;

use crate::grid::Dir;
use crate::text::{cells_word, joined, signed_decimal, signed_string};

verus! {

/// What an ant can decide to do. Most of these are intents, not steps: the
/// simulation carries them out over several ticks and several cells.
#[derive(Clone, Copy, PartialEq, Eq, Debug, Structural)]
pub enum Action {
    /// Head that way for a few cells.
    Walk(Dir),
    /// Stand still this round.
    Wait,
    /// Walk to this fruit and pick it up.
    Fetch { fruit: u32, dir: Dir, distance: i32 },
    /// Carry what you hold back to the nest and put it down.
    CarryHome,
    /// Go to the plank and pick it up.
    TakePlank { plank: u32, dir: Dir, distance: i32 },
    /// Let go of the plank.
    LetGoPlank,
    /// Follow the trail uphill, which is the way back to the nest.
    FollowScent(Dir),
}

/// "cell" or "cells" after a signed count.
pub open spec fn unit_text(distance: int) -> Seq<char> {
    cells_word(distance)
}

impl Action {
    /// The key this action gets in a `choice` question.
    pub open spec fn key_text(self) -> Seq<char> {
        match self {
            Action::Walk(d) => d.key_text(),
            Action::Wait => "stay"@,
            Action::TakePlank { .. } => "take_the_plank"@,
            Action::LetGoPlank => "let_go_of_the_plank"@,
            Action::Fetch { dir, .. } => "fetch_"@ + dir.key_text(),
            Action::CarryHome => "carry_home"@,
            Action::FollowScent(_) => "follow_scent"@,
        }
    }

    /// The option description put to the model.
    pub open spec fn description_text(self) -> Seq<char> {
        match self {
            Action::Wait => "Stay where you are for now"@,
            Action::Walk(d) => "Head "@ + d.spoken_text() + " for a few cells"@,
            Action::Fetch { dir, distance, .. } => "Fetch the fruit "@ + signed_decimal(distance as int)
                + " "@ + unit_text(distance as int) + " to the "@ + dir.spoken_text(),
            Action::CarryHome => "Carry the fruit back to the nest"@,
            Action::TakePlank { dir, distance, .. } => "Go to the plank "@ + signed_decimal(
                distance as int,
            ) + " "@ + unit_text(distance as int) + " to the "@ + dir.spoken_text()
                + " and pick it up. Carry it to the water and lay it across, so the colony has a way over."@,
            Action::LetGoPlank => "Let go of the plank and do something else"@,
            Action::FollowScent(d) => "Stay on the scent trail, starting "@ + d.spoken_text()
                + ", and keep to it as it bends rather than walking in a straight line. It grows stronger towards the nest, so it leads home."@,
        }
    }

    /// The short form shown above the ant.
    pub open spec fn label_text(self) -> Seq<char> {
        match self {
            Action::Walk(d) => d.spoken_text(),
            Action::Wait => "wait"@,
            Action::Fetch { dir, .. } => "fetch "@ + dir.spoken_text(),
            Action::CarryHome => "home"@,
            Action::TakePlank { .. } => "plank"@,
            Action::LetGoPlank => "let go"@,
            Action::FollowScent(d) => "scent "@ + d.spoken_text(),
        }
    }

    /// The key this action gets in a `choice` question, and what the answer is
    /// read back through.
    pub fn key(self) -> (k: String)
        ensures
            k@ == self.key_text(),
    {
        match self {
            Action::Walk(direction) => String::from_str(direction.key()),
            Action::Wait => String::from_str("stay"),
            Action::TakePlank { .. } => String::from_str("take_the_plank"),
            Action::LetGoPlank => String::from_str("let_go_of_the_plank"),
            Action::Fetch { dir, .. } => joined("fetch_", dir.key()),
            Action::CarryHome => String::from_str("carry_home"),
            // No direction in the key: only one trail is ever offered.
            Action::FollowScent(_) => String::from_str("follow_scent"),
        }
    }

    /// The option description.
    pub fn description(self) -> (d: String)
        ensures
            d@ == self.description_text(),
    {
        match self {
            Action::Wait => String::from_str("Stay where you are for now"),
            Action::Walk(direction) => {
                let mut s = String::from_str("Head ");
                s.append(direction.spoken());
                s.append(" for a few cells");
                s
            },
            Action::Fetch { dir, distance, .. } => {
                let mut s = String::from_str("Fetch the fruit ");
                let number = signed_string(distance);
                s.append(number.as_str());
                s.append(" ");
                s.append(if distance == 1 { "cell" } else { "cells" });
                s.append(" to the ");
                s.append(dir.spoken());
                s
            },
            Action::CarryHome => String::from_str("Carry the fruit back to the nest"),
            Action::TakePlank { dir, distance, .. } => {
                let mut s = String::from_str("Go to the plank ");
                let number = signed_string(distance);
                s.append(number.as_str());
                s.append(" ");
                s.append(if distance == 1 { "cell" } else { "cells" });
                s.append(" to the ");
                s.append(dir.spoken());
                s.append(
                    " and pick it up. Carry it to the water and lay it across, so the colony has a way over.",
                );
                s
            },
            Action::LetGoPlank => String::from_str("Let go of the plank and do something else"),
            Action::FollowScent(direction) => {
                let mut s = String::from_str("Stay on the scent trail, starting ");
                s.append(direction.spoken());
                s.append(
                    ", and keep to it as it bends rather than walking in a straight line. It grows stronger towards the nest, so it leads home.",
                );
                s
            },
        }
    }

    /// Short form for the debug layer above the ant.
    pub fn label(self) -> (l: String)
        ensures
            l@ == self.label_text(),
    {
        match self {
            Action::Walk(direction) => String::from_str(direction.spoken()),
            Action::Wait => String::from_str("wait"),
            Action::Fetch { dir, .. } => joined("fetch ", dir.spoken()),
            Action::CarryHome => String::from_str("home"),
            Action::TakePlank { .. } => String::from_str("plank"),
            Action::LetGoPlank => String::from_str("let go"),
            Action::FollowScent(direction) => joined("scent ", direction.spoken()),
        }
    }
}

} // verus!
