//! Plain rules — not a way to play the game, but the baseline the offline
//! tests and the comparison runs need.
//!
//! The rule is the one real ants follow: carrying something and home in
//! sight? walk in. A trail? follow it home. Food in sight? go get it. None of
//! those? wander.

use vstd::prelude::*;

use crate::action::Action;
use crate::chance::pick;
use crate::decisions::{view_record, AntMove, AntView, DecisionSource, Origin, ViewRecord};

verus! {

/// The first trail among the first `n` options.
pub open spec fn first_trail(s: Seq<Action>, n: nat) -> Option<Action>
    decreases n,
{
    if n == 0 {
        None
    } else {
        match first_trail(s, (n - 1) as nat) {
            Some(a) => Some(a),
            None => if s[n - 1] is FollowScent { Some(s[n - 1]) } else { None },
        }
    }
}

/// Once a trail is found, later options do not change which one it is.
proof fn lemma_first_trail_stays(s: Seq<Action>, n: nat, m: nat)
    requires
        n <= m,
        first_trail(s, n) is Some,
    ensures
        first_trail(s, m) == first_trail(s, n),
    decreases m - n,
{
    if n < m {
        lemma_first_trail_stays(s, n, (m - 1) as nat);
    }
}

/// The nearest fetch among the first `n` options; the first of equally near ones.
pub open spec fn nearest_fetch(s: Seq<Action>, n: nat) -> Option<Action>
    decreases n,
{
    if n == 0 {
        None
    } else {
        let best = nearest_fetch(s, (n - 1) as nat);
        match s[n - 1] {
            Action::Fetch { distance, .. } => match best {
                Some(Action::Fetch { distance: known, .. }) => if distance < known {
                    Some(s[n - 1])
                } else {
                    best
                },
                _ => Some(s[n - 1]),
            },
            _ => best,
        }
    }
}

/// What the plain rules choose without any dice: walking in with the nest in
/// sight, else the trail, else the nearest fruit. `None` means they wander.
pub open spec fn rule_choice(s: Seq<Action>) -> Option<Action> {
    if s.contains(Action::CarryHome) {
        Some(Action::CarryHome)
    } else if first_trail(s, s.len()) is Some {
        first_trail(s, s.len())
    } else {
        nearest_fetch(s, s.len())
    }
}

/// What the classic rules choose without any dice: walking in with the nest
/// in sight, else the nearest fruit. They know nothing of trails.
pub open spec fn classic_choice(s: Seq<Action>) -> Option<Action> {
    if s.contains(Action::CarryHome) {
        Some(Action::CarryHome)
    } else {
        nearest_fetch(s, s.len())
    }
}

/// What a choice left to chance can be: any of the options, or standing
/// still when there are none.
pub open spec fn wandered(s: Seq<Action>, a: Action) -> bool {
    if s.len() == 0 { a == Action::Wait } else { s.contains(a) }
}

fn carry_home_offered(options: &Vec<Action>) -> (b: bool)
    ensures
        b == options@.contains(Action::CarryHome),
{
    let mut i: usize = 0;
    while i < options.len()
        invariant
            i <= options.len(),
            forall|k: int| 0 <= k < i ==> options@[k] != Action::CarryHome,
        decreases options.len() - i,
    {
        if matches!(options[i], Action::CarryHome) {
            return true;
        }
        i = i + 1;
    }
    false
}

fn trail_offered(options: &Vec<Action>) -> (r: Option<Action>)
    ensures
        r == first_trail(options@, options@.len()),
{
    let mut i: usize = 0;
    while i < options.len()
        invariant
            i <= options.len(),
            first_trail(options@, i as nat) is None,
        decreases options.len() - i,
    {
        if matches!(options[i], Action::FollowScent(_)) {
            proof {
                lemma_first_trail_stays(options@, (i + 1) as nat, options@.len());
            }
            return Some(options[i]);
        }
        i = i + 1;
    }
    None
}

fn nearest_fetch_offered(options: &Vec<Action>) -> (r: Option<Action>)
    ensures
        r == nearest_fetch(options@, options@.len()),
        r matches Some(a) ==> options@.contains(a),
{
    let mut best: Option<Action> = None;
    let mut i: usize = 0;
    while i < options.len()
        invariant
            i <= options.len(),
            best == nearest_fetch(options@, i as nat),
            best matches Some(a) ==> a is Fetch && options@.contains(a),
        decreases options.len() - i,
    {
        let option = options[i];
        match option {
            Action::Fetch { distance, .. } => {
                match best {
                    Some(Action::Fetch { distance: known, .. }) => {
                        if distance < known {
                            best = Some(option);
                        }
                    },
                    _ => {
                        best = Some(option);
                    },
                }
            },
            _ => {},
        }
        i = i + 1;
    }
    best
}

fn wander(options: &Vec<Action>) -> (a: Action)
    ensures
        wandered(options@, a),
{
    match pick(options.as_slice()) {
        Some(a) => a,
        None => Action::Wait,
    }
}

/// The rule baseline: walk in when the nest is in sight, follow the trail
/// home, fetch the nearest fruit (the first of equally near ones), or wander.
pub fn decide(ant: &AntView<'_>) -> (a: Action)
    ensures
        rule_choice(ant.options@) matches Some(c) ==> a == c,
        rule_choice(ant.options@) is None ==> wandered(ant.options@, a),
{
    if carry_home_offered(&ant.options) {
        return Action::CarryHome;
    }
    match trail_offered(&ant.options) {
        Some(trail) => {
            return trail;
        },
        None => {},
    }
    match nearest_fetch_offered(&ant.options) {
        Some(fetch) => fetch,
        None => wander(&ant.options),
    }
}

/// The classic rules, which know nothing of trails: walk in when the nest is
/// in sight, fetch the nearest fruit, or wander.
pub fn decide_classic(ant: &AntView<'_>) -> (a: Action)
    ensures
        classic_choice(ant.options@) matches Some(c) ==> a == c,
        classic_choice(ant.options@) is None ==> wandered(ant.options@, a),
{
    if carry_home_offered(&ant.options) {
        return Action::CarryHome;
    }
    match nearest_fetch_offered(&ant.options) {
        Some(fetch) => fetch,
        None => wander(&ant.options),
    }
}

/// The plain rules as a decision source. Answers at once.
pub struct RuleSource {
    pub ready: Vec<AntMove>,
    pub asked: Ghost<Seq<ViewRecord>>,
}

impl RuleSource {
    pub fn default() -> (s: RuleSource)
        ensures
            s.ready@.len() == 0,
            s.requested().len() == 0,
    {
        RuleSource { ready: Vec::new(), asked: Ghost(Seq::empty()) }
    }
}

impl DecisionSource for RuleSource {
    closed spec fn requested(&self) -> Seq<ViewRecord> {
        self.asked@
    }

    open spec fn ready(&self) -> Seq<AntMove> {
        self.ready@
    }

    open spec fn thrown_away(&self) -> u32 {
        0
    }

    fn discarded(&self) -> (d: u32) {
        0
    }

    fn request(&mut self, ant: &AntView<'_>)
        ensures
            final(self).ready@.len() == old(self).ready@.len() + 1,
            final(self).ready@.drop_last() == old(self).ready@,
            final(self).ready@.last().id == ant.id,
            final(self).ready@.last().origin == Origin::Rules,
            rule_choice(ant.options@) matches Some(c) ==> final(self).ready@.last().action == c,
            rule_choice(ant.options@) is None ==> wandered(ant.options@, final(self).ready@.last().action),
    {
        let action = decide(ant);
        self.ready.push(AntMove { id: ant.id, action, origin: Origin::Rules });
        proof {
            assert(self.ready@.drop_last() =~= old(self).ready@);
            self.asked@ = self.asked@.push(view_record(*ant));
        }
    }

    fn poll(&mut self) -> (v: Vec<AntMove>)
        ensures
            v@ == old(self).ready@,
            final(self).ready@.len() == 0,
    {
        let mut out: Vec<AntMove> = Vec::new();
        std::mem::swap(&mut out, &mut self.ready);
        out
    }

    fn name(&self) -> (s: &'static str)
        ensures
            s@ == "plain rules (test baseline)"@,
    {
        "plain rules (test baseline)"
    }
}

/// The colony without a model: the classic rules as a decision source.
pub struct ClassicSource {
    pub ready: Vec<AntMove>,
    pub asked: Ghost<Seq<ViewRecord>>,
}

impl ClassicSource {
    pub fn default() -> (s: ClassicSource)
        ensures
            s.ready@.len() == 0,
            s.requested().len() == 0,
    {
        ClassicSource { ready: Vec::new(), asked: Ghost(Seq::empty()) }
    }
}

impl DecisionSource for ClassicSource {
    closed spec fn requested(&self) -> Seq<ViewRecord> {
        self.asked@
    }

    open spec fn ready(&self) -> Seq<AntMove> {
        self.ready@
    }

    open spec fn thrown_away(&self) -> u32 {
        0
    }

    fn discarded(&self) -> (d: u32) {
        0
    }

    fn request(&mut self, ant: &AntView<'_>)
        ensures
            final(self).ready@.len() == old(self).ready@.len() + 1,
            final(self).ready@.drop_last() == old(self).ready@,
            final(self).ready@.last().id == ant.id,
            final(self).ready@.last().origin == Origin::Rules,
            classic_choice(ant.options@) matches Some(c) ==> final(self).ready@.last().action == c,
            classic_choice(ant.options@) is None ==> wandered(
                ant.options@,
                final(self).ready@.last().action,
            ),
    {
        let action = decide_classic(ant);
        self.ready.push(AntMove { id: ant.id, action, origin: Origin::Rules });
        proof {
            assert(self.ready@.drop_last() =~= old(self).ready@);
            self.asked@ = self.asked@.push(view_record(*ant));
        }
    }

    fn poll(&mut self) -> (v: Vec<AntMove>)
        ensures
            v@ == old(self).ready@,
            final(self).ready@.len() == 0,
    {
        let mut out: Vec<AntMove> = Vec::new();
        std::mem::swap(&mut out, &mut self.ready);
        out
    }

    fn name(&self) -> (s: &'static str)
        ensures
            s@ == "classic rules"@,
    {
        "classic rules"
    }
}

/// The source that needs no model and no key: a random pick among what the
/// ant may do.
pub struct RandomSource {
    pub ready: Vec<AntMove>,
    pub asked: Ghost<Seq<ViewRecord>>,
}

impl RandomSource {
    pub fn default() -> (s: RandomSource)
        ensures
            s.ready@.len() == 0,
            s.requested().len() == 0,
    {
        RandomSource { ready: Vec::new(), asked: Ghost(Seq::empty()) }
    }
}

impl DecisionSource for RandomSource {
    closed spec fn requested(&self) -> Seq<ViewRecord> {
        self.asked@
    }

    open spec fn ready(&self) -> Seq<AntMove> {
        self.ready@
    }

    open spec fn thrown_away(&self) -> u32 {
        0
    }

    fn discarded(&self) -> (d: u32) {
        0
    }

    fn request(&mut self, ant: &AntView<'_>)
        ensures
            final(self).ready@.len() == old(self).ready@.len() + 1,
            final(self).ready@.drop_last() == old(self).ready@,
            final(self).ready@.last().id == ant.id,
            final(self).ready@.last().origin == Origin::Rules,
            wandered(ant.options@, final(self).ready@.last().action),
    {
        let action = wander(&ant.options);
        self.ready.push(AntMove { id: ant.id, action, origin: Origin::Rules });
        proof {
            assert(self.ready@.drop_last() =~= old(self).ready@);
            self.asked@ = self.asked@.push(view_record(*ant));
        }
    }

    fn poll(&mut self) -> (v: Vec<AntMove>)
        ensures
            v@ == old(self).ready@,
            final(self).ready@.len() == 0,
    {
        let mut out: Vec<AntMove> = Vec::new();
        std::mem::swap(&mut out, &mut self.ready);
        out
    }

    fn name(&self) -> (s: &'static str)
        ensures
            s@ == "classic rules"@,
    {
        "classic rules"
    }
}

} // verus!
