//! Where an ant's intent comes from: what it is shown, what comes back, and
//! what is written down about it.
//!
//! One request per ant, on purpose: an ant decides from what it can see, and
//! ants sharing a request would share their sight.

use vstd::prelude::*;

use std::collections::VecDeque;

use crate::action::Action;
use crate::config::{REMEMBERED_DISCARDS, THINK_INTERVAL_MS};
use crate::text::copy_texts;

verus! {

/// Stable identity of an ant. Decisions are keyed and ordered by it, which is
/// what makes conflict resolution deterministic.
#[derive(Clone, Copy, PartialEq, Eq, PartialOrd, Ord, Hash, Debug, Structural)]
pub struct AntId(pub u32);

/// What one ant knows and may do right now. This is the whole world as far as
/// the decision is concerned — no board size, no coordinates.
pub struct AntView<'a> {
    pub id: AntId,
    /// The queen's order, passed through word for word. Empty means none.
    pub order: &'a str,
    /// The question being put to the model, as it stands at this moment.
    pub instructions: &'a str,
    /// Generated at runtime from what this ant can reach.
    pub options: Vec<Action>,
    /// Sentences describing what is within sight.
    pub sightings: Vec<String>,
    pub carrying: bool,
}

/// Where a decision came from. Confidences are parts per million.
#[derive(Clone, Copy, PartialEq, Eq, Debug, Structural)]
pub enum Origin {
    Jev { confidence: u32, latency_ms: u32, input_tokens: u32 },
    /// The rule baseline. Never happens while playing.
    Rules,
}

/// One ant's decision, together with where it came from.
#[derive(Clone, Copy, PartialEq, Eq, Debug, Structural)]
pub struct AntMove {
    pub id: AntId,
    pub action: Action,
    pub origin: Origin,
}

/// What became of one answer. Probabilities and confidences are parts per
/// million.
#[derive(Clone, Debug)]
pub enum Outcome {
    /// It moved the ant.
    Taken {
        chosen: String,
        confidence: u32,
        probabilities: Vec<(String, u32)>,
        latency_ms: u32,
        input_tokens: u32,
    },
    /// An answer came back and was refused; the distribution is kept.
    Refused { reason: String, probabilities: Vec<(String, u32)>, latency_ms: u32 },
    /// Nothing came back: no key, no network, no answer in time.
    Failed { reason: String },
}

/// One complete exchange with the model for one ant: what was asked, what
/// came back, and what became of it.
#[derive(Clone, Debug)]
pub struct Exchange {
    pub ant: AntId,
    /// The queen's order as it went out. Empty means it was left out.
    pub order: String,
    pub carrying: bool,
    /// The sentences that went out as `nearby`.
    pub sightings: Vec<String>,
    /// The question text in force when the request left.
    pub instructions: String,
    /// The request body as it went out, and the response body as it came back.
    pub request: String,
    pub response: Option<String>,
    /// Option key and description, exactly as offered.
    pub offered: Vec<(String, String)>,
    pub outcome: Outcome,
}

impl Exchange {
    pub fn was_used(&self) -> (b: bool)
        ensures
            b == (self.outcome is Taken),
    {
        matches!(self.outcome, Outcome::Taken { .. })
    }

    /// A copy of the whole exchange, field for field.
    pub fn duplicate(&self) -> (r: Exchange)
        ensures
            same_exchange(r, *self),
    {
        let outcome = match &self.outcome {
            Outcome::Taken { chosen, confidence, probabilities, latency_ms, input_tokens } => Outcome::Taken {
                chosen: chosen.clone(),
                confidence: *confidence,
                probabilities: copy_weights(probabilities),
                latency_ms: *latency_ms,
                input_tokens: *input_tokens,
            },
            Outcome::Refused { reason, probabilities, latency_ms } => Outcome::Refused {
                reason: reason.clone(),
                probabilities: copy_weights(probabilities),
                latency_ms: *latency_ms,
            },
            Outcome::Failed { reason } => Outcome::Failed { reason: reason.clone() },
        };
        let response: Option<String> = match &self.response {
            Some(body) => Some(body.clone()),
            None => None,
        };
        Exchange {
            ant: self.ant,
            order: self.order.clone(),
            carrying: self.carrying,
            sightings: copy_texts(&self.sightings),
            instructions: self.instructions.clone(),
            request: self.request.clone(),
            response,
            offered: copy_pairs(&self.offered),
            outcome,
        }
    }

    /// The distribution that came with the answer; none when nothing came.
    pub open spec fn probabilities_spec(&self) -> Seq<(String, u32)> {
        match self.outcome {
            Outcome::Taken { probabilities, .. } => probabilities@,
            Outcome::Refused { probabilities, .. } => probabilities@,
            Outcome::Failed { .. } => Seq::<(String, u32)>::empty(),
        }
    }

    /// The distribution, if one ever arrived. Highest first.
    pub fn probabilities(&self) -> (p: &[(String, u32)])
        ensures
            p@ == self.probabilities_spec(),
    {
        match &self.outcome {
            Outcome::Taken { probabilities, .. } => probabilities.as_slice(),
            Outcome::Refused { probabilities, .. } => probabilities.as_slice(),
            Outcome::Failed { .. } => {
                let none: &[(String, u32)] = &[];
                none
            },
        }
    }
}

/// Whether two outcomes say the same: same kind, same figures, same words.
pub open spec fn same_outcome(a: Outcome, b: Outcome) -> bool {
    match (a, b) {
        (
            Outcome::Taken { chosen: c, confidence: k, probabilities: p, latency_ms: l, input_tokens: t },
            Outcome::Taken { chosen: c2, confidence: k2, probabilities: p2, latency_ms: l2, input_tokens: t2 },
        ) => c == c2 && k == k2 && p@ == p2@ && l == l2 && t == t2,
        (
            Outcome::Refused { reason: r, probabilities: p, latency_ms: l },
            Outcome::Refused { reason: r2, probabilities: p2, latency_ms: l2 },
        ) => r == r2 && p@ == p2@ && l == l2,
        (Outcome::Failed { reason: r }, Outcome::Failed { reason: r2 }) => r == r2,
        _ => false,
    }
}

/// Whether two exchanges hold the same record, field for field.
pub open spec fn same_exchange(a: Exchange, b: Exchange) -> bool {
    &&& a.ant == b.ant
    &&& a.order == b.order
    &&& a.carrying == b.carrying
    &&& a.sightings@ == b.sightings@
    &&& a.instructions == b.instructions
    &&& a.request == b.request
    &&& a.response == b.response
    &&& a.offered@ == b.offered@
    &&& same_outcome(a.outcome, b.outcome)
}

/// A copy of a list of option keys and descriptions.
pub fn copy_pairs(v: &Vec<(String, String)>) -> (r: Vec<(String, String)>)
    ensures
        r@ == v@,
{
    let mut r: Vec<(String, String)> = Vec::new();
    let mut i: usize = 0;
    while i < v.len()
        invariant
            i <= v.len(),
            r@ == v@.take(i as int),
        decreases v.len() - i,
    {
        r.push((v[i].0.clone(), v[i].1.clone()));
        assert(v@.take(i + 1) =~= v@.take(i as int).push(v@[i as int]));
        i = i + 1;
    }
    assert(v@.take(v.len() as int) =~= v@);
    r
}

/// A copy of a distribution.
pub fn copy_weights(v: &Vec<(String, u32)>) -> (r: Vec<(String, u32)>)
    ensures
        r@ == v@,
{
    let mut r: Vec<(String, u32)> = Vec::new();
    let mut i: usize = 0;
    while i < v.len()
        invariant
            i <= v.len(),
            r@ == v@.take(i as int),
        decreases v.len() - i,
    {
        r.push((v[i].0.clone(), v[i].1));
        assert(v@.take(i + 1) =~= v@.take(i as int).push(v@[i as int]));
        i = i + 1;
    }
    assert(v@.take(v.len() as int) =~= v@);
    r
}

/// The last few answers that did not become a move, newest first.
pub struct DiscardLog(pub VecDeque<Exchange>);

impl DiscardLog {
    pub fn default() -> (l: DiscardLog)
        ensures
            l.0@.len() == 0,
    {
        DiscardLog(VecDeque::new())
    }

    /// Keeps `exchange` at the front and forgets what falls off the end.
    pub fn remember(&mut self, exchange: Exchange)
        ensures
            final(self).0@ == if old(self).0@.len() + 1 <= REMEMBERED_DISCARDS {
                seq![exchange] + old(self).0@
            } else {
                (seq![exchange] + old(self).0@).take(REMEMBERED_DISCARDS as int)
            },
    {
        self.0.push_front(exchange);
        self.0.truncate(REMEMBERED_DISCARDS);
        proof {
            assert(seq![exchange] + old(self).0@ =~= old(self).0@.insert(0, exchange));
        }
    }
}

/// What the last exchange with the decision source looked like.
#[derive(Clone, Debug)]
pub enum Link {
    /// Nothing has been tried yet. Grey, not red.
    Untried,
    /// An answer came back. Green.
    Live,
    /// Unusable, and why. Red.
    Down(String),
}

impl PartialEq for Link {
    fn eq(&self, other: &Link) -> (r: bool) {
        match (self, other) {
            (Link::Untried, Link::Untried) => true,
            (Link::Live, Link::Live) => true,
            (Link::Down(a), Link::Down(b)) => {
                let same: bool = a.eq(b);
                same
            },
            _ => false,
        }
    }
}

impl vstd::std_specs::cmp::PartialEqSpecImpl for Link {
    open spec fn obeys_eq_spec() -> bool {
        true
    }

    open spec fn eq_spec(&self, other: &Link) -> bool {
        match (self, other) {
            (Link::Untried, Link::Untried) => true,
            (Link::Live, Link::Live) => true,
            (Link::Down(a), Link::Down(b)) => a@ == b@,
            _ => false,
        }
    }
}

impl Link {
    /// The words next to the lamp.
    pub fn short(&self) -> (s: &'static str)
        ensures
            s@ == match self {
                Link::Untried => "Jev \u{2014} not asked yet"@,
                Link::Live => "Jev \u{2014} answering"@,
                Link::Down(_) => "Jev \u{2014} not answering"@,
            },
    {
        match self {
            Link::Untried => "Jev \u{2014} not asked yet",
            Link::Live => "Jev \u{2014} answering",
            Link::Down(_) => "Jev \u{2014} not answering",
        }
    }

    /// The whole story, for the tooltip.
    pub fn detail(&self) -> (s: String)
        ensures
            s@ == match self {
                Link::Untried => "No request has gone out yet. The colony sleeps until the queen's first order, and nothing is asked \u{2014} and nothing paid for \u{2014} before that."@,
                Link::Live => "The last request came back. Whether its answer was used is a separate question \u{2014} see the discarded count."@,
                Link::Down(reason) => "The last attempt failed: "@ + reason@,
            },
    {
        match self {
            Link::Untried => String::from_str(
                "No request has gone out yet. The colony sleeps until the queen's first order, and nothing is asked \u{2014} and nothing paid for \u{2014} before that.",
            ),
            Link::Live => String::from_str(
                "The last request came back. Whether its answer was used is a separate question \u{2014} see the discarded count.",
            ),
            Link::Down(reason) => {
                let mut s = String::from_str("The last attempt failed: ");
                s.append(reason.as_str());
                s
            },
        }
    }
}

/// What a source is asked about one ant, as plain values: whose view it is,
/// the order and the question, the options, the sentences of what it sees,
/// and whether it carries.
pub type ViewRecord = (AntId, Seq<char>, Seq<char>, Seq<Action>, Seq<Seq<char>>, bool);

pub open spec fn view_record(v: AntView) -> ViewRecord {
    (v.id, v.order@, v.instructions@, v.options@, v.sightings@.map_values(|s: String| s@), v.carrying)
}

/// A source of decisions. Asked without blocking; answers whenever ready.
pub trait DecisionSource {
    /// Every view this source has been asked about, oldest first. A source
    /// that keeps no account of them has none to show.
    open spec fn requested(&self) -> Seq<ViewRecord> {
        Seq::empty()
    }

    /// The moves the next `poll` hands out; none for a source that says nothing of them.
    open spec fn ready(&self) -> Seq<AntMove> {
        Seq::empty()
    }

    /// The count `discarded` reports; none for a source that throws nothing away.
    open spec fn thrown_away(&self) -> u32 {
        0
    }

    /// Asks for a single ant. Must return immediately; the answer arrives
    /// through `poll`.
    fn request(&mut self, ant: &AntView<'_>)
        ensures
            final(self).requested() == old(self).requested().push(view_record(*ant)),
    ;

    /// Everything that has arrived since the last call.
    fn poll(&mut self) -> (v: Vec<AntMove>)
        ensures
            v@ == old(self).ready(),
            final(self).requested() == old(self).requested(),
    ;

    /// For the HUD, so the player can see what is steering the colony.
    fn name(&self) -> &'static str;

    /// Answers thrown away and questions that never went out.
    fn discarded(&self) -> (d: u32)
        ensures
            d == self.thrown_away(),
    ;

    /// For the lamp. A source that never touches a network has no line to report on.
    fn link(&self) -> (l: Link)
        default_ensures
            l is Untried,
    {
        Link::Untried
    }

    /// Everything that came back since the last call, used or not. A source
    /// that keeps no record hands back nothing.
    fn drain_exchanges(&mut self) -> (v: Vec<Exchange>)
        ensures
            final(self).requested() == old(self).requested(),
        default_ensures
            v@.len() == 0,
    {
        Vec::new()
    }
}

/// What the colony has cost and how fast it thinks.
pub struct DecisionStats {
    pub from_jev: u32,
    /// Answers thrown away.
    pub discarded: u32,
    /// Decisions from the rule baseline.
    pub from_rules: u32,
    /// The sum of all round trips of the model's answers.
    pub latency_sum_ms: u64,
    pub input_tokens: u64,
    /// Requests since the level being played started. The only number here
    /// that starts again with a new level.
    pub this_level: u32,
}

/// Nano-dollars per input token: $0.042 per million.
pub const NANO_USD_PER_INPUT_TOKEN: u64 = 42;

impl DecisionStats {
    pub open spec fn latency_sum(self) -> nat {
        self.latency_sum_ms as nat
    }

    pub fn default() -> (s: DecisionStats)
        ensures
            s.from_jev == 0,
            s.discarded == 0,
            s.from_rules == 0,
            s.latency_sum() == 0,
            s.input_tokens == 0,
            s.this_level == 0,
    {
        DecisionStats {
            from_jev: 0,
            discarded: 0,
            from_rules: 0,
            latency_sum_ms: 0,
            input_tokens: 0,
            this_level: 0,
        }
    }

    /// Room to count one more decision of `origin` without overflowing.
    pub open spec fn has_room(self, origin: Origin) -> bool {
        &&& self.this_level < u32::MAX
        &&& match origin {
            Origin::Jev { latency_ms, input_tokens, .. } => {
                &&& self.from_jev < u32::MAX
                &&& self.latency_sum() + latency_ms <= u64::MAX
                &&& self.input_tokens + input_tokens <= u64::MAX
            },
            Origin::Rules => self.from_rules < u32::MAX,
        }
    }

    pub fn room_for(&self, origin: &Origin) -> (b: bool)
        ensures
            b == self.has_room(*origin),
    {
        if self.this_level == u32::MAX {
            return false;
        }
        match origin {
            Origin::Jev { latency_ms, input_tokens, .. } => {
                self.from_jev < u32::MAX && self.latency_sum_ms <= u64::MAX - *latency_ms as u64
                    && self.input_tokens <= u64::MAX - *input_tokens as u64
            },
            Origin::Rules => self.from_rules < u32::MAX,
        }
    }

    /// Counts one decision.
    pub fn record(&mut self, origin: &Origin)
        requires
            old(self).has_room(*origin),
        ensures
            final(self).this_level == old(self).this_level + 1,
            final(self).discarded == old(self).discarded,
            match *origin {
                Origin::Jev { latency_ms, input_tokens, .. } => {
                    &&& final(self).from_jev == old(self).from_jev + 1
                    &&& final(self).from_rules == old(self).from_rules
                    &&& final(self).latency_sum() == old(self).latency_sum() + latency_ms
                    &&& final(self).input_tokens == old(self).input_tokens + input_tokens
                },
                Origin::Rules => {
                    &&& final(self).from_rules == old(self).from_rules + 1
                    &&& final(self).from_jev == old(self).from_jev
                    &&& final(self).latency_sum() == old(self).latency_sum()
                    &&& final(self).input_tokens == old(self).input_tokens
                },
            },
    {
        match origin {
            Origin::Jev { latency_ms, input_tokens, .. } => {
                self.from_jev = self.from_jev + 1;
                self.this_level = self.this_level + 1;
                self.latency_sum_ms = self.latency_sum_ms + *latency_ms as u64;
                self.input_tokens = self.input_tokens + *input_tokens as u64;
            },
            Origin::Rules => {
                self.from_rules = self.from_rules + 1;
                self.this_level = self.this_level + 1;
            },
        }
    }

    /// A level was picked. Only the per-attempt counter goes back to nothing.
    pub fn start_new_level(&mut self)
        ensures
            final(self).this_level == 0,
            final(self).from_jev == old(self).from_jev,
            final(self).discarded == old(self).discarded,
            final(self).from_rules == old(self).from_rules,
            final(self).latency_sum() == old(self).latency_sum(),
            final(self).input_tokens == old(self).input_tokens,
    {
        self.this_level = 0;
    }

    /// The mean round trip of the model's answers; zero before the first.
    pub fn average_latency_ms(&self) -> (a: u64)
        ensures
            a == if self.from_jev == 0 { 0 } else { self.latency_sum() / (self.from_jev as nat) },
    {
        match self.latency_sum_ms.checked_div(self.from_jev as u64) {
            Some(a) => a,
            None => 0,
        }
    }

    /// What the session has cost so far, in nano-dollars. Output tokens are
    /// free, so the input count is the whole bill.
    pub fn cost_nano_usd(&self) -> (c: u128)
        ensures
            c == self.input_tokens * NANO_USD_PER_INPUT_TOKEN,
    {
        self.input_tokens as u128 * NANO_USD_PER_INPUT_TOKEN as u128
    }

    /// What an hour of `ants` ants asking every `interval_ms` would cost at
    /// the measured request size, in nano-dollars (rounded down). Zero until
    /// the first answer, because guessing would defeat the purpose.
    pub fn projected_nano_usd_per_hour(&self, ants: u32, interval_ms: u64) -> (c: u128)
        ensures
            c == if self.from_jev == 0 || interval_ms == 0 {
                0
            } else {
                (self.input_tokens * ants * 3_600_000 * NANO_USD_PER_INPUT_TOKEN) / (self.from_jev
                    * interval_ms)
            },
    {
        if self.from_jev == 0 || interval_ms == 0 {
            return 0;
        }
        let tokens: u128 = self.input_tokens as u128;
        assert(tokens * (ants as u128) <= 0xffff_ffff_ffff_ffff_ffff_ffffu128) by (nonlinear_arith)
            requires
                tokens <= 0xffff_ffff_ffff_ffffu128,
                ants <= 0xffff_ffffu32,
        ;
        let scaled: u128 = tokens * ants as u128;
        assert(scaled * 3_600_000u128 * 42u128 <= 0xffff_ffff_ffff_ffff_ffff_ffffu128 * 151_200_000u128)
            by (nonlinear_arith)
            requires
                scaled <= 0xffff_ffff_ffff_ffff_ffff_ffffu128,
        ;
        assert(0xffff_ffff_ffff_ffff_ffff_ffffu128 * 151_200_000u128 < 0xffff_ffff_ffff_ffff_ffff_ffff_ffff_ffffu128);
        let per_hour: u128 = scaled * 3_600_000u128 * NANO_USD_PER_INPUT_TOKEN as u128;
        assert((self.from_jev as u128) * (interval_ms as u128) > 0) by (nonlinear_arith)
            requires
                self.from_jev > 0,
                interval_ms > 0,
        ;
        assert((self.from_jev as u128) * (interval_ms as u128) <= 0xffff_ffff_ffff_ffff_ffff_ffffu128) by (nonlinear_arith)
            requires
                self.from_jev <= 0xffff_ffffu32,
                interval_ms <= 0xffff_ffff_ffff_ffffu64,
        ;
        per_hour / ((self.from_jev as u128) * (interval_ms as u128))
    }
}

/// What the queen last said, handed to the model unchanged.
pub struct QueenOrder(pub String);

/// Whether the queen has spoken at all yet. Until she has, not one request
/// goes out; once awake the colony stays awake.
#[derive(Clone, Copy, PartialEq, Eq, Debug, Structural)]
pub struct ColonyAwake(pub bool);

/// Each ant thinks on its own clock: a repeating timer, in milliseconds.
#[derive(Clone, Copy, PartialEq, Eq, Debug, Structural)]
pub struct ThinkTimer {
    pub duration_ms: u64,
    pub elapsed_ms: u64,
}

impl ThinkTimer {
    pub open spec fn wf(self) -> bool {
        0 < self.duration_ms <= 1_000_000_000 && self.elapsed_ms <= 0x4_0000_0000_0000
    }

    /// The timer of ant `index` of `count`: the offsets spread the requests
    /// evenly over the interval instead of firing them all in one frame.
    pub fn staggered(index: usize, count: usize) -> (t: ThinkTimer)
        requires
            index <= 0x1_0000_0000,
        ensures
            t.wf(),
            t.duration_ms == THINK_INTERVAL_MS,
            t.elapsed_ms == THINK_INTERVAL_MS * index / (if count == 0 { 1 } else { count as int }),
    {
        let spread: u64 = if count == 0 { 1 } else { count as u64 };
        let product: u64 = THINK_INTERVAL_MS * index as u64;
        let elapsed: u64 = product / spread;
        assert(elapsed <= product) by (nonlinear_arith)
            requires
                spread >= 1,
                elapsed == product / spread,
        ;
        ThinkTimer { duration_ms: THINK_INTERVAL_MS, elapsed_ms: elapsed }
    }

    /// Makes the ant ask on the next tick instead of waiting out the interval.
    pub fn ask_now(&mut self)
        ensures
            final(self).duration_ms == old(self).duration_ms,
            final(self).elapsed_ms == old(self).duration_ms,
    {
        self.elapsed_ms = self.duration_ms;
    }

    /// Starts the interval over.
    pub fn reset(&mut self)
        ensures
            final(self).duration_ms == old(self).duration_ms,
            final(self).elapsed_ms == 0,
    {
        self.elapsed_ms = 0;
    }

    /// Lets `delta_ms` pass. Returns whether the interval ran out during this
    /// tick; a repeating timer then keeps only what is left over.
    pub fn tick(&mut self, delta_ms: u64) -> (finished: bool)
        requires
            old(self).wf(),
            delta_ms <= 0x1_0000_0000,
        ensures
            final(self).wf(),
            final(self).duration_ms == old(self).duration_ms,
            finished == (old(self).elapsed_ms + delta_ms >= old(self).duration_ms),
            final(self).elapsed_ms == if finished {
                (old(self).elapsed_ms + delta_ms) % (old(self).duration_ms as int)
            } else {
                old(self).elapsed_ms + delta_ms
            },
            final(self).elapsed_ms < final(self).duration_ms,
    {
        let total: u64 = self.elapsed_ms + delta_ms;
        if total >= self.duration_ms {
            self.elapsed_ms = total % self.duration_ms;
            true
        } else {
            self.elapsed_ms = total;
            false
        }
    }
}

/// Where decisions come from. No default on purpose.
#[derive(Clone, Copy, PartialEq, Eq, Debug, Structural)]
pub enum DecisionsFrom {
    /// The live model. This is the game; without a key the colony sleeps.
    Jev,
    /// Plain rules: only the offline tests and the measurement baseline.
    RulesForTesting,
}

/// No key, no answers. The colony stands still, and the bar says so.
pub struct Asleep {
    asked: Ghost<Seq<ViewRecord>>,
}

impl Asleep {
    pub fn default() -> (a: Asleep)
        ensures
            a.requested().len() == 0,
    {
        Asleep { asked: Ghost(Seq::empty()) }
    }
}

impl DecisionSource for Asleep {
    closed spec fn requested(&self) -> Seq<ViewRecord> {
        self.asked@
    }

    open spec fn ready(&self) -> Seq<AntMove> {
        Seq::empty()
    }

    open spec fn thrown_away(&self) -> u32 {
        0
    }

    fn request(&mut self, ant: &AntView<'_>) {
        proof {
            self.asked@ = self.asked@.push(view_record(*ant));
        }
    }

    fn discarded(&self) -> (d: u32) {
        0
    }

    fn poll(&mut self) -> (v: Vec<AntMove>)
        ensures
            v@.len() == 0,
    {
        Vec::new()
    }

    fn name(&self) -> (s: &'static str)
        ensures
            s@ == "nobody \u{2014} no API key"@,
    {
        "nobody \u{2014} no API key"
    }

    fn link(&self) -> (l: Link)
        ensures
            l matches Link::Down(reason) && reason@
                == "no TYPESAFE_API_KEY \u{2014} put one in .env and restart"@,
    {
        Link::Down(String::from_str("no TYPESAFE_API_KEY \u{2014} put one in .env and restart"))
    }
}

} // verus!
