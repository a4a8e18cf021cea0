//! One frame of the game, in the order the pieces run in: decisions asked
//! for and handed out, intents pursued, steps taken, answers written down,
//! fruit grown, scent faded, and the task checked.
//!
//! Everything that takes time or talks to the world outside (the clock, the
//! network, the keyboard, the screen) stays with whoever drives the frames.

use vstd::prelude::*;

use crate::bar::OrderChange;
use crate::colony::{
    asked_among, asked_round, counted_all, handed_out, lemma_counting_never_gives_back, record_exchanges, sort_by_id,
    views_among, with_discarded, LastExchanges,
};
use crate::config::PPM;
use crate::decisions::{AntId, AntMove, ColonyAwake, DecisionSource, DecisionStats, DiscardLog, QueenOrder};
use crate::level::{board_fits, open_field_grid, open_field_nest, regrew, start_level, started_as, Regrowth, Session};
use crate::questions::Questions;
use crate::scenario::{check_solved, Scenario, Solved};
use crate::grid::Cell;
use crate::scent::faded;
use crate::world::{animated, pursued_all, World};

verus! {

/// A level being played, with what steers it.
pub struct Game<S: DecisionSource> {
    pub world: World,
    pub session: Session,
    pub source: S,
    pub questions: Questions,
    pub regrowth: Regrowth,
    /// The last exchange of each ant, for the inspector.
    pub last: LastExchanges,
    /// The task, if this is a task board: how many fruits have to get home.
    pub target: Option<u32>,
    /// A new order arrived since the last frame.
    pub order_changed: bool,
    /// The question was reworded since the last frame.
    pub questions_changed: bool,
}

impl<S: DecisionSource> Game<S> {
    pub open spec fn wf(&self) -> bool {
        &&& self.world.wf()
        &&& self.regrowth.0.wf()
    }

    /// A level, started: the open field when `scenario` is `None`.
    pub fn new(scenario: Option<&Scenario>, source: S, questions: Questions) -> (g: Game<S>)
        requires
            scenario matches Some(s) ==> board_fits(s.board(), s.nest_spec()),
        ensures
            g.wf(),
            !g.session.awake.0,
            g.session.order.0@.len() == 0,
            !g.session.solved.0,
            g.session.selected is None,
            g.session.discards.0@.len() == 0,
            g.session.stats.from_jev == 0 && g.session.stats.from_rules == 0,
            g.session.stats.discarded == 0 && g.session.stats.latency_sum() == 0,
            g.session.stats.input_tokens == 0 && g.session.stats.this_level == 0,
            g.source == source,
            g.questions == questions,
            forall|c: Cell| #[trigger] g.world.scent.strength(g.world.grid, c) == 0,
            match scenario {
                Some(s) => g.world.grid == s.board() && g.world.nest == s.nest_spec(),
                None => g.world.grid == open_field_grid() && g.world.nest == open_field_nest(),
            },
            g.target == (match scenario {
                Some(s) => Some(s.target),
                None => None,
            }),
            started_as(scenario, g.world),
            g.world.stores == 0,
    {
        let mut session = Session {
            awake: ColonyAwake(false),
            order: QueenOrder(String::new()),
            stats: DecisionStats::default(),
            discards: DiscardLog::default(),
            selected: None,
            solved: Solved(false),
        };
        let world = start_level(scenario, &mut session);
        Game {
            world,
            session,
            source,
            questions,
            regrowth: Regrowth::default(),
            last: LastExchanges::default(),
            target: match scenario {
                Some(s) => Some(s.target),
                None => None,
            },
            order_changed: false,
            questions_changed: false,
        }
    }

    /// Starts a level again, or another one. What has been spent stays spent.
    pub fn restart(&mut self, scenario: Option<&Scenario>)
        requires
            scenario matches Some(s) ==> board_fits(s.board(), s.nest_spec()),
        ensures
            final(self).wf(),
            !final(self).session.awake.0,
            final(self).session.order.0@.len() == 0,
            !final(self).session.solved.0,
            final(self).session.stats.this_level == 0,
            final(self).session.stats.from_jev == old(self).session.stats.from_jev,
            final(self).session.stats.from_rules == old(self).session.stats.from_rules,
            final(self).session.stats.input_tokens == old(self).session.stats.input_tokens,
            final(self).session.stats.discarded == old(self).session.stats.discarded,
            final(self).session.stats.latency_sum() == old(self).session.stats.latency_sum(),
            final(self).session.selected is None,
            final(self).session.discards.0@.len() == 0,
            final(self).world.stores == 0,
            forall|c: Cell| #[trigger] final(self).world.scent.strength(final(self).world.grid, c) == 0,
            started_as(scenario, final(self).world),
            match scenario {
                Some(s) => final(self).world.grid == s.board() && final(self).world.nest == s.nest_spec(),
                None => final(self).world.grid == open_field_grid() && final(self).world.nest == open_field_nest(),
            },
            final(self).target == (match scenario {
                Some(s) => Some(s.target),
                None => None,
            }),
            !final(self).order_changed && !final(self).questions_changed,
    {
        self.world = start_level(scenario, &mut self.session);
        self.regrowth = Regrowth::default();
        self.last = LastExchanges::default();
        self.target = match scenario {
            Some(s) => Some(s.target),
            None => None,
        };
        self.order_changed = false;
        self.questions_changed = false;
    }

    /// The queen speaks. Every ant hears it on the next frame.
    pub fn give_order(&mut self, order: String)
        ensures
            final(self).session.order.0@ == order@,
            final(self).order_changed,
            final(self).world == old(self).world,
            final(self).regrowth == old(self).regrowth,
    {
        self.session.order = QueenOrder(order);
        self.order_changed = true;
    }

    /// What the bar reported: an order said, or the order taken back.
    pub fn hear(&mut self, change: OrderChange)
        ensures
            final(self).session.order.0@ == match change {
                OrderChange::Say(said) => said@,
                OrderChange::Silence => Seq::<char>::empty(),
            },
            final(self).order_changed,
            final(self).world == old(self).world,
            final(self).regrowth == old(self).regrowth,
    {
        match change {
            OrderChange::Say(said) => self.give_order(said),
            OrderChange::Silence => self.give_order(String::new()),
        }
    }

    /// The question is reworded. The next answers are the ones that change.
    pub fn reword(&mut self, step: String)
        ensures
            final(self).questions.step@ == step@,
            final(self).questions_changed,
            final(self).world == old(self).world,
            final(self).regrowth == old(self).regrowth,
    {
        self.questions = Questions { step };
        self.questions_changed = true;
    }

    /// One frame, `delta_ms` after the last. The trail keeps `scent_left_ppm`
    /// parts per million of what it had. Returns the ants asked this frame.
    pub fn tick(&mut self, delta_ms: u64, scent_left_ppm: u32) -> (asked: Vec<AntId>)
        requires
            old(self).wf(),
            delta_ms <= 0x1_0000_0000,
            scent_left_ppm <= PPM,
        ensures
            final(self).wf(),
            final(self).world.grid == old(self).world.grid,
            final(self).world.nest == old(self).world.nest,
            final(self).world.ants@.len() == old(self).world.ants@.len(),
            final(self).session.awake.0 == (old(self).session.awake.0 || crate::text::trimmed_text(
                old(self).session.order.0@,
            ).len() > 0),
            !final(self).session.awake.0 ==> asked@.len() == 0,
            !final(self).order_changed && !final(self).questions_changed,
            final(self).session.solved.0 == (old(self).session.solved.0 || (old(self).target matches Some(t)
                && final(self).world.stores >= t)),
            final(self).session.awake.0 ==> asked@ == asked_among(
                old(self).world.ants@,
                delta_ms as int,
                old(self).order_changed || old(self).questions_changed || !old(self).session.awake.0,
                old(self).world.ants@.len(),
            ),
            final(self).target == old(self).target,
            exists|w1: World, w2: World, w3: World, w4: World, w5: World, s1: S|
                #![trigger handed_out(w1, w2, sort_by_id(s1.ready())), pursued_all(w2, w3), animated(w3, w4, delta_ms as int), regrew(w4, w5, old(self).regrowth.0, final(self).regrowth.0, delta_ms as int, old(self).target is Some)]
                framed(*old(self), *final(self), delta_ms as int, scent_left_ppm as nat, w1, w2, w3, w4, w5, s1),
            final(self).session.stats.from_jev >= old(self).session.stats.from_jev,
            final(self).session.stats.input_tokens >= old(self).session.stats.input_tokens,
            final(self).session.stats.latency_sum_ms >= old(self).session.stats.latency_sum_ms,
    {
        let asked: Vec<AntId> = self.world.request_decisions(
            delta_ms,
            self.session.order.0.as_str(),
            self.order_changed,
            self.questions.step.as_str(),
            self.questions_changed,
            &mut self.session.awake,
            &mut self.source,
        );
        self.order_changed = false;
        self.questions_changed = false;
        let ghost w1 = self.world;
        let ghost s1 = self.source;
        self.world.apply_decisions(&mut self.source, &mut self.session.stats);
        proof {
            lemma_counting_never_gives_back(
                with_discarded(old(self).session.stats, s1.thrown_away()),
                sort_by_id(s1.ready()),
            );
        }
        let ghost w2 = self.world;
        self.world.pursue_intents();
        let ghost w3 = self.world;
        self.world.animate(delta_ms);
        let ghost w4 = self.world;
        let fresh = self.source.drain_exchanges();
        let ids: Vec<AntId> = ant_ids(&self.world);
        record_exchanges(fresh, &ids, &mut self.last, &mut self.session.discards);
        self.world.regrow(&mut self.regrowth, delta_ms, self.target.is_some());
        let ghost w5 = self.world;
        let grid = self.world.grid;
        self.world.scent.evaporate(grid, scent_left_ppm);
        check_solved(self.target, self.world.stores, &mut self.session.solved);
        proof {
            assert(framed(*old(self), *self, delta_ms as int, scent_left_ppm as nat, w1, w2, w3, w4, w5, s1));
        }
        asked
    }
}

/// The board after its scent faded to `factor` parts per million of what it
/// was, everything else as it was.
pub open spec fn faded_world(before: World, after: World, factor: nat) -> bool {
    &&& after.grid == before.grid
    &&& after.nest == before.nest
    &&& after.occupancy == before.occupancy
    &&& after.stores == before.stores
    &&& after.ants@ == before.ants@
    &&& after.fruits@ == before.fruits@
    &&& after.plank == before.plank
    &&& after.next_entity == before.next_entity
    &&& after.scent.lays() == before.scent.lays()
    &&& forall|c: Cell| #[trigger] after.scent.strength(before.grid, c) == faded(
        before.scent.strength(before.grid, c),
        factor,
    )
}

/// One frame in the order its pieces run, through the boards `w1` to `w5`
/// between them: the ants that are due are asked (the source `s1` is the one
/// that has heard them), its ready moves are handed out and counted, every
/// ant pursues its intent, the steps run on, fruit grows back, and the scent
/// fades. An asleep colony is asked nothing and its clocks stand still.
pub open spec fn framed<S: DecisionSource>(
    before: Game<S>,
    after: Game<S>,
    delta_ms: int,
    factor: nat,
    w1: World,
    w2: World,
    w3: World,
    w4: World,
    w5: World,
    s1: S,
) -> bool {
    let everyone = before.order_changed || before.questions_changed || !before.session.awake.0;
    &&& if after.session.awake.0 {
        &&& asked_round(before.world, w1, delta_ms, everyone)
        &&& s1.requested() == before.source.requested() + views_among(
            before.world,
            delta_ms,
            everyone,
            before.session.order.0@,
            before.questions.step@,
            before.world.ants@.len(),
        )
    } else {
        w1 == before.world && s1 == before.source
    }
    &&& handed_out(w1, w2, sort_by_id(s1.ready()))
    &&& after.session.stats == counted_all(
        with_discarded(before.session.stats, s1.thrown_away()),
        sort_by_id(s1.ready()),
    )
    &&& pursued_all(w2, w3)
    &&& animated(w3, w4, delta_ms)
    &&& regrew(w4, w5, before.regrowth.0, after.regrowth.0, delta_ms, before.target is Some)
    &&& faded_world(w5, after.world, factor)
    &&& after.source.requested() == s1.requested()
}

/// The ids of the ants on the board, in list order.
pub fn ant_ids(world: &World) -> (v: Vec<AntId>)
    ensures
        v@.len() == world.ants@.len(),
        forall|j: int| 0 <= j < v@.len() ==> #[trigger] v@[j] == world.ants@[j].id,
{
    let mut v: Vec<AntId> = Vec::new();
    let mut j: usize = 0;
    while j < world.ants.len()
        invariant
            j <= world.ants@.len(),
            v@.len() == j,
            forall|k: int| 0 <= k < j ==> #[trigger] v@[k] == world.ants@[k].id,
        decreases world.ants@.len() - j,
    {
        v.push(world.ants[j].id);
        j = j + 1;
    }
    v
}

} // verus!
