//! The colony as a whole: how the answers that came back become intents, who
//! is asked for a decision and when, and how a level is set up.

use vstd::prelude::*;

use crate::action::Action;
use crate::config::{VISION_RADIUS, WANDER_CELLS};
use crate::config::REMEMBERED_DISCARDS;
use crate::decisions::{
    same_exchange, view_record, AntId, AntMove, AntView, ColonyAwake, DecisionSource, DecisionStats, DiscardLog,
    Exchange, Origin, ThinkTimer, ViewRecord,
};
use crate::options::{available, options_spec, Hands};
use crate::text::{is_blank, trimmed_text};
use crate::vision::{sightings, sightings_text};
use crate::world::{ant_ok, lemma_on_board_reachable, Ant, Intent, LastDecision, World};

verus! {

/// How many elements at the end of `s` belong behind `m`: those of a larger id.
pub open spec fn tail_behind(s: Seq<AntMove>, m: AntMove) -> nat
    decreases s.len(),
{
    if s.len() == 0 {
        0
    } else if s.last().id.0 > m.id.0 {
        1 + tail_behind(s.drop_last(), m)
    } else {
        0
    }
}

/// `m` put into `s` behind every move whose id is not larger.
pub open spec fn insert_by_id(s: Seq<AntMove>, m: AntMove) -> Seq<AntMove> {
    s.insert(s.len() - tail_behind(s, m), m)
}

/// The moves in ascending ant id; moves of one ant keep their order.
pub open spec fn sort_by_id(s: Seq<AntMove>) -> Seq<AntMove>
    decreases s.len(),
{
    if s.len() == 0 {
        s
    } else {
        insert_by_id(sort_by_id(s.drop_last()), s.last())
    }
}

proof fn lemma_tail_behind_prefix(s: Seq<AntMove>, m: AntMove, p: int)
    requires
        0 <= p < s.len(),
        s[p].id.0 > m.id.0,
    ensures
        tail_behind(s.take(p + 1), m) == 1 + tail_behind(s.take(p), m),
{
    assert(s.take(p + 1).drop_last() =~= s.take(p));
}

/// Ascending ant id, so two ants that want the same thing always resolve the
/// same way.
pub fn sort_moves(v: Vec<AntMove>) -> (r: Vec<AntMove>)
    ensures
        r@ == sort_by_id(v@),
{
    let mut sorted: Vec<AntMove> = Vec::new();
    let mut i: usize = 0;
    while i < v.len()
        invariant
            i <= v.len(),
            sorted@ == sort_by_id(v@.take(i as int)),
        decreases v.len() - i,
    {
        let m: AntMove = v[i];
        let ghost s = sorted@;
        let mut p: usize = sorted.len();
        assert(s.take(p as int) =~= s);
        while p > 0 && sorted[p - 1].id.0 > m.id.0
            invariant
                p <= sorted.len(),
                s == sorted@,
                tail_behind(s, m) == (sorted.len() - p) + tail_behind(s.take(p as int), m),
            decreases p,
        {
            proof {
                lemma_tail_behind_prefix(s, m, p - 1);
            }
            p = p - 1;
        }
        proof {
            if p > 0 {
                assert(s.take(p as int).last() == s[p - 1]);
            } else {
                assert(s.take(0).len() == 0);
            }
            assert(tail_behind(s.take(p as int), m) == 0);
        }
        sorted.insert(p, m);
        proof {
            assert(v@.take(i + 1).drop_last() =~= v@.take(i as int));
            assert(v@.take(i + 1).last() == m);
        }
        i = i + 1;
    }
    proof {
        assert(v@.take(v.len() as int) =~= v@);
    }
    sorted
}

/// What an ant is set to pursue once `action` was decided for it.
pub open spec fn intent_for(action: Action) -> Option<Intent> {
    match action {
        Action::Wait => None,
        Action::Walk(dir) => Some(Intent::Walk { dir, left: WANDER_CELLS }),
        Action::Fetch { fruit, .. } => Some(Intent::Fetch(fruit)),
        Action::CarryHome => Some(Intent::CarryHome),
        Action::TakePlank { plank, .. } => Some(Intent::TakePlank(plank)),
        // The plank is put down by the board; dropping the intent is how the
        // ant says so.
        Action::LetGoPlank => None,
        // The direction is not carried over: the intent reads the slope again
        // at every step.
        Action::FollowScent(_) => Some(Intent::FollowScent { left: WANDER_CELLS }),
    }
}

/// The confidence a decision is shown with; the rules have none.
pub open spec fn confidence_of(origin: Origin) -> Option<u32> {
    match origin {
        Origin::Jev { confidence, .. } => Some(confidence),
        Origin::Rules => None,
    }
}

/// `a` once `m` has been decided for it.
pub open spec fn decided(a: Ant, m: AntMove) -> Ant {
    Ant {
        last: LastDecision { action: Some(m.action), confidence: confidence_of(m.origin) },
        intent: intent_for(m.action),
        ..a
    }
}

/// The first ant among the first `n` that has id `id` and is not mid-step.
pub open spec fn first_ready(ants: Seq<Ant>, id: AntId, n: nat) -> Option<int>
    decreases n,
{
    if n == 0 {
        None
    } else {
        match first_ready(ants, id, (n - 1) as nat) {
            Some(j) => Some(j),
            None => if ants[n - 1].id == id && ants[n - 1].step is None {
                Some(n - 1)
            } else {
                None
            },
        }
    }
}

/// The ants once `m` has been handed to the one it is for, if that ant is
/// ready for it.
pub open spec fn apply_move(ants: Seq<Ant>, m: AntMove) -> Seq<Ant> {
    match first_ready(ants, m.id, ants.len()) {
        Some(j) => ants.update(j, decided(ants[j], m)),
        None => ants,
    }
}

/// The ants once every move in `moves` has been handed out, in order.
pub open spec fn apply_moves_spec(ants: Seq<Ant>, moves: Seq<AntMove>) -> Seq<Ant>
    decreases moves.len(),
{
    if moves.len() == 0 {
        ants
    } else {
        apply_move(apply_moves_spec(ants, moves.drop_last()), moves.last())
    }
}

/// The statistics once one more decision of `origin` is counted; counts that
/// are full stay where they are.
pub open spec fn counted(s: DecisionStats, origin: Origin) -> DecisionStats {
    if s.has_room(origin) {
        match origin {
            Origin::Jev { latency_ms, input_tokens, .. } => DecisionStats {
                from_jev: (s.from_jev + 1) as u32,
                this_level: (s.this_level + 1) as u32,
                latency_sum_ms: (s.latency_sum_ms + latency_ms) as u64,
                input_tokens: (s.input_tokens + input_tokens) as u64,
                ..s
            },
            Origin::Rules => DecisionStats {
                from_rules: (s.from_rules + 1) as u32,
                this_level: (s.this_level + 1) as u32,
                ..s
            },
        }
    } else {
        s
    }
}

/// The statistics once every move in `moves` is counted, in order.
pub open spec fn counted_all(s: DecisionStats, moves: Seq<AntMove>) -> DecisionStats
    decreases moves.len(),
{
    if moves.len() == 0 {
        s
    } else {
        counted(counted_all(s, moves.drop_last()), moves.last().origin)
    }
}

/// The ant `id` that is ready for a decision: the first such in the list.
fn find_ready(ants: &Vec<Ant>, id: AntId) -> (r: Option<usize>)
    ensures
        r matches Some(j) ==> first_ready(ants@, id, ants@.len()) == Some(j as int),
        r is None ==> first_ready(ants@, id, ants@.len()) is None,
{
    let mut j: usize = 0;
    while j < ants.len()
        invariant
            j <= ants@.len(),
            first_ready(ants@, id, j as nat) is None,
        decreases ants@.len() - j,
    {
        if ants[j].id == id && ants[j].step.is_none() {
            proof {
                assert(first_ready(ants@, id, (j + 1) as nat) == Some(j as int));
                lemma_first_ready_stays(ants@, id, (j + 1) as nat, ants@.len());
            }
            return Some(j);
        }
        j = j + 1;
    }
    None
}

/// Once found among the first `n`, an ant stays the first one found.
proof fn lemma_first_ready_stays(ants: Seq<Ant>, id: AntId, n: nat, m: nat)
    requires
        n <= m,
        first_ready(ants, id, n) is Some,
    ensures
        first_ready(ants, id, m) == first_ready(ants, id, n),
    decreases m - n,
{
    if n < m {
        lemma_first_ready_stays(ants, id, n, (m - 1) as nat);
    }
}

/// Where the first ready ant is, it has that id and stands still.
proof fn lemma_first_ready_found(ants: Seq<Ant>, id: AntId, n: nat)
    requires
        n <= ants.len(),
    ensures
        first_ready(ants, id, n) matches Some(j) ==> 0 <= j < n && ants[j].id == id && ants[j].step is None,
    decreases n,
{
    if n > 0 {
        lemma_first_ready_found(ants, id, (n - 1) as nat);
    }
}

impl World {
    /// Hands the decisions that came back to the ants they are for.
    ///
    /// Nothing is carried out here: every action becomes an intent, and
    /// `pursue_intents` works on it over the following ticks. What does
    /// happen here is the bookkeeping: each decision is counted, whether or
    /// not its ant is still there to act on it, and recorded on the ant.
    /// An ant in the middle of a step gets nothing.
    pub fn apply_moves(&mut self, moves: Vec<AntMove>, stats: &mut DecisionStats)
        requires
            old(self).wf(),
        ensures
            final(self).wf(),
            final(self).grid == old(self).grid,
            final(self).nest == old(self).nest,
            final(self).occupancy == old(self).occupancy,
            final(self).scent == old(self).scent,
            final(self).stores == old(self).stores,
            final(self).fruits@ == old(self).fruits@,
            final(self).plank == old(self).plank,
            final(self).next_entity == old(self).next_entity,
            final(self).ants@ == apply_moves_spec(old(self).ants@, sort_by_id(moves@)),
            *final(stats) == counted_all(*old(stats), sort_by_id(moves@)),
    {
        let ghost before = *self;
        let ghost stats_before = *stats;
        let sorted: Vec<AntMove> = sort_moves(moves);
        let mut k: usize = 0;
        while k < sorted.len()
            invariant
                self.wf(),
                k <= sorted@.len(),
                self.grid == before.grid,
                self.nest == before.nest,
                self.occupancy == before.occupancy,
                self.scent == before.scent,
                self.stores == before.stores,
                self.fruits@ == before.fruits@,
                self.plank == before.plank,
                self.next_entity == before.next_entity,
                self.ants@ == apply_moves_spec(before.ants@, sorted@.take(k as int)),
                *stats == counted_all(stats_before, sorted@.take(k as int)),
            decreases sorted@.len() - k,
        {
            let m: AntMove = sorted[k];
            proof {
                assert(sorted@.take(k + 1).drop_last() =~= sorted@.take(k as int));
                assert(sorted@.take(k + 1).last() == m);
            }
            // Counted before anything else: an answer that arrives too late
            // still cost what it cost.
            if stats.room_for(&m.origin) {
                stats.record(&m.origin);
            }
            let ghost prev = self.ants@;
            match find_ready(&self.ants, m.id) {
                Some(j) => {
                    proof {
                        lemma_first_ready_found(self.ants@, m.id, self.ants@.len());
                    }
                    let mut a: Ant = self.ants[j];
                    proof {
                        assert(crate::world::ant_ok(a, self.occupancy, self.grid));
                    }
                    a.last = LastDecision {
                        action: Some(m.action),
                        confidence: match m.origin {
                            Origin::Jev { confidence, .. } => Some(confidence),
                            Origin::Rules => None,
                        },
                    };
                    a.intent = match m.action {
                        Action::Wait => None,
                        Action::Walk(dir) => Some(Intent::Walk { dir, left: WANDER_CELLS }),
                        Action::Fetch { fruit, .. } => Some(Intent::Fetch(fruit)),
                        Action::CarryHome => Some(Intent::CarryHome),
                        Action::TakePlank { plank, .. } => Some(Intent::TakePlank(plank)),
                        Action::LetGoPlank => None,
                        Action::FollowScent(_) => Some(Intent::FollowScent { left: WANDER_CELLS }),
                    };
                    self.update_ant(j, a);
                    proof {
                        assert(first_ready(prev, m.id, prev.len()) == Some(j as int));
                        assert(a == decided(prev[j as int], m));
                        assert(self.ants@ =~= prev.update(j as int, decided(prev[j as int], m)));
                    }
                },
                None => {
                    assert(first_ready(prev, m.id, prev.len()) is None);
                },
            }
            proof {
                assert(self.ants@ == apply_move(prev, m));
                assert(prev == apply_moves_spec(before.ants@, sorted@.take(k as int)));
                assert(apply_moves_spec(before.ants@, sorted@.take(k + 1)) == apply_move(
                    apply_moves_spec(before.ants@, sorted@.take(k + 1).drop_last()),
                    sorted@.take(k + 1).last(),
                ));
            }
            k = k + 1;
        }
        proof {
            assert(sorted@.take(sorted@.len() as int) =~= sorted@);
        }
    }

    /// Takes whatever the decision source has ready and hands it out: the
    /// discard count is the source's, and the moves it returned, whatever they
    /// are, go out as `apply_moves` hands them out.
    pub fn apply_decisions<S: DecisionSource>(&mut self, source: &mut S, stats: &mut DecisionStats)
        requires
            old(self).wf(),
        ensures
            final(self).wf(),
            final(self).grid == old(self).grid,
            final(self).nest == old(self).nest,
            final(self).occupancy == old(self).occupancy,
            final(self).scent == old(self).scent,
            final(self).stores == old(self).stores,
            final(self).fruits@ == old(self).fruits@,
            final(self).plank == old(self).plank,
            final(self).next_entity == old(self).next_entity,
            final(self).ants@.len() == old(self).ants@.len(),
            final(self).ants@ == apply_moves_spec(old(self).ants@, sort_by_id(old(source).ready())),
            handed_out(*old(self), *final(self), sort_by_id(old(source).ready())),
            *final(stats) == counted_all(
                with_discarded(*old(stats), old(source).thrown_away()),
                sort_by_id(old(source).ready()),
            ),
            final(source).requested() == old(source).requested(),
    {
        stats.discarded = source.discarded();
        let ghost reported = *stats;
        let moves: Vec<AntMove> = source.poll();
        if moves.len() == 0 {
            proof {
                assert(sort_by_id(moves@) =~= Seq::<AntMove>::empty());
                assert(self.ants@ == apply_moves_spec(old(self).ants@, sort_by_id(moves@)));
                assert(*stats == counted_all(with_discarded(*old(stats), reported.discarded), sort_by_id(moves@)));
            }
            return;
        }
        self.apply_moves(moves, stats);
        proof {
            lemma_apply_moves_len(old(self).ants@, sort_by_id(moves@));
            assert(reported == with_discarded(*old(stats), reported.discarded));
            assert(*stats == counted_all(with_discarded(*old(stats), reported.discarded), sort_by_id(moves@)));
        }
    }
}

/// What has been spent stays spent: counting decisions never lowers a
/// count, the tokens paid for or the time waited.
pub proof fn lemma_counting_never_gives_back(s: DecisionStats, moves: Seq<AntMove>)
    ensures
        counted_all(s, moves).from_jev >= s.from_jev,
        counted_all(s, moves).from_rules >= s.from_rules,
        counted_all(s, moves).input_tokens >= s.input_tokens,
        counted_all(s, moves).latency_sum_ms >= s.latency_sum_ms,
        counted_all(s, moves).this_level >= s.this_level,
        counted_all(s, moves).discarded == s.discarded,
    decreases moves.len(),
{
    if moves.len() > 0 {
        lemma_counting_never_gives_back(s, moves.drop_last());
    }
}

/// The statistics with the discard count a source reported.
pub open spec fn with_discarded(s: DecisionStats, discarded: u32) -> DecisionStats {
    DecisionStats { discarded, ..s }
}

/// Handing out decisions never adds or removes an ant.
pub proof fn lemma_apply_moves_len(ants: Seq<Ant>, moves: Seq<AntMove>)
    ensures
        apply_moves_spec(ants, moves).len() == ants.len(),
    decreases moves.len(),
{
    if moves.len() > 0 {
        lemma_apply_moves_len(ants, moves.drop_last());
        let prev = apply_moves_spec(ants, moves.drop_last());
        lemma_first_ready_found(prev, moves.last().id, prev.len());
    }
}


/// What an ant has in its hands: a plank takes both, so an ant holding one is
/// in a different situation from one holding fruit or nothing.
pub open spec fn hands_of(a: Ant) -> Hands {
    if a.intent matches Some(Intent::HoldPlank { .. }) {
        Hands::Plank
    } else if a.carrying is Some {
        Hands::Fruit
    } else {
        Hands::Empty
    }
}

/// Whether an ant's think timer runs out during the next `delta_ms`.
pub open spec fn due(t: ThinkTimer, delta_ms: int) -> bool {
    t.elapsed_ms + delta_ms >= t.duration_ms
}

/// The think timer after `delta_ms` more: a repeating timer keeps only what
/// is left over when it runs out.
pub open spec fn ticked(t: ThinkTimer, delta_ms: int) -> ThinkTimer {
    ThinkTimer {
        elapsed_ms: if due(t, delta_ms) {
            ((t.elapsed_ms + delta_ms) % (t.duration_ms as int)) as u64
        } else {
            (t.elapsed_ms + delta_ms) as u64
        },
        ..t
    }
}

/// Whether `a` is asked this tick: its interval ran out or everybody is
/// asked, it is not in the middle of a step, and it is not busy with an
/// intent unless everybody is asked.
pub open spec fn is_asked(a: Ant, delta_ms: int, everyone: bool) -> bool {
    &&& due(a.timer, delta_ms) || everyone
    &&& a.step is None
    &&& a.intent is None || everyone
}

/// `a` after a tick of `request_decisions`: its clock ran on, and started
/// over if it was asked.
pub open spec fn after_tick(a: Ant, delta_ms: int, everyone: bool) -> Ant {
    if is_asked(a, delta_ms, everyone) {
        Ant { timer: ThinkTimer { elapsed_ms: 0, ..a.timer }, ..a }
    } else {
        Ant { timer: ticked(a.timer, delta_ms), ..a }
    }
}

/// The board after a round of asking: every ant's clock ran on, and started
/// over for those asked; nothing else changed.
pub open spec fn asked_round(before: World, after: World, delta_ms: int, everyone: bool) -> bool {
    &&& after.wf()
    &&& after.ants@.len() == before.ants@.len()
    &&& forall|j: int| 0 <= j < before.ants@.len() ==> #[trigger] after.ants@[j] == after_tick(
        before.ants@[j],
        delta_ms,
        everyone,
    )
    &&& after.grid == before.grid
    &&& after.nest == before.nest
    &&& after.occupancy == before.occupancy
    &&& after.scent == before.scent
    &&& after.stores == before.stores
    &&& after.fruits@ == before.fruits@
    &&& after.plank == before.plank
    &&& after.next_entity == before.next_entity
}

/// The board after `moves` were handed out: the ants as `apply_moves_spec`
/// leaves them, everything else as it was.
pub open spec fn handed_out(before: World, after: World, moves: Seq<AntMove>) -> bool {
    &&& after.wf()
    &&& after.ants@ == apply_moves_spec(before.ants@, moves)
    &&& after.grid == before.grid
    &&& after.nest == before.nest
    &&& after.occupancy == before.occupancy
    &&& after.scent == before.scent
    &&& after.stores == before.stores
    &&& after.fruits@ == before.fruits@
    &&& after.plank == before.plank
    &&& after.next_entity == before.next_entity
}

/// What ant `a` is asked about on board `w`: its options and what it sees
/// from where it stands, with what it holds, the order and the question.
pub open spec fn seen_by(w: World, a: Ant, order: Seq<char>, instructions: Seq<char>) -> ViewRecord {
    (
        a.id,
        order,
        instructions,
        options_spec(w.grid, w.occupancy, w.nest, w.scent, a.pos, hands_of(a), VISION_RADIUS as int),
        sightings_text(w.grid, w.occupancy, w.nest, w.scent, a.pos, VISION_RADIUS as int),
        a.carrying is Some,
    )
}

/// The views handed to the source for the ants among the first `n` of `w`
/// that are asked, in list order.
pub open spec fn views_among(
    w: World,
    delta_ms: int,
    everyone: bool,
    order: Seq<char>,
    instructions: Seq<char>,
    n: nat,
) -> Seq<ViewRecord>
    decreases n,
{
    if n == 0 {
        Seq::empty()
    } else {
        let before = views_among(w, delta_ms, everyone, order, instructions, (n - 1) as nat);
        if is_asked(w.ants@[n - 1], delta_ms, everyone) {
            before.push(seen_by(w, w.ants@[n - 1], order, instructions))
        } else {
            before
        }
    }
}

/// The ids of the ants among the first `n` that are asked, in list order.
pub open spec fn asked_among(ants: Seq<Ant>, delta_ms: int, everyone: bool, n: nat) -> Seq<AntId>
    decreases n,
{
    if n == 0 {
        Seq::empty()
    } else {
        let before = asked_among(ants, delta_ms, everyone, (n - 1) as nat);
        if is_asked(ants[n - 1], delta_ms, everyone) {
            before.push(ants[n - 1].id)
        } else {
            before
        }
    }
}

impl World {
    /// Everything ant `i` knows and may do right now, with the queen's order
    /// and the question as they stand.
    pub fn view_for<'a>(&self, i: usize, order: &'a str, instructions: &'a str) -> (v: AntView<'a>)
        requires
            self.wf(),
            i < self.ants@.len(),
        ensures
            v.id == self.ants@[i as int].id,
            v.order@ == order@,
            v.instructions@ == instructions@,
            v.options@ == options_spec(
                self.grid,
                self.occupancy,
                self.nest,
                self.scent,
                self.ants@[i as int].pos,
                hands_of(self.ants@[i as int]),
                VISION_RADIUS as int,
            ),
            v.sightings@.map_values(|s: String| s@) == sightings_text(
                self.grid,
                self.occupancy,
                self.nest,
                self.scent,
                self.ants@[i as int].pos,
                VISION_RADIUS as int,
            ),
            v.carrying == self.ants@[i as int].carrying is Some,
    {
        let a: Ant = self.ants[i];
        proof {
            assert(ant_ok(a, self.occupancy, self.grid));
            lemma_on_board_reachable(self.grid, a.pos);
        }
        let hands: Hands = match a.intent {
            Some(Intent::HoldPlank { .. }) => Hands::Plank,
            _ => if a.carrying.is_some() {
                Hands::Fruit
            } else {
                Hands::Empty
            },
        };
        AntView {
            id: a.id,
            order,
            instructions,
            options: available(self.grid, &self.occupancy, self.nest, &self.scent, a.pos, hands, VISION_RADIUS),
            sightings: sightings(self.grid, &self.occupancy, self.nest, &self.scent, a.pos, VISION_RADIUS),
            carrying: a.carrying.is_some(),
        }
    }

    /// Asks for decisions: every ant whose interval ran out and who is idle,
    /// or every ant not in the middle of a step when a new order or a
    /// reworded question arrived. Returns who was asked, in list order.
    ///
    /// Before the first order nothing is asked, and the clocks do not even
    /// run: a sleeping colony has no clock, so the stagger is still intact
    /// when the queen finally speaks. Waking counts as a new order.
    pub fn request_decisions<S: DecisionSource>(
        &mut self,
        delta_ms: u64,
        order: &str,
        order_changed: bool,
        instructions: &str,
        questions_changed: bool,
        awake: &mut ColonyAwake,
        source: &mut S,
    ) -> (asked: Vec<AntId>)
        requires
            old(self).wf(),
            delta_ms <= 0x1_0000_0000,
        ensures
            final(self).wf(),
            final(awake).0 == (old(awake).0 || trimmed_text(order@).len() > 0),
            !final(awake).0 ==> asked@.len() == 0 && *final(self) == *old(self) && *final(source) == *old(source),
            final(awake).0 ==> {
                let everyone = order_changed || questions_changed || !old(awake).0;
                &&& asked_round(*old(self), *final(self), delta_ms as int, everyone)
                &&& asked@ == asked_among(old(self).ants@, delta_ms as int, everyone, old(self).ants@.len())
                &&& final(source).requested() == old(source).requested() + views_among(
                    *old(self),
                    delta_ms as int,
                    everyone,
                    order@,
                    instructions@,
                    old(self).ants@.len(),
                )
                &&& final(self).ants@.len() == old(self).ants@.len()
                &&& forall|j: int| 0 <= j < old(self).ants@.len() ==> #[trigger] final(self).ants@[j]
                    == after_tick(old(self).ants@[j], delta_ms as int, everyone)
                &&& final(self).grid == old(self).grid
                &&& final(self).nest == old(self).nest
                &&& final(self).occupancy == old(self).occupancy
                &&& final(self).scent == old(self).scent
                &&& final(self).stores == old(self).stores
                &&& final(self).fruits@ == old(self).fruits@
                &&& final(self).plank == old(self).plank
                &&& final(self).next_entity == old(self).next_entity
            },
    {
        let ghost before = *self;
        let just_woke: bool = !awake.0 && !is_blank(order);
        if just_woke {
            awake.0 = true;
        }
        if !awake.0 {
            return Vec::new();
        }
        // A new order reaches every ant at once; that is the one thing worth
        // interrupting a running intent for.
        let everyone: bool = order_changed || questions_changed || just_woke;
        let mut asked: Vec<AntId> = Vec::new();
        let n: usize = self.ants.len();
        let mut i: usize = 0;
        while i < n
            invariant
                self.wf(),
                n == before.ants@.len(),
                self.ants@.len() == n,
                i <= n,
                delta_ms <= 0x1_0000_0000,
                self.grid == before.grid,
                self.nest == before.nest,
                self.occupancy == before.occupancy,
                self.scent == before.scent,
                self.stores == before.stores,
                self.fruits@ == before.fruits@,
                self.plank == before.plank,
                self.next_entity == before.next_entity,
                forall|j: int| 0 <= j < i ==> #[trigger] self.ants@[j] == after_tick(
                    before.ants@[j],
                    delta_ms as int,
                    everyone,
                ),
                forall|j: int| i <= j < n ==> #[trigger] self.ants@[j] == before.ants@[j],
                asked@ == asked_among(before.ants@, delta_ms as int, everyone, i as nat),
                source.requested() == old(source).requested() + views_among(
                    before,
                    delta_ms as int,
                    everyone,
                    order@,
                    instructions@,
                    i as nat,
                ),
            decreases n - i,
        {
            let mut a: Ant = self.ants[i];
            proof {
                assert(ant_ok(a, self.occupancy, self.grid));
            }
            let due_now: bool = a.timer.tick(delta_ms);
            let busy: bool = a.intent.is_some();
            let asking: bool = (due_now || everyone) && a.step.is_none() && (!busy || everyone);
            if asking {
                // Asked, so the interval starts over.
                a.timer.reset();
            }
            let ghost mid = *self;
            self.update_ant(i, a);
            proof {
                assert forall|j: int| 0 <= j < i + 1 implies #[trigger] self.ants@[j] == after_tick(
                    before.ants@[j],
                    delta_ms as int,
                    everyone,
                ) by {
                    if j < i {
                        assert(self.ants@[j] == mid.ants@[j]);
                    }
                }
                assert forall|j: int| i + 1 <= j < n implies #[trigger] self.ants@[j] == before.ants@[j] by {
                    assert(self.ants@[j] == mid.ants@[j]);
                }
            }
            if asking {
                let view: AntView = self.view_for(i, order, instructions);
                let ghost requested_before = source.requested();
                source.request(&view);
                proof {
                    assert(view_record(view) == seen_by(before, before.ants@[i as int], order@, instructions@)) by {
                        assert(self.ants@[i as int].pos == before.ants@[i as int].pos);
                        assert(hands_of(self.ants@[i as int]) == hands_of(before.ants@[i as int]));
                    }
                    assert(source.requested() =~= old(source).requested() + views_among(
                        before,
                        delta_ms as int,
                        everyone,
                        order@,
                        instructions@,
                        (i + 1) as nat,
                    ));
                }
                asked.push(a.id);
            } else {
                proof {
                    assert(views_among(before, delta_ms as int, everyone, order@, instructions@, (i + 1) as nat)
                        == views_among(before, delta_ms as int, everyone, order@, instructions@, i as nat));
                }
            }
            i = i + 1;
        }
        asked
    }
}


/// The discard log after `fresh` came back: every record that never became a
/// move goes on top, in the order it came, and the oldest fall off the end.
pub open spec fn log_after(log: Seq<Exchange>, fresh: Seq<Exchange>) -> Seq<Exchange>
    decreases fresh.len(),
{
    if fresh.len() == 0 {
        log
    } else {
        let before = log_after(log, fresh.drop_last());
        let r = fresh.last();
        if r.outcome is Taken {
            before
        } else if before.len() + 1 <= REMEMBERED_DISCARDS {
            seq![r] + before
        } else {
            (seq![r] + before).take(REMEMBERED_DISCARDS as int)
        }
    }
}

/// The exchange kept for ant `id` among the first `n` entries: the first
/// one filed under it.
pub open spec fn entry_among(s: Seq<(AntId, Exchange)>, id: AntId, n: nat) -> Option<Exchange>
    decreases n,
{
    if n == 0 {
        None
    } else {
        match entry_among(s, id, (n - 1) as nat) {
            Some(e) => Some(e),
            None => if s[n - 1].0 == id {
                Some(s[n - 1].1)
            } else {
                None
            },
        }
    }
}

proof fn lemma_entry_stays(s: Seq<(AntId, Exchange)>, id: AntId, n: nat, m: nat)
    requires
        n <= m,
        entry_among(s, id, n) is Some,
    ensures
        entry_among(s, id, m) == entry_among(s, id, n),
    decreases m - n,
{
    if n < m {
        lemma_entry_stays(s, id, n, (m - 1) as nat);
    }
}

/// Another ant's entry does not see a change at a place filed under `id`.
proof fn lemma_entry_update(s: Seq<(AntId, Exchange)>, i: int, id: AntId, e: Exchange, x: AntId, n: nat)
    requires
        0 <= i < s.len(),
        s[i].0 == id,
        x != id,
        n <= s.len(),
    ensures
        entry_among(s.update(i, (id, e)), x, n) == entry_among(s, x, n),
    decreases n,
{
    if n > 0 {
        lemma_entry_update(s, i, id, e, x, (n - 1) as nat);
    }
}

/// A place added at the end does not change the entries before it.
proof fn lemma_entry_push(s: Seq<(AntId, Exchange)>, y: (AntId, Exchange), x: AntId, n: nat)
    requires
        n <= s.len(),
    ensures
        entry_among(s.push(y), x, n) == entry_among(s, x, n),
    decreases n,
{
    if n > 0 {
        lemma_entry_push(s, y, x, (n - 1) as nat);
    }
}

/// The last exchange of each ant, for the inspector.
pub struct LastExchanges(pub Vec<(AntId, Exchange)>);

impl LastExchanges {
    /// The exchange kept for ant `id`, if any.
    pub open spec fn entry(&self, id: AntId) -> Option<Exchange> {
        entry_among(self.0@, id, self.0@.len())
    }

    pub fn default() -> (l: LastExchanges)
        ensures
            forall|x: AntId| #[trigger] l.entry(x) is None,
    {
        LastExchanges(Vec::new())
    }

    /// The last exchange of ant `id`, if it had one.
    pub fn get(&self, id: AntId) -> (r: Option<&Exchange>)
        ensures
            match r {
                Some(e) => self.entry(id) == Some(*e),
                None => self.entry(id) is None,
            },
    {
        let mut i: usize = 0;
        while i < self.0.len()
            invariant
                i <= self.0@.len(),
                entry_among(self.0@, id, i as nat) is None,
            decreases self.0@.len() - i,
        {
            if self.0[i].0 == id {
                proof {
                    assert(entry_among(self.0@, id, (i + 1) as nat) == Some(self.0@[i as int].1));
                    lemma_entry_stays(self.0@, id, (i + 1) as nat, self.0@.len());
                }
                return Some(&self.0[i].1);
            }
            i = i + 1;
        }
        None
    }

    /// Keeps `exchange` as the last one of ant `id`, in place of any earlier.
    pub fn put(&mut self, id: AntId, exchange: Exchange)
        ensures
            final(self).entry(id) == Some(exchange),
            forall|x: AntId| x != id ==> #[trigger] final(self).entry(x) == old(self).entry(x),
    {
        let mut i: usize = 0;
        while i < self.0.len()
            invariant
                i <= self.0@.len(),
                self.0@ == old(self).0@,
                entry_among(self.0@, id, i as nat) is None,
            decreases self.0@.len() - i,
        {
            if self.0[i].0 == id {
                let ghost before = self.0@;
                self.0.set(i, (id, exchange));
                proof {
                    let after = before.update(i as int, (id, exchange));
                    assert(self.0@ == after);
                    assert forall|k: nat| k <= i implies entry_among(after, id, k) == entry_among(before, id, k) by {
                        lemma_entry_prefix_same(before, after, id, k);
                    }
                    assert(entry_among(after, id, (i + 1) as nat) == Some(exchange));
                    lemma_entry_stays(after, id, (i + 1) as nat, after.len());
                    assert forall|x: AntId| x != id implies #[trigger] entry_among(after, x, after.len()) == entry_among(before, x, before.len()) by {
                        lemma_entry_update(before, i as int, id, exchange, x, before.len());
                    }
                }
                return;
            }
            i = i + 1;
        }
        let ghost before = self.0@;
        self.0.push((id, exchange));
        proof {
            let after = before.push((id, exchange));
            assert(self.0@ == after);
            lemma_entry_push(before, (id, exchange), id, before.len());
            assert(entry_among(after, id, after.len()) == Some(exchange));
            assert forall|x: AntId| x != id implies #[trigger] entry_among(after, x, after.len()) == entry_among(before, x, before.len()) by {
                lemma_entry_push(before, (id, exchange), x, before.len());
            }
        }
    }
}

/// Two lists that agree on their first `n` places agree on every entry among them.
proof fn lemma_entry_prefix_same(s: Seq<(AntId, Exchange)>, t: Seq<(AntId, Exchange)>, id: AntId, n: nat)
    requires
        n <= s.len(),
        n <= t.len(),
        forall|k: int| 0 <= k < n ==> s[k] == t[k],
    ensures
        entry_among(s, id, n) == entry_among(t, id, n),
    decreases n,
{
    if n > 0 {
        lemma_entry_prefix_same(s, t, id, (n - 1) as nat);
    }
}

/// The newest of `fresh` that belongs to ant `x`.
pub open spec fn latest_for(fresh: Seq<Exchange>, x: AntId) -> Option<Exchange>
    decreases fresh.len(),
{
    if fresh.len() == 0 {
        None
    } else if fresh.last().ant == x {
        Some(fresh.last())
    } else {
        latest_for(fresh.drop_last(), x)
    }
}

/// Takes what came back and puts it where it can be looked at: on the ant it
/// belongs to, if that ant is still about, and, if it never became a move, in
/// the discard log. Nothing here steers anything.
pub fn record_exchanges(fresh: Vec<Exchange>, ants: &Vec<AntId>, last: &mut LastExchanges, log: &mut DiscardLog)
    ensures
        final(log).0@ == log_after(old(log).0@, fresh@),
        forall|x: AntId| ants@.contains(x) && latest_for(fresh@, x) is Some ==> (#[trigger] final(last).entry(x)
            matches Some(e) && same_exchange(e, latest_for(fresh@, x)->0)),
        forall|x: AntId| !(ants@.contains(x) && latest_for(fresh@, x) is Some) ==> #[trigger] final(last).entry(x)
            == old(last).entry(x),
{
    let mut rest: Vec<Exchange> = fresh;
    let ghost all = rest@;
    let mut firsts: Vec<Exchange> = Vec::new();
    // Taken off the back and put back in order, so each record can be moved.
    while rest.len() > 0
        invariant
            rest@ + firsts@.reverse() == all,
        decreases rest@.len(),
    {
        let r = rest.pop().unwrap();
        let ghost f = firsts@;
        firsts.push(r);
        proof {
            assert(firsts@.reverse() =~= seq![r] + f.reverse());
            assert(rest@ + firsts@.reverse() =~= all);
        }
    }
    let n: usize = firsts.len();
    proof {
        assert(firsts@.reverse() =~= all);
    }
    let mut i: usize = 0;
    while i < n
        invariant
            i <= n,
            n == all.len(),
            firsts@.len() == n - i,
            forall|k: int| 0 <= k < n - i ==> #[trigger] firsts@[k] == all[n - 1 - k],
            log.0@ == log_after(old(log).0@, all.take(i as int)),
            forall|x: AntId| ants@.contains(x) && latest_for(all.take(i as int), x) is Some ==> (
            #[trigger] last.entry(x) matches Some(e) && same_exchange(e, latest_for(all.take(i as int), x)->0)),
            forall|x: AntId| !(ants@.contains(x) && latest_for(all.take(i as int), x) is Some) ==> #[trigger] last.entry(x)
                == old(last).entry(x),
        decreases n - i,
    {
        let r: Exchange = firsts.pop().unwrap();
        proof {
            assert(r == all[i as int]);
            assert(all.take(i + 1).drop_last() =~= all.take(i as int));
            assert(all.take(i + 1).last() == r);
        }
        let id: AntId = r.ant;
        let mut known: bool = false;
        let mut j: usize = 0;
        while j < ants.len()
            invariant
                j <= ants@.len(),
                known == exists|l: int| 0 <= l < j && ants@[l] == id,
            decreases ants@.len() - j,
        {
            if ants[j] == id {
                known = true;
            }
            j = j + 1;
        }
        proof {
            if known {
                let l = choose|l: int| 0 <= l < j && ants@[l] == id;
                assert(ants@.contains(id));
            }
            if ants@.contains(id) {
                let l = choose|l: int| 0 <= l < ants@.len() && ants@[l] == id;
                assert(known);
            }
        }
        let ghost last_before = *last;
        if known {
            let copy = r.duplicate();
            last.put(id, copy);
        }
        let used: bool = r.was_used();
        if !used {
            log.remember(r);
        }
        proof {
            let before = all.take(i as int);
            let now = all.take(i + 1);
            assert forall|x: AntId| ants@.contains(x) && latest_for(now, x) is Some implies (#[trigger] last.entry(x)
                matches Some(e) && same_exchange(e, latest_for(now, x)->0)) by {
                if x != id {
                    assert(latest_for(now, x) == latest_for(before, x));
                    if known {
                        assert(last.entry(x) == last_before.entry(x));
                    }
                }
            }
            assert forall|x: AntId| !(ants@.contains(x) && latest_for(now, x) is Some) implies #[trigger] last.entry(x)
                == old(last).entry(x) by {
                if x != id {
                    assert(latest_for(now, x) == latest_for(before, x));
                    if known {
                        assert(last.entry(x) == last_before.entry(x));
                    }
                }
            }
        }
        i = i + 1;
    }
    proof {
        assert(all.take(n as int) =~= all);
    }
}


/// The first order reaches every ant at once: when everybody is asked, every
/// ant that is not in the middle of a step is asked, busy or not, whatever
/// its clock says.
pub proof fn lemma_everyone_means_every_idle_ant(ants: Seq<Ant>, delta_ms: int, j: int)
    requires
        0 <= j < ants.len(),
        ants[j].step is None,
    ensures
        asked_among(ants, delta_ms, true, ants.len()).contains(ants[j].id),
{
    lemma_asked_among_includes(ants, delta_ms, true, ants.len(), j);
}

proof fn lemma_asked_among_includes(ants: Seq<Ant>, delta_ms: int, everyone: bool, n: nat, j: int)
    requires
        0 <= j < n <= ants.len(),
        is_asked(ants[j], delta_ms, everyone),
    ensures
        asked_among(ants, delta_ms, everyone, n).contains(ants[j].id),
    decreases n,
{
    let before = asked_among(ants, delta_ms, everyone, (n - 1) as nat);
    let now = asked_among(ants, delta_ms, everyone, n);
    if j == n - 1 {
        assert(now[now.len() - 1] == ants[j].id);
    } else {
        lemma_asked_among_includes(ants, delta_ms, everyone, (n - 1) as nat, j);
        let k = choose|k: int| 0 <= k < before.len() && before[k] == ants[j].id;
        assert(now[k] == ants[j].id);
    }
}

/// Between orders nobody is asked before their interval has run out, and a
/// busy ant is not asked at all.
pub proof fn lemma_asked_only_when_due(ants: Seq<Ant>, delta_ms: int, id: AntId)
    requires
        asked_among(ants, delta_ms, false, ants.len()).contains(id),
    ensures
        exists|j: int| 0 <= j < ants.len() && ants[j].id == id && due(#[trigger] ants[j].timer, delta_ms)
            && ants[j].intent is None && ants[j].step is None,
{
    lemma_asked_among_only(ants, delta_ms, false, ants.len(), id);
}

proof fn lemma_asked_among_only(ants: Seq<Ant>, delta_ms: int, everyone: bool, n: nat, id: AntId)
    requires
        n <= ants.len(),
        asked_among(ants, delta_ms, everyone, n).contains(id),
    ensures
        exists|j: int| 0 <= j < n && ants[j].id == id && #[trigger] is_asked(ants[j], delta_ms, everyone),
    decreases n,
{
    let before = asked_among(ants, delta_ms, everyone, (n - 1) as nat);
    let now = asked_among(ants, delta_ms, everyone, n);
    if is_asked(ants[n - 1], delta_ms, everyone) && now[now.len() - 1] == id {
        assert(is_asked(ants[n - 1], delta_ms, everyone));
    } else {
        let k = choose|k: int| 0 <= k < now.len() && now[k] == id;
        if is_asked(ants[n - 1], delta_ms, everyone) {
            assert(k < before.len());
            assert(before[k] == id);
        } else {
            assert(before[k] == id);
        }
        lemma_asked_among_only(ants, delta_ms, everyone, (n - 1) as nat, id);
    }
}


/// What `tail_behind` counts: the moves at the end of `s` with a larger id,
/// up to the first that is not.
proof fn lemma_tail_behind(s: Seq<AntMove>, m: AntMove)
    ensures
        tail_behind(s, m) <= s.len(),
        forall|k: int| s.len() - tail_behind(s, m) <= k < s.len() ==> (#[trigger] s[k]).id.0 > m.id.0,
        tail_behind(s, m) < s.len() ==> s[s.len() - tail_behind(s, m) - 1].id.0 <= m.id.0,
    decreases s.len(),
{
    if s.len() > 0 {
        lemma_tail_behind(s.drop_last(), m);
        let t = s.drop_last();
        assert forall|k: int| s.len() - tail_behind(s, m) <= k < s.len() implies (#[trigger] s[k]).id.0 > m.id.0 by {
            if k < s.len() - 1 {
                assert(s[k] == t[k]);
            }
        }
        if tail_behind(s, m) < s.len() && s.last().id.0 > m.id.0 {
            assert(s[s.len() - tail_behind(s, m) - 1] == t[t.len() - tail_behind(t, m) - 1]);
        }
    }
}

/// Decisions are handed out in ascending ant id, so two ants that want the
/// same thing always resolve the same way; and none is lost or made up.
pub proof fn lemma_sorted_by_id(s: Seq<AntMove>)
    ensures
        sort_by_id(s).len() == s.len(),
        forall|i: int, j: int| 0 <= i < j < s.len() ==> (#[trigger] sort_by_id(s)[i]).id.0 <= (
        #[trigger] sort_by_id(s)[j]).id.0,
        sort_by_id(s).to_multiset() == s.to_multiset(),
    decreases s.len(),
{
    broadcast use vstd::seq_lib::group_to_multiset_ensures;

    if s.len() > 0 {
        lemma_sorted_by_id(s.drop_last());
        let t = sort_by_id(s.drop_last());
        let m = s.last();
        lemma_tail_behind(t, m);
        let p = t.len() - tail_behind(t, m);
        let u = t.insert(p, m);
        assert(sort_by_id(s) == u);
        assert forall|i: int, j: int| 0 <= i < j < u.len() implies (#[trigger] u[i]).id.0 <= (#[trigger] u[j]).id.0 by {
            if j < p {
                assert(u[i] == t[i] && u[j] == t[j]);
            } else if j == p {
                assert(u[i] == t[i]);
                assert(t[i].id.0 <= t[p - 1].id.0 || i == p - 1);
            } else if i > p {
                assert(u[i] == t[i - 1] && u[j] == t[j - 1]);
            } else if i == p {
                assert(u[j] == t[j - 1]);
            } else {
                assert(u[i] == t[i] && u[j] == t[j - 1]);
            }
        }
        assert(s.drop_last().push(m) =~= s);
        vstd::seq_lib::to_multiset_insert(t, p, m);
        assert(s.drop_last().push(m).to_multiset() == s.drop_last().to_multiset().insert(m));
    }
}

} // verus!
