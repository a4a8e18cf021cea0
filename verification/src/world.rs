//! The simulation: ants, fruit and the plank on one board, and every rule by
//! which the chosen intents are carried out.
//!
//! This is the classical half of the two layers: pathfinding, picking up,
//! putting down, pheromones. No model is involved here. The decision layer
//! only ever said "fetch that fruit" or "take it home"; everything that
//! follows happens here, and the model is asked again only when the intent
//! ends or falls apart.
//!
//! The one thing every operation keeps: what stands where is recorded in the
//! occupancy table, and nothing ever enters a cell that is taken there.

use vstd::prelude::*;

use crate::action::Action;
use crate::config::{PLANK_GIVE_UP_TICKS, STEP_DURATION_MS, VISION_RADIUS};
use crate::decisions::{AntId, ThinkTimer};
use crate::grid::{
    chebyshev, compass, free_among, free_directions, nearest_dir, reachable, shifted, Cell, Dir, Grid, Occupancy, Occupant,
    Terrain,
};
use crate::nest::Nest;
use crate::plank::{nearest_crossing, nearest_crossing_spec, Plank};
use crate::scent::{trail_strength, Scent};

verus! {

/// A step in progress: from one cell to the next, and how far along.
#[derive(Clone, Copy, PartialEq, Eq, Debug, Structural)]
pub struct MoveAnim {
    pub from: Cell,
    pub to: Cell,
    /// Milliseconds into the step.
    pub elapsed_ms: u64,
}

/// What an ant is busy with. Absent means: ready for a new decision.
#[derive(Clone, Copy, PartialEq, Eq, Debug, Structural)]
pub enum Intent {
    /// Keep heading that way for `left` more cells.
    Walk { dir: Dir, left: i32 },
    /// Walk to this fruit and pick it up.
    Fetch(u32),
    /// Carry what you hold to the nest and put it down.
    CarryHome,
    /// Follow the scent uphill, reading the slope again at every step.
    FollowScent { left: i32 },
    /// Walk to the plank and pick it up.
    TakePlank(u32),
    /// Carry the plank to its crossing; `stalled` counts ticks without headway.
    HoldPlank { stalled: u32 },
}

/// What this ant last decided and how sure the model was (parts per
/// million); `None` means the rules decided.
#[derive(Clone, Copy, PartialEq, Eq, Debug, Structural)]
pub struct LastDecision {
    pub action: Option<Action>,
    pub confidence: Option<u32>,
}

/// One ant and everything about it.
#[derive(Clone, Copy, PartialEq, Eq, Debug, Structural)]
pub struct Ant {
    pub id: AntId,
    /// What the ant is known by on the board.
    pub entity: u32,
    /// Its cell. While a step is running this still names the cell it started from.
    pub pos: Cell,
    /// Where it is looking. Purely cosmetic.
    pub facing: Dir,
    /// The fruit on its back, if any.
    pub carrying: Option<u32>,
    /// Steps since the ant last stood in the nest.
    pub since_nest: u32,
    pub timer: ThinkTimer,
    pub intent: Option<Intent>,
    pub step: Option<MoveAnim>,
    pub last: LastDecision,
}

/// A fruit: on a cell, or on somebody's back.
#[derive(Clone, Copy, PartialEq, Eq, Debug, Structural)]
pub struct Fruit {
    pub entity: u32,
    pub at: Option<Cell>,
}

/// The plank as a thing on the board.
#[derive(Clone, Copy, PartialEq, Eq, Debug, Structural)]
pub struct PlankItem {
    pub entity: u32,
    /// Its cell while it lies on the ground.
    pub at: Option<Cell>,
    pub state: Plank,
}

/// The ant is where the table says, and so is the cell it is stepping into.
pub open spec fn ant_ok(a: Ant, occupancy: Occupancy, grid: Grid) -> bool {
    &&& grid.holds(a.pos)
    &&& occupancy.occupant(grid, a.pos) == Some(Occupant::Ant(a.entity))
    &&& a.timer.wf()
    &&& match a.step {
        Some(s) => {
            &&& s.from == a.pos
            &&& grid.holds(s.to)
            &&& s.to != a.pos
            &&& occupancy.occupant(grid, s.to) == Some(Occupant::Ant(a.entity))
            &&& s.elapsed_ms < STEP_DURATION_MS
        },
        None => true,
    }
}

/// A fruit on the ground is where the table says.
pub open spec fn fruit_ok(f: Fruit, occupancy: Occupancy, grid: Grid) -> bool {
    f.at matches Some(c) ==> grid.holds(c) && occupancy.occupant(grid, c) == Some(
        Occupant::Fruit(f.entity),
    )
}

/// A plank on the ground is where the table says, and nobody holds it; the
/// crossing it is taken to is on the board.
pub open spec fn plank_ok(p: PlankItem, occupancy: Occupancy, grid: Grid) -> bool {
    &&& p.at matches Some(c) ==> grid.holds(c) && occupancy.occupant(grid, c) == Some(
        Occupant::Plank(p.entity),
    ) && p.state.carrier is None && !p.state.laid
    &&& p.state.target matches Some(t) ==> grid.holds(t)
}

/// Whether `c` is one of the cells `a` stands on or steps into.
pub open spec fn claims(a: Ant, c: Cell) -> bool {
    a.pos == c || (a.step matches Some(s) && s.to == c)
}

/// The table changed at `c` and nowhere else, and the terrain not at all.
pub open spec fn same_but(before: Occupancy, after: Occupancy, grid: Grid, c: Cell) -> bool {
    &&& after.wf(grid)
    &&& after.terrains() == before.terrains()
    &&& forall|d: Cell| d != c ==> #[trigger] after.occupant(grid, d) == before.occupant(grid, d)
}

/// Everything on the board, and what has happened to it.
pub struct World {
    pub grid: Grid,
    pub nest: Nest,
    pub occupancy: Occupancy,
    pub scent: Scent,
    /// Fruits delivered so far.
    pub stores: u32,
    pub ants: Vec<Ant>,
    pub fruits: Vec<Fruit>,
    pub plank: Option<PlankItem>,
    /// The next identity to hand out.
    pub next_entity: u32,
}

impl World {
    /// The board is consistent: every ant, fruit and plank is where the table
    /// says, no two ants or fruits share an identity, and every identity in
    /// use was handed out before `next_entity`.
    pub open spec fn wf(self) -> bool {
        &&& self.grid.wf()
        &&& self.grid.width <= 100_000
        &&& self.grid.height <= 100_000
        &&& self.nest.wf()
        &&& self.occupancy.wf(self.grid)
        &&& self.scent.wf(self.grid)
        &&& forall|i: int| 0 <= i < self.ants@.len() ==> ant_ok(#[trigger] self.ants@[i], self.occupancy, self.grid)
        &&& forall|i: int, j: int| 0 <= i < self.ants@.len() && 0 <= j < self.ants@.len() && i != j
            ==> (#[trigger] self.ants@[i]).entity != (#[trigger] self.ants@[j]).entity
        &&& forall|i: int| 0 <= i < self.fruits@.len() ==> fruit_ok(#[trigger] self.fruits@[i], self.occupancy, self.grid)
        &&& forall|i: int, j: int| 0 <= i < self.fruits@.len() && 0 <= j < self.fruits@.len() && i != j
            ==> (#[trigger] self.fruits@[i]).entity != (#[trigger] self.fruits@[j]).entity
        &&& self.plank matches Some(p) ==> plank_ok(p, self.occupancy, self.grid) && p.entity < self.next_entity
        &&& forall|i: int| 0 <= i < self.ants@.len() ==> (#[trigger] self.ants@[i]).entity < self.next_entity
        &&& forall|i: int| 0 <= i < self.fruits@.len() ==> (#[trigger] self.fruits@[i]).entity < self.next_entity
    }
}

/// Ants never share a cell: no two ants stand on one cell or step into one,
/// and no ant stands or steps where a fruit or the plank lies.
pub proof fn lemma_nothing_shares_a_cell(w: World, i: int, j: int, c: Cell)
    requires
        w.wf(),
        0 <= i < w.ants@.len(),
        claims(w.ants@[i], c),
    ensures
        0 <= j < w.ants@.len() && j != i ==> !claims(w.ants@[j], c),
        forall|k: int| 0 <= k < w.fruits@.len() ==> w.fruits@[k].at != Some(c),
        w.plank matches Some(p) ==> p.at != Some(c),
        w.occupancy.occupant(w.grid, c) == Some(Occupant::Ant(w.ants@[i].entity)),
{
    let a = w.ants@[i];
    assert(ant_ok(a, w.occupancy, w.grid));
    if 0 <= j < w.ants@.len() && j != i {
        assert(ant_ok(w.ants@[j], w.occupancy, w.grid));
        assert(w.ants@[i].entity != w.ants@[j].entity);
    }
    assert forall|k: int| 0 <= k < w.fruits@.len() implies w.fruits@[k].at != Some(c) by {
        assert(fruit_ok(w.fruits@[k], w.occupancy, w.grid));
    }
}

/// A table changed only at a cell that none of them claims, but perhaps the
/// ant at `skip`, keeps every other ant, every fruit and the plank where they
/// were.
pub proof fn lemma_untouched(
    before: Occupancy,
    after: Occupancy,
    grid: Grid,
    c: Cell,
    ants: Seq<Ant>,
    skip: int,
    fruits: Seq<Fruit>,
    plank: Option<PlankItem>,
)
    requires
        same_but(before, after, grid, c),
        forall|i: int| 0 <= i < ants.len() ==> ant_ok(#[trigger] ants[i], before, grid),
        forall|i: int| 0 <= i < ants.len() && i != skip ==> !claims(#[trigger] ants[i], c),
        forall|i: int| 0 <= i < fruits.len() ==> fruit_ok(#[trigger] fruits[i], before, grid) && fruits[i].at != Some(c),
        plank matches Some(p) ==> plank_ok(p, before, grid) && p.at != Some(c),
    ensures
        forall|i: int| 0 <= i < ants.len() && i != skip ==> ant_ok(#[trigger] ants[i], after, grid),
        forall|i: int| 0 <= i < fruits.len() ==> fruit_ok(#[trigger] fruits[i], after, grid),
        plank matches Some(p) ==> plank_ok(p, after, grid),
{
    assert forall|i: int| 0 <= i < ants.len() && i != skip implies ant_ok(#[trigger] ants[i], after, grid) by {
        let a = ants[i];
        assert(ant_ok(a, before, grid));
        assert(!claims(a, c));
        assert(after.occupant(grid, a.pos) == before.occupant(grid, a.pos));
        match a.step {
            Some(s) => {
                assert(after.occupant(grid, s.to) == before.occupant(grid, s.to));
            },
            None => {},
        }
    }
    assert forall|i: int| 0 <= i < fruits.len() implies fruit_ok(#[trigger] fruits[i], after, grid) by {
        let f = fruits[i];
        assert(fruit_ok(f, before, grid));
        match f.at {
            Some(d) => {
                assert(after.occupant(grid, d) == before.occupant(grid, d));
            },
            None => {},
        }
    }
    match plank {
        Some(p) => {
            match p.at {
                Some(d) => {
                    assert(after.occupant(grid, d) == before.occupant(grid, d));
                },
                None => {},
            }
        },
        None => {},
    }
}

/// Whoever claims a cell that is empty? Nobody.
pub proof fn lemma_free_is_unclaimed(w: World, c: Cell)
    requires
        w.wf(),
        w.occupancy.occupant(w.grid, c) is None,
    ensures
        forall|i: int| 0 <= i < w.ants@.len() ==> !claims(#[trigger] w.ants@[i], c),
        forall|i: int| 0 <= i < w.fruits@.len() ==> (#[trigger] w.fruits@[i]).at != Some(c),
        w.plank matches Some(p) ==> p.at != Some(c),
{
    assert forall|i: int| 0 <= i < w.ants@.len() implies !claims(#[trigger] w.ants@[i], c) by {
        assert(ant_ok(w.ants@[i], w.occupancy, w.grid));
    }
    assert forall|i: int| 0 <= i < w.fruits@.len() implies (#[trigger] w.fruits@[i]).at != Some(c) by {
        assert(fruit_ok(w.fruits@[i], w.occupancy, w.grid));
    }
}

/// A cell holding `Ant(e)` is claimed by no other ant and by no fruit or plank.
proof fn lemma_ant_cell_claimed_once(w: World, c: Cell, i: int)
    requires
        w.wf(),
        0 <= i < w.ants@.len(),
        w.occupancy.occupant(w.grid, c) == Some(Occupant::Ant(w.ants@[i].entity)),
    ensures
        forall|j: int| 0 <= j < w.ants@.len() && j != i ==> !claims(#[trigger] w.ants@[j], c),
        forall|k: int| 0 <= k < w.fruits@.len() ==> (#[trigger] w.fruits@[k]).at != Some(c),
        w.plank matches Some(p) ==> p.at != Some(c),
{
    assert forall|j: int| 0 <= j < w.ants@.len() && j != i implies !claims(#[trigger] w.ants@[j], c) by {
        assert(ant_ok(w.ants@[j], w.occupancy, w.grid));
        assert(w.ants@[i].entity != w.ants@[j].entity);
    }
    assert forall|k: int| 0 <= k < w.fruits@.len() implies (#[trigger] w.fruits@[k]).at != Some(c) by {
        assert(fruit_ok(w.fruits@[k], w.occupancy, w.grid));
    }
}


/// The cell one step from `c` in direction `d`.
pub open spec fn next_cell(c: Cell, d: Dir) -> Cell {
    shifted(c, d.dx(), d.dy())
}

/// `a`, having just set off into `d`.
pub open spec fn started(a: Ant, d: Dir) -> Ant {
    Ant { facing: d, step: Some(MoveAnim { from: a.pos, to: next_cell(a.pos, d), elapsed_ms: 0 }), ..a }
}

/// `a`, with its intent replaced.
pub open spec fn intending(a: Ant, intent: Option<Intent>) -> Ant {
    Ant { intent, ..a }
}

/// `a` once its intent is over: nothing to pursue, and asked again at once.
pub open spec fn finished(a: Ant) -> Ant {
    Ant {
        intent: None,
        timer: ThinkTimer { duration_ms: a.timer.duration_ms, elapsed_ms: a.timer.duration_ms },
        ..a
    }
}

/// Steps since the nest after arriving on `to`: back to nothing at home,
/// one more anywhere else (held at the largest count).
pub open spec fn steps_after(nest: Nest, since: u32, to: Cell) -> u32 {
    if nest.holds(to) {
        0
    } else if since == u32::MAX {
        u32::MAX
    } else {
        (since + 1) as u32
    }
}

/// `a` once `delta_ms` more of its step have passed: still on the way, or
/// arrived on the cell it was heading for.
pub open spec fn advanced(a: Ant, delta_ms: int, nest: Nest) -> Ant {
    match a.step {
        None => a,
        Some(s) => if s.elapsed_ms + delta_ms < STEP_DURATION_MS {
            Ant { step: Some(MoveAnim { elapsed_ms: (s.elapsed_ms + delta_ms) as u64, ..s }), ..a }
        } else {
            Ant { pos: s.to, step: None, since_nest: steps_after(nest, a.since_nest, s.to), ..a }
        },
    }
}

/// Whether `a` arrives during the next `delta_ms`.
pub open spec fn arrives(a: Ant, delta_ms: int) -> bool {
    a.step matches Some(s) && s.elapsed_ms + delta_ms >= STEP_DURATION_MS
}

/// The table reads `o` on `c` and as before everywhere else.
pub open spec fn put_on(before: Occupancy, after: Occupancy, grid: Grid, c: Cell, o: Option<Occupant>) -> bool {
    &&& after.wf(grid)
    &&& after.terrains() == before.terrains()
    &&& forall|d: Cell| #[trigger] after.occupant(grid, d) == if d == c { o } else { before.occupant(grid, d) }
}

/// Nothing but the ant at `i` and the occupancy table changed.
pub open spec fn only_ant_moved(before: World, after: World, i: int) -> bool {
    &&& after.grid == before.grid
    &&& after.nest == before.nest
    &&& after.scent == before.scent
    &&& after.stores == before.stores
    &&& after.fruits@ == before.fruits@
    &&& after.plank == before.plank
    &&& after.next_entity == before.next_entity
    &&& after.ants@.len() == before.ants@.len()
    &&& forall|j: int| 0 <= j < before.ants@.len() && j != i ==> after.ants@[j] == before.ants@[j]
}

/// Ant `i` set off into `d`, and the cell it heads for is reserved for it.
pub open spec fn set_off(before: World, after: World, i: int, d: Dir) -> bool {
    let a = before.ants@[i];
    &&& only_ant_moved(before, after, i)
    &&& after.ants@[i] == started(a, d)
    &&& put_on(before.occupancy, after.occupancy, before.grid, next_cell(a.pos, d), Some(Occupant::Ant(a.entity)))
}

/// Everything on a board sits well inside the range of `i32`.
pub proof fn lemma_on_board_reachable(grid: Grid, c: Cell)
    requires
        grid.holds(c),
        grid.width <= 100_000,
        grid.height <= 100_000,
    ensures
        reachable(c, 100_000),
{
}

impl World {
    /// Begins a step of ant `i` into `direction`, if that cell is still free.
    ///
    /// The target is reserved now and the old cell released only when the
    /// step ends. That rules out both overlapping and two ants swapping
    /// through each other.
    pub fn start_step(&mut self, i: usize, direction: Dir) -> (walked: bool)
        requires
            old(self).wf(),
            i < old(self).ants@.len(),
            old(self).ants@[i as int].step is None,
        ensures
            final(self).wf(),
            walked == old(self).occupancy.free(
                old(self).grid,
                next_cell(old(self).ants@[i as int].pos, direction),
            ),
            walked ==> set_off(*old(self), *final(self), i as int, direction),
            !walked ==> *final(self) == *old(self),
    {
        let ghost before = *self;
        let a: Ant = self.ants[i];
        proof {
            assert(ant_ok(a, self.occupancy, self.grid));
            lemma_on_board_reachable(self.grid, a.pos);
        }
        let target: Cell = a.pos.plus(direction.offset());
        if !self.occupancy.is_free(self.grid, target) {
            return false;
        }
        proof {
            lemma_free_is_unclaimed(before, target);
        }
        self.occupancy.occupy(self.grid, target, Occupant::Ant(a.entity));
        let moved = Ant {
            facing: direction,
            step: Some(MoveAnim { from: a.pos, to: target, elapsed_ms: 0 }),
            ..a
        };
        self.ants.set(i, moved);
        proof {
            lemma_untouched(
                before.occupancy,
                self.occupancy,
                self.grid,
                target,
                before.ants@,
                -1,
                before.fruits@,
                before.plank,
            );
            assert forall|j: int| 0 <= j < self.ants@.len() implies ant_ok(
                #[trigger] self.ants@[j],
                self.occupancy,
                self.grid,
            ) by {
                if j != i {
                    assert(self.ants@[j] == before.ants@[j]);
                }
            }
            assert forall|j: int, k: int|
                0 <= j < self.ants@.len() && 0 <= k < self.ants@.len() && j != k implies (
            #[trigger] self.ants@[j]).entity != (#[trigger] self.ants@[k]).entity by {
                assert(before.ants@[j].entity != before.ants@[k].entity);
            }
        }
        true
    }

    /// Ant `i` arrives: the cell it came from is released, it stands where it
    /// was heading, and a searching ant marks the ground it arrived on.
    fn arrive(&mut self, i: usize)
        requires
            old(self).wf(),
            i < old(self).ants@.len(),
            old(self).ants@[i as int].step is Some,
        ensures
            final(self).wf(),
            final(self).grid == old(self).grid,
            final(self).nest == old(self).nest,
            final(self).stores == old(self).stores,
            final(self).fruits@ == old(self).fruits@,
            final(self).plank == old(self).plank,
            final(self).next_entity == old(self).next_entity,
            final(self).ants@ == old(self).ants@.update(
                i as int,
                advanced(old(self).ants@[i as int], STEP_DURATION_MS as int, old(self).nest),
            ),
            put_on(
                old(self).occupancy,
                final(self).occupancy,
                old(self).grid,
                old(self).ants@[i as int].pos,
                None,
            ),
            final(self).scent.lays() == old(self).scent.lays(),
            forall|c: Cell| #[trigger] final(self).scent.strength(final(self).grid, c)
                == deposited(
                    old(self).scent,
                    old(self).grid,
                    c,
                    old(self).ants@[i as int],
                    advanced(old(self).ants@[i as int], STEP_DURATION_MS as int, old(self).nest),
                ),
    {
        let ghost before = *self;
        let a: Ant = self.ants[i];
        let s: MoveAnim = a.step.unwrap();
        proof {
            assert(ant_ok(a, self.occupancy, self.grid));
            lemma_ant_cell_claimed_once(before, a.pos, i as int);
        }
        self.occupancy.vacate(self.grid, s.from, a.entity);
        let since: u32 = if self.nest.contains(s.to) {
            0
        } else {
            a.since_nest.saturating_add(1)
        };
        let arrived = Ant { pos: s.to, step: None, since_nest: since, ..a };
        self.ants.set(i, arrived);
        if a.carrying.is_none() {
            self.scent.deposit(self.grid, s.to, since);
        }
        proof {
            lemma_untouched(
                before.occupancy,
                self.occupancy,
                self.grid,
                a.pos,
                before.ants@,
                i as int,
                before.fruits@,
                before.plank,
            );
            assert forall|j: int| 0 <= j < self.ants@.len() implies ant_ok(
                #[trigger] self.ants@[j],
                self.occupancy,
                self.grid,
            ) by {
                if j != i {
                    assert(self.ants@[j] == before.ants@[j]);
                } else {
                    assert(self.occupancy.occupant(self.grid, s.to) == before.occupancy.occupant(
                        self.grid,
                        s.to,
                    ));
                }
            }
            assert forall|j: int, k: int|
                0 <= j < self.ants@.len() && 0 <= k < self.ants@.len() && j != k implies (
            #[trigger] self.ants@[j]).entity != (#[trigger] self.ants@[k]).entity by {
                assert(before.ants@[j].entity != before.ants@[k].entity);
            }
            assert(self.ants@ == before.ants@.update(
                i as int,
                advanced(before.ants@[i as int], STEP_DURATION_MS as int, before.nest),
            ));
        }
    }
}

/// What the scent on `c` reads after `was` became `now`: a searching ant
/// that arrived on `c` leaves its mark there, if the ground takes marks.
pub open spec fn deposited(scent: Scent, grid: Grid, c: Cell, was: Ant, now: Ant) -> nat {
    if was.step is Some && now.step is None && now.pos == c && was.carrying is None && scent.lays()
        && grid.holds(c) && scent.strength(grid, c) < trail_strength(now.since_nest as nat) {
        trail_strength(now.since_nest as nat)
    } else {
        scent.strength(grid, c)
    }
}


impl World {
    /// Lets `delta_ms` pass for every ant on its way: a step in progress gets
    /// further, and one that is complete ends on the new cell.
    pub fn animate(&mut self, delta_ms: u64)
        requires
            old(self).wf(),
            delta_ms <= 0x1_0000_0000,
        ensures
            animated(*old(self), *final(self), delta_ms as int),
            final(self).wf(),
            final(self).grid == old(self).grid,
            final(self).nest == old(self).nest,
            final(self).stores == old(self).stores,
            final(self).fruits@ == old(self).fruits@,
            final(self).plank == old(self).plank,
            final(self).next_entity == old(self).next_entity,
            final(self).ants@.len() == old(self).ants@.len(),
            forall|j: int| 0 <= j < old(self).ants@.len() ==> final(self).ants@[j] == advanced(
                #[trigger] old(self).ants@[j],
                delta_ms as int,
                old(self).nest,
            ),
            final(self).occupancy.terrains() == old(self).occupancy.terrains(),
            forall|j: int| 0 <= j < old(self).ants@.len() && arrives(#[trigger] old(self).ants@[j], delta_ms as int)
                ==> final(self).occupancy.occupant(old(self).grid, old(self).ants@[j].pos) is None,
            forall|c: Cell| (forall|j: int| 0 <= j < old(self).ants@.len() && arrives(#[trigger] old(self).ants@[j], delta_ms as int)
                ==> old(self).ants@[j].pos != c) ==> #[trigger] final(self).occupancy.occupant(old(self).grid, c)
                == old(self).occupancy.occupant(old(self).grid, c),
            final(self).scent.lays() == old(self).scent.lays(),
            forall|j: int| 0 <= j < old(self).ants@.len() && arrives(#[trigger] old(self).ants@[j], delta_ms as int)
                ==> final(self).scent.strength(old(self).grid, old(self).ants@[j].step.unwrap().to) == deposited(
                    old(self).scent,
                    old(self).grid,
                    old(self).ants@[j].step.unwrap().to,
                    old(self).ants@[j],
                    advanced(old(self).ants@[j], delta_ms as int, old(self).nest),
                ),
            forall|c: Cell| (forall|j: int| 0 <= j < old(self).ants@.len() && arrives(#[trigger] old(self).ants@[j], delta_ms as int)
                ==> old(self).ants@[j].step.unwrap().to != c) ==> #[trigger] final(self).scent.strength(old(self).grid, c)
                == old(self).scent.strength(old(self).grid, c),
    {
        let ghost before = *self;
        let n: usize = self.ants.len();
        let mut k: usize = 0;
        while k < n
            invariant
                before.wf(),
                self.wf(),
                n == before.ants@.len(),
                k <= n,
                self.grid == before.grid,
                self.nest == before.nest,
                self.stores == before.stores,
                self.fruits@ == before.fruits@,
                self.plank == before.plank,
                self.next_entity == before.next_entity,
                self.ants@.len() == n,
                delta_ms <= 0x1_0000_0000,
                forall|j: int| 0 <= j < k ==> self.ants@[j] == advanced(#[trigger] before.ants@[j], delta_ms as int, before.nest),
                forall|j: int| k <= j < n ==> self.ants@[j] == #[trigger] before.ants@[j],
                self.occupancy.terrains() == before.occupancy.terrains(),
                forall|j: int| 0 <= j < k && arrives(#[trigger] before.ants@[j], delta_ms as int)
                    ==> self.occupancy.occupant(before.grid, before.ants@[j].pos) is None,
                forall|c: Cell| (forall|j: int| 0 <= j < k && arrives(#[trigger] before.ants@[j], delta_ms as int)
                    ==> before.ants@[j].pos != c) ==> #[trigger] self.occupancy.occupant(before.grid, c)
                    == before.occupancy.occupant(before.grid, c),
                self.scent.lays() == before.scent.lays(),
                forall|j: int| 0 <= j < k && arrives(#[trigger] before.ants@[j], delta_ms as int)
                    ==> self.scent.strength(before.grid, before.ants@[j].step.unwrap().to) == deposited(
                        before.scent,
                        before.grid,
                        before.ants@[j].step.unwrap().to,
                        before.ants@[j],
                        advanced(before.ants@[j], delta_ms as int, before.nest),
                    ),
                forall|c: Cell| (forall|j: int| 0 <= j < k && arrives(#[trigger] before.ants@[j], delta_ms as int)
                    ==> before.ants@[j].step.unwrap().to != c) ==> #[trigger] self.scent.strength(before.grid, c)
                    == before.scent.strength(before.grid, c),
            decreases n - k,
        {
            let a: Ant = self.ants[k];
            match a.step {
                None => {},
                Some(s) => {
                    proof {
                        assert(ant_ok(a, self.occupancy, self.grid));
                        assert(a == before.ants@[k as int]);
                        assert forall|j: int| 0 <= j < n && j != k implies !claims(#[trigger] before.ants@[j], a.pos)
                            && !claims(before.ants@[j], s.to) by {
                            lemma_nothing_shares_a_cell(before, k as int, j, a.pos);
                            lemma_nothing_shares_a_cell(before, k as int, j, s.to);
                        }
                    }
                    if s.elapsed_ms + delta_ms < STEP_DURATION_MS {
                        let moving = Ant {
                            step: Some(MoveAnim { elapsed_ms: s.elapsed_ms + delta_ms, ..s }),
                            ..a
                        };
                        let ghost mid = *self;
                        self.ants.set(k, moving);
                        proof {
                            assert forall|j: int| 0 <= j < self.ants@.len() implies ant_ok(
                                #[trigger] self.ants@[j],
                                self.occupancy,
                                self.grid,
                            ) by {
                                if j != k {
                                    assert(self.ants@[j] == mid.ants@[j]);
                                }
                            }
                            assert forall|j: int, l: int|
                                0 <= j < self.ants@.len() && 0 <= l < self.ants@.len() && j != l implies (
                            #[trigger] self.ants@[j]).entity != (#[trigger] self.ants@[l]).entity by {
                                assert(mid.ants@[j].entity != mid.ants@[l].entity);
                            }
                        }
                    } else {
                        let ghost mid = *self;
                        self.arrive(k);
                        proof {
                            assert(self.ants@[k as int] == advanced(before.ants@[k as int], delta_ms as int, before.nest));
                            assert forall|c: Cell| (forall|j: int| 0 <= j < k + 1 && arrives(#[trigger] before.ants@[j], delta_ms as int)
                                ==> before.ants@[j].pos != c) implies #[trigger] self.occupancy.occupant(before.grid, c)
                                == before.occupancy.occupant(before.grid, c) by {
                                assert(arrives(before.ants@[k as int], delta_ms as int));
                                assert(mid.occupancy.occupant(before.grid, c) == before.occupancy.occupant(before.grid, c));
                            }
                            assert forall|c: Cell| (forall|j: int| 0 <= j < k + 1 && arrives(#[trigger] before.ants@[j], delta_ms as int)
                                ==> before.ants@[j].step.unwrap().to != c) implies #[trigger] self.scent.strength(before.grid, c)
                                == before.scent.strength(before.grid, c) by {
                                assert(arrives(before.ants@[k as int], delta_ms as int));
                                assert(mid.scent.strength(before.grid, c) == before.scent.strength(before.grid, c));
                            }
                            assert(forall|j: int| 0 <= j < k && arrives(#[trigger] before.ants@[j], delta_ms as int)
                                ==> before.ants@[j].step.unwrap().to != s.to);
                            assert(forall|j: int| 0 <= j < k && arrives(#[trigger] before.ants@[j], delta_ms as int)
                                ==> before.ants@[j].pos != s.to);
                            assert(mid.scent.strength(before.grid, s.to) == before.scent.strength(before.grid, s.to));
                            assert(self.scent.strength(before.grid, s.to) == deposited(
                                before.scent,
                                before.grid,
                                s.to,
                                before.ants@[k as int],
                                advanced(before.ants@[k as int], delta_ms as int, before.nest),
                            ));
                            assert forall|j: int| 0 <= j < k + 1 && arrives(#[trigger] before.ants@[j], delta_ms as int)
                                implies self.scent.strength(before.grid, before.ants@[j].step.unwrap().to) == deposited(
                                    before.scent,
                                    before.grid,
                                    before.ants@[j].step.unwrap().to,
                                    before.ants@[j],
                                    advanced(before.ants@[j], delta_ms as int, before.nest),
                                ) by {
                                if j < k {
                                    assert(before.ants@[j].step.unwrap().to != s.to);
                                }
                            }
                            assert forall|j: int| 0 <= j < k + 1 && arrives(#[trigger] before.ants@[j], delta_ms as int)
                                implies self.occupancy.occupant(before.grid, before.ants@[j].pos) is None by {
                                if j < k {
                                    assert(before.ants@[j].pos != a.pos);
                                }
                            }
                        }
                    }
                },
            }
            k = k + 1;
        }
    }
}


/// How far from `target` one step from `from` into `d` leaves an ant.
pub open spec fn gap_after(from: Cell, d: Dir, target: Cell) -> int {
    chebyshev(target.x - (from.x + d.dx()), target.y - (from.y + d.dy()))
}

/// Among the first `n` compass directions, the free one that gets closest to
/// `target`; the earliest of equally good ones.
pub open spec fn walk_best(grid: Grid, occupancy: Occupancy, from: Cell, target: Cell, n: nat) -> Option<Dir>
    decreases n,
{
    if n == 0 {
        None
    } else {
        let prev = walk_best(grid, occupancy, from, target, (n - 1) as nat);
        let d = compass(n - 1);
        if occupancy.free(grid, next_cell(from, d)) {
            match prev {
                None => Some(d),
                Some(p) => if gap_after(from, d, target) < gap_after(from, p, target) {
                    Some(d)
                } else {
                    prev
                },
            }
        } else {
            prev
        }
    }
}

/// `walk_best` only ever names a free direction.
proof fn lemma_walk_best_free(grid: Grid, occupancy: Occupancy, from: Cell, target: Cell, n: nat)
    ensures
        walk_best(grid, occupancy, from, target, n) matches Some(d) ==> occupancy.free(grid, next_cell(from, d)),
    decreases n,
{
    if n > 0 {
        lemma_walk_best_free(grid, occupancy, from, target, (n - 1) as nat);
    }
}

/// The distance left after one step, in the integers it is measured in.
fn gap(from: Cell, d: Dir, target: Cell) -> (g: i64)
    ensures
        g == gap_after(from, d, target),
{
    let o: Cell = d.offset();
    let dx: i64 = target.x as i64 - (from.x as i64 + o.x as i64);
    let dy: i64 = target.y as i64 - (from.y as i64 + o.y as i64);
    let ax: i64 = if dx < 0 { -dx } else { dx };
    let ay: i64 = if dy < 0 { -dy } else { dy };
    if ax < ay { ay } else { ax }
}

/// The direction `walk` takes from `from` towards `target`, if any
/// neighbouring cell is free.
fn walk_choice(occupancy: &Occupancy, grid: Grid, from: Cell, target: Cell) -> (r: Option<Dir>)
    requires
        occupancy.wf(grid),
        reachable(from, 1),
    ensures
        r == walk_best(grid, *occupancy, from, target, 8),
        r matches Some(d) ==> occupancy.free(grid, next_cell(from, d)),
{
    let mut best: Option<Dir> = None;
    let mut best_gap: i64 = 0;
    let mut k: usize = 0;
    while k < 8
        invariant
            occupancy.wf(grid),
            reachable(from, 1),
            k <= 8,
            best == walk_best(grid, *occupancy, from, target, k as nat),
            best matches Some(b) ==> best_gap == gap_after(from, b, target),
        decreases 8 - k,
    {
        let d: Dir = Dir::compass_at(k);
        if occupancy.is_free(grid, from.plus(d.offset())) {
            let g: i64 = gap(from, d, target);
            match best {
                None => {
                    best = Some(d);
                    best_gap = g;
                },
                Some(_) => {
                    if g < best_gap {
                        best = Some(d);
                        best_gap = g;
                    }
                },
            }
        }
        k = k + 1;
    }
    proof {
        lemma_walk_best_free(grid, *occupancy, from, target, 8);
    }
    best
}

impl World {
    /// One step of ant `i` towards `target`.
    ///
    /// No search: the board is small and the only obstacles are ants, fruit
    /// and water. The free neighbour closest to the target wins; if none of
    /// them is closer, the least bad one is still better than standing still,
    /// because whatever is in the way is usually an ant that will have moved
    /// on a moment later.
    pub fn walk(&mut self, i: usize, target: Cell)
        requires
            old(self).wf(),
            i < old(self).ants@.len(),
            old(self).ants@[i as int].step is None,
        ensures
            final(self).wf(),
            match walk_best(old(self).grid, old(self).occupancy, old(self).ants@[i as int].pos, target, 8) {
                Some(d) => set_off(*old(self), *final(self), i as int, d),
                None => *final(self) == *old(self),
            },
    {
        let from: Cell = self.ants[i].pos;
        proof {
            assert(ant_ok(self.ants@[i as int], self.occupancy, self.grid));
            lemma_on_board_reachable(self.grid, from);
        }
        match walk_choice(&self.occupancy, self.grid, from, target) {
            Some(d) => {
                self.start_step(i, d);
            },
            None => {},
        }
    }
}

/// Ant `i` became `now` and stepped into `d`, which is now reserved for it;
/// nothing else changed.
pub open spec fn stepped_into(before: World, after: World, i: int, d: Dir, now: Ant) -> bool {
    let a = before.ants@[i];
    &&& only_ant_moved(before, after, i)
    &&& after.ants@[i] == now
    &&& put_on(before.occupancy, after.occupancy, before.grid, next_cell(a.pos, d), Some(Occupant::Ant(a.entity)))
}

/// Ant `i` became `now` without moving; nothing else changed.
pub open spec fn stayed(before: World, after: World, i: int, now: Ant) -> bool {
    &&& only_ant_moved(before, after, i)
    &&& after.ants@[i] == now
    &&& after.occupancy == before.occupancy
}

/// Whether two cells touch, diagonally included, or are the same.
pub open spec fn touching(a: Cell, b: Cell) -> bool {
    chebyshev(b.x - a.x, b.y - a.y) <= 1
}

fn next_to(here: Cell, there: Cell) -> (b: bool)
    ensures
        b == touching(here, there),
{
    let dx: i64 = there.x as i64 - here.x as i64;
    let dy: i64 = there.y as i64 - here.y as i64;
    let ax: i64 = if dx < 0 { -dx } else { dx };
    let ay: i64 = if dy < 0 { -dy } else { dy };
    (if ax < ay { ay } else { ax }) <= 1
}

/// The fruit `f` lies on the board, at index `k`.
pub open spec fn lies_at(w: World, f: u32, k: int) -> bool {
    0 <= k < w.fruits@.len() && w.fruits@[k].entity == f && w.fruits@[k].at is Some
}

/// The fruit `f` lies somewhere on the board.
pub open spec fn lying(w: World, f: u32) -> bool {
    exists|k: int| lies_at(w, f, k)
}

/// No ant, no other fruit and no plank claims a cell a fruit lies on.
proof fn lemma_fruit_cell_claimed_once(w: World, k: int)
    requires
        w.wf(),
        0 <= k < w.fruits@.len(),
        w.fruits@[k].at is Some,
    ensures
        forall|j: int| 0 <= j < w.ants@.len() ==> !claims(#[trigger] w.ants@[j], w.fruits@[k].at.unwrap()),
        forall|l: int| 0 <= l < w.fruits@.len() && l != k ==> (#[trigger] w.fruits@[l]).at != w.fruits@[k].at,
        w.plank matches Some(p) ==> p.at != w.fruits@[k].at,
        w.occupancy.occupant(w.grid, w.fruits@[k].at.unwrap()) == Some(Occupant::Fruit(w.fruits@[k].entity)),
{
    let c = w.fruits@[k].at.unwrap();
    assert(fruit_ok(w.fruits@[k], w.occupancy, w.grid));
    assert forall|j: int| 0 <= j < w.ants@.len() implies !claims(#[trigger] w.ants@[j], c) by {
        assert(ant_ok(w.ants@[j], w.occupancy, w.grid));
    }
    assert forall|l: int| 0 <= l < w.fruits@.len() && l != k implies (#[trigger] w.fruits@[l]).at != w.fruits@[k].at by {
        assert(fruit_ok(w.fruits@[l], w.occupancy, w.grid));
        assert(w.fruits@[l].entity != w.fruits@[k].entity);
    }
}

/// No ant and no fruit claims the cell the plank lies on.
proof fn lemma_plank_cell_claimed_once(w: World)
    requires
        w.wf(),
        w.plank matches Some(p) && p.at is Some,
    ensures
        forall|j: int| 0 <= j < w.ants@.len() ==> !claims(#[trigger] w.ants@[j], w.plank.unwrap().at.unwrap()),
        forall|l: int| 0 <= l < w.fruits@.len() ==> (#[trigger] w.fruits@[l]).at != w.plank.unwrap().at,
{
    let c = w.plank.unwrap().at.unwrap();
    assert forall|j: int| 0 <= j < w.ants@.len() implies !claims(#[trigger] w.ants@[j], c) by {
        assert(ant_ok(w.ants@[j], w.occupancy, w.grid));
    }
    assert forall|l: int| 0 <= l < w.fruits@.len() implies (#[trigger] w.fruits@[l]).at != w.plank.unwrap().at by {
        assert(fruit_ok(w.fruits@[l], w.occupancy, w.grid));
    }
}

impl World {
    /// Replaces ant `i` by `now`, which stands and steps where it did.
    pub(crate) fn update_ant(&mut self, i: usize, now: Ant)
        requires
            old(self).wf(),
            i < old(self).ants@.len(),
            now.pos == old(self).ants@[i as int].pos,
            now.step == old(self).ants@[i as int].step,
            now.entity == old(self).ants@[i as int].entity,
            now.timer.wf(),
        ensures
            final(self).wf(),
            stayed(*old(self), *final(self), i as int, now),
    {
        let ghost before = *self;
        proof {
            assert(ant_ok(before.ants@[i as int], before.occupancy, before.grid));
        }
        self.ants.set(i, now);
        proof {
            assert forall|j: int| 0 <= j < self.ants@.len() implies ant_ok(
                #[trigger] self.ants@[j],
                self.occupancy,
                self.grid,
            ) by {
                if j != i {
                    assert(self.ants@[j] == before.ants@[j]);
                }
            }
            assert forall|j: int, l: int|
                0 <= j < self.ants@.len() && 0 <= l < self.ants@.len() && j != l implies (
            #[trigger] self.ants@[j]).entity != (#[trigger] self.ants@[l]).entity by {
                assert(before.ants@[j].entity != before.ants@[l].entity);
            }
        }
    }

    /// Ant `i` is done with what it was doing: no intent, and it asks again
    /// at once rather than waiting out the interval.
    fn done(&mut self, i: usize)
        requires
            old(self).wf(),
            i < old(self).ants@.len(),
        ensures
            final(self).wf(),
            stayed(*old(self), *final(self), i as int, finished(old(self).ants@[i as int])),
    {
        let mut a: Ant = self.ants[i];
        proof {
            assert(ant_ok(a, self.occupancy, self.grid));
        }
        a.intent = None;
        a.timer.ask_now();
        self.update_ant(i, a);
    }

    /// Where the fruit `f` lies in the list, if it lies on the board at all.
    fn find_lying(&self, f: u32) -> (r: Option<usize>)
        requires
            self.wf(),
        ensures
            r matches Some(k) ==> lies_at(*self, f, k as int),
            r is None ==> !lying(*self, f),
    {
        let mut k: usize = 0;
        while k < self.fruits.len()
            invariant
                k <= self.fruits@.len(),
                forall|l: int| 0 <= l < k ==> !lies_at(*self, f, l),
            decreases self.fruits@.len() - k,
        {
            if self.fruits[k].entity == f && self.fruits[k].at.is_some() {
                return Some(k);
            }
            k = k + 1;
        }
        None
    }
}


/// What `walk_on` does to the board: one more cell that way, or the wander
/// ends where the way is blocked.
pub open spec fn walked_on(before: World, after: World, i: int, dir: Dir, left: i32) -> bool {
    let a = before.ants@[i];
    if before.occupancy.free(before.grid, next_cell(a.pos, dir)) {
        stepped_into(
            before,
            after,
            i,
            dir,
            intending(
                started(a, dir),
                if left <= 1 { None } else { Some(Intent::Walk { dir, left: (left - 1) as i32 }) },
            ),
        )
    } else {
        stayed(before, after, i, intending(a, None))
    }
}

/// What `follow_scent` does to the board: one step uphill, or the intent is
/// over because home is in sight, the trail ends, or the way is blocked.
pub open spec fn followed_scent(before: World, after: World, i: int, left: i32) -> bool {
    let a = before.ants@[i];
    if before.nest.distance(a.pos) <= VISION_RADIUS {
        stayed(before, after, i, finished(a))
    } else {
        match before.scent.uphill_among(before.grid, a.pos, 8) {
            None => stayed(before, after, i, finished(a)),
            Some((d, _)) => if before.occupancy.free(before.grid, next_cell(a.pos, d)) {
                stepped_into(
                    before,
                    after,
                    i,
                    d,
                    if left <= 1 {
                        finished(started(a, d))
                    } else {
                        intending(started(a, d), Some(Intent::FollowScent { left: (left - 1) as i32 }))
                    },
                )
            } else {
                stayed(before, after, i, finished(a))
            },
        }
    }
}

impl World {
    /// Keeps heading `dir` for `left` more cells. Blocked, or far enough, and
    /// the intent is simply dropped: searching is paced by the interval,
    /// while reaching a goal is worth a question at once.
    fn walk_on(&mut self, i: usize, dir: Dir, left: i32)
        requires
            old(self).wf(),
            i < old(self).ants@.len(),
            old(self).ants@[i as int].step is None,
        ensures
            final(self).wf(),
            walked_on(*old(self), *final(self), i as int, dir, left),
    {
        let ghost before = *self;
        let walked: bool = self.start_step(i, dir);
        let ghost mid = *self;
        let mut a: Ant = self.ants[i];
        proof {
            assert(ant_ok(a, self.occupancy, self.grid));
        }
        if !walked || left <= 1 {
            a.intent = None;
        } else {
            a.intent = Some(Intent::Walk { dir, left: left - 1 });
        }
        self.update_ant(i, a);
        proof {
            assert(only_ant_moved(before, *self, i as int));
        }
    }

    /// Follows the scent uphill, which is the way home. The slope is read
    /// again at every step, because a trail bends.
    fn follow_scent(&mut self, i: usize, left: i32)
        requires
            old(self).wf(),
            i < old(self).ants@.len(),
            old(self).ants@[i as int].step is None,
        ensures
            final(self).wf(),
            followed_scent(*old(self), *final(self), i as int, left),
    {
        let ghost before = *self;
        let pos: Cell = self.ants[i].pos;
        proof {
            assert(ant_ok(self.ants@[i as int], self.occupancy, self.grid));
            lemma_on_board_reachable(self.grid, pos);
        }
        // Home in sight: from here the ant walks straight there, which is the
        // next decision rather than this one.
        if self.nest.within(pos, VISION_RADIUS) {
            self.done(i);
            return;
        }
        match self.scent.uphill(self.grid, pos) {
            // The peak, or the trail has faded under it.
            None => {
                self.done(i);
            },
            Some((d, _)) => {
                let walked: bool = self.start_step(i, d);
                if !walked || left <= 1 {
                    self.done(i);
                } else {
                    let mut a: Ant = self.ants[i];
                    proof {
                        assert(ant_ok(a, self.occupancy, self.grid));
                    }
                    a.intent = Some(Intent::FollowScent { left: left - 1 });
                    self.update_ant(i, a);
                }
                proof {
                    assert(only_ant_moved(before, *self, i as int));
                }
            },
        }
    }
}


/// The index of the fruit `f` lying on the board, if it does.
pub open spec fn lying_index(w: World, f: u32) -> int {
    choose|k: int| lies_at(w, f, k)
}

/// Only one fruit on the board has any one identity.
proof fn lemma_lies_at_unique(w: World, f: u32, k: int)
    requires
        w.wf(),
        lies_at(w, f, k),
    ensures
        lying(w, f),
        lying_index(w, f) == k,
{
    assert(lies_at(w, f, k));
    let l = lying_index(w, f);
    assert(lies_at(w, f, l));
    if l != k {
        assert(w.fruits@[l].entity != w.fruits@[k].entity);
    }
}

/// Ant `i` picked up the fruit at index `k`: the fruit left the board and
/// rides on its back, and the ant turned towards where it lay.
pub open spec fn picked_up(before: World, after: World, i: int, k: int) -> bool {
    let a = before.ants@[i];
    let f = before.fruits@[k];
    let c = f.at.unwrap();
    &&& after.grid == before.grid
    &&& after.nest == before.nest
    &&& after.scent == before.scent
    &&& after.stores == before.stores
    &&& after.plank == before.plank
    &&& after.next_entity == before.next_entity
    &&& after.ants@ == before.ants@.update(
        i,
        finished(Ant { carrying: Some(f.entity), facing: nearest_dir(c.x - a.pos.x, c.y - a.pos.y), ..a }),
    )
    &&& after.fruits@ == before.fruits@.update(k, Fruit { at: None, ..f })
    &&& put_on(before.occupancy, after.occupancy, before.grid, c, None)
}

/// Ant `i` took one step of `walk` towards `target`, or none was free.
pub open spec fn walked_towards(before: World, after: World, i: int, target: Cell) -> bool {
    let a = before.ants@[i];
    match walk_best(before.grid, before.occupancy, a.pos, target, 8) {
        Some(d) => stepped_into(before, after, i, d, started(a, d)),
        None => after == before,
    }
}

/// What `fetch` does to the board.
pub open spec fn fetched(before: World, after: World, i: int, f: u32) -> bool {
    let a = before.ants@[i];
    if !lying(before, f) {
        stayed(before, after, i, finished(a))
    } else {
        let k = lying_index(before, f);
        let c = before.fruits@[k].at.unwrap();
        if touching(a.pos, c) {
            picked_up(before, after, i, k)
        } else {
            walked_towards(before, after, i, c)
        }
    }
}

/// `after` is `before` without the fruit `f`, if it was there at all.
pub open spec fn without_fruit(before: Seq<Fruit>, after: Seq<Fruit>, f: u32) -> bool {
    ||| exists|k: int| 0 <= k < before.len() && (#[trigger] before[k]).entity == f && after == before.remove(k)
    ||| (forall|k: int| 0 <= k < before.len() ==> (#[trigger] before[k]).entity != f) && after == before
}

/// What `carry_home` does to the board: a step towards the nest, or the
/// fruit is delivered there and counted.
pub open spec fn carried_home(before: World, after: World, i: int) -> bool {
    let a = before.ants@[i];
    match a.carrying {
        None => stayed(before, after, i, finished(a)),
        Some(f) => if before.nest.holds(a.pos) {
            &&& after.grid == before.grid
            &&& after.nest == before.nest
            &&& after.scent == before.scent
            &&& after.stores == if before.stores == u32::MAX { u32::MAX } else { (before.stores + 1) as u32 }
            &&& after.plank == before.plank
            &&& after.next_entity == before.next_entity
            &&& after.occupancy == before.occupancy
            &&& after.ants@ == before.ants@.update(i, finished(Ant { carrying: None, ..a }))
            &&& without_fruit(before.fruits@, after.fruits@, f)
        } else {
            walked_towards(before, after, i, before.nest.closest(a.pos))
        },
    }
}

impl World {
    /// Walks to the fruit `f` and picks it up from the cell beside it. A fruit
    /// with no cell of its own any more (eaten, or on somebody else's back)
    /// makes the intent void, and the ant asks again.
    fn fetch(&mut self, i: usize, f: u32)
        requires
            old(self).wf(),
            i < old(self).ants@.len(),
            old(self).ants@[i as int].step is None,
        ensures
            final(self).wf(),
            fetched(*old(self), *final(self), i as int, f),
    {
        let ghost before = *self;
        let a: Ant = self.ants[i];
        proof {
            assert(ant_ok(a, self.occupancy, self.grid));
            lemma_on_board_reachable(self.grid, a.pos);
        }
        match self.find_lying(f) {
            None => {
                self.done(i);
            },
            Some(k) => {
                proof {
                    lemma_lies_at_unique(before, f, k as int);
                }
                let fruit: Fruit = self.fruits[k];
                let c: Cell = fruit.at.unwrap();
                if next_to(a.pos, c) {
                    proof {
                        lemma_fruit_cell_claimed_once(before, k as int);
                        assert(fruit_ok(fruit, before.occupancy, before.grid));
                        lemma_on_board_reachable(self.grid, c);
                    }
                    self.fruits.set(k, Fruit { at: None, ..fruit });
                    self.occupancy.vacate(self.grid, c, f);
                    let mut carrier: Ant = a;
                    carrier.carrying = Some(f);
                    carrier.facing = Dir::nearest(c.minus(a.pos));
                    carrier.intent = None;
                    carrier.timer.ask_now();
                    self.ants.set(i, carrier);
                    proof {
                        lemma_untouched(
                            before.occupancy,
                            self.occupancy,
                            self.grid,
                            c,
                            before.ants@,
                            -1,
                            self.fruits@,
                            before.plank,
                        );
                        assert forall|j: int| 0 <= j < self.ants@.len() implies ant_ok(
                            #[trigger] self.ants@[j],
                            self.occupancy,
                            self.grid,
                        ) by {
                            assert(ant_ok(before.ants@[j], self.occupancy, self.grid));
                        }
                        assert forall|j: int, l: int|
                            0 <= j < self.ants@.len() && 0 <= l < self.ants@.len() && j != l implies (
                        #[trigger] self.ants@[j]).entity != (#[trigger] self.ants@[l]).entity by {
                            assert(before.ants@[j].entity != before.ants@[l].entity);
                        }
                        assert forall|j: int, l: int|
                            0 <= j < self.fruits@.len() && 0 <= l < self.fruits@.len() && j != l implies (
                        #[trigger] self.fruits@[j]).entity != (#[trigger] self.fruits@[l]).entity by {
                            assert(before.fruits@[j].entity != before.fruits@[l].entity);
                        }
                    }
                } else {
                    self.walk(i, c);
                }
            },
        }
    }

    /// Carries what the ant holds to the nest and puts it down there: the
    /// fruit is eaten and counted. Nothing in hand, and the intent just ends.
    fn carry_home(&mut self, i: usize)
        requires
            old(self).wf(),
            i < old(self).ants@.len(),
            old(self).ants@[i as int].step is None,
        ensures
            final(self).wf(),
            carried_home(*old(self), *final(self), i as int),
    {
        let ghost before = *self;
        let a: Ant = self.ants[i];
        proof {
            assert(ant_ok(a, self.occupancy, self.grid));
        }
        match a.carrying {
            None => {
                self.done(i);
            },
            Some(f) => {
                if self.nest.contains(a.pos) {
                    self.stores = self.stores.saturating_add(1);
                    let mut k: usize = 0;
                    let mut found: bool = false;
                    while k < self.fruits.len() && !found
                        invariant
                            self.fruits@ == before.fruits@,
                            k <= self.fruits@.len(),
                            found ==> k < self.fruits@.len() && before.fruits@[k as int].entity == f,
                            forall|l: int| 0 <= l < k ==> (#[trigger] before.fruits@[l]).entity != f,
                        decreases self.fruits@.len() - k + (if found { 0int } else { 1int }),
                    {
                        if self.fruits[k].entity == f {
                            found = true;
                        } else {
                            k = k + 1;
                        }
                    }
                    if found {
                        self.fruits.remove(k);
                        proof {
                            assert(before.fruits@[k as int].entity == f);
                        }
                    }
                    let mut home: Ant = a;
                    home.carrying = None;
                    home.intent = None;
                    home.timer.ask_now();
                    self.ants.set(i, home);
                    proof {
                        assert forall|j: int| 0 <= j < self.ants@.len() implies ant_ok(
                            #[trigger] self.ants@[j],
                            self.occupancy,
                            self.grid,
                        ) by {
                            assert(ant_ok(before.ants@[j], self.occupancy, self.grid));
                        }
                        assert forall|j: int, l: int|
                            0 <= j < self.ants@.len() && 0 <= l < self.ants@.len() && j != l implies (
                        #[trigger] self.ants@[j]).entity != (#[trigger] self.ants@[l]).entity by {
                            assert(before.ants@[j].entity != before.ants@[l].entity);
                        }
                        assert forall|j: int| 0 <= j < self.fruits@.len() implies fruit_ok(
                            #[trigger] self.fruits@[j],
                            self.occupancy,
                            self.grid,
                        ) by {
                            if k < before.fruits@.len() {
                                if j < k {
                                    assert(self.fruits@[j] == before.fruits@[j]);
                                } else {
                                    assert(self.fruits@[j] == before.fruits@[j + 1]);
                                }
                            }
                            assert(fruit_ok(before.fruits@[j], before.occupancy, before.grid));
                        }
                        assert forall|j: int, l: int|
                            0 <= j < self.fruits@.len() && 0 <= l < self.fruits@.len() && j != l implies (
                        #[trigger] self.fruits@[j]).entity != (#[trigger] self.fruits@[l]).entity by {
                            if k < before.fruits@.len() {
                                let jj = if j < k { j } else { j + 1 };
                                let ll = if l < k { l } else { l + 1 };
                                assert(self.fruits@[j] == before.fruits@[jj]);
                                assert(self.fruits@[l] == before.fruits@[ll]);
                                assert(before.fruits@[jj].entity != before.fruits@[ll].entity);
                            } else {
                                assert(before.fruits@[j].entity != before.fruits@[l].entity);
                            }
                        }
                    }
                } else {
                    let target: Cell = self.nest.nearest_cell(a.pos);
                    self.walk(i, target);
                }
            },
        }
    }
}


/// What `take_plank` does to the board: a step towards the plank, or it is
/// picked up from the cell beside it and the carrier sets out for the
/// nearest crossing. A plank that is gone, laid or already held makes the
/// intent void.
pub open spec fn took_plank(before: World, after: World, i: int, p: u32) -> bool {
    let a = before.ants@[i];
    match before.plank {
        Some(pl) => if pl.entity == p && pl.at is Some {
            let c = pl.at.unwrap();
            if touching(a.pos, c) {
                &&& after.grid == before.grid
                &&& after.nest == before.nest
                &&& after.scent == before.scent
                &&& after.stores == before.stores
                &&& after.fruits@ == before.fruits@
                &&& after.next_entity == before.next_entity
                &&& after.ants@ == before.ants@.update(i, intending(a, Some(Intent::HoldPlank { stalled: 0 })))
                &&& after.plank == Some(PlankItem {
                    entity: p,
                    at: None,
                    state: Plank {
                        carrier: Some(a.entity),
                        target: nearest_crossing_spec(before.occupancy, before.grid, c),
                        laid: false,
                    },
                })
                &&& put_on(before.occupancy, after.occupancy, before.grid, c, None)
            } else {
                walked_towards(before, after, i, c)
            }
        } else {
            stayed(before, after, i, finished(a))
        },
        None => stayed(before, after, i, finished(a)),
    }
}

/// What `hold_plank` does to the board: the plank is laid across the water
/// beside the carrier, or carried one step closer, or the carrier waits and
/// counts the wait until it gives up.
pub open spec fn held_plank(before: World, after: World, i: int, stalled: u32) -> bool {
    let a = before.ants@[i];
    match before.plank {
        Some(pl) => if pl.state.carrier == Some(a.entity) && pl.state.target is Some {
            let t = pl.state.target.unwrap();
            if touching(a.pos, t) {
                &&& after.grid == before.grid
                &&& after.nest == before.nest
                &&& after.scent == before.scent
                &&& after.stores == before.stores
                &&& after.fruits@ == before.fruits@
                &&& after.next_entity == before.next_entity
                &&& after.ants@ == before.ants@.update(i, finished(a))
                &&& after.plank == Some(PlankItem {
                    state: Plank { carrier: None, target: Some(t), laid: true },
                    ..pl
                })
                &&& after.occupancy.wf(before.grid)
                &&& after.occupancy.occupants() == before.occupancy.occupants()
                &&& forall|c: Cell| #[trigger] after.occupancy.terrain(before.grid, c) == if c == t {
                    Terrain::Bridge
                } else {
                    before.occupancy.terrain(before.grid, c)
                }
            } else {
                match walk_best(before.grid, before.occupancy, a.pos, t, 8) {
                    Some(d) => stepped_into(
                        before,
                        after,
                        i,
                        d,
                        intending(started(a, d), Some(Intent::HoldPlank { stalled: 0 })),
                    ),
                    None => stayed(
                        before,
                        after,
                        i,
                        if stalled + 1 >= PLANK_GIVE_UP_TICKS {
                            finished(a)
                        } else {
                            intending(a, Some(Intent::HoldPlank { stalled: (stalled + 1) as u32 }))
                        },
                    ),
                }
            }
        } else {
            stayed(before, after, i, finished(a))
        },
        None => stayed(before, after, i, finished(a)),
    }
}

impl World {
    /// Walks to the plank and takes hold of it from the cell beside it.
    fn take_plank(&mut self, i: usize, p: u32)
        requires
            old(self).wf(),
            i < old(self).ants@.len(),
            old(self).ants@[i as int].step is None,
        ensures
            final(self).wf(),
            took_plank(*old(self), *final(self), i as int, p),
    {
        let ghost before = *self;
        let a: Ant = self.ants[i];
        proof {
            assert(ant_ok(a, self.occupancy, self.grid));
        }
        match self.plank {
            Some(pl) => {
                match pl.at {
                    Some(c) => {
                        if pl.entity != p {
                            self.done(i);
                        } else if next_to(a.pos, c) {
                            proof {
                                assert(plank_ok(pl, before.occupancy, before.grid));
                                lemma_plank_cell_claimed_once(before);
                            }
                            let target: Option<Cell> = nearest_crossing(self.grid, &self.occupancy, c);
                            self.occupancy.vacate(self.grid, c, p);
                            self.plank = Some(PlankItem {
                                entity: p,
                                at: None,
                                state: Plank { carrier: Some(a.entity), target, laid: false },
                            });
                            let mut carrier: Ant = a;
                            carrier.intent = Some(Intent::HoldPlank { stalled: 0 });
                            self.ants.set(i, carrier);
                            proof {
                                lemma_untouched(
                                    before.occupancy,
                                    self.occupancy,
                                    self.grid,
                                    c,
                                    before.ants@,
                                    -1,
                                    before.fruits@,
                                    self.plank,
                                );
                                assert forall|j: int| 0 <= j < self.ants@.len() implies ant_ok(
                                    #[trigger] self.ants@[j],
                                    self.occupancy,
                                    self.grid,
                                ) by {
                                    assert(ant_ok(before.ants@[j], self.occupancy, self.grid));
                                }
                                assert forall|j: int, l: int|
                                    0 <= j < self.ants@.len() && 0 <= l < self.ants@.len() && j != l implies (
                                #[trigger] self.ants@[j]).entity != (#[trigger] self.ants@[l]).entity by {
                                    assert(before.ants@[j].entity != before.ants@[l].entity);
                                }
                            }
                        } else {
                            self.walk(i, c);
                        }
                    },
                    None => {
                        self.done(i);
                    },
                }
            },
            None => {
                self.done(i);
            },
        }
    }

    /// Carries the plank to its crossing and lays it across the water once
    /// the carrier stands beside it.
    fn hold_plank(&mut self, i: usize, stalled: u32)
        requires
            old(self).wf(),
            i < old(self).ants@.len(),
            old(self).ants@[i as int].step is None,
        ensures
            final(self).wf(),
            held_plank(*old(self), *final(self), i as int, stalled),
    {
        let ghost before = *self;
        let a: Ant = self.ants[i];
        proof {
            assert(ant_ok(a, self.occupancy, self.grid));
        }
        match self.plank {
            Some(pl) => {
                if pl.state.carrier != Some(a.entity) || pl.state.target.is_none() {
                    self.done(i);
                    return;
                }
                let t: Cell = pl.state.target.unwrap();
                if next_to(a.pos, t) {
                    proof {
                        assert(plank_ok(pl, before.occupancy, before.grid));
                    }
                    self.occupancy.set_terrain(self.grid, t, Terrain::Bridge);
                    self.plank = Some(PlankItem {
                        state: Plank { carrier: None, target: Some(t), laid: true },
                        ..pl
                    });
                    let mut free_hands: Ant = a;
                    free_hands.intent = None;
                    free_hands.timer.ask_now();
                    self.ants.set(i, free_hands);
                    proof {
                        assert forall|c: Cell| #[trigger] self.occupancy.occupant(self.grid, c)
                            == before.occupancy.occupant(before.grid, c) by {}
                        assert forall|j: int| 0 <= j < self.ants@.len() implies ant_ok(
                            #[trigger] self.ants@[j],
                            self.occupancy,
                            self.grid,
                        ) by {
                            assert(ant_ok(before.ants@[j], before.occupancy, self.grid));
                        }
                        assert forall|j: int, l: int|
                            0 <= j < self.ants@.len() && 0 <= l < self.ants@.len() && j != l implies (
                        #[trigger] self.ants@[j]).entity != (#[trigger] self.ants@[l]).entity by {
                            assert(before.ants@[j].entity != before.ants@[l].entity);
                        }
                        assert forall|j: int| 0 <= j < self.fruits@.len() implies fruit_ok(
                            #[trigger] self.fruits@[j],
                            self.occupancy,
                            self.grid,
                        ) by {
                            assert(fruit_ok(before.fruits@[j], before.occupancy, self.grid));
                        }
                        assert forall|c: Cell| #[trigger] self.occupancy.terrain(before.grid, c) == if c == t {
                            Terrain::Bridge
                        } else {
                            before.occupancy.terrain(before.grid, c)
                        } by {}
                    }
                } else {
                    proof {
                        lemma_on_board_reachable(self.grid, a.pos);
                    }
                    let moved: bool = match walk_choice(&self.occupancy, self.grid, a.pos, t) {
                        Some(_) => true,
                        None => false,
                    };
                    if moved {
                        self.walk(i, t);
                        let mut carrier: Ant = self.ants[i];
                        proof {
                            assert(ant_ok(carrier, self.occupancy, self.grid));
                        }
                        carrier.intent = Some(Intent::HoldPlank { stalled: 0 });
                        self.update_ant(i, carrier);
                        proof {
                            assert(only_ant_moved(before, *self, i as int));
                        }
                    } else {
                        let mut waiting: Ant = a;
                        if stalled >= PLANK_GIVE_UP_TICKS - 1 {
                            waiting.intent = None;
                            waiting.timer.ask_now();
                        } else {
                            waiting.intent = Some(Intent::HoldPlank { stalled: stalled + 1 });
                        }
                        self.update_ant(i, waiting);
                    }
                }
            },
            None => {
                self.done(i);
            },
        }
    }
}


/// Whether some ant on the board is known by `e`.
pub open spec fn has_ant(w: World, e: u32) -> bool {
    exists|j: int| 0 <= j < w.ants@.len() && (#[trigger] w.ants@[j]).entity == e
}

/// The index of the ant known by `e`.
pub open spec fn ant_index(w: World, e: u32) -> int {
    choose|j: int| 0 <= j < w.ants@.len() && (#[trigger] w.ants@[j]).entity == e
}

/// Every direction `free_among` lists leads onto a free cell.
pub proof fn lemma_free_among_free(grid: Grid, occupancy: Occupancy, from: Cell, n: nat)
    ensures
        forall|k: int| 0 <= k < free_among(grid, occupancy, from, n).len() ==> occupancy.free(
            grid,
            next_cell(from, #[trigger] free_among(grid, occupancy, from, n)[k]),
        ),
    decreases n,
{
    if n > 0 {
        lemma_free_among_free(grid, occupancy, from, (n - 1) as nat);
        let prev = free_among(grid, occupancy, from, (n - 1) as nat);
        let now = free_among(grid, occupancy, from, n);
        assert forall|k: int| 0 <= k < now.len() implies occupancy.free(grid, next_cell(from, #[trigger] now[k])) by {
            if k < prev.len() {
                assert(now[k] == prev[k]);
            }
        }
    }
}

/// What `drop_abandoned_plank` does to the board: a plank whose carrier no
/// longer means to carry it lands on the first free cell beside that ant,
/// free for anyone to take again. With no free cell beside it, it stays in
/// hand until there is one.
pub open spec fn let_go(before: World, after: World) -> bool {
    match before.plank {
        Some(pl) => match pl.state.carrier {
            Some(e) => if has_ant(before, e) && !(before.ants@[ant_index(before, e)].intent matches Some(
                Intent::HoldPlank { .. },
            )) {
                let a = before.ants@[ant_index(before, e)];
                let free = free_among(before.grid, before.occupancy, a.pos, 8);
                if free.len() > 0 {
                    let c = next_cell(a.pos, free[0]);
                    &&& after.grid == before.grid
                    &&& after.nest == before.nest
                    &&& after.scent == before.scent
                    &&& after.stores == before.stores
                    &&& after.fruits@ == before.fruits@
                    &&& after.ants@ == before.ants@
                    &&& after.next_entity == before.next_entity
                    &&& after.plank == Some(PlankItem {
                        at: Some(c),
                        state: Plank { carrier: None, target: None, laid: false },
                        ..pl
                    })
                    &&& put_on(before.occupancy, after.occupancy, before.grid, c, Some(Occupant::Plank(pl.entity)))
                } else {
                    after == before
                }
            } else {
                after == before
            },
            None => after == before,
        },
        None => after == before,
    }
}

impl World {
    /// A plank whose carrier has stopped carrying it is put down beside that
    /// ant rather than dragged around invisibly for the rest of the game. The
    /// board owns the thing, not the decision that picked it up.
    pub fn drop_abandoned_plank(&mut self)
        requires
            old(self).wf(),
        ensures
            final(self).wf(),
            let_go(*old(self), *final(self)),
    {
        let ghost before = *self;
        let pl: PlankItem = match self.plank {
            Some(pl) => pl,
            None => {
                return;
            },
        };
        let e: u32 = match pl.state.carrier {
            Some(e) => e,
            None => {
                return;
            },
        };
        let mut j: usize = 0;
        let mut found: bool = false;
        while j < self.ants.len() && !found
            invariant
                j <= self.ants@.len(),
                found ==> j < self.ants@.len() && self.ants@[j as int].entity == e,
                forall|l: int| 0 <= l < j ==> (#[trigger] self.ants@[l]).entity != e,
            decreases self.ants@.len() - j + (if found { 0int } else { 1int }),
        {
            if self.ants[j].entity == e {
                found = true;
            } else {
                j = j + 1;
            }
        }
        if !found {
            return;
        }
        proof {
            assert(has_ant(before, e));
            let l = ant_index(before, e);
            if l != j {
                assert(before.ants@[l].entity != before.ants@[j as int].entity);
            }
        }
        let a: Ant = self.ants[j];
        match a.intent {
            Some(Intent::HoldPlank { .. }) => {
                return;
            },
            _ => {},
        }
        proof {
            assert(ant_ok(a, self.occupancy, self.grid));
            lemma_on_board_reachable(self.grid, a.pos);
        }
        let free: Vec<Dir> = free_directions(self.grid, &self.occupancy, a.pos);
        if free.len() == 0 {
            return;
        }
        let c: Cell = a.pos.plus(free[0].offset());
        proof {
            lemma_free_among_free(self.grid, self.occupancy, a.pos, 8);
            assert(self.occupancy.free(self.grid, next_cell(a.pos, free@[0])));
            lemma_free_is_unclaimed(before, c);
        }
        self.occupancy.occupy(self.grid, c, Occupant::Plank(pl.entity));
        self.plank = Some(PlankItem {
            at: Some(c),
            state: Plank { carrier: None, target: None, laid: false },
            ..pl
        });
        proof {
            lemma_untouched(
                before.occupancy,
                self.occupancy,
                self.grid,
                c,
                before.ants@,
                -1,
                before.fruits@,
                None,
            );
        }
    }
}

/// One ant's turn in `pursue_intents`: pursued if it is not in the middle of
/// a step, left alone otherwise.
pub open spec fn step_in_turn(before: World, after: World, i: int) -> bool {
    if before.ants@[i].step is None {
        pursued(before, after, i)
    } else {
        after == before
    }
}

/// What `animate` does over `delta_ms`: every ant's step runs on, an ant
/// that arrives leaves its old cell and lays scent where it arrives, and
/// nothing else on the board moves.
pub open spec fn animated(before: World, after: World, delta_ms: int) -> bool {
    &&& after.wf()
    &&& after.grid == before.grid
    &&& after.nest == before.nest
    &&& after.stores == before.stores
    &&& after.fruits@ == before.fruits@
    &&& after.plank == before.plank
    &&& after.next_entity == before.next_entity
    &&& after.ants@.len() == before.ants@.len()
    &&& forall|j: int| 0 <= j < before.ants@.len() ==> after.ants@[j] == advanced(
        #[trigger] before.ants@[j],
        delta_ms,
        before.nest,
    )
    &&& after.occupancy.terrains() == before.occupancy.terrains()
    &&& forall|j: int| 0 <= j < before.ants@.len() && arrives(#[trigger] before.ants@[j], delta_ms)
        ==> after.occupancy.occupant(before.grid, before.ants@[j].pos) is None
    &&& forall|c: Cell| (forall|j: int| 0 <= j < before.ants@.len() && arrives(#[trigger] before.ants@[j], delta_ms)
        ==> before.ants@[j].pos != c) ==> #[trigger] after.occupancy.occupant(before.grid, c)
        == before.occupancy.occupant(before.grid, c)
    &&& after.scent.lays() == before.scent.lays()
    &&& forall|j: int| 0 <= j < before.ants@.len() && arrives(#[trigger] before.ants@[j], delta_ms)
        ==> after.scent.strength(before.grid, before.ants@[j].step.unwrap().to) == deposited(
            before.scent,
            before.grid,
            before.ants@[j].step.unwrap().to,
            before.ants@[j],
            advanced(before.ants@[j], delta_ms, before.nest),
        )
    &&& forall|c: Cell| (forall|j: int| 0 <= j < before.ants@.len() && arrives(#[trigger] before.ants@[j], delta_ms)
        ==> before.ants@[j].step.unwrap().to != c) ==> #[trigger] after.scent.strength(before.grid, c)
        == before.scent.strength(before.grid, c)
}

/// What `pursue_intents` does: every ant in turn pursues its intent, in the
/// order of the list, and then a plank nobody means to carry is put down.
pub open spec fn pursued_all(before: World, after: World) -> bool {
    &&& after.wf()
    &&& after.grid == before.grid
    &&& after.nest == before.nest
    &&& after.next_entity == before.next_entity
    &&& after.ants@.len() == before.ants@.len()
    &&& exists|ws: Seq<World>| #[trigger] pursued_in_turn(ws, before.ants@.len() as int) && ws[0] == before
        && let_go(ws[before.ants@.len() as int], after)
}

/// `ws` are the boards between the turns of the first `n` ants.
pub open spec fn pursued_in_turn(ws: Seq<World>, n: int) -> bool {
    &&& ws.len() == n + 1
    &&& forall|k: int| 0 <= k < n ==> #[trigger] step_in_turn(ws[k], ws[k + 1], k)
}

/// What `pursue_one` does to ant `i`, by what it is busy with.
pub open spec fn pursued(before: World, after: World, i: int) -> bool {
    match before.ants@[i].intent {
        None => after == before,
        Some(Intent::Walk { dir, left }) => walked_on(before, after, i, dir, left),
        Some(Intent::Fetch(f)) => fetched(before, after, i, f),
        Some(Intent::CarryHome) => carried_home(before, after, i),
        Some(Intent::FollowScent { left }) => followed_scent(before, after, i, left),
        Some(Intent::TakePlank(p)) => took_plank(before, after, i, p),
        Some(Intent::HoldPlank { stalled }) => held_plank(before, after, i, stalled),
    }
}

impl World {
    /// One tick of whatever ant `i` is busy with.
    pub fn pursue_one(&mut self, i: usize)
        requires
            old(self).wf(),
            i < old(self).ants@.len(),
            old(self).ants@[i as int].step is None,
        ensures
            final(self).wf(),
            pursued(*old(self), *final(self), i as int),
    {
        match self.ants[i].intent {
            None => {},
            Some(Intent::Walk { dir, left }) => self.walk_on(i, dir, left),
            Some(Intent::Fetch(f)) => self.fetch(i, f),
            Some(Intent::CarryHome) => self.carry_home(i),
            Some(Intent::FollowScent { left }) => self.follow_scent(i, left),
            Some(Intent::TakePlank(p)) => self.take_plank(i, p),
            Some(Intent::HoldPlank { stalled }) => self.hold_plank(i, stalled),
        }
    }

    /// One tick of every ant that is not in the middle of a step, in the
    /// order of the list; then a plank nobody means to carry any more is put
    /// down.
    pub fn pursue_intents(&mut self)
        requires
            old(self).wf(),
        ensures
            pursued_all(*old(self), *final(self)),
            final(self).wf(),
            final(self).grid == old(self).grid,
            final(self).nest == old(self).nest,
            final(self).next_entity == old(self).next_entity,
            final(self).ants@.len() == old(self).ants@.len(),
            forall|j: int| 0 <= j < old(self).ants@.len() ==> (#[trigger] final(self).ants@[j]).id
                == old(self).ants@[j].id && final(self).ants@[j].entity == old(self).ants@[j].entity,
            forall|j: int| 0 <= j < old(self).ants@.len() && (#[trigger] old(self).ants@[j]).step is Some
                ==> final(self).ants@[j] == old(self).ants@[j],
            exists|ws: Seq<World>| #[trigger] pursued_in_turn(ws, old(self).ants@.len() as int) && ws[0] == *old(self)
                && let_go(ws[old(self).ants@.len() as int], *final(self)),
    {
        let ghost before = *self;
        let n: usize = self.ants.len();
        let ghost mut ws: Seq<World> = seq![*self];
        let mut i: usize = 0;
        while i < n
            invariant
                self.wf(),
                n == before.ants@.len(),
                self.ants@.len() == n,
                i <= n,
                self.grid == before.grid,
                self.nest == before.nest,
                self.next_entity == before.next_entity,
                forall|j: int| 0 <= j < n ==> (#[trigger] self.ants@[j]).id == before.ants@[j].id
                    && self.ants@[j].entity == before.ants@[j].entity,
                forall|j: int| 0 <= j < n && (#[trigger] before.ants@[j]).step is Some ==> self.ants@[j]
                    == before.ants@[j],
                forall|j: int| i <= j < n ==> (#[trigger] self.ants@[j]).step == before.ants@[j].step,
                pursued_in_turn(ws, i as int),
                ws[0] == before,
                ws[i as int] == *self,
            decreases n - i,
        {
            let ghost prev = ws;
            if self.ants[i].step.is_none() {
                let ghost mid = *self;
                self.pursue_one(i);
                proof {
                    assert forall|j: int| 0 <= j < n && j != i implies (#[trigger] self.ants@[j]) == mid.ants@[j] by {
                        match mid.ants@[i as int].intent {
                            Some(Intent::Fetch(f)) => {
                                if lying(mid, f) && touching(mid.ants@[i as int].pos, mid.fruits@[lying_index(mid, f)].at.unwrap()) {
                                    assert(self.ants@[j] == mid.ants@[j]);
                                }
                            },
                            _ => {},
                        }
                    }
                }
            }
            proof {
                ws = prev.push(*self);
                assert forall|k: int| 0 <= k < i + 1 implies #[trigger] step_in_turn(ws[k], ws[k + 1], k) by {
                    if k < i {
                        assert(ws[k] == prev[k] && ws[k + 1] == prev[k + 1]);
                        assert(step_in_turn(prev[k], prev[k + 1], k));
                    }
                }
            }
            i = i + 1;
        }
        let ghost last = *self;
        self.drop_abandoned_plank();
        proof {
            assert(pursued_in_turn(ws, n as int) && ws[0] == before && let_go(ws[n as int], *self));
        }
    }
}


} // verus!
