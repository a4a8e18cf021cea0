//! Setting up a level and starting it again: the board, the fruit, the plank
//! and a colony at home.
//!
//! Restarting matters more than it sounds. The loop this game is about (say a
//! sentence, watch it fail, say a better one) needs the second half: without
//! a way back to the start there is no second attempt.

use vstd::prelude::*;

use crate::chance::{pick, shuffle};
use crate::config::{ANT_COUNT, FRUIT_REGROWTH_MS, FRUIT_TARGET, THINK_INTERVAL_MS};
use crate::decisions::{AntId, ColonyAwake, DecisionStats, DiscardLog, QueenOrder, ThinkTimer};
use crate::grid::{Cell, Dir, Grid, Occupancy, Occupant, Terrain};
use crate::nest::Nest;
use crate::plank::Plank;
use crate::scenario::{cell_of, Scenario, Solved};
use crate::scent::Scent;
use crate::world::{
    ant_ok, fruit_ok, lemma_free_is_unclaimed, lemma_untouched, put_on, Ant, Fruit,
    LastDecision, PlankItem, World,
};

verus! {

/// The think timer of ant `index` of `count`.
pub open spec fn staggered_timer(index: int, count: int) -> ThinkTimer {
    ThinkTimer {
        duration_ms: THINK_INTERVAL_MS,
        elapsed_ms: (THINK_INTERVAL_MS * index / (if count == 0 { 1 } else { count })) as u64,
    }
}

/// A freshly hatched ant number `index` of `count` on `pos`: at home in its
/// thoughts, empty-handed, and asked on its own turn of the interval.
pub open spec fn hatched(a: Ant, index: int, count: int) -> bool {
    &&& a.id == AntId(index as u32)
    &&& a.carrying is None
    &&& a.since_nest == 0
    &&& a.timer == staggered_timer(index, count)
    &&& a.intent is None
    &&& a.step is None
    &&& a.last == LastDecision { action: None, confidence: None }
}

/// The shuffled nest cells, then the shuffled rest of the board.
fn hatching_cells(grid: Grid, nest: Nest) -> (v: Vec<Cell>)
    requires
        grid.wf(),
        nest.wf(),
    ensures
        nest.size * nest.size <= v@.len(),
        v@.subrange(0, nest.size * nest.size).no_duplicates(),
        forall|k: int| 0 <= k < nest.size * nest.size ==> nest.holds(#[trigger] v@[k]),
{
    let mut home: Vec<Cell> = nest.cells();
    let ghost sorted = home@;
    proof {
        sorted.lemma_multiset_has_no_duplicates();
    }
    shuffle(&mut home);
    proof {
        assert forall|x: Cell| home@.to_multiset().contains(x) implies home@.to_multiset().count(x) == 1 by {
            assert(sorted.to_multiset().contains(x));
        }
        home@.lemma_multiset_has_no_duplicates_conv();
        assert forall|k: int| 0 <= k < home@.len() implies nest.holds(#[trigger] home@[k]) by {
            broadcast use vstd::seq_lib::group_to_multiset_ensures;
            assert(home@.contains(home@[k]));
            assert(home@.to_multiset().count(home@[k]) > 0);
            assert(sorted.to_multiset().count(home@[k]) > 0);
            assert(sorted.contains(home@[k]));
        }
    }
    let all: Vec<Cell> = grid.cells();
    let mut outside: Vec<Cell> = Vec::new();
    let mut i: usize = 0;
    while i < all.len()
        invariant
            i <= all@.len(),
            nest.wf(),
        decreases all@.len() - i,
    {
        if !nest.contains(all[i]) {
            outside.push(all[i]);
        }
        i = i + 1;
    }
    shuffle(&mut outside);
    let ghost front = home@;
    home.append(&mut outside);
    proof {
        assert(home@.subrange(0, nest.size * nest.size) =~= front);
    }
    home
}

impl World {
    /// Puts up to `count` ants on the board. The colony starts at home and
    /// has to leave the nest before it can do anything; should there be more
    /// ants than free nest cells, the rest start outside rather than going
    /// missing. Each cell is used once, and only if nothing stands there.
    pub fn spawn_ants(&mut self, count: usize)
        requires
            old(self).wf(),
        ensures
            hatched_from(*old(self), *final(self), count),
            final(self).wf(),
            final(self).grid == old(self).grid,
            final(self).nest == old(self).nest,
            final(self).scent == old(self).scent,
            final(self).stores == old(self).stores,
            final(self).fruits@ == old(self).fruits@,
            final(self).plank == old(self).plank,
            old(self).ants@.len() <= final(self).ants@.len() <= old(self).ants@.len() + count,
            forall|j: int| 0 <= j < old(self).ants@.len() ==> #[trigger] final(self).ants@[j] == old(self).ants@[j],
            forall|j: int| old(self).ants@.len() <= j < final(self).ants@.len() ==> {
                let a = #[trigger] final(self).ants@[j];
                &&& hatched(a, j - old(self).ants@.len(), count as int)
                &&& old(self).occupancy.free(old(self).grid, a.pos)
            },
            final(self).occupancy.terrains() == old(self).occupancy.terrains(),
            // A nest with room for everybody, and enough names to go round:
            // the whole colony starts at home.
            (forall|c: Cell| old(self).nest.holds(c) ==> #[trigger] old(self).occupancy.free(old(self).grid, c))
                && count <= old(self).nest.size * old(self).nest.size
                && old(self).next_entity + count <= u32::MAX ==> {
                &&& final(self).ants@.len() == old(self).ants@.len() + count
                &&& forall|j: int| old(self).ants@.len() <= j < final(self).ants@.len()
                    ==> old(self).nest.holds(#[trigger] final(self).ants@[j].pos)
            },
    {
        let ghost before = *self;
        let ghost base = self.ants@.len();
        let ghost room: bool = (forall|c: Cell| before.nest.holds(c) ==> #[trigger] before.occupancy.free(before.grid, c))
            && count <= before.nest.size * before.nest.size && before.next_entity + count <= u32::MAX;
        let cells: Vec<Cell> = hatching_cells(self.grid, self.nest);
        let compass: Vec<Dir> = Dir::compass();
        let mut spawned: usize = 0;
        let mut k: usize = 0;
        while k < cells.len() && spawned < count
            invariant
                self.wf(),
                self.grid == before.grid,
                self.nest == before.nest,
                self.scent == before.scent,
                self.stores == before.stores,
                self.fruits@ == before.fruits@,
                self.plank == before.plank,
                k <= cells@.len(),
                spawned <= count,
                spawned <= k,
                self.next_entity == before.next_entity + spawned,
                self.ants@.len() == base + spawned,
                forall|j: int| 0 <= j < base ==> #[trigger] self.ants@[j] == before.ants@[j],
                forall|j: int| base <= j < self.ants@.len() ==> {
                    let a = #[trigger] self.ants@[j];
                    &&& hatched(a, j - base, count as int)
                    &&& before.occupancy.free(before.grid, a.pos)
                },
                self.occupancy.terrains() == before.occupancy.terrains(),
                forall|c: Cell| (forall|j: int| base <= j < self.ants@.len() ==> (#[trigger] self.ants@[j]).pos != c)
                    ==> #[trigger] self.occupancy.occupant(self.grid, c) == before.occupancy.occupant(before.grid, c),
                before.nest.size * before.nest.size <= cells@.len(),
                cells@.subrange(0, before.nest.size * before.nest.size).no_duplicates(),
                forall|l: int| 0 <= l < before.nest.size * before.nest.size ==> before.nest.holds(#[trigger] cells@[l]),
                room ==> (forall|c: Cell| before.nest.holds(c) ==> #[trigger] before.occupancy.free(before.grid, c)),
                room ==> count <= before.nest.size * before.nest.size,
                room ==> before.next_entity + count <= u32::MAX,
                room ==> spawned == k,
                room ==> forall|j: int| base <= j < self.ants@.len() ==> (#[trigger] self.ants@[j]).pos == cells@[j - base],
            decreases cells@.len() - k,
        {
            let c: Cell = cells[k];
            proof {
                if room {
                    let n = before.nest.size * before.nest.size;
                    assert(k < n);
                    assert(before.occupancy.free(before.grid, cells@[k as int]));
                    assert forall|j: int| base <= j < self.ants@.len() implies (#[trigger] self.ants@[j]).pos != c by {
                        let l = j - base;
                        assert(cells@.subrange(0, n)[l] == cells@[l]);
                        assert(cells@.subrange(0, n)[k as int] == cells@[k as int]);
                    }
                }
            }
            if self.next_entity < u32::MAX && self.occupancy.is_free(self.grid, c) {
                let ghost mid = *self;
                proof {
                    assert forall|j: int| base <= j < self.ants@.len() implies (#[trigger] self.ants@[j]).pos != c by {
                        assert(ant_ok(self.ants@[j], self.occupancy, self.grid));
                    }
                    assert(before.occupancy.free(before.grid, c));
                    lemma_free_is_unclaimed(mid, c);
                }
                let facing: Dir = match pick(compass.as_slice()) {
                    Some(d) => d,
                    None => Dir::North,
                };
                let e: u32 = self.next_entity;
                self.occupancy.occupy(self.grid, c, Occupant::Ant(e));
                let ant = Ant {
                    id: AntId(spawned as u32),
                    entity: e,
                    pos: c,
                    facing,
                    carrying: None,
                    since_nest: 0,
                    timer: ThinkTimer::staggered(spawned, count),
                    intent: None,
                    step: None,
                    last: LastDecision { action: None, confidence: None },
                };
                self.ants.push(ant);
                self.next_entity = e + 1;
                spawned = spawned + 1;
                proof {
                    lemma_untouched(
                        mid.occupancy,
                        self.occupancy,
                        self.grid,
                        c,
                        mid.ants@,
                        -1,
                        mid.fruits@,
                        mid.plank,
                    );
                    assert forall|j: int| 0 <= j < self.ants@.len() implies ant_ok(
                        #[trigger] self.ants@[j],
                        self.occupancy,
                        self.grid,
                    ) by {
                        if j < mid.ants@.len() {
                            assert(self.ants@[j] == mid.ants@[j]);
                        }
                    }
                    assert forall|j: int, l: int|
                        0 <= j < self.ants@.len() && 0 <= l < self.ants@.len() && j != l implies (
                    #[trigger] self.ants@[j]).entity != (#[trigger] self.ants@[l]).entity by {
                        if j < mid.ants@.len() && l < mid.ants@.len() {
                            assert(mid.ants@[j].entity != mid.ants@[l].entity);
                        } else if j < mid.ants@.len() {
                            assert(mid.ants@[j].entity < mid.next_entity);
                        } else if l < mid.ants@.len() {
                            assert(mid.ants@[l].entity < mid.next_entity);
                        }
                    }
                    assert forall|j: int| 0 <= j < self.ants@.len() implies (#[trigger] self.ants@[j]).entity
                        < self.next_entity by {
                        if j < mid.ants@.len() {
                            assert(mid.ants@[j].entity < mid.next_entity);
                        }
                    }
                    assert forall|j: int| 0 <= j < self.fruits@.len() implies (#[trigger] self.fruits@[j]).entity
                        < self.next_entity by {
                        assert(mid.fruits@[j].entity < mid.next_entity);
                    }
                    assert forall|c2: Cell| (forall|j: int| base <= j < self.ants@.len() ==> (#[trigger] self.ants@[j]).pos != c2)
                        implies #[trigger] self.occupancy.occupant(self.grid, c2) == before.occupancy.occupant(before.grid, c2) by {
                        assert(self.ants@[self.ants@.len() - 1].pos == c);
                        assert forall|j: int| base <= j < mid.ants@.len() implies (#[trigger] mid.ants@[j]).pos != c2 by {
                            assert(self.ants@[j] == mid.ants@[j]);
                        }
                    }
                }
            } else {
                proof {
                    if room {
                        assert(self.occupancy.occupant(self.grid, c) == before.occupancy.occupant(before.grid, c));
                        assert(false);
                    }
                }
            }
            k = k + 1;
        }
    }
}


/// What the ground of a fresh board is made of: river where `water` says, on
/// the board; plain ground everywhere else.
pub open spec fn dug(grid: Grid, water: Seq<(i32, i32)>, c: Cell) -> Terrain {
    if grid.holds(c) && water.contains((c.x, c.y)) {
        Terrain::Water
    } else {
        Terrain::Ground
    }
}

/// A fruit `e` was put on `c`, which was free; nothing else changed.
pub open spec fn sown(before: World, after: World, c: Cell) -> bool {
    &&& before.occupancy.free(before.grid, c)
    &&& after.grid == before.grid
    &&& after.nest == before.nest
    &&& after.scent == before.scent
    &&& after.stores == before.stores
    &&& after.ants@ == before.ants@
    &&& after.plank == before.plank
    &&& after.next_entity == before.next_entity + 1
    &&& after.fruits@ == before.fruits@.push(Fruit { entity: before.next_entity, at: Some(c) })
    &&& put_on(before.occupancy, after.occupancy, before.grid, c, Some(Occupant::Fruit(before.next_entity)))
}

/// A board with nothing on it but its river: no ant, no fruit, no plank, no
/// scent, and every identity still to give.
pub open spec fn bare(w: World, grid: Grid, nest: Nest, water: Seq<(i32, i32)>) -> bool {
    &&& w.wf()
    &&& w.grid == grid
    &&& w.nest == nest
    &&& w.stores == 0
    &&& w.ants@.len() == 0
    &&& w.fruits@.len() == 0
    &&& w.plank is None
    &&& w.next_entity == 0
    &&& w.scent.lays()
    &&& forall|c: Cell| #[trigger] w.scent.strength(grid, c) == 0
    &&& forall|c: Cell| #[trigger] w.occupancy.occupant(grid, c) is None
    &&& forall|c: Cell| #[trigger] w.occupancy.terrain(grid, c) == dug(grid, water, c)
}

/// What `spawn_ants` does: up to `count` ants hatched on free cells, the rest
/// of the board as it was; with a nest that has room for all of them and
/// identities to go round, exactly `count`, all inside the nest.
pub open spec fn hatched_from(before: World, after: World, count: usize) -> bool {
    &&& after.wf()
    &&& after.grid == before.grid
    &&& after.nest == before.nest
    &&& after.scent == before.scent
    &&& after.stores == before.stores
    &&& after.fruits@ == before.fruits@
    &&& after.plank == before.plank
    &&& before.ants@.len() <= after.ants@.len() <= before.ants@.len() + count
    &&& forall|j: int| 0 <= j < before.ants@.len() ==> #[trigger] after.ants@[j] == before.ants@[j]
    &&& forall|j: int| before.ants@.len() <= j < after.ants@.len() ==> {
        let a = #[trigger] after.ants@[j];
        &&& hatched(a, j - before.ants@.len(), count as int)
        &&& before.occupancy.free(before.grid, a.pos)
    }
    &&& after.occupancy.terrains() == before.occupancy.terrains()
    &&& (forall|c: Cell| before.nest.holds(c) ==> #[trigger] before.occupancy.free(before.grid, c))
        && count <= before.nest.size * before.nest.size && before.next_entity + count <= u32::MAX ==> {
        &&& after.ants@.len() == before.ants@.len() + count
        &&& forall|j: int| before.ants@.len() <= j < after.ants@.len() ==> before.nest.holds(#[trigger] after.ants@[j].pos)
    }
}

/// What `spawn_plank` does: the plank on its cell when the cell is free and
/// an identity is left, and nothing otherwise.
pub open spec fn plank_placed(before: World, after: World, at: Option<(i32, i32)>) -> bool {
    &&& after.wf()
    &&& after.grid == before.grid
    &&& after.nest == before.nest
    &&& after.scent == before.scent
    &&& after.stores == before.stores
    &&& after.ants@ == before.ants@
    &&& after.fruits@ == before.fruits@
    &&& match at {
        Some(p) => if before.occupancy.free(before.grid, cell_of(p)) && before.next_entity < u32::MAX {
            &&& after.plank == Some(PlankItem {
                entity: before.next_entity,
                at: Some(cell_of(p)),
                state: Plank { carrier: None, target: None, laid: false },
            })
            &&& after.next_entity == before.next_entity + 1
            &&& put_on(before.occupancy, after.occupancy, before.grid, cell_of(p), Some(Occupant::Plank(before.next_entity)))
        } else {
            after == before
        },
        None => after == before,
    }
}

/// The board of the open field.
pub open spec fn open_field_grid() -> Grid {
    Grid { width: crate::config::GRID_WIDTH, height: crate::config::GRID_HEIGHT }
}

/// The nest of the open field, as `Nest::default` gives it.
pub open spec fn open_field_nest() -> Nest {
    Nest {
        min: Cell {
            x: ((crate::config::GRID_WIDTH - crate::config::NEST_SIZE) / 2) as i32,
            y: ((crate::config::GRID_HEIGHT - crate::config::NEST_SIZE) / 2) as i32,
        },
        size: crate::config::NEST_SIZE,
    }
}

/// The level a world was started as: the board with its river, its fruit
/// planted, its plank laid and its colony hatched; the open field with the
/// default board and nest, `FRUIT_TARGET` fruits and `ANT_COUNT` ants.
pub open spec fn started_as(scenario: Option<&Scenario>, w: World) -> bool {
    match scenario {
        Some(s) => exists|ws: Seq<World>, p: World|
            #![trigger planted_in_turn(ws, s.fruit@), hatched_from(p, w, s.ants)]
            planted_in_turn(ws, s.fruit@) && bare(ws[0], s.board(), s.nest_spec(), s.water@)
                && plank_placed(ws[s.fruit@.len() as int], p, s.plank_at) && hatched_from(p, w, s.ants),
        None => exists|ws: Seq<World>|
            #[trigger] planted_times(ws, FRUIT_TARGET as nat) && bare(
                ws[0],
                open_field_grid(),
                open_field_nest(),
                Seq::empty(),
            ) && hatched_from(ws[FRUIT_TARGET as int], w, ANT_COUNT),
    }
}

/// A board a world can be built on: cells that can be numbered, and a nest.
pub open spec fn board_fits(grid: Grid, nest: Nest) -> bool {
    &&& grid.wf()
    &&& grid.width <= 100_000
    &&& grid.height <= 100_000
    &&& nest.wf()
}

impl World {
    /// A board with nothing on it yet. The river is dug before anything
    /// stands on the board, so nothing can ever be placed into it.
    pub fn empty(grid: Grid, nest: Nest, water: &Vec<(i32, i32)>) -> (w: World)
        requires
            board_fits(grid, nest),
        ensures
            bare(w, grid, nest, water@),
            w.wf(),
            w.grid == grid,
            w.nest == nest,
            w.stores == 0,
            w.ants@.len() == 0,
            w.fruits@.len() == 0,
            w.plank is None,
            w.next_entity == 0,
            w.scent.lays(),
            forall|c: Cell| #[trigger] w.scent.strength(grid, c) == 0,
            forall|c: Cell| #[trigger] w.occupancy.occupant(grid, c) is None,
            forall|c: Cell| #[trigger] w.occupancy.terrain(grid, c) == dug(grid, water@, c),
    {
        let mut occupancy: Occupancy = Occupancy::new(grid);
        let mut i: usize = 0;
        while i < water.len()
            invariant
                grid.wf(),
                occupancy.wf(grid),
                i <= water@.len(),
                forall|c: Cell| #[trigger] occupancy.occupant(grid, c) is None,
                forall|c: Cell| #[trigger] occupancy.terrain(grid, c) == dug(grid, water@.take(i as int), c),
            decreases water@.len() - i,
        {
            let (x, y) = water[i];
            let cell = Cell { x, y };
            let ghost prev = occupancy;
            if grid.contains(cell) {
                occupancy.set_terrain(grid, cell, Terrain::Water);
            }
            proof {
                assert forall|c: Cell| #[trigger] occupancy.occupant(grid, c) is None by {
                    assert(occupancy.occupant(grid, c) == prev.occupant(grid, c));
                }
                let short = water@.take(i as int);
                let long = water@.take(i + 1);
                assert(long =~= short.push((x, y)));
                assert forall|c: Cell| #[trigger] occupancy.terrain(grid, c) == dug(grid, long, c) by {
                    let p = (c.x, c.y);
                    if short.contains(p) {
                        let m = choose|m: int| 0 <= m < short.len() && short[m] == p;
                        assert(long[m] == p);
                    }
                    if long.contains(p) && p != (x, y) {
                        let m = choose|m: int| 0 <= m < long.len() && long[m] == p;
                        assert(m < short.len());
                        assert(short[m] == p);
                    }
                    if c == cell {
                        assert(long[i as int] == p);
                    } else {
                        assert(p != (x, y));
                    }
                }
            }
            i = i + 1;
        }
        proof {
            assert(water@.take(water@.len() as int) =~= water@);
        }
        World {
            grid,
            nest,
            occupancy,
            scent: Scent::new(grid),
            stores: 0,
            ants: Vec::new(),
            fruits: Vec::new(),
            plank: None,
            next_entity: 0,
        }
    }

    /// One fruit on a named cell. A cell already taken, or under water, is
    /// left alone rather than overwritten.
    pub fn plant_at(&mut self, cell: Cell) -> (planted: bool)
        requires
            old(self).wf(),
        ensures
            final(self).wf(),
            planted == (old(self).occupancy.free(old(self).grid, cell) && old(self).next_entity < u32::MAX),
            planted ==> sown(*old(self), *final(self), cell),
            !planted ==> *final(self) == *old(self),
    {
        if self.next_entity == u32::MAX || !self.occupancy.is_free(self.grid, cell) {
            return false;
        }
        let ghost before = *self;
        proof {
            lemma_free_is_unclaimed(before, cell);
        }
        let e: u32 = self.next_entity;
        self.occupancy.occupy(self.grid, cell, Occupant::Fruit(e));
        self.fruits.push(Fruit { entity: e, at: Some(cell) });
        self.next_entity = e + 1;
        proof {
            lemma_untouched(
                before.occupancy,
                self.occupancy,
                self.grid,
                cell,
                before.ants@,
                -1,
                before.fruits@,
                before.plank,
            );
            assert forall|j: int| 0 <= j < self.fruits@.len() implies fruit_ok(
                #[trigger] self.fruits@[j],
                self.occupancy,
                self.grid,
            ) by {
                if j < before.fruits@.len() {
                    assert(self.fruits@[j] == before.fruits@[j]);
                }
            }
            assert forall|j: int, l: int|
                0 <= j < self.fruits@.len() && 0 <= l < self.fruits@.len() && j != l implies (
            #[trigger] self.fruits@[j]).entity != (#[trigger] self.fruits@[l]).entity by {
                if j < before.fruits@.len() {
                    assert(before.fruits@[j].entity < before.next_entity);
                }
                if l < before.fruits@.len() {
                    assert(before.fruits@[l].entity < before.next_entity);
                }
            }
            assert forall|j: int| 0 <= j < self.fruits@.len() implies (#[trigger] self.fruits@[j]).entity
                < self.next_entity by {
                if j < before.fruits@.len() {
                    assert(before.fruits@[j].entity < before.next_entity);
                }
            }
            assert forall|j: int| 0 <= j < self.ants@.len() implies (#[trigger] self.ants@[j]).entity
                < self.next_entity by {
                assert(before.ants@[j].entity < before.next_entity);
            }
        }
        true
    }

    /// Puts one fruit on a free cell outside the nest, picked at random.
    /// Nothing grows in the nest: a fruit there would be delivered the moment
    /// it appeared. A full board grows nothing.
    pub fn plant(&mut self)
        requires
            old(self).wf(),
        ensures
            final(self).wf(),
            *final(self) == *old(self) || exists|c: Cell| !old(self).nest.holds(c) && #[trigger] sown(
                *old(self),
                *final(self),
                c,
            ),
            (exists|c: Cell| !old(self).nest.holds(c) && #[trigger] old(self).occupancy.free(old(self).grid, c))
                && old(self).next_entity < u32::MAX ==> *final(self) != *old(self),
    {
        let all: Vec<Cell> = self.grid.cells();
        let mut candidates: Vec<Cell> = Vec::new();
        let mut i: usize = 0;
        while i < all.len()
            invariant
                self.wf(),
                i <= all@.len(),
                all@.len() == self.grid.area(),
                forall|k: int| 0 <= k < all@.len() ==> self.grid.holds(#[trigger] all@[k]) && self.grid.slot(all@[k]) == k,
                forall|k: int| 0 <= k < candidates@.len() ==> !self.nest.holds(#[trigger] candidates@[k])
                    && self.occupancy.free(self.grid, candidates@[k]),
                forall|k: int| 0 <= k < i && !self.nest.holds(#[trigger] all@[k]) && self.occupancy.free(self.grid, all@[k])
                    ==> candidates@.contains(all@[k]),
            decreases all@.len() - i,
        {
            let c: Cell = all[i];
            if !self.nest.contains(c) && self.occupancy.is_free(self.grid, c) {
                let ghost prev = candidates@;
                candidates.push(c);
                proof {
                    assert forall|k: int| 0 <= k < i + 1 && !self.nest.holds(#[trigger] all@[k]) && self.occupancy.free(self.grid, all@[k])
                        implies candidates@.contains(all@[k]) by {
                        if k < i {
                            let m = choose|m: int| 0 <= m < prev.len() && prev[m] == all@[k];
                            assert(candidates@[m] == all@[k]);
                        } else {
                            assert(candidates@[candidates@.len() - 1] == c);
                        }
                    }
                }
            }
            i = i + 1;
        }
        proof {
            if exists|c: Cell| !self.nest.holds(c) && #[trigger] self.occupancy.free(self.grid, c) {
                let c = choose|c: Cell| !self.nest.holds(c) && #[trigger] self.occupancy.free(self.grid, c);
                crate::grid::lemma_slot_bounds(self.grid, c);
                let k = self.grid.slot(c);
                crate::grid::lemma_slot_injective(self.grid, c, all@[k]);
                assert(candidates@.contains(all@[k]));
            }
        }
        match pick(candidates.as_slice()) {
            Some(c) => {
                proof {
                    let m = choose|m: int| 0 <= m < candidates@.len() && candidates@[m] == c;
                    assert(!self.nest.holds(candidates@[m]));
                }
                let ghost before = *self;
                let planted: bool = self.plant_at(c);
                proof {
                    if planted {
                        assert(sown(before, *self, c));
                        assert(self.fruits@.len() != before.fruits@.len());
                    }
                }
            },
            None => {},
        }
    }
}


/// The fruit timer of the open field: one more fruit every
/// `FRUIT_REGROWTH_MS`, while the board is short of its target.
pub struct Regrowth(pub ThinkTimer);

impl Regrowth {
    pub fn default() -> (r: Regrowth)
        ensures
            r.0.wf(),
            r.0.duration_ms == FRUIT_REGROWTH_MS,
            r.0.elapsed_ms == 0,
    {
        Regrowth(ThinkTimer { duration_ms: FRUIT_REGROWTH_MS, elapsed_ms: 0 })
    }
}

/// Nothing but the fruit, the table and the identities changed.
pub open spec fn only_fruit_changed(before: World, after: World) -> bool {
    &&& after.grid == before.grid
    &&& after.nest == before.nest
    &&& after.scent == before.scent
    &&& after.stores == before.stores
    &&& after.ants@ == before.ants@
    &&& after.plank == before.plank
    &&& after.occupancy.terrains() == before.occupancy.terrains()
    &&& before.fruits@.len() <= after.fruits@.len()
    &&& forall|j: int| 0 <= j < before.fruits@.len() ==> #[trigger] after.fruits@[j] == before.fruits@[j]
}

/// What `regrow` does over `delta_ms`: nothing on a task board; on the open
/// field the clock runs on, and when it is due and the board is short of
/// fruit, one fruit grows wherever `plant` puts it.
pub open spec fn regrew(
    before: World,
    after: World,
    timer_before: ThinkTimer,
    timer_after: ThinkTimer,
    delta_ms: int,
    task_board: bool,
) -> bool {
    &&& after.wf()
    &&& timer_after.wf()
    &&& task_board ==> after == before && timer_after == timer_before
    &&& !task_board ==> timer_after == crate::colony::ticked(timer_before, delta_ms)
    &&& !task_board && crate::colony::due(timer_before, delta_ms) && before.fruits@.len() < FRUIT_TARGET
        ==> planted_somewhere(before, after)
    &&& !(!task_board && crate::colony::due(timer_before, delta_ms) && before.fruits@.len() < FRUIT_TARGET)
        ==> after == before
}

/// What `plant_at` does with `cell`: a fruit is sown there when the cell is
/// free and an identity is left to give it; otherwise nothing changes.
pub open spec fn planted_at(before: World, after: World, cell: Cell) -> bool {
    if before.occupancy.free(before.grid, cell) && before.next_entity < u32::MAX {
        sown(before, after, cell)
    } else {
        after == before
    }
}

/// What `plant` does: a fruit on some free cell outside the nest when there
/// is one and an identity is left; otherwise nothing changes.
pub open spec fn planted_somewhere(before: World, after: World) -> bool {
    if (exists|c: Cell| !before.nest.holds(c) && #[trigger] before.occupancy.free(before.grid, c))
        && before.next_entity < u32::MAX {
        exists|c: Cell| !before.nest.holds(c) && #[trigger] sown(before, after, c)
    } else {
        after == before
    }
}

/// `ws` are the boards between plantings on the cells of `list`, one after another.
pub open spec fn planted_in_turn(ws: Seq<World>, list: Seq<(i32, i32)>) -> bool {
    &&& ws.len() == list.len() + 1
    &&& forall|k: int| 0 <= k < list.len() ==> #[trigger] planted_at(ws[k], ws[k + 1], Cell { x: list[k].0, y: list[k].1 })
}

/// `ws` are the boards between `n` plantings on random cells.
pub open spec fn planted_times(ws: Seq<World>, n: nat) -> bool {
    &&& ws.len() == n + 1
    &&& forall|k: int| 0 <= k < n ==> #[trigger] planted_somewhere(ws[k], ws[k + 1])
}

impl World {
    /// The first fruit of a level. On a task board the fruit lies where the
    /// board says, or the puzzle would be different every time it is tried;
    /// the open field gets `FRUIT_TARGET` fruits on random free cells outside
    /// the nest.
    pub fn plant_first_fruits(&mut self, fruit: Option<&Vec<(i32, i32)>>)
        requires
            old(self).wf(),
        ensures
            final(self).wf(),
            only_fruit_changed(*old(self), *final(self)),
            match fruit {
                Some(list) => {
                    &&& final(self).fruits@.len() <= old(self).fruits@.len() + list@.len()
                    &&& forall|j: int| old(self).fruits@.len() <= j < final(self).fruits@.len() ==> {
                        let f = #[trigger] final(self).fruits@[j];
                        &&& f.at is Some
                        &&& list@.contains((f.at.unwrap().x, f.at.unwrap().y))
                    }
                },
                None => {
                    &&& final(self).next_entity <= old(self).next_entity + FRUIT_TARGET
                    &&& forall|c: Cell| old(self).nest.holds(c) ==> #[trigger] final(self).occupancy.occupant(
                        old(self).grid,
                        c,
                    ) == old(self).occupancy.occupant(old(self).grid, c)
                },
            },
            match fruit {
                Some(list) => exists|ws: Seq<World>| #[trigger] planted_in_turn(ws, list@) && ws[0] == *old(self)
                    && ws[list@.len() as int] == *final(self),
                None => exists|ws: Seq<World>| #[trigger] planted_times(ws, FRUIT_TARGET as nat) && ws[0] == *old(self)
                    && ws[FRUIT_TARGET as int] == *final(self),
            },
    {
        let ghost before = *self;
        let ghost mut ws: Seq<World> = seq![*self];
        match fruit {
            Some(list) => {
                let mut i: usize = 0;
                while i < list.len()
                    invariant
                        self.wf(),
                        before.wf(),
                        i <= list@.len(),
                        only_fruit_changed(before, *self),
                        self.fruits@.len() <= before.fruits@.len() + i,
                        forall|j: int| before.fruits@.len() <= j < self.fruits@.len() ==> {
                            let f = #[trigger] self.fruits@[j];
                            &&& f.at is Some
                            &&& list@.contains((f.at.unwrap().x, f.at.unwrap().y))
                        },
                        planted_in_turn(ws, list@.take(i as int)),
                        ws[0] == before,
                        ws[i as int] == *self,
                    decreases list@.len() - i,
                {
                    let (x, y) = list[i];
                    let ghost mid = *self;
                    let planted: bool = self.plant_at(Cell { x, y });
                    proof {
                        let ws2 = ws.push(*self);
                        assert(planted_at(mid, *self, Cell { x, y }));
                        assert forall|k: int| 0 <= k < i + 1 implies #[trigger] planted_at(
                            ws2[k],
                            ws2[k + 1],
                            Cell { x: list@.take(i + 1)[k].0, y: list@.take(i + 1)[k].1 },
                        ) by {
                            if k < i {
                                assert(list@.take(i + 1)[k] == list@.take(i as int)[k]);
                                assert(planted_at(ws[k], ws[k + 1], Cell { x: list@.take(i as int)[k].0, y: list@.take(i as int)[k].1 }));
                            } else {
                                assert(list@.take(i + 1)[k] == (x, y));
                            }
                        }
                        ws = ws2;
                    }
                    proof {
                        if planted {
                            assert(self.fruits@[self.fruits@.len() - 1].at == Some(Cell { x, y }));
                            assert(list@[i as int] == (x, y));
                            assert forall|j: int| before.fruits@.len() <= j < self.fruits@.len() implies {
                                let f = #[trigger] self.fruits@[j];
                                &&& f.at is Some
                                &&& list@.contains((f.at.unwrap().x, f.at.unwrap().y))
                            } by {
                                if j < mid.fruits@.len() {
                                    assert(self.fruits@[j] == mid.fruits@[j]);
                                }
                            }
                            assert forall|j: int| 0 <= j < before.fruits@.len() implies #[trigger] self.fruits@[j]
                                == before.fruits@[j] by {
                                assert(self.fruits@[j] == mid.fruits@[j]);
                            }
                        }
                    }
                    i = i + 1;
                }
                proof {
                    assert(list@.take(list@.len() as int) =~= list@);
                }
            },
            None => {
                let mut i: usize = 0;
                while i < FRUIT_TARGET
                    invariant
                        self.wf(),
                        i <= FRUIT_TARGET,
                        planted_times(ws, i as nat),
                        ws[0] == before,
                        ws[i as int] == *self,
                        only_fruit_changed(before, *self),
                        self.next_entity <= before.next_entity + i,
                        forall|c: Cell| before.nest.holds(c) ==> #[trigger] self.occupancy.occupant(before.grid, c)
                            == before.occupancy.occupant(before.grid, c),
                    decreases FRUIT_TARGET - i,
                {
                    let ghost mid = *self;
                    self.plant();
                    proof {
                        if *self == mid {
                            if (exists|c: Cell| !mid.nest.holds(c) && #[trigger] mid.occupancy.free(mid.grid, c))
                                && mid.next_entity < u32::MAX {
                                assert(false);
                            }
                        }
                        assert(planted_somewhere(mid, *self));
                        let ws2 = ws.push(*self);
                        assert forall|k: int| 0 <= k < i + 1 implies #[trigger] planted_somewhere(ws2[k], ws2[k + 1]) by {
                            if k < i {
                                assert(planted_somewhere(ws[k], ws[k + 1]));
                            }
                        }
                        ws = ws2;
                    }
                    proof {
                        if *self != mid {
                            let c = choose|c: Cell| !mid.nest.holds(c) && #[trigger] sown(mid, *self, c);
                            assert forall|d: Cell| before.nest.holds(d) implies #[trigger] self.occupancy.occupant(
                                before.grid,
                                d,
                            ) == before.occupancy.occupant(before.grid, d) by {
                                assert(d != c);
                                assert(self.occupancy.occupant(before.grid, d) == mid.occupancy.occupant(before.grid, d));
                            }
                            assert forall|j: int| 0 <= j < before.fruits@.len() implies #[trigger] self.fruits@[j]
                                == before.fruits@[j] by {
                                assert(self.fruits@[j] == mid.fruits@[j]);
                            }
                        }
                    }
                    i = i + 1;
                }
            },
        }
    }

    /// Without regrowth the open field is bare after a few deliveries and the
    /// colony stands around. A task board does not top itself up: what is
    /// there is what there is, and that is what makes it a task.
    pub fn regrow(&mut self, regrowth: &mut Regrowth, delta_ms: u64, task_board: bool)
        requires
            old(self).wf(),
            old(regrowth).0.wf(),
            delta_ms <= 0x1_0000_0000,
        ensures
            regrew(*old(self), *final(self), old(regrowth).0, final(regrowth).0, delta_ms as int, task_board),
            final(self).wf(),
            final(regrowth).0.wf(),
            task_board ==> *final(self) == *old(self) && final(regrowth).0 == old(regrowth).0,
            !task_board ==> final(regrowth).0 == crate::colony::ticked(old(regrowth).0, delta_ms as int),
            !task_board && crate::colony::due(old(regrowth).0, delta_ms as int) && old(self).fruits@.len()
                < FRUIT_TARGET ==> (*final(self) == *old(self) || exists|c: Cell| !old(self).nest.holds(c)
                && #[trigger] sown(*old(self), *final(self), c)),
            !(!task_board && crate::colony::due(old(regrowth).0, delta_ms as int) && old(self).fruits@.len()
                < FRUIT_TARGET) ==> *final(self) == *old(self),
            !task_board && crate::colony::due(old(regrowth).0, delta_ms as int) && old(self).fruits@.len()
                < FRUIT_TARGET ==> planted_somewhere(*old(self), *final(self)),
    {
        if task_board {
            return;
        }
        if !regrowth.0.tick(delta_ms) {
            return;
        }
        if self.fruits.len() >= FRUIT_TARGET {
            return;
        }
        let ghost mid = *self;
        self.plant();
        proof {
            if *self == mid {
                if (exists|c: Cell| !mid.nest.holds(c) && #[trigger] mid.occupancy.free(mid.grid, c))
                    && mid.next_entity < u32::MAX {
                    assert(false);
                }
            }
        }
    }

    /// Puts the plank on the board, if the level has one and its cell is
    /// free.
    pub fn spawn_plank(&mut self, at: Option<(i32, i32)>)
        requires
            old(self).wf(),
            old(self).plank is None,
        ensures
            plank_placed(*old(self), *final(self), at),
            final(self).wf(),
            final(self).grid == old(self).grid,
            final(self).nest == old(self).nest,
            final(self).scent == old(self).scent,
            final(self).stores == old(self).stores,
            final(self).ants@ == old(self).ants@,
            final(self).fruits@ == old(self).fruits@,
            match at {
                Some(p) => if old(self).occupancy.free(old(self).grid, cell_of(p)) && old(self).next_entity < u32::MAX {
                    &&& final(self).plank == Some(PlankItem {
                        entity: old(self).next_entity,
                        at: Some(cell_of(p)),
                        state: Plank { carrier: None, target: None, laid: false },
                    })
                    &&& final(self).next_entity == old(self).next_entity + 1
                    &&& put_on(
                        old(self).occupancy,
                        final(self).occupancy,
                        old(self).grid,
                        cell_of(p),
                        Some(Occupant::Plank(old(self).next_entity)),
                    )
                } else {
                    *final(self) == *old(self)
                },
                None => *final(self) == *old(self),
            },
    {
        let (x, y) = match at {
            Some(p) => p,
            None => {
                return;
            },
        };
        let cell = Cell { x, y };
        if self.next_entity == u32::MAX || !self.occupancy.is_free(self.grid, cell) {
            return;
        }
        let ghost before = *self;
        proof {
            lemma_free_is_unclaimed(before, cell);
        }
        let e: u32 = self.next_entity;
        self.occupancy.occupy(self.grid, cell, Occupant::Plank(e));
        self.plank = Some(PlankItem { entity: e, at: Some(cell), state: Plank::default() });
        self.next_entity = e + 1;
        proof {
            lemma_untouched(
                before.occupancy,
                self.occupancy,
                self.grid,
                cell,
                before.ants@,
                -1,
                before.fruits@,
                None,
            );
            assert forall|j: int| 0 <= j < self.ants@.len() implies (#[trigger] self.ants@[j]).entity
                < self.next_entity by {
                assert(before.ants@[j].entity < before.next_entity);
            }
            assert forall|j: int| 0 <= j < self.fruits@.len() implies (#[trigger] self.fruits@[j]).entity
                < self.next_entity by {
                assert(before.fruits@[j].entity < before.next_entity);
            }
        }
    }
}

impl Scenario {
    /// The board this scenario describes.
    pub open spec fn nest_spec(&self) -> Nest {
        Nest { min: cell_of(self.nest_at), size: self.nest_size }
    }

    /// Whether a world can be built on this board: its cells can be numbered
    /// and it has a nest.
    pub fn fits(&self) -> (b: bool)
        ensures
            b == board_fits(self.board(), self.nest_spec()),
    {
        if self.width <= 0 || self.height <= 0 || self.width > 100_000 || self.height > 100_000 {
            return false;
        }
        let w: i64 = self.width as i64;
        let h: i64 = self.height as i64;
        assert(w * h <= 10_000_000_000) by (nonlinear_arith)
            requires
                0 < w <= 100_000,
                0 < h <= 100_000,
        ;
        w * h <= i32::MAX as i64 && self.nest_size > 0 && self.nest_at.0 as i64 + self.nest_size as i64
            <= i32::MAX as i64 && self.nest_at.1 as i64 + self.nest_size as i64 <= i32::MAX as i64
    }
}

/// What the colony carries over from one attempt to the next: nothing but
/// the bill.
pub struct Session {
    pub awake: ColonyAwake,
    pub order: QueenOrder,
    pub stats: DecisionStats,
    pub discards: DiscardLog,
    /// The ant the inspector looks at.
    pub selected: Option<AntId>,
    pub solved: Solved,
}

/// Starts a level, or starts it again: a fresh board with its river, its
/// fruit and its plank, and the colony at home, asleep, waiting to be spoken
/// to. What has been spent stays spent; only the per-level request count
/// starts again.
pub fn start_level(scenario: Option<&Scenario>, session: &mut Session) -> (w: World)
    requires
        scenario matches Some(s) ==> board_fits(s.board(), s.nest_spec()),
    ensures
        w.wf(),
        w.stores == 0,
        !final(session).awake.0,
        final(session).order.0@.len() == 0,
        !final(session).solved.0,
        final(session).selected is None,
        final(session).discards.0@.len() == 0,
        final(session).stats.this_level == 0,
        final(session).stats.from_jev == old(session).stats.from_jev,
        final(session).stats.from_rules == old(session).stats.from_rules,
        final(session).stats.discarded == old(session).stats.discarded,
        final(session).stats.latency_sum() == old(session).stats.latency_sum(),
        final(session).stats.input_tokens == old(session).stats.input_tokens,
        forall|c: Cell| #[trigger] w.scent.strength(w.grid, c) == 0,
        started_as(scenario, w),
        match scenario {
            Some(s) => {
                &&& w.grid == s.board()
                &&& w.nest == s.nest_spec()
                &&& forall|c: Cell| #[trigger] w.occupancy.terrain(w.grid, c) == dug(w.grid, s.water@, c)
                &&& w.ants@.len() <= s.ants
                &&& w.fruits@.len() <= s.fruit@.len()
            },
            None => {
                &&& w.grid == Grid { width: crate::config::GRID_WIDTH, height: crate::config::GRID_HEIGHT }
                &&& w.nest == open_field_nest()
                &&& forall|c: Cell| #[trigger] w.occupancy.terrain(w.grid, c) == Terrain::Ground
                &&& w.plank is None
                &&& w.ants@.len() == ANT_COUNT
                &&& forall|j: int| 0 <= j < w.ants@.len() ==> w.nest.holds(#[trigger] w.ants@[j].pos)
            },
        },
{
    session.awake = ColonyAwake(false);
    session.order = QueenOrder(String::new());
    session.solved = Solved(false);
    session.selected = None;
    session.discards = DiscardLog::default();
    session.stats.start_new_level();
    match scenario {
        Some(s) => {
            let mut w: World = World::empty(s.grid(), s.nest(), &s.water);
            let ghost board = w;
            w.plant_first_fruits(Some(&s.fruit));
            let ghost ws = choose|ws: Seq<World>| #[trigger] planted_in_turn(ws, s.fruit@) && ws[0] == board
                && ws[s.fruit@.len() as int] == w;
            let ghost fruited = w;
            w.spawn_plank(s.plank_at);
            let ghost planked = w;
            w.spawn_ants(s.ants);
            proof {
                assert(planted_in_turn(ws, s.fruit@) && bare(ws[0], s.board(), s.nest_spec(), s.water@)
                    && plank_placed(ws[s.fruit@.len() as int], planked, s.plank_at) && hatched_from(planked, w, s.ants));
                assert(w.grid == s.board());
                assert(w.nest == s.nest_spec());
                assert(w.ants@.len() <= s.ants);
                assert(w.fruits@.len() <= s.fruit@.len());
                assert(w.occupancy.terrains() == board.occupancy.terrains());
                assert forall|c: Cell| #[trigger] w.occupancy.terrain(w.grid, c) == dug(w.grid, s.water@, c) by {
                    assert(w.occupancy.terrain(w.grid, c) == board.occupancy.terrain(board.grid, c));
                }
            }
            w
        },
        None => {
            let grid: Grid = Grid::default();
            let nest: Nest = Nest::default();
            proof {
                crate::nest::lemma_default_nest_on_default_grid();
            }
            let none: Vec<(i32, i32)> = Vec::new();
            let mut w: World = World::empty(grid, nest, &none);
            let ghost board = w;
            w.plant_first_fruits(None);
            let ghost ws = choose|ws: Seq<World>| #[trigger] planted_times(ws, FRUIT_TARGET as nat) && ws[0] == board
                && ws[FRUIT_TARGET as int] == w;
            proof {
                assert(none@ =~= Seq::<(i32, i32)>::empty());
                assert forall|c: Cell| w.nest.holds(c) implies #[trigger] w.occupancy.free(w.grid, c) by {
                    assert(w.occupancy.occupant(board.grid, c) == board.occupancy.occupant(board.grid, c));
                    assert(w.occupancy.terrain(w.grid, c) == board.occupancy.terrain(board.grid, c));
                    assert(!none@.contains((c.x, c.y)));
                }
                assert forall|c: Cell| #[trigger] w.occupancy.terrain(w.grid, c) == Terrain::Ground by {
                    assert(w.occupancy.terrain(w.grid, c) == board.occupancy.terrain(board.grid, c));
                    assert(!none@.contains((c.x, c.y)));
                }
            }
            let ghost stocked = w;
            w.spawn_ants(ANT_COUNT);
            proof {
                assert(planted_times(ws, FRUIT_TARGET as nat) && bare(
                    ws[0],
                    open_field_grid(),
                    open_field_nest(),
                    Seq::empty(),
                ) && hatched_from(ws[FRUIT_TARGET as int], w, ANT_COUNT));
                assert forall|c: Cell| #[trigger] w.occupancy.terrain(w.grid, c) == Terrain::Ground by {
                    assert(w.occupancy.terrain(w.grid, c) == stocked.occupancy.terrain(stocked.grid, c));
                }
            }
            w
        },
    }
}

} // verus!
