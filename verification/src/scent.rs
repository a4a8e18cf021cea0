//! The scent trail: how an ant finds its way back to the nest.
//!
//! A searching ant marks the ground behind it, less with every step since it
//! was last home, so the trail is strongest at the nest and an ant that walks
//! uphill walks home. Strengths are parts per million.

use vstd::prelude::*;

use crate::config::{PPM, SCENT_DEPOSIT_PPM, SCENT_STEP_DECAY_PERCENT, SCENT_THRESHOLD_PPM};
use crate::grid::{compass, lemma_slot_bounds, lemma_slot_injective, reachable, shifted, Cell, Dir, Grid};

verus! {

/// What a searching ant leaves `steps` steps away from the nest: the full
/// deposit, shrunk to 88 % (rounded down) with every further step.
pub open spec fn trail_strength(steps: nat) -> nat
    decreases steps,
{
    if steps == 0 {
        SCENT_DEPOSIT_PPM as nat
    } else {
        trail_strength((steps - 1) as nat) * (SCENT_STEP_DECAY_PERCENT as nat) / 100
    }
}

/// A deposit never exceeds the full amount.
pub proof fn lemma_trail_bounded(steps: nat)
    ensures
        trail_strength(steps) <= SCENT_DEPOSIT_PPM,
    decreases steps,
{
    if steps > 0 {
        lemma_trail_bounded((steps - 1) as nat);
    }
}

/// The trail gets fainter the further from the nest: every further step
/// leaves strictly less, until nothing is left, and nothing stays nothing.
pub proof fn lemma_trail_fades(steps: nat)
    ensures
        trail_strength(steps) > 0 ==> trail_strength(steps + 1) < trail_strength(steps),
        trail_strength(steps) == 0 ==> trail_strength(steps + 1) == 0,
{
    let a = trail_strength(steps);
    assert(trail_strength(steps + 1) == a * 88 / 100);
    assert(a > 0 ==> a * 88 / 100 < a) by (nonlinear_arith);
    assert(a == 0 ==> a * 88 / 100 == 0) by (nonlinear_arith);
}

/// Further from the nest never smells stronger.
pub proof fn lemma_trail_monotone(near: nat, far: nat)
    requires
        near <= far,
    ensures
        trail_strength(far) <= trail_strength(near),
    decreases far - near,
{
    if near < far {
        lemma_trail_monotone(near, (far - 1) as nat);
        lemma_trail_fades((far - 1) as nat);
    }
}

/// What a searching ant leaves behind, `steps` steps away from the nest.
pub fn deposit_amount(steps: u32) -> (a: u32)
    ensures
        a == trail_strength(steps as nat),
{
    let mut amount: u32 = SCENT_DEPOSIT_PPM;
    let mut k: u32 = 0;
    while k < steps && amount > 0
        invariant
            k <= steps,
            amount == trail_strength(k as nat),
        decreases steps - k,
    {
        proof {
            lemma_trail_bounded(k as nat);
        }
        let kept: u64 = (amount as u64) * 88u64 / 100;
        assert(kept == trail_strength((k + 1) as nat));
        amount = kept as u32;
        k = k + 1;
    }
    proof {
        if k < steps {
            lemma_trail_monotone(k as nat, steps as nat);
        }
    }
    amount
}

/// A strength after fading by `factor` (parts per million of what was there):
/// what falls under the threshold is cleared.
pub open spec fn faded(strength: nat, factor: nat) -> nat {
    let left = strength * factor / (PPM as nat);
    if left < SCENT_THRESHOLD_PPM { 0 } else { left }
}

/// One value per cell, laid out like the occupancy table.
pub struct Scent {
    cells: Vec<u32>,
    /// Switched off for the comparison runs, so a colony without any sense of
    /// smell can be measured against one with it.
    laying: bool,
}

impl Scent {
    pub closed spec fn strengths(self) -> Seq<u32> {
        self.cells@
    }

    pub closed spec fn lays(self) -> bool {
        self.laying
    }

    pub open spec fn wf(self, grid: Grid) -> bool {
        grid.wf() && self.strengths().len() == grid.area()
    }

    /// How much is on `c`; off the board reads as nothing.
    pub open spec fn strength(self, grid: Grid, c: Cell) -> nat {
        if grid.holds(c) {
            self.strengths()[grid.slot(c)] as nat
        } else {
            0
        }
    }

    /// A neighbour worth following from `from`: above the threshold and above
    /// where the ant stands.
    pub open spec fn worth(self, grid: Grid, from: Cell, d: Dir) -> bool {
        let s = self.strength(grid, shifted(from, d.dx(), d.dy()));
        s >= SCENT_THRESHOLD_PPM && s > self.strength(grid, from)
    }

    /// The strongest neighbour worth following among the first `n` of the
    /// compass, the later one winning a tie.
    pub open spec fn uphill_among(self, grid: Grid, from: Cell, n: nat) -> Option<(Dir, u32)>
        decreases n,
    {
        if n == 0 {
            None
        } else {
            let best = self.uphill_among(grid, from, (n - 1) as nat);
            let d = compass(n - 1);
            let s = self.strength(grid, shifted(from, d.dx(), d.dy()));
            if self.worth(grid, from, d) && (best matches Some(b) ==> s >= b.1) {
                Some((d, s as u32))
            } else {
                best
            }
        }
    }

    fn with_cells(grid: Grid, laying: bool) -> (s: Scent)
        requires
            grid.wf(),
        ensures
            s.wf(grid),
            s.lays() == laying,
            forall|c: Cell| s.strength(grid, c) == 0,
    {
        let area: usize = (grid.width * grid.height) as usize;
        let mut cells: Vec<u32> = Vec::new();
        let mut i: usize = 0;
        while i < area
            invariant
                i <= area,
                cells.len() == i,
                forall|k: int| 0 <= k < i ==> cells@[k] == 0,
            decreases area - i,
        {
            cells.push(0);
            i = i + 1;
        }
        let s = Scent { cells, laying };
        assert forall|c: Cell| s.strength(grid, c) == 0 by {
            if grid.holds(c) {
                lemma_slot_bounds(grid, c);
            }
        }
        s
    }

    /// A board with nothing on it, where searching ants leave scent.
    pub fn new(grid: Grid) -> (s: Scent)
        requires
            grid.wf(),
        ensures
            s.wf(grid),
            s.lays(),
            forall|c: Cell| s.strength(grid, c) == 0,
    {
        Self::with_cells(grid, true)
    }

    /// A colony with no sense of smell: nothing is ever marked, so nothing can
    /// ever be followed.
    pub fn without_any(grid: Grid) -> (s: Scent)
        requires
            grid.wf(),
        ensures
            s.wf(grid),
            !s.lays(),
            forall|c: Cell| s.strength(grid, c) == 0,
    {
        Self::with_cells(grid, false)
    }

    /// How much is on this cell. Off the board reads as nothing.
    pub fn at(&self, grid: Grid, cell: Cell) -> (v: u32)
        requires
            self.wf(grid),
        ensures
            v == self.strength(grid, cell),
    {
        if !grid.contains(cell) {
            return 0;
        }
        self.cells[grid.index(cell)]
    }

    /// What a searching ant leaves behind, `steps` steps away from the nest.
    ///
    /// The strongest deposit wins; they do not add up, so a hundred faint
    /// traces far from the nest never outweigh one strong one close to it.
    pub fn deposit(&mut self, grid: Grid, cell: Cell, steps: u32)
        requires
            old(self).wf(grid),
        ensures
            final(self).wf(grid),
            final(self).lays() == old(self).lays(),
            forall|c: Cell| #[trigger] final(self).strength(grid, c) == if c == cell && old(self).lays()
                && grid.holds(cell) {
                if old(self).strength(grid, c) < trail_strength(steps as nat) {
                    trail_strength(steps as nat)
                } else {
                    old(self).strength(grid, c)
                }
            } else {
                old(self).strength(grid, c)
            },
    {
        if !self.laying || !grid.contains(cell) {
            return;
        }
        let amount: u32 = deposit_amount(steps);
        let i: usize = grid.index(cell);
        let here: u32 = self.cells[i];
        if here < amount {
            self.cells.set(i, amount);
        }
        proof {
            assert forall|c: Cell| #[trigger] self.strength(grid, c) == if c == cell && old(self).lays()
                && grid.holds(cell) {
                if old(self).strength(grid, c) < trail_strength(steps as nat) {
                    trail_strength(steps as nat)
                } else {
                    old(self).strength(grid, c)
                }
            } else {
                old(self).strength(grid, c)
            } by {
                if grid.holds(c) && c != cell {
                    lemma_slot_bounds(grid, c);
                    if grid.slot(c) == grid.slot(cell) {
                        lemma_slot_injective(grid, c, cell);
                    }
                }
            }
        }
    }

    /// The neighbouring cell that smells strongest — if it smells at all and
    /// smells stronger than where the ant stands. Uphill is the way home.
    /// Standing on the peak gives `None`.
    pub fn uphill(&self, grid: Grid, from: Cell) -> (r: Option<(Dir, u32)>)
        requires
            self.wf(grid),
            reachable(from, 1),
        ensures
            r == self.uphill_among(grid, from, 8),
    {
        let here: u32 = self.at(grid, from);
        let mut best: Option<(Dir, u32)> = None;
        let mut i: usize = 0;
        while i < 8
            invariant
                self.wf(grid),
                reachable(from, 1),
                i <= 8,
                here == self.strength(grid, from),
                best == self.uphill_among(grid, from, i as nat),
            decreases 8 - i,
        {
            let d: Dir = Dir::compass_at(i);
            let strength: u32 = self.at(grid, from.plus(d.offset()));
            if strength >= SCENT_THRESHOLD_PPM && strength > here {
                match best {
                    Some(b) => {
                        if strength >= b.1 {
                            best = Some((d, strength));
                        }
                    },
                    None => {
                        best = Some((d, strength));
                    },
                }
            }
            i = i + 1;
        }
        best
    }

    /// Time passing: every cell keeps `factor` parts per million of what it
    /// had, and what falls under the threshold is cleared so stale trails
    /// really disappear.
    pub fn evaporate(&mut self, grid: Grid, factor: u32)
        requires
            old(self).wf(grid),
            factor <= PPM,
        ensures
            final(self).wf(grid),
            final(self).lays() == old(self).lays(),
            forall|c: Cell| #[trigger] final(self).strength(grid, c) == faded(
                old(self).strength(grid, c),
                factor as nat,
            ),
    {
        let n: usize = self.cells.len();
        let mut i: usize = 0;
        while i < n
            invariant
                n == self.cells.len(),
                n == old(self).cells.len(),
                self.laying == old(self).laying,
                factor <= PPM,
                i <= n,
                forall|k: int| 0 <= k < i ==> #[trigger] self.cells@[k] as nat == faded(
                    old(self).cells@[k] as nat,
                    factor as nat,
                ),
                forall|k: int| i <= k < n ==> #[trigger] self.cells@[k] == old(self).cells@[k],
            decreases n - i,
        {
            let before: u32 = self.cells[i];
            assert((before as u64) * (factor as u64) <= 0xffff_ffffu64 * 1_000_000u64) by (nonlinear_arith)
                requires
                    before <= 0xffff_ffffu32,
                    factor <= 1_000_000u32,
            ;
            assert((before as u64) * (factor as u64) / 1_000_000 <= before as u64) by (nonlinear_arith)
                requires
                    factor <= 1_000_000u32,
            ;
            let left: u64 = (before as u64) * (factor as u64) / (PPM as u64);
            let now: u32 = if left < SCENT_THRESHOLD_PPM as u64 { 0 } else { left as u32 };
            self.cells.set(i, now);
            i = i + 1;
        }
        proof {
            assert forall|c: Cell| #[trigger] self.strength(grid, c) == faded(
                old(self).strength(grid, c),
                factor as nat,
            ) by {
                if grid.holds(c) {
                    lemma_slot_bounds(grid, c);
                } else {
                    assert(0nat * (factor as nat) / 1_000_000 == 0);
                }
            }
        }
    }
}

/// The trail followed uphill really is the strongest way up: it is worth
/// following, and no neighbour worth following smells stronger.
pub proof fn lemma_uphill_is_strongest(scent: Scent, grid: Grid, from: Cell, n: nat)
    requires
        n <= 8,
    ensures
        scent.uphill_among(grid, from, n) matches Some(b) ==> {
            &&& scent.worth(grid, from, b.0)
            &&& b.1 == scent.strength(grid, shifted(from, b.0.dx(), b.0.dy()))
            &&& 0 <= b.0.index() < n
            &&& forall|i: int| 0 <= i < n && scent.worth(grid, from, compass(i)) ==> scent.strength(
                grid,
                shifted(from, compass(i).dx(), compass(i).dy()),
            ) <= b.1
        },
        scent.uphill_among(grid, from, n) is None ==> forall|i: int|
            0 <= i < n ==> !scent.worth(grid, from, #[trigger] compass(i)),
    decreases n,
{
    if n > 0 {
        lemma_uphill_is_strongest(scent, grid, from, (n - 1) as nat);
    }
}

/// How a trail is put to an ant: a word, never a number.
pub fn describe(strength: u32) -> (w: &'static str)
    ensures
        w@ == (if strength >= 700_000 {
            "strong"@
        } else if strength >= 300_000 {
            "clear"@
        } else {
            "faint"@
        }),
{
    if strength >= 700_000 {
        "strong"
    } else if strength >= 300_000 {
        "clear"
    } else {
        "faint"
    }
}

} // verus!
