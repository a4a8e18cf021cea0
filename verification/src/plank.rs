//! The plank, and the river it goes across.
//!
//! One ant carries it. Taking hold is one decision; the rest is execution:
//! the ant walks the plank to the nearest crossing and lays it down by itself.

use vstd::prelude::*;

use crate::grid::{chebyshev, compass, shifted, Cell, Dir, Grid, Occupancy, Terrain};

verus! {

/// The plank, and who has hold of it.
#[derive(Clone, Copy, PartialEq, Eq, Debug, Structural)]
pub struct Plank {
    /// `None` means it is lying on the ground, waiting for somebody.
    pub carrier: Option<u32>,
    /// Where it is being taken, worked out when it is picked up.
    pub target: Option<Cell>,
    /// Down across the water. From here it is terrain, not an object.
    pub laid: bool,
}

impl Plank {
    pub fn default() -> (p: Plank)
        ensures
            p.carrier is None,
            p.target is None,
            !p.laid,
    {
        Plank { carrier: None, target: None, laid: false }
    }

    /// Whether an ant could still pick it up.
    pub fn free_to_take(&self) -> (b: bool)
        ensures
            b == (!self.laid && self.carrier is None),
    {
        !self.laid && self.carrier.is_none()
    }
}

/// How many of the first `n` compass neighbours of `c` are on the board and
/// can be walked on.
pub open spec fn banks_among(occupancy: Occupancy, grid: Grid, c: Cell, n: nat) -> nat
    decreases n,
{
    if n == 0 {
        0
    } else {
        let d = compass(n - 1);
        let beside = shifted(c, d.dx(), d.dy());
        banks_among(occupancy, grid, c, (n - 1) as nat) + if grid.holds(beside)
            && occupancy.terrain(grid, beside).passable() {
            1nat
        } else {
            0nat
        }
    }
}

/// A water cell worth bridging: one with a bank on either side, that is with
/// at least two passable neighbours.
pub open spec fn bridgeable(occupancy: Occupancy, grid: Grid, c: Cell) -> bool {
    &&& occupancy.terrain(grid, c) == Terrain::Water
    &&& banks_among(occupancy, grid, c, 8) >= 2
}

/// `best` after looking at `c`: a bridgeable cell strictly closer to `from`
/// replaces it, so the first of the closest stays.
pub open spec fn consider_crossing(
    best: Option<Cell>,
    occupancy: Occupancy,
    grid: Grid,
    from: Cell,
    c: Cell,
) -> Option<Cell> {
    if bridgeable(occupancy, grid, c) && (best matches Some(b) ==> chebyshev(c.x - from.x, c.y - from.y)
        < chebyshev(b.x - from.x, b.y - from.y)) {
        Some(c)
    } else {
        best
    }
}

pub open spec fn crossing_row(
    start: Option<Cell>,
    occupancy: Occupancy,
    grid: Grid,
    from: Cell,
    y: int,
    n: nat,
) -> Option<Cell>
    decreases n,
{
    if n == 0 {
        start
    } else {
        consider_crossing(
            crossing_row(start, occupancy, grid, from, y, (n - 1) as nat),
            occupancy,
            grid,
            from,
            Cell { x: (n - 1) as i32, y: y as i32 },
        )
    }
}

pub open spec fn crossing_rows(occupancy: Occupancy, grid: Grid, from: Cell, m: nat) -> Option<Cell>
    decreases m,
{
    if m == 0 {
        None
    } else {
        crossing_row(
            crossing_rows(occupancy, grid, from, (m - 1) as nat),
            occupancy,
            grid,
            from,
            m - 1,
            grid.width as nat,
        )
    }
}

/// The bridgeable cell closest to `from`, searched row by row from the
/// south-west corner, the first of equally close ones winning.
pub open spec fn nearest_crossing_spec(occupancy: Occupancy, grid: Grid, from: Cell) -> Option<Cell> {
    crossing_rows(occupancy, grid, from, grid.height as nat)
}

fn is_bridgeable(occupancy: &Occupancy, grid: Grid, c: Cell) -> (b: bool)
    requires
        occupancy.wf(grid),
        grid.holds(c),
    ensures
        b == bridgeable(*occupancy, grid, c),
{
    if !matches!(occupancy.terrain_at(grid, c), Terrain::Water) {
        return false;
    }
    let mut banks: u32 = 0;
    let mut i: usize = 0;
    while i < 8
        invariant
            occupancy.wf(grid),
            grid.holds(c),
            i <= 8,
            banks == banks_among(*occupancy, grid, c, i as nat),
            banks <= i,
        decreases 8 - i,
    {
        let d = Dir::compass_at(i);
        let beside = c.plus(d.offset());
        if grid.contains(beside) && occupancy.terrain_at(grid, beside).is_passable() {
            banks = banks + 1;
        }
        i = i + 1;
    }
    banks >= 2
}

/// A water cell worth bridging: one that really joins two banks, and the one
/// closest to where the plank stands, so the carrier walks to the near side
/// rather than round the whole river.
pub fn nearest_crossing(grid: Grid, occupancy: &Occupancy, from: Cell) -> (r: Option<Cell>)
    requires
        occupancy.wf(grid),
        grid.holds(from),
    ensures
        r == nearest_crossing_spec(*occupancy, grid, from),
        r matches Some(c) ==> grid.holds(c) && bridgeable(*occupancy, grid, c),
{
    let mut best: Option<Cell> = None;
    let mut y: i32 = 0;
    while y < grid.height
        invariant
            occupancy.wf(grid),
            grid.holds(from),
            0 <= y <= grid.height,
            best == crossing_rows(*occupancy, grid, from, y as nat),
            best matches Some(c) ==> grid.holds(c) && bridgeable(*occupancy, grid, c),
        decreases grid.height - y,
    {
        let mut x: i32 = 0;
        while x < grid.width
            invariant
                occupancy.wf(grid),
                grid.holds(from),
                0 <= y < grid.height,
                0 <= x <= grid.width,
                best == crossing_row(
                    crossing_rows(*occupancy, grid, from, y as nat),
                    *occupancy,
                    grid,
                    from,
                    y as int,
                    x as nat,
                ),
                best matches Some(c) ==> grid.holds(c) && bridgeable(*occupancy, grid, c),
            decreases grid.width - x,
        {
            let cell = Cell { x, y };
            if is_bridgeable(occupancy, grid, cell) {
                let here: u32 = cell.minus(from).king_distance();
                let closer: bool = match best {
                    None => true,
                    Some(b) => here < b.minus(from).king_distance(),
                };
                if closer {
                    best = Some(cell);
                }
            }
            x = x + 1;
        }
        y = y + 1;
    }
    best
}

} // verus!
