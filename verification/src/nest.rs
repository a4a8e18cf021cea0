//! The nest: a square on the board, and what the colony has brought home.

use vstd::prelude::*;

use crate::config::{GRID_HEIGHT, GRID_WIDTH, NEST_SIZE};
use crate::grid::{abs, chebyshev, Cell, Grid};

verus! {

/// `v` held between `lo` and `hi`.
pub open spec fn clamp(v: int, lo: int, hi: int) -> int {
    if v < lo { lo } else if v > hi { hi } else { v }
}

/// Walkable on purpose — an ant enters it to put a fruit down.
#[derive(Clone, Copy, PartialEq, Eq, Debug, Structural)]
pub struct Nest {
    /// The south-west corner.
    pub min: Cell,
    /// The edge length.
    pub size: i32,
}

impl Nest {
    /// A square that has cells and whose far corner is still an `i32` cell.
    pub open spec fn wf(self) -> bool {
        &&& 0 < self.size
        &&& self.min.x + self.size <= i32::MAX
        &&& self.min.y + self.size <= i32::MAX
    }

    pub open spec fn holds(self, c: Cell) -> bool {
        &&& self.min.x <= c.x < self.min.x + self.size
        &&& self.min.y <= c.y < self.min.y + self.size
    }

    /// The nest cell closest to `c`.
    pub open spec fn closest(self, c: Cell) -> Cell {
        Cell {
            x: clamp(c.x as int, self.min.x as int, self.min.x + self.size - 1) as i32,
            y: clamp(c.y as int, self.min.y as int, self.min.y + self.size - 1) as i32,
        }
    }

    /// How many king's moves `c` is from the nearest nest cell.
    pub open spec fn distance(self, c: Cell) -> int {
        let n = self.closest(c);
        chebyshev(n.x - c.x, n.y - c.y)
    }

    /// The nest in the middle of the open field.
    pub fn default() -> (n: Nest)
        ensures
            n.min.x == (GRID_WIDTH - NEST_SIZE) / 2,
            n.min.y == (GRID_HEIGHT - NEST_SIZE) / 2,
            n.size == NEST_SIZE,
            n.wf(),
    {
        Nest {
            min: Cell { x: (GRID_WIDTH - NEST_SIZE) / 2, y: (GRID_HEIGHT - NEST_SIZE) / 2 },
            size: NEST_SIZE,
        }
    }

    pub fn contains(&self, cell: Cell) -> (b: bool)
        requires
            self.wf(),
        ensures
            b == self.holds(cell),
    {
        cell.x >= self.min.x && cell.y >= self.min.y && cell.x < self.min.x + self.size && cell.y
            < self.min.y + self.size
    }

    /// The nest cell closest to `from`. What an ant walking home aims at, and
    /// what the distance in its view is measured against.
    pub fn nearest_cell(&self, from: Cell) -> (c: Cell)
        requires
            self.wf(),
        ensures
            c == self.closest(from),
            self.holds(c),
    {
        let hi_x: i32 = self.min.x + self.size - 1;
        let hi_y: i32 = self.min.y + self.size - 1;
        let x: i32 = if from.x < self.min.x {
            self.min.x
        } else if from.x > hi_x {
            hi_x
        } else {
            from.x
        };
        let y: i32 = if from.y < self.min.y {
            self.min.y
        } else if from.y > hi_y {
            hi_y
        } else {
            from.y
        };
        Cell { x, y }
    }

    /// Whether the nest is within `radius` cells of `at`, i.e. in sight.
    pub fn within(&self, at: Cell, radius: i32) -> (b: bool)
        requires
            self.wf(),
        ensures
            b == (self.distance(at) <= radius),
    {
        let target: Cell = self.nearest_cell(at);
        let dx: i64 = target.x as i64 - at.x as i64;
        let dy: i64 = target.y as i64 - at.y as i64;
        let ax: i64 = if dx < 0 { -dx } else { dx };
        let ay: i64 = if dy < 0 { -dy } else { dy };
        let d: i64 = if ax < ay { ay } else { ax };
        d <= radius as i64
    }

    /// Every nest cell, row by row from the south-west corner.
    pub fn cells(&self) -> (v: Vec<Cell>)
        requires
            self.wf(),
        ensures
            forall|i: int| 0 <= i < v.len() ==> self.holds(#[trigger] v@[i]),
            forall|c: Cell| self.holds(c) ==> v@.contains(c),
            v@.no_duplicates(),
            v@.len() == self.size * self.size,
    {
        let mut v: Vec<Cell> = Vec::new();
        let mut dy: i32 = 0;
        while dy < self.size
            invariant
                self.wf(),
                0 <= dy <= self.size,
                forall|i: int| 0 <= i < v.len() ==> self.holds(#[trigger] v@[i]) && v@[i].y < self.min.y + dy,
                forall|c: Cell| self.holds(c) && c.y < self.min.y + dy ==> v@.contains(c),
                v@.no_duplicates(),
                v@.len() == dy * self.size,
            decreases self.size - dy,
        {
            let mut dx: i32 = 0;
            let ghost start = v@.len();
            while dx < self.size
                invariant
                    self.wf(),
                    0 <= dy < self.size,
                    0 <= dx <= self.size,
                    start <= v@.len(),
                    start == dy * self.size,
                    v@.len() == start + dx,
                    forall|i: int| 0 <= i < v.len() ==> self.holds(#[trigger] v@[i]) && v@[i].y < self.min.y + dy + 1,
                    forall|i: int| 0 <= i < start ==> #[trigger] v@[i].y < self.min.y + dy,
                    forall|i: int| start <= i < v.len() ==> #[trigger] v@[i].y == self.min.y + dy && v@[i].x < self.min.x + dx,
                    forall|c: Cell| self.holds(c) && c.y < self.min.y + dy ==> v@.contains(c),
                    forall|c: Cell| self.holds(c) && c.y == self.min.y + dy && c.x < self.min.x + dx ==> v@.contains(c),
                    v@.no_duplicates(),
                decreases self.size - dx,
            {
                let c = Cell { x: self.min.x + dx, y: self.min.y + dy };
                proof {
                    assert(!v@.contains(c));
                }
                let ghost prev = v@;
                v.push(c);
                proof {
                    assert(v@ == prev.push(c));
                    assert forall|d: Cell| self.holds(d) && d.y == self.min.y + dy && d.x < self.min.x + dx + 1 implies v@.contains(d) by {
                        if d == c {
                            assert(v@[v@.len() - 1] == c);
                        } else {
                            assert(prev.contains(d));
                            let k = choose|k: int| 0 <= k < prev.len() && prev[k] == d;
                            assert(v@[k] == d);
                        }
                    }
                    assert forall|d: Cell| self.holds(d) && d.y < self.min.y + dy implies v@.contains(d) by {
                        assert(prev.contains(d));
                        let k = choose|k: int| 0 <= k < prev.len() && prev[k] == d;
                        assert(v@[k] == d);
                    }
                }
                dx = dx + 1;
            }
            assert((dy + 1) * self.size == dy * self.size + self.size) by (nonlinear_arith);
            dy = dy + 1;
        }
        v
    }
}

/// The nearest cell is the closest nest cell there is: no cell of the nest is
/// fewer king's moves away, it belongs to the nest, and a cell inside the nest
/// is its own nearest cell.
pub proof fn lemma_nearest_cell_is_closest(nest: Nest, from: Cell, other: Cell)
    requires
        nest.wf(),
        nest.holds(other),
    ensures
        nest.holds(nest.closest(from)),
        chebyshev(nest.closest(from).x - from.x, nest.closest(from).y - from.y) <= chebyshev(
            other.x - from.x,
            other.y - from.y,
        ),
        nest.holds(from) ==> nest.closest(from) == from,
{
    let n = nest.closest(from);
    assert(abs(n.x - from.x) <= abs(other.x - from.x));
    assert(abs(n.y - from.y) <= abs(other.y - from.y));
}

/// Fruits delivered so far.
#[derive(Clone, Copy, PartialEq, Eq, Debug, Structural)]
pub struct Stores(pub u32);

impl Stores {
    pub fn default() -> (s: Stores)
        ensures
            s.0 == 0,
    {
        Stores(0)
    }
}

/// The board of the open field and its nest fit each other.
pub proof fn lemma_default_nest_on_default_grid()
    ensures
        ({
            let g = Grid { width: GRID_WIDTH, height: GRID_HEIGHT };
            let n = Nest {
                min: Cell {
                    x: ((GRID_WIDTH - NEST_SIZE) / 2) as i32,
                    y: ((GRID_HEIGHT - NEST_SIZE) / 2) as i32,
                },
                size: NEST_SIZE,
            };
            forall|c: Cell| n.holds(c) ==> g.holds(c)
        }),
{
}

} // verus!
