//! The board: cell coordinates, the compass, and who stands where.
//!
//! Coordinates follow a map: `x` grows towards the east, `y` towards the north.

use vstd::prelude::*;

use crate::config::{GRID_HEIGHT, GRID_WIDTH};

verus! {

/// The absolute value of an integer.
pub open spec fn abs(a: int) -> int {
    if a < 0 { -a } else { a }
}

/// How many king's moves apart two offsets are: the larger of the two sides.
pub open spec fn chebyshev(dx: int, dy: int) -> int {
    if abs(dx) < abs(dy) { abs(dy) } else { abs(dx) }
}

/// A cell on the board, or an offset between two cells.
#[derive(Clone, Copy, PartialEq, Eq, Hash, Debug, Structural)]
pub struct Cell {
    pub x: i32,
    pub y: i32,
}

/// A cell whose surroundings up to `radius` cells away can be named without
/// leaving the range of `i32`.
pub open spec fn reachable(c: Cell, radius: int) -> bool {
    &&& i32::MIN + radius <= c.x <= i32::MAX - radius
    &&& i32::MIN + radius <= c.y <= i32::MAX - radius
}

/// The cell `d` steps of `(dx, dy)` away from `c`, in unbounded integers.
pub open spec fn shifted(c: Cell, dx: int, dy: int) -> Cell {
    Cell { x: (c.x + dx) as i32, y: (c.y + dy) as i32 }
}

impl Cell {
    pub fn new(x: i32, y: i32) -> (c: Cell)
        ensures
            c.x == x,
            c.y == y,
    {
        Cell { x, y }
    }

    /// `self + other`, for sums that stay inside `i32`.
    pub fn plus(self, other: Cell) -> (c: Cell)
        requires
            i32::MIN <= self.x + other.x <= i32::MAX,
            i32::MIN <= self.y + other.y <= i32::MAX,
        ensures
            c.x == self.x + other.x,
            c.y == self.y + other.y,
    {
        Cell { x: self.x + other.x, y: self.y + other.y }
    }

    /// `self - other`, for differences that stay inside `i32`.
    pub fn minus(self, other: Cell) -> (c: Cell)
        requires
            i32::MIN <= self.x - other.x <= i32::MAX,
            i32::MIN <= self.y - other.y <= i32::MAX,
        ensures
            c.x == self.x - other.x,
            c.y == self.y - other.y,
    {
        Cell { x: self.x - other.x, y: self.y - other.y }
    }

    /// The larger of the two sides of this offset.
    pub fn king_distance(self) -> (d: u32)
        ensures
            d == chebyshev(self.x as int, self.y as int),
    {
        let ax: u32 = if self.x < 0 { (0i64 - self.x as i64) as u32 } else { self.x as u32 };
        let ay: u32 = if self.y < 0 { (0i64 - self.y as i64) as u32 } else { self.y as u32 };
        if ax < ay { ay } else { ax }
    }
}

/// The eight compass directions an ant can step into, plus standing still.
#[derive(Clone, Copy, PartialEq, Eq, Debug, Structural)]
pub enum Dir {
    North,
    NorthEast,
    East,
    SouthEast,
    South,
    SouthWest,
    West,
    NorthWest,
    Stay,
}

/// The eight directions that move an ant, clockwise from north.
pub open spec fn compass(i: int) -> Dir {
    if i == 0 {
        Dir::North
    } else if i == 1 {
        Dir::NorthEast
    } else if i == 2 {
        Dir::East
    } else if i == 3 {
        Dir::SouthEast
    } else if i == 4 {
        Dir::South
    } else if i == 5 {
        Dir::SouthWest
    } else if i == 6 {
        Dir::West
    } else {
        Dir::NorthWest
    }
}

/// The compass in order, as a sequence.
pub open spec fn compass_seq() -> Seq<Dir> {
    seq![
        Dir::North,
        Dir::NorthEast,
        Dir::East,
        Dir::SouthEast,
        Dir::South,
        Dir::SouthWest,
        Dir::West,
        Dir::NorthWest,
    ]
}

/// The direction an offset points in, rounded to the nearest of the eight.
///
/// The eight sectors are 45 degrees wide and centred on the directions, so an
/// offset lies in the east sector exactly when `|y| / |x| < tan(22.5°)`, that
/// is when `(|x| + |y|)² < 2·x²`; the north sector is the same with the sides
/// swapped, and everything in between is diagonal. The boundaries are
/// irrational slopes, so no offset ever lies on one.
pub open spec fn nearest_dir(x: int, y: int) -> Dir {
    let ax = abs(x);
    let ay = abs(y);
    if x == 0 && y == 0 {
        Dir::Stay
    } else if (ax + ay) * (ax + ay) < 2 * (ax * ax) {
        if x > 0 { Dir::East } else { Dir::West }
    } else if (ax + ay) * (ax + ay) < 2 * (ay * ay) {
        if y > 0 { Dir::North } else { Dir::South }
    } else if x > 0 {
        if y > 0 { Dir::NorthEast } else { Dir::SouthEast }
    } else {
        if y > 0 { Dir::NorthWest } else { Dir::SouthWest }
    }
}

impl Dir {
    /// Every direction, including standing still.
    pub const ALL: [Dir; 9] = [
        Dir::North,
        Dir::NorthEast,
        Dir::East,
        Dir::SouthEast,
        Dir::South,
        Dir::SouthWest,
        Dir::West,
        Dir::NorthWest,
        Dir::Stay,
    ];

    /// The eight directions that actually move an ant, clockwise from north.
    pub const COMPASS: [Dir; 8] = [
        Dir::North,
        Dir::NorthEast,
        Dir::East,
        Dir::SouthEast,
        Dir::South,
        Dir::SouthWest,
        Dir::West,
        Dir::NorthWest,
    ];

    pub open spec fn dx(self) -> int {
        match self {
            Dir::NorthEast | Dir::East | Dir::SouthEast => 1,
            Dir::SouthWest | Dir::West | Dir::NorthWest => -1,
            _ => 0,
        }
    }

    pub open spec fn dy(self) -> int {
        match self {
            Dir::North | Dir::NorthEast | Dir::NorthWest => 1,
            Dir::SouthEast | Dir::South | Dir::SouthWest => -1,
            _ => 0,
        }
    }

    /// Where this direction stands in the compass; `8` for standing still.
    pub open spec fn index(self) -> int {
        match self {
            Dir::North => 0,
            Dir::NorthEast => 1,
            Dir::East => 2,
            Dir::SouthEast => 3,
            Dir::South => 4,
            Dir::SouthWest => 5,
            Dir::West => 6,
            Dir::NorthWest => 7,
            Dir::Stay => 8,
        }
    }

    /// The key text of this direction.
    pub open spec fn key_text(self) -> Seq<char> {
        match self {
            Dir::North => "north"@,
            Dir::NorthEast => "north_east"@,
            Dir::East => "east"@,
            Dir::SouthEast => "south_east"@,
            Dir::South => "south"@,
            Dir::SouthWest => "south_west"@,
            Dir::West => "west"@,
            Dir::NorthWest => "north_west"@,
            Dir::Stay => "stay"@,
        }
    }

    /// How the direction is spelled in a sentence.
    pub open spec fn spoken_text(self) -> Seq<char> {
        match self {
            Dir::North => "north"@,
            Dir::NorthEast => "north-east"@,
            Dir::East => "east"@,
            Dir::SouthEast => "south-east"@,
            Dir::South => "south"@,
            Dir::SouthWest => "south-west"@,
            Dir::West => "west"@,
            Dir::NorthWest => "north-west"@,
            Dir::Stay => "stay"@,
        }
    }

    /// Where the key of this direction falls in alphabetical order.
    pub open spec fn key_rank(self) -> int {
        match self {
            Dir::East => 0,
            Dir::North => 1,
            Dir::NorthEast => 2,
            Dir::NorthWest => 3,
            Dir::South => 4,
            Dir::SouthEast => 5,
            Dir::SouthWest => 6,
            Dir::Stay => 7,
            Dir::West => 8,
        }
    }

    /// The `i`-th direction of the compass, clockwise from north.
    pub fn compass_at(i: usize) -> (d: Dir)
        requires
            i < 8,
        ensures
            d == compass(i as int),
            d.index() == i,
    {
        match i {
            0 => Dir::North,
            1 => Dir::NorthEast,
            2 => Dir::East,
            3 => Dir::SouthEast,
            4 => Dir::South,
            5 => Dir::SouthWest,
            6 => Dir::West,
            _ => Dir::NorthWest,
        }
    }

    /// The eight moving directions, clockwise from north.
    pub fn compass() -> (v: Vec<Dir>)
        ensures
            v@ == compass_seq(),
    {
        let v: Vec<Dir> = vec![
            Dir::North,
            Dir::NorthEast,
            Dir::East,
            Dir::SouthEast,
            Dir::South,
            Dir::SouthWest,
            Dir::West,
            Dir::NorthWest,
        ];
        assert(v@ =~= compass_seq());
        v
    }

    /// Cell offset of one step in this direction.
    pub fn offset(self) -> (o: Cell)
        ensures
            o.x == self.dx(),
            o.y == self.dy(),
    {
        match self {
            Dir::North => Cell { x: 0, y: 1 },
            Dir::NorthEast => Cell { x: 1, y: 1 },
            Dir::East => Cell { x: 1, y: 0 },
            Dir::SouthEast => Cell { x: 1, y: -1 },
            Dir::South => Cell { x: 0, y: -1 },
            Dir::SouthWest => Cell { x: -1, y: -1 },
            Dir::West => Cell { x: -1, y: 0 },
            Dir::NorthWest => Cell { x: -1, y: 1 },
            Dir::Stay => Cell { x: 0, y: 0 },
        }
    }

    /// The key this direction gets in a `choice` question.
    pub fn key(self) -> (k: &'static str)
        ensures
            k@ == self.key_text(),
    {
        match self {
            Dir::North => "north",
            Dir::NorthEast => "north_east",
            Dir::East => "east",
            Dir::SouthEast => "south_east",
            Dir::South => "south",
            Dir::SouthWest => "south_west",
            Dir::West => "west",
            Dir::NorthWest => "north_west",
            Dir::Stay => "stay",
        }
    }

    /// How the direction is spelled in a sentence the model reads.
    pub fn spoken(self) -> (s: &'static str)
        ensures
            s@ == self.spoken_text(),
    {
        match self {
            Dir::North => "north",
            Dir::NorthEast => "north-east",
            Dir::East => "east",
            Dir::SouthEast => "south-east",
            Dir::South => "south",
            Dir::SouthWest => "south-west",
            Dir::West => "west",
            Dir::NorthWest => "north-west",
            Dir::Stay => "stay",
        }
    }

    /// Where this direction falls in the compass, clockwise from north;
    /// standing still comes after all eight.
    pub fn compass_index(self) -> (i: u8)
        ensures
            i == self.index(),
    {
        match self {
            Dir::North => 0,
            Dir::NorthEast => 1,
            Dir::East => 2,
            Dir::SouthEast => 3,
            Dir::South => 4,
            Dir::SouthWest => 5,
            Dir::West => 6,
            Dir::NorthWest => 7,
            Dir::Stay => 8,
        }
    }

    /// Where the key of this direction falls in alphabetical order.
    pub fn rank(self) -> (r: u8)
        ensures
            r == self.key_rank(),
    {
        match self {
            Dir::East => 0,
            Dir::North => 1,
            Dir::NorthEast => 2,
            Dir::NorthWest => 3,
            Dir::South => 4,
            Dir::SouthEast => 5,
            Dir::SouthWest => 6,
            Dir::Stay => 7,
            Dir::West => 8,
        }
    }

    /// The compass direction an offset points in, rounded to the nearest of
    /// the eight. An ant does not perceive exact angles either.
    pub fn nearest(offset: Cell) -> (d: Dir)
        ensures
            d == nearest_dir(offset.x as int, offset.y as int),
    {
        if offset.x == 0 && offset.y == 0 {
            return Dir::Stay;
        }
        let ax: i128 = if offset.x < 0 { 0i128 - offset.x as i128 } else { offset.x as i128 };
        let ay: i128 = if offset.y < 0 { 0i128 - offset.y as i128 } else { offset.y as i128 };
        assert(ax == abs(offset.x as int) && ay == abs(offset.y as int));
        assert(0 <= ax <= 0x8000_0000 && 0 <= ay <= 0x8000_0000);
        let sum: i128 = ax + ay;
        assert(0 <= sum * sum <= 0x4_0000_0000_0000_0000) by (nonlinear_arith)
            requires
                0 <= sum <= 0x1_0000_0000,
        ;
        assert(0 <= ax * ax <= 0x4000_0000_0000_0000) by (nonlinear_arith)
            requires
                0 <= ax <= 0x8000_0000,
        ;
        assert(0 <= ay * ay <= 0x4000_0000_0000_0000) by (nonlinear_arith)
            requires
                0 <= ay <= 0x8000_0000,
        ;
        let square: i128 = sum * sum;
        if square < 2 * (ax * ax) {
            if offset.x > 0 { Dir::East } else { Dir::West }
        } else if square < 2 * (ay * ay) {
            if offset.y > 0 { Dir::North } else { Dir::South }
        } else if offset.x > 0 {
            if offset.y > 0 { Dir::NorthEast } else { Dir::SouthEast }
        } else {
            if offset.y > 0 { Dir::NorthWest } else { Dir::SouthWest }
        }
    }
}

/// Dimensions of the board.
#[derive(Clone, Copy, PartialEq, Eq, Debug, Structural)]
pub struct Grid {
    pub width: i32,
    pub height: i32,
}

impl Grid {
    /// A board that has cells and whose cells can all be numbered in `i32`.
    pub open spec fn wf(self) -> bool {
        &&& 0 < self.width
        &&& 0 < self.height
        &&& self.width * self.height <= i32::MAX
    }

    pub open spec fn holds(self, c: Cell) -> bool {
        0 <= c.x < self.width && 0 <= c.y < self.height
    }

    pub open spec fn area(self) -> int {
        self.width * self.height
    }

    /// Where a cell is kept in a row-major table of the board.
    pub open spec fn slot(self, c: Cell) -> int {
        c.y * self.width + c.x
    }

    /// The open field of `config`.
    pub fn default() -> (g: Grid)
        ensures
            g.width == GRID_WIDTH,
            g.height == GRID_HEIGHT,
            g.wf(),
    {
        Grid { width: GRID_WIDTH, height: GRID_HEIGHT }
    }

    pub fn contains(&self, cell: Cell) -> (b: bool)
        ensures
            b == self.holds(cell),
    {
        cell.x >= 0 && cell.y >= 0 && cell.x < self.width && cell.y < self.height
    }

    /// Where `cell` sits in a row-major table of the board.
    pub fn index(&self, cell: Cell) -> (i: usize)
        requires
            self.wf(),
            self.holds(cell),
        ensures
            i == self.slot(cell),
            i < self.area(),
    {
        proof {
            lemma_slot_bounds(*self, cell);
        }
        (cell.y * self.width + cell.x) as usize
    }

    /// Every cell of the board, row by row from the south-west corner.
    pub fn cells(&self) -> (v: Vec<Cell>)
        requires
            self.wf(),
        ensures
            v.len() == self.area(),
            forall|i: int| 0 <= i < v.len() ==> self.holds(#[trigger] v@[i]) && self.slot(v@[i]) == i,
    {
        let mut v: Vec<Cell> = Vec::new();
        let mut y: i32 = 0;
        while y < self.height
            invariant
                self.wf(),
                0 <= y <= self.height,
                v.len() == y * self.width,
                forall|i: int| 0 <= i < v.len() ==> self.holds(#[trigger] v@[i]) && self.slot(v@[i]) == i,
            decreases self.height - y,
        {
            let mut x: i32 = 0;
            while x < self.width
                invariant
                    self.wf(),
                    0 <= y < self.height,
                    0 <= x <= self.width,
                    v.len() == y * self.width + x,
                    forall|i: int| 0 <= i < v.len() ==> self.holds(#[trigger] v@[i]) && self.slot(v@[i]) == i,
                decreases self.width - x,
            {
                v.push(Cell { x, y });
                x = x + 1;
            }
            assert(y * self.width + self.width == (y + 1) * self.width) by (nonlinear_arith);
            y = y + 1;
        }
        assert(self.height * self.width == self.width * self.height) by (nonlinear_arith);
        v
    }
}

/// Every cell of a board has a slot inside the table.
pub proof fn lemma_slot_bounds(g: Grid, c: Cell)
    requires
        g.wf(),
        g.holds(c),
    ensures
        0 <= g.slot(c) < g.area(),
        g.area() <= i32::MAX,
{
    assert(0 <= c.y * g.width) by (nonlinear_arith)
        requires
            0 <= c.y,
            0 < g.width,
    ;
    assert(c.y * g.width + c.x < g.width * g.height) by (nonlinear_arith)
        requires
            0 <= c.x < g.width,
            0 <= c.y < g.height,
    ;
}

/// Two cells of a board never share a slot.
pub proof fn lemma_slot_injective(g: Grid, a: Cell, b: Cell)
    requires
        g.wf(),
        g.holds(a),
        g.holds(b),
        g.slot(a) == g.slot(b),
    ensures
        a == b,
{
    if a.y < b.y {
        assert(a.y * g.width + a.x < b.y * g.width + b.x) by (nonlinear_arith)
            requires
                0 <= a.x < g.width,
                0 <= b.x,
                a.y < b.y,
                0 < g.width,
        ;
    } else if b.y < a.y {
        assert(b.y * g.width + b.x < a.y * g.width + a.x) by (nonlinear_arith)
            requires
                0 <= b.x < g.width,
                0 <= a.x,
                b.y < a.y,
                0 < g.width,
        ;
    }
}

/// What the ground of a cell is made of.
#[derive(Clone, Copy, PartialEq, Eq, Debug, Structural)]
pub enum Terrain {
    Ground,
    /// The river. No ant can wade through it.
    Water,
    /// A plank laid across the water: ground again, walkable.
    Bridge,
}

impl Terrain {
    pub open spec fn passable(self) -> bool {
        !(self is Water)
    }

    pub fn is_passable(self) -> (b: bool)
        ensures
            b == self.passable(),
    {
        !matches!(self, Terrain::Water)
    }
}

/// What stands on a cell, with the identity of the thing.
#[derive(Clone, Copy, PartialEq, Eq, Debug, Structural)]
pub enum Occupant {
    Ant(u32),
    Fruit(u32),
    Plank(u32),
}

impl Occupant {
    pub open spec fn id(self) -> u32 {
        match self {
            Occupant::Ant(e) => e,
            Occupant::Fruit(e) => e,
            Occupant::Plank(e) => e,
        }
    }

    pub fn entity(self) -> (e: u32)
        ensures
            e == self.id(),
    {
        match self {
            Occupant::Ant(entity) => entity,
            Occupant::Fruit(entity) => entity,
            Occupant::Plank(entity) => entity,
        }
    }
}

/// What stands on which cell, and what each cell is made of. This is the
/// single source of truth about positions: nothing may ever enter a cell that
/// is taken here.
pub struct Occupancy {
    cells: Vec<Option<Occupant>>,
    ground: Vec<Terrain>,
}

impl Occupancy {
    /// The occupants of the board, slot by slot.
    pub closed spec fn occupants(self) -> Seq<Option<Occupant>> {
        self.cells@
    }

    /// The terrain of the board, slot by slot.
    pub closed spec fn terrains(self) -> Seq<Terrain> {
        self.ground@
    }

    /// The table matches the board it describes.
    pub open spec fn wf(self, grid: Grid) -> bool {
        &&& grid.wf()
        &&& self.occupants().len() == grid.area()
        &&& self.terrains().len() == grid.area()
    }

    /// What stands on `c`; off the board reads as empty.
    pub open spec fn occupant(self, grid: Grid, c: Cell) -> Option<Occupant> {
        if grid.holds(c) {
            self.occupants()[grid.slot(c)]
        } else {
            None
        }
    }

    /// What `c` is made of; off the board reads as plain ground.
    pub open spec fn terrain(self, grid: Grid, c: Cell) -> Terrain {
        if grid.holds(c) {
            self.terrains()[grid.slot(c)]
        } else {
            Terrain::Ground
        }
    }

    /// A cell an ant may step onto: on the board, empty, and not water.
    pub open spec fn free(self, grid: Grid, c: Cell) -> bool {
        &&& grid.holds(c)
        &&& self.occupant(grid, c) is None
        &&& self.terrain(grid, c).passable()
    }

    /// An empty board of plain ground.
    pub fn new(grid: Grid) -> (o: Occupancy)
        requires
            grid.wf(),
        ensures
            o.wf(grid),
            forall|c: Cell| o.occupant(grid, c) is None,
            forall|c: Cell| o.terrain(grid, c) == Terrain::Ground,
    {
        let area: usize = (grid.width * grid.height) as usize;
        let mut cells: Vec<Option<Occupant>> = Vec::new();
        let mut ground: Vec<Terrain> = Vec::new();
        let mut i: usize = 0;
        while i < area
            invariant
                i <= area,
                cells.len() == i,
                ground.len() == i,
                forall|k: int| 0 <= k < i ==> cells@[k] is None,
                forall|k: int| 0 <= k < i ==> ground@[k] == Terrain::Ground,
            decreases area - i,
        {
            cells.push(None);
            ground.push(Terrain::Ground);
            i = i + 1;
        }
        let o = Occupancy { cells, ground };
        assert forall|c: Cell| o.occupant(grid, c) is None by {
            if grid.holds(c) {
                lemma_slot_bounds(grid, c);
            }
        }
        assert forall|c: Cell| o.terrain(grid, c) == Terrain::Ground by {
            if grid.holds(c) {
                lemma_slot_bounds(grid, c);
            }
        }
        o
    }

    pub fn is_free(&self, grid: Grid, cell: Cell) -> (b: bool)
        requires
            self.wf(grid),
        ensures
            b == self.free(grid, cell),
    {
        if !grid.contains(cell) {
            return false;
        }
        let i: usize = grid.index(cell);
        self.cells[i].is_none() && self.ground[i].is_passable()
    }

    /// What is on this cell. Out of bounds reads as empty; the edge of the
    /// world is reported to the ant separately, because it is a different thing.
    pub fn at(&self, grid: Grid, cell: Cell) -> (o: Option<Occupant>)
        requires
            self.wf(grid),
        ensures
            o == self.occupant(grid, cell),
    {
        if !grid.contains(cell) {
            return None;
        }
        self.cells[grid.index(cell)]
    }

    /// What the cell is made of. Off the board reads as plain ground.
    pub fn terrain_at(&self, grid: Grid, cell: Cell) -> (t: Terrain)
        requires
            self.wf(grid),
        ensures
            t == self.terrain(grid, cell),
    {
        if !grid.contains(cell) {
            return Terrain::Ground;
        }
        self.ground[grid.index(cell)]
    }

    /// Puts `occupant` on `cell`, whatever stood there before.
    pub fn occupy(&mut self, grid: Grid, cell: Cell, occupant: Occupant)
        requires
            old(self).wf(grid),
            grid.holds(cell),
        ensures
            final(self).wf(grid),
            final(self).occupants() == old(self).occupants().update(grid.slot(cell), Some(occupant)),
            final(self).terrains() == old(self).terrains(),
            forall|c: Cell| #[trigger] final(self).occupant(grid, c) == if c == cell {
                Some(occupant)
            } else {
                old(self).occupant(grid, c)
            },
    {
        let i: usize = grid.index(cell);
        self.cells.set(i, Some(occupant));
        proof {
            lemma_update_reads(*old(self), *self, grid, cell);
        }
    }

    /// Frees a cell, but only if `who` is really what stands there. A stale
    /// call can then never evict somebody else.
    pub fn vacate(&mut self, grid: Grid, cell: Cell, who: u32)
        requires
            old(self).wf(grid),
            grid.holds(cell),
        ensures
            final(self).wf(grid),
            final(self).terrains() == old(self).terrains(),
            forall|c: Cell| #[trigger] final(self).occupant(grid, c) == if c == cell && (
            old(self).occupant(grid, c) matches Some(o) && o.id() == who) {
                None
            } else {
                old(self).occupant(grid, c)
            },
    {
        let i: usize = grid.index(cell);
        let here: Option<Occupant> = self.cells[i];
        match here {
            Some(o) => {
                if o.entity() == who {
                    self.cells.set(i, None);
                    proof {
                        lemma_update_reads(*old(self), *self, grid, cell);
                    }
                }
            },
            None => {},
        }
    }

    /// Sets what a cell is made of; what stands on it is left alone.
    pub fn set_terrain(&mut self, grid: Grid, cell: Cell, terrain: Terrain)
        requires
            old(self).wf(grid),
            grid.holds(cell),
        ensures
            final(self).wf(grid),
            final(self).occupants() == old(self).occupants(),
            forall|c: Cell| #[trigger] final(self).terrain(grid, c) == if c == cell {
                terrain
            } else {
                old(self).terrain(grid, c)
            },
    {
        let i: usize = grid.index(cell);
        self.ground.set(i, terrain);
        proof {
            assert forall|c: Cell| #[trigger] self.terrain(grid, c) == if c == cell {
                terrain
            } else {
                old(self).terrain(grid, c)
            } by {
                if grid.holds(c) && c != cell {
                    lemma_slot_bounds(grid, c);
                    if grid.slot(c) == grid.slot(cell) {
                        lemma_slot_injective(grid, c, cell);
                    }
                }
            }
        }
    }
}

/// After one slot of the occupant table changed, every other cell reads as before.
proof fn lemma_update_reads(before: Occupancy, after: Occupancy, grid: Grid, cell: Cell)
    requires
        before.wf(grid),
        grid.holds(cell),
        after.terrains() == before.terrains(),
        after.occupants() == before.occupants().update(
            grid.slot(cell),
            after.occupants()[grid.slot(cell)],
        ),
    ensures
        after.wf(grid),
        forall|c: Cell| #[trigger] after.occupant(grid, c) == if c == cell {
            after.occupants()[grid.slot(cell)]
        } else {
            before.occupant(grid, c)
        },
{
    lemma_slot_bounds(grid, cell);
    assert forall|c: Cell| #[trigger] after.occupant(grid, c) == if c == cell {
        after.occupants()[grid.slot(cell)]
    } else {
        before.occupant(grid, c)
    } by {
        if grid.holds(c) && c != cell {
            lemma_slot_bounds(grid, c);
            if grid.slot(c) == grid.slot(cell) {
                lemma_slot_injective(grid, c, cell);
            }
        }
    }
}

/// The compass directions among the first `n` that lead onto a free cell.
pub open spec fn free_among(grid: Grid, occupancy: Occupancy, from: Cell, n: nat) -> Seq<Dir>
    decreases n,
{
    if n == 0 {
        Seq::empty()
    } else {
        let before = free_among(grid, occupancy, from, (n - 1) as nat);
        let d = compass(n - 1);
        if occupancy.free(grid, shifted(from, d.dx(), d.dy())) {
            before.push(d)
        } else {
            before
        }
    }
}

/// The directions this ant could step into right now — inside the board and
/// unoccupied, in compass order. Standing still is not a direction.
pub fn free_directions(grid: Grid, occupancy: &Occupancy, from: Cell) -> (v: Vec<Dir>)
    requires
        occupancy.wf(grid),
        reachable(from, 1),
    ensures
        v@ == free_among(grid, *occupancy, from, 8),
{
    let mut v: Vec<Dir> = Vec::new();
    let mut i: usize = 0;
    while i < 8
        invariant
            occupancy.wf(grid),
            reachable(from, 1),
            i <= 8,
            v@ == free_among(grid, *occupancy, from, i as nat),
        decreases 8 - i,
    {
        let d: Dir = Dir::compass_at(i);
        let target: Cell = from.plus(d.offset());
        if occupancy.is_free(grid, target) {
            v.push(d);
        }
        i = i + 1;
    }
    v
}

} // verus!
