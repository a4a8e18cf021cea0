//! A hand-built board with a task, as opposed to the endless field.
//!
//! The open field has no goal, so there is nothing to solve and nothing to get
//! wrong. A scenario gives three things the open field lacks: a fixed board, a
//! condition to meet, and the chance to try the sentence again.

use vstd::prelude::*;

use crate::grid::{Cell, Grid};
use crate::nest::Nest;
use crate::text::{joined, signed_decimal, signed_string, trimmed_text, decimal, decimal_string, is_blank, wide_decimal_string};

verus! {

/// The levels, in the order they are meant to be met: the first board
/// teaches the loop, the second asks something of it.
pub const LEVEL_COUNT: usize = 2;

/// The names of the levels, in order.
pub fn levels() -> (v: Vec<&'static str>)
    ensures
        v@.len() == LEVEL_COUNT,
        v@[0]@ == "fruit"@,
        v@[1]@ == "plank"@,
{
    vec!["fruit", "plank"]
}

/// One task. Everything the open field would take from `config` comes from here
/// instead, so a board can be small and crowded where the open field is wide.
#[derive(Debug)]
pub struct Scenario {
    /// What the level is called, for the picker.
    pub name: String,
    /// Shown to the player. The ants never read it: they know only what they
    /// see, and telling them the plan would be the end of the puzzle.
    pub briefing: String,
    pub width: i32,
    pub height: i32,
    /// Bottom-left corner of the nest, and its edge length.
    pub nest_at: (i32, i32),
    pub nest_size: i32,
    pub ants: usize,
    /// Cells the river runs through. One wide is enough to stop a colony.
    pub water: Vec<(i32, i32)>,
    pub fruit: Vec<(i32, i32)>,
    /// Where the plank starts, if the board has one.
    pub plank_at: Option<(i32, i32)>,
    /// How many fruits have to reach the stores for the task to be solved.
    pub target: u32,
}

/// The cell a pair of coordinates names.
pub open spec fn cell_of(p: (i32, i32)) -> Cell {
    Cell { x: p.0, y: p.1 }
}

/// "(x, y)".
pub open spec fn pair_text(x: int, y: int) -> Seq<char> {
    "("@ + signed_decimal(x) + ", "@ + signed_decimal(y) + ")"@
}

/// A cell as the board's vector type writes itself for debugging: "IVec2(x, y)".
pub open spec fn vector_text(x: int, y: int) -> Seq<char> {
    "IVec2"@ + pair_text(x, y)
}

/// The first of the first `n` cells in `s` that lies off the board.
pub open spec fn first_off_board(grid: Grid, s: Seq<(i32, i32)>, n: nat) -> Option<int>
    decreases n,
{
    if n == 0 {
        None
    } else {
        match first_off_board(grid, s, (n - 1) as nat) {
            Some(k) => Some(k),
            None => if !grid.holds(cell_of(s[n - 1])) {
                Some(n - 1)
            } else {
                None
            },
        }
    }
}

/// The first of the first `n` fruits that lies in the river.
pub open spec fn first_afloat(fruit: Seq<(i32, i32)>, water: Seq<(i32, i32)>, n: nat) -> Option<int>
    decreases n,
{
    if n == 0 {
        None
    } else {
        match first_afloat(fruit, water, (n - 1) as nat) {
            Some(k) => Some(k),
            None => if water.contains(fruit[n - 1]) {
                Some(n - 1)
            } else {
                None
            },
        }
    }
}

/// The first cell of a nest on `grid`, row by row from its south-west
/// corner, that lies off the board.
pub open spec fn nest_off_board(grid: Grid, x: int, y: int, size: int) -> Option<(int, int)> {
    if size <= 0 {
        None
    } else if x < 0 || y < 0 || x >= grid.width || y >= grid.height {
        Some((x, y))
    } else if x + size > grid.width {
        Some((grid.width as int, y))
    } else if y + size > grid.height {
        Some((x, grid.height as int))
    } else {
        None
    }
}

/// A board is accepted only with its whole nest on it: every cell of the
/// nest square, `nest_at + (i, j)` for `0 <= i, j < nest_size`, lies inside
/// the board.
pub proof fn lemma_an_accepted_nest_lies_on_the_board(s: Scenario, i: int, j: int)
    requires
        s.problem() is None,
        0 <= i < s.nest_size,
        0 <= j < s.nest_size,
    ensures
        0 <= s.nest_at.0 + i < s.width,
        0 <= s.nest_at.1 + j < s.height,
{
}

/// A nest with a cell off the board is refused, and the refusal names a cell
/// of the nest square that lies off the board.
pub proof fn lemma_a_nest_off_the_board_is_refused(s: Scenario, i: int, j: int)
    requires
        0 <= i < s.nest_size,
        0 <= j < s.nest_size,
        !(0 <= s.nest_at.0 + i < s.width && 0 <= s.nest_at.1 + j < s.height),
    ensures
        exists|a: int, b: int|
            #![trigger vector_text(s.nest_at.0 + a, s.nest_at.1 + b)]
            {
                &&& 0 <= a < s.nest_size
                &&& 0 <= b < s.nest_size
                &&& !(0 <= s.nest_at.0 + a < s.width && 0 <= s.nest_at.1 + b < s.height)
                &&& s.problem() == Some("the nest reaches off the board at "@ + vector_text(
                    s.nest_at.0 + a,
                    s.nest_at.1 + b,
                ))
            },
{
    let x = s.nest_at.0 as int;
    let y = s.nest_at.1 as int;
    let c = nest_off_board(s.board(), x, y, s.nest_size as int);
    assert(c is Some);
    let (cx, cy) = c.unwrap();
    assert(vector_text(x + (cx - x), y + (cy - y)) == vector_text(cx, cy));
}

impl Scenario {
    pub open spec fn board(&self) -> Grid {
        Grid { width: self.width, height: self.height }
    }

    pub fn grid(&self) -> (g: Grid)
        ensures
            g == self.board(),
    {
        Grid { width: self.width, height: self.height }
    }

    pub fn nest(&self) -> (n: Nest)
        ensures
            n.min == cell_of(self.nest_at),
            n.size == self.nest_size,
    {
        Nest { min: Cell { x: self.nest_at.0, y: self.nest_at.1 }, size: self.nest_size }
    }

    /// What makes the board unplayable, the first thing found: a nest off the
    /// edge, water or fruit off the board, a plank off the board or in the
    /// river, a fruit in the river, a task nobody could finish, no colony, no
    /// name, or more ants than the nest has cells.
    pub open spec fn problem(&self) -> Option<Seq<char>> {
        let grid = self.board();
        if nest_off_board(grid, self.nest_at.0 as int, self.nest_at.1 as int, self.nest_size as int) is Some {
            let c = nest_off_board(grid, self.nest_at.0 as int, self.nest_at.1 as int, self.nest_size as int).unwrap();
            Some("the nest reaches off the board at "@ + vector_text(c.0, c.1))
        } else if first_off_board(grid, self.water@, self.water@.len()) is Some {
            let p = self.water@[first_off_board(grid, self.water@, self.water@.len()).unwrap()];
            Some("water at "@ + vector_text(p.0 as int, p.1 as int) + " is off the board"@)
        } else if first_off_board(grid, self.fruit@, self.fruit@.len()) is Some {
            let p = self.fruit@[first_off_board(grid, self.fruit@, self.fruit@.len()).unwrap()];
            Some("fruit at "@ + vector_text(p.0 as int, p.1 as int) + " is off the board"@)
        } else if self.plank_at is Some && !grid.holds(cell_of(self.plank_at.unwrap())) {
            let p = self.plank_at.unwrap();
            Some("the plank at "@ + vector_text(p.0 as int, p.1 as int) + " is off the board"@)
        } else if self.plank_at is Some && self.water@.contains(self.plank_at.unwrap()) {
            Some("the plank starts in the water"@)
        } else if first_afloat(self.fruit@, self.water@, self.fruit@.len()) is Some {
            let p = self.fruit@[first_afloat(self.fruit@, self.water@, self.fruit@.len()).unwrap()];
            Some("a fruit floats in the river at "@ + pair_text(p.0 as int, p.1 as int))
        } else if self.target > self.fruit@.len() {
            Some(decimal(self.target as nat) + " fruits to fetch but only "@ + decimal(self.fruit@.len())
                + " on the board"@)
        } else if self.ants == 0 {
            Some("a colony of no ants"@)
        } else if trimmed_text(self.name@).len() == 0 {
            Some("a level with no name cannot be offered"@)
        } else if self.ants > self.nest_size * self.nest_size {
            Some(decimal(self.ants as nat) + " ants will not fit in a nest of "@ + decimal(
                (self.nest_size * self.nest_size) as nat,
            ) + " cells"@)
        } else {
            None
        }
    }

    /// Catches the mistakes that make a board unplayable before the player
    /// meets them, and says which it found first.
    pub fn check(&self) -> (r: Result<(), String>)
        ensures
            r is Ok <==> self.problem() is None,
            r matches Err(m) ==> self.problem() == Some(m@),
    {
        let grid: Grid = self.grid();
        if let Some((x, y)) = nest_edge(grid, self.nest_at.0, self.nest_at.1, self.nest_size) {
            return Err(joined("the nest reaches off the board at ", vector_string(x, y).as_str()));
        }
        match first_off(grid, &self.water) {
            Some(k) => {
                let (x, y) = self.water[k];
                let front = joined("water at ", vector_string(x as i64, y as i64).as_str());
                return Err(joined(front.as_str(), " is off the board"));
            },
            None => {},
        }
        match first_off(grid, &self.fruit) {
            Some(k) => {
                let (x, y) = self.fruit[k];
                let front = joined("fruit at ", vector_string(x as i64, y as i64).as_str());
                return Err(joined(front.as_str(), " is off the board"));
            },
            None => {},
        }
        if let Some((x, y)) = self.plank_at {
            if !grid.contains(Cell { x, y }) {
                let front = joined("the plank at ", vector_string(x as i64, y as i64).as_str());
                return Err(joined(front.as_str(), " is off the board"));
            }
            if listed(&self.water, (x, y)) {
                return Err(String::from_str("the plank starts in the water"));
            }
        }
        match first_in(&self.fruit, &self.water) {
            Some(k) => {
                let (x, y) = self.fruit[k];
                return Err(joined("a fruit floats in the river at ", pair_string(x as i64, y as i64).as_str()));
            },
            None => {},
        }
        if self.target as usize > self.fruit.len() {
            let wanted = decimal_string(self.target);
            let front = joined(wanted.as_str(), " fruits to fetch but only ");
            let have = wide_decimal_string(self.fruit.len() as u64);
            let middle = joined(front.as_str(), have.as_str());
            return Err(joined(middle.as_str(), " on the board"));
        }
        if self.ants == 0 {
            return Err(String::from_str("a colony of no ants"));
        }
        if is_blank(self.name.as_str()) {
            return Err(String::from_str("a level with no name cannot be offered"));
        }
        // Eight ants in nine cells spend their first seconds untangling
        // themselves instead of answering.
        let size: i64 = self.nest_size as i64;
        assert(0 <= size * size <= 0x4000_0000_0000_0000) by (nonlinear_arith)
            requires
                -0x8000_0000 <= size <= 0x8000_0000,
        ;
        let room: i64 = size * size;
        if self.ants as u64 > room as u64 {
            let count = wide_decimal_string(self.ants as u64);
            let front = joined(count.as_str(), " ants will not fit in a nest of ");
            let cells = wide_decimal_string(room as u64);
            let middle = joined(front.as_str(), cells.as_str());
            return Err(joined(middle.as_str(), " cells"));
        }
        Ok(())
    }
}

/// "IVec2(x, y)".
fn vector_string(x: i64, y: i64) -> (s: String)
    requires
        i32::MIN <= x <= i32::MAX,
        i32::MIN <= y <= i32::MAX,
    ensures
        s@ == vector_text(x as int, y as int),
{
    let pair = pair_string(x, y);
    joined("IVec2", pair.as_str())
}

/// "(x, y)".
fn pair_string(x: i64, y: i64) -> (s: String)
    requires
        i32::MIN <= x <= i32::MAX,
        i32::MIN <= y <= i32::MAX,
    ensures
        s@ == pair_text(x as int, y as int),
{
    let left = joined("(", signed_string(x as i32).as_str());
    let middle = joined(left.as_str(), ", ");
    let right = joined(middle.as_str(), signed_string(y as i32).as_str());
    joined(right.as_str(), ")")
}

/// The first nest cell off the board, as `nest_off_board` names it.
fn nest_edge(grid: Grid, x: i32, y: i32, size: i32) -> (r: Option<(i64, i64)>)
    ensures
        r matches Some(c) ==> i32::MIN <= c.0 <= i32::MAX && i32::MIN <= c.1 <= i32::MAX,
        r == (match nest_off_board(grid, x as int, y as int, size as int) {
            Some(c) => Some((c.0 as i64, c.1 as i64)),
            None => None::<(i64, i64)>,
        }),
{
    if size <= 0 {
        None
    } else if x < 0 || y < 0 || x >= grid.width || y >= grid.height {
        Some((x as i64, y as i64))
    } else if x as i64 + size as i64 > grid.width as i64 {
        Some((grid.width as i64, y as i64))
    } else if y as i64 + size as i64 > grid.height as i64 {
        Some((x as i64, grid.height as i64))
    } else {
        None
    }
}

/// The first cell in `cells` off the board.
fn first_off(grid: Grid, cells: &Vec<(i32, i32)>) -> (r: Option<usize>)
    ensures
        r matches Some(k) ==> k < cells@.len() && first_off_board(grid, cells@, cells@.len()) == Some(k as int),
        r is None ==> first_off_board(grid, cells@, cells@.len()) is None,
{
    let mut k: usize = 0;
    while k < cells.len()
        invariant
            k <= cells@.len(),
            first_off_board(grid, cells@, k as nat) is None,
        decreases cells@.len() - k,
    {
        let (x, y) = cells[k];
        if !grid.contains(Cell { x, y }) {
            proof {
                lemma_first_off_stays(grid, cells@, (k + 1) as nat, cells@.len());
            }
            return Some(k);
        }
        k = k + 1;
    }
    None
}

proof fn lemma_first_off_stays(grid: Grid, s: Seq<(i32, i32)>, n: nat, m: nat)
    requires
        n <= m,
        first_off_board(grid, s, n) is Some,
    ensures
        first_off_board(grid, s, m) == first_off_board(grid, s, n),
    decreases m - n,
{
    if n < m {
        lemma_first_off_stays(grid, s, n, (m - 1) as nat);
    }
}

/// Whether `p` is in `cells`.
fn listed(cells: &Vec<(i32, i32)>, p: (i32, i32)) -> (b: bool)
    ensures
        b == cells@.contains(p),
{
    let mut k: usize = 0;
    while k < cells.len()
        invariant
            k <= cells@.len(),
            forall|l: int| 0 <= l < k ==> cells@[l] != p,
        decreases cells@.len() - k,
    {
        if cells[k].0 == p.0 && cells[k].1 == p.1 {
            assert(cells@[k as int] == p);
            return true;
        }
        k = k + 1;
    }
    false
}

/// The first fruit that lies in the river.
fn first_in(fruit: &Vec<(i32, i32)>, water: &Vec<(i32, i32)>) -> (r: Option<usize>)
    ensures
        r matches Some(k) ==> k < fruit@.len() && first_afloat(fruit@, water@, fruit@.len()) == Some(k as int),
        r is None ==> first_afloat(fruit@, water@, fruit@.len()) is None,
{
    let mut k: usize = 0;
    while k < fruit.len()
        invariant
            k <= fruit@.len(),
            first_afloat(fruit@, water@, k as nat) is None,
        decreases fruit@.len() - k,
    {
        if listed(water, fruit[k]) {
            proof {
                lemma_first_afloat_stays(fruit@, water@, (k + 1) as nat, fruit@.len());
            }
            return Some(k);
        }
        k = k + 1;
    }
    None
}

proof fn lemma_first_afloat_stays(fruit: Seq<(i32, i32)>, water: Seq<(i32, i32)>, n: nat, m: nat)
    requires
        n <= m,
        first_afloat(fruit, water, n) is Some,
    ensures
        first_afloat(fruit, water, m) == first_afloat(fruit, water, n),
    decreases m - n,
{
    if n < m {
        lemma_first_afloat_stays(fruit, water, n, (m - 1) as nat);
    }
}

/// Whether the task is done. Kept apart from the stores so the banner can
/// stay up while the colony carries on.
pub struct Solved(pub bool);

/// Marks the task solved once enough fruit is home. Solved stays solved.
pub fn check_solved(target: Option<u32>, stores: u32, solved: &mut Solved)
    ensures
        final(solved).0 == (old(solved).0 || (target matches Some(t) && stores >= t)),
{
    match target {
        Some(t) => {
            if !solved.0 && stores >= t {
                solved.0 = true;
            }
        },
        None => {},
    }
}

} // verus!
