//! What is visible, turned into the options a single ant may choose from.
//!
//! The list is built from the board every time, so the model can only ever
//! name something the ant can actually do: it cannot fetch a fruit that is not
//! there, and it cannot carry home what it is not holding.

use vstd::prelude::*;

use crate::action::Action;
use crate::config::PLANK_VISIBLE_FROM;
use crate::grid::{
    chebyshev, compass, free_among, free_directions, nearest_dir, reachable, shifted, Cell, Dir,
    Grid, Occupancy, Occupant,
};
use crate::nest::Nest;
use crate::scent::Scent;

verus! {

/// What the ant has in its hands: one thing at a time.
#[derive(Clone, Copy, PartialEq, Eq, Debug, Structural)]
pub enum Hands {
    Empty,
    Fruit,
    /// One end of the plank.
    Plank,
}

/// The fruit nearest per compass direction, after looking `(dx, dy)` away.
pub open spec fn fruit_consider(
    slots: Seq<Option<(u32, int)>>,
    occupancy: Occupancy,
    grid: Grid,
    at: Cell,
    dx: int,
    dy: int,
) -> Seq<Option<(u32, int)>> {
    if dx == 0 && dy == 0 {
        slots
    } else {
        match occupancy.occupant(grid, shifted(at, dx, dy)) {
            Some(Occupant::Fruit(f)) => {
                let d = chebyshev(dx, dy);
                let i = nearest_dir(dx, dy).index();
                if slots[i] matches Some(k) && !(d < k.1) {
                    slots
                } else {
                    slots.update(i, Some((f, d)))
                }
            },
            _ => slots,
        }
    }
}

pub open spec fn fruit_row(
    start: Seq<Option<(u32, int)>>,
    occupancy: Occupancy,
    grid: Grid,
    at: Cell,
    r: int,
    dy: int,
    n: nat,
) -> Seq<Option<(u32, int)>>
    decreases n,
{
    if n == 0 {
        start
    } else {
        fruit_consider(
            fruit_row(start, occupancy, grid, at, r, dy, (n - 1) as nat),
            occupancy,
            grid,
            at,
            -r + n - 1,
            dy,
        )
    }
}

pub open spec fn fruit_rows(occupancy: Occupancy, grid: Grid, at: Cell, r: int, m: nat) -> Seq<
    Option<(u32, int)>,
>
    decreases m,
{
    if m == 0 {
        Seq::new(8, |i: int| None)
    } else {
        fruit_row(
            fruit_rows(occupancy, grid, at, r, (m - 1) as nat),
            occupancy,
            grid,
            at,
            r,
            -r + m - 1,
            (2 * r + 1) as nat,
        )
    }
}

/// The fetches for the first `n` compass directions, in compass order.
pub open spec fn fetches_from(slots: Seq<Option<(u32, int)>>, n: nat) -> Seq<Action>
    decreases n,
{
    if n == 0 {
        Seq::empty()
    } else {
        fetches_from(slots, (n - 1) as nat) + match slots[n - 1] {
            Some((f, d)) => seq![Action::Fetch { fruit: f, dir: compass(n - 1), distance: d as i32 }],
            None => Seq::empty(),
        }
    }
}

/// The nearest fruit per compass direction within `r`, in compass order.
pub open spec fn fruits_spec(occupancy: Occupancy, grid: Grid, at: Cell, r: int) -> Seq<Action> {
    fetches_from(fruit_rows(occupancy, grid, at, r, (2 * r + 1) as nat), 8)
}

/// The nearest plank, after looking `(dx, dy)` away: the first of the closest.
pub open spec fn plank_consider(
    best: Option<(u32, Dir, int)>,
    occupancy: Occupancy,
    grid: Grid,
    at: Cell,
    dx: int,
    dy: int,
) -> Option<(u32, Dir, int)> {
    if dx == 0 && dy == 0 {
        best
    } else {
        match occupancy.occupant(grid, shifted(at, dx, dy)) {
            Some(Occupant::Plank(p)) => {
                let d = chebyshev(dx, dy);
                if best matches Some(b) && !(d < b.2) {
                    best
                } else {
                    Some((p, nearest_dir(dx, dy), d))
                }
            },
            _ => best,
        }
    }
}

pub open spec fn plank_row(
    start: Option<(u32, Dir, int)>,
    occupancy: Occupancy,
    grid: Grid,
    at: Cell,
    r: int,
    dy: int,
    n: nat,
) -> Option<(u32, Dir, int)>
    decreases n,
{
    if n == 0 {
        start
    } else {
        plank_consider(
            plank_row(start, occupancy, grid, at, r, dy, (n - 1) as nat),
            occupancy,
            grid,
            at,
            -r + n - 1,
            dy,
        )
    }
}

pub open spec fn plank_rows(occupancy: Occupancy, grid: Grid, at: Cell, r: int, m: nat) -> Option<
    (u32, Dir, int),
>
    decreases m,
{
    if m == 0 {
        None
    } else {
        plank_row(
            plank_rows(occupancy, grid, at, r, (m - 1) as nat),
            occupancy,
            grid,
            at,
            r,
            -r + m - 1,
            (2 * r + 1) as nat,
        )
    }
}

/// The plank, if one is lying within sight.
pub open spec fn plank_spec(occupancy: Occupancy, grid: Grid, at: Cell) -> Seq<Action> {
    let r = PLANK_VISIBLE_FROM as int;
    match plank_rows(occupancy, grid, at, r, (2 * r + 1) as nat) {
        Some((p, dir, d)) => seq![Action::TakePlank { plank: p, dir, distance: d as i32 }],
        None => Seq::empty(),
    }
}

/// Everything an ant at `at` holding `hands` may do, in a fixed order: what
/// its hands allow, then the trail, then the free directions — or standing
/// still when there is no way out at all.
pub open spec fn options_spec(
    grid: Grid,
    occupancy: Occupancy,
    nest: Nest,
    scent: Scent,
    at: Cell,
    hands: Hands,
    r: int,
) -> Seq<Action> {
    if hands == Hands::Plank {
        seq![Action::LetGoPlank, Action::Wait]
    } else {
        let in_sight = nest.distance(at) <= r;
        let first = if hands == Hands::Fruit {
            if in_sight { seq![Action::CarryHome] } else { Seq::empty() }
        } else {
            fruits_spec(occupancy, grid, at, r) + plank_spec(occupancy, grid, at)
        };
        let trail = if in_sight {
            Seq::empty()
        } else {
            match scent.uphill_among(grid, at, 8) {
                Some(u) => seq![Action::FollowScent(u.0)],
                None => Seq::empty(),
            }
        };
        let free = free_among(grid, occupancy, at, 8);
        let ways = if free.len() == 0 {
            seq![Action::Wait]
        } else {
            free.map_values(|d: Dir| Action::Walk(d))
        };
        first + trail + ways
    }
}

/// The room an ant's surroundings need in `i32`.
pub open spec fn options_fit(at: Cell, r: int) -> bool {
    &&& 0 <= r
    &&& reachable(at, r)
    &&& reachable(at, PLANK_VISIBLE_FROM as int)
}

pub open spec fn slot_view(o: Option<(u32, i32)>) -> Option<(u32, int)> {
    match o {
        Some(p) => Some((p.0, p.1 as int)),
        None => None,
    }
}

pub open spec fn slots_view(s: Seq<Option<(u32, i32)>>) -> Seq<Option<(u32, int)>> {
    s.map_values(|o: Option<(u32, i32)>| slot_view(o))
}

pub open spec fn plank_view(o: Option<(u32, Dir, i32)>) -> Option<(u32, Dir, int)> {
    match o {
        Some(p) => Some((p.0, p.1, p.2 as int)),
        None => None,
    }
}

/// The nearest fruit per compass direction, in compass order. Offering every
/// single fruit would give the model options it cannot tell apart.
fn fruits_in_sight(grid: Grid, occupancy: &Occupancy, at: Cell, radius: i32) -> (v: Vec<Action>)
    requires
        occupancy.wf(grid),
        options_fit(at, radius as int),
    ensures
        v@ == fruits_spec(*occupancy, grid, at, radius as int),
{
    let mut nearest: Vec<Option<(u32, i32)>> = vec![None, None, None, None, None, None, None, None];
    assert(slots_view(nearest@) =~= fruit_rows(*occupancy, grid, at, radius as int, 0));
    let mut dy: i64 = -(radius as i64);
    while dy <= radius as i64
        invariant
            occupancy.wf(grid),
            options_fit(at, radius as int),
            -radius <= dy <= radius + 1,
            nearest.len() == 8,
            slots_view(nearest@) == fruit_rows(*occupancy, grid, at, radius as int, (dy + radius) as nat),
        decreases radius + 1 - dy,
    {
        let mut dx: i64 = -(radius as i64);
        while dx <= radius as i64
            invariant
                occupancy.wf(grid),
                options_fit(at, radius as int),
                -radius <= dy <= radius,
                -radius <= dx <= radius + 1,
                nearest.len() == 8,
                slots_view(nearest@) == fruit_row(
                    fruit_rows(*occupancy, grid, at, radius as int, (dy + radius) as nat),
                    *occupancy,
                    grid,
                    at,
                    radius as int,
                    dy as int,
                    (dx + radius) as nat,
                ),
            decreases radius + 1 - dx,
        {
            let ghost before = slots_view(nearest@);
            if !(dx == 0 && dy == 0) {
                let offset = Cell { x: dx as i32, y: dy as i32 };
                match occupancy.at(grid, at.plus(offset)) {
                    Some(Occupant::Fruit(fruit)) => {
                        let distance: u32 = offset.king_distance();
                        let direction = Dir::nearest(offset);
                        assert(direction != Dir::Stay);
                        let i: usize = direction_index(direction);
                        let keep: bool = match nearest[i] {
                            Some(known) => !((distance as i32) < known.1),
                            None => false,
                        };
                        if !keep {
                            nearest.set(i, Some((fruit, distance as i32)));
                        }
                        assert(slots_view(nearest@) =~= fruit_consider(
                            before,
                            *occupancy,
                            grid,
                            at,
                            dx as int,
                            dy as int,
                        ));
                    },
                    _ => {},
                }
            }
            dx = dx + 1;
        }
        dy = dy + 1;
    }
    let ghost slots = slots_view(nearest@);
    let mut out: Vec<Action> = Vec::new();
    let mut i: usize = 0;
    while i < 8
        invariant
            i <= 8,
            nearest.len() == 8,
            slots == slots_view(nearest@),
            out@ == fetches_from(slots, i as nat),
        decreases 8 - i,
    {
        match nearest[i] {
            Some((fruit, distance)) => {
                out.push(Action::Fetch { fruit, dir: Dir::compass_at(i), distance });
                assert(slots[i as int] == Some((fruit, distance as int)));
            },
            None => {
                assert(slots[i as int] is None);
            },
        }
        i = i + 1;
    }
    out
}

/// The plank, if one is lying within sight and still needs hands. A plank
/// that has been picked up leaves the board, so anything still standing on a
/// cell is one that can still be taken.
fn plank_in_sight(grid: Grid, occupancy: &Occupancy, at: Cell) -> (v: Vec<Action>)
    requires
        occupancy.wf(grid),
        reachable(at, PLANK_VISIBLE_FROM as int),
    ensures
        v@ == plank_spec(*occupancy, grid, at),
{
    let radius: i32 = PLANK_VISIBLE_FROM;
    let mut nearest: Option<(u32, Dir, i32)> = None;
    let mut dy: i32 = -radius;
    while dy <= radius
        invariant
            occupancy.wf(grid),
            reachable(at, PLANK_VISIBLE_FROM as int),
            radius == PLANK_VISIBLE_FROM,
            -radius <= dy <= radius + 1,
            plank_view(nearest) == plank_rows(*occupancy, grid, at, radius as int, (dy + radius) as nat),
        decreases radius + 1 - dy,
    {
        let mut dx: i32 = -radius;
        while dx <= radius
            invariant
                occupancy.wf(grid),
                reachable(at, PLANK_VISIBLE_FROM as int),
                radius == PLANK_VISIBLE_FROM,
                -radius <= dy <= radius,
                -radius <= dx <= radius + 1,
                plank_view(nearest) == plank_row(
                    plank_rows(*occupancy, grid, at, radius as int, (dy + radius) as nat),
                    *occupancy,
                    grid,
                    at,
                    radius as int,
                    dy as int,
                    (dx + radius) as nat,
                ),
            decreases radius + 1 - dx,
        {
            if !(dx == 0 && dy == 0) {
                let offset = Cell { x: dx, y: dy };
                match occupancy.at(grid, at.plus(offset)) {
                    Some(Occupant::Plank(plank)) => {
                        let distance: u32 = offset.king_distance();
                        let better: bool = match nearest {
                            Some(known) => (distance as i32) < known.2,
                            None => true,
                        };
                        if better {
                            nearest = Some((plank, Dir::nearest(offset), distance as i32));
                        }
                    },
                    _ => {},
                }
            }
            dx = dx + 1;
        }
        dy = dy + 1;
    }
    let mut out: Vec<Action> = Vec::new();
    match nearest {
        Some((plank, dir, distance)) => {
            out.push(Action::TakePlank { plank, dir, distance });
        },
        None => {},
    }
    assert(out@ =~= plank_spec(*occupancy, grid, at));
    out
}

/// Where a direction stands in the compass; standing still counts as north.
pub fn direction_index(direction: Dir) -> (i: usize)
    ensures
        direction != Dir::Stay ==> i == direction.index(),
        direction == Dir::Stay ==> i == 0,
        i < 8,
{
    match direction {
        Dir::North => 0,
        Dir::NorthEast => 1,
        Dir::East => 2,
        Dir::SouthEast => 3,
        Dir::South => 4,
        Dir::SouthWest => 5,
        Dir::West => 6,
        Dir::NorthWest => 7,
        Dir::Stay => 0,
    }
}

/// Everything this ant can do right now, in a fixed order so that two ants in
/// the same situation produce the very same request.
pub fn available(
    grid: Grid,
    occupancy: &Occupancy,
    nest: Nest,
    scent: &Scent,
    at: Cell,
    hands: Hands,
    radius: i32,
) -> (v: Vec<Action>)
    requires
        occupancy.wf(grid),
        scent.wf(grid),
        nest.wf(),
        options_fit(at, radius as int),
    ensures
        v@ == options_spec(grid, *occupancy, nest, *scent, at, hands, radius as int),
        forall|i: int, j: int|
            0 <= i < j < v@.len() ==> (#[trigger] v@[i]).key_text() != (#[trigger] v@[j]).key_text(),
{
    // Carrying the plank is its own situation: hands full, and a crossing to reach.
    if matches!(hands, Hands::Plank) {
        let v: Vec<Action> = vec![Action::LetGoPlank, Action::Wait];
        assert(v@ =~= seq![Action::LetGoPlank, Action::Wait]);
        proof {
            assert forall|i: int, j: int| 0 <= i < j < v@.len() implies (#[trigger] v@[i]).key_text() != (
            #[trigger] v@[j]).key_text() by {
                lemma_every_option_has_its_own_key(grid, *occupancy, nest, *scent, at, hands, radius as int, i, j);
            }
        }
        return v;
    }
    let in_sight: bool = nest.within(at, radius);
    let mut options: Vec<Action> = Vec::new();
    if matches!(hands, Hands::Fruit) {
        // Home has to be found, not assumed: walking straight there is only an
        // option while the nest is in sight.
        if in_sight {
            options.push(Action::CarryHome);
        }
    } else {
        // Food is found by eye, and two hands hold one load.
        let mut fruits = fruits_in_sight(grid, occupancy, at, radius);
        let mut plank = plank_in_sight(grid, occupancy, at);
        options.append(&mut fruits);
        options.append(&mut plank);
    }
    let ghost first = options@;
    // The trail, to whoever stands next to one — but never with the nest in
    // sight, where following it would take no step.
    if !in_sight {
        match scent.uphill(grid, at) {
            Some((direction, _)) => {
                options.push(Action::FollowScent(direction));
            },
            None => {},
        }
    }
    let ghost with_trail = options@;
    let ways_out = free_directions(grid, occupancy, at);
    if ways_out.len() == 0 {
        // Wedged in: standing still is the only thing left.
        options.push(Action::Wait);
    } else {
        let mut k: usize = 0;
        while k < ways_out.len()
            invariant
                k <= ways_out.len(),
                options@ == with_trail + ways_out@.take(k as int).map_values(|d: Dir| Action::Walk(d)),
            decreases ways_out.len() - k,
        {
            options.push(Action::Walk(ways_out[k]));
            assert(ways_out@.take(k + 1) =~= ways_out@.take(k as int).push(ways_out@[k as int]));
            assert(options@ =~= with_trail + ways_out@.take(k + 1).map_values(|d: Dir| Action::Walk(d)));
            k = k + 1;
        }
        assert(ways_out@.take(ways_out.len() as int) =~= ways_out@);
    }
    assert(options@ =~= options_spec(grid, *occupancy, nest, *scent, at, hands, radius as int));
    proof {
        assert forall|i: int, j: int| 0 <= i < j < options@.len() implies (#[trigger] options@[i]).key_text() != (
        #[trigger] options@[j]).key_text() by {
            lemma_every_option_has_its_own_key(grid, *occupancy, nest, *scent, at, hands, radius as int, i, j);
        }
    }
    options
}


/// Every fetch on the list is a fetch, one per compass direction at most, in
/// compass order.
proof fn lemma_fetches_are_fetches(slots: Seq<Option<(u32, int)>>, n: nat, k: int)
    requires
        0 <= k < fetches_from(slots, n).len(),
    ensures
        fetches_from(slots, n)[k] is Fetch,
    decreases n,
{
    if n > 0 {
        let before = fetches_from(slots, (n - 1) as nat);
        if k < before.len() {
            lemma_fetches_are_fetches(slots, (n - 1) as nat, k);
        }
    }
}

/// An option the simulation would refuse to carry out is not an option: a
/// step is offered only onto a free cell, the trail only where there is one
/// and home is out of sight, carrying home only with fruit in hand and home
/// in sight, standing still only when there is nothing else, fruit and plank
/// only to empty hands, and letting go only to a plank carrier.
pub proof fn lemma_offers_can_be_carried_out(
    grid: Grid,
    occupancy: Occupancy,
    nest: Nest,
    scent: Scent,
    at: Cell,
    hands: Hands,
    r: int,
    k: int,
)
    requires
        0 <= k < options_spec(grid, occupancy, nest, scent, at, hands, r).len(),
    ensures
        ({
            let o = options_spec(grid, occupancy, nest, scent, at, hands, r)[k];
            &&& o matches Action::Walk(d) ==> hands != Hands::Plank && occupancy.free(grid, shifted(at, d.dx(), d.dy()))
            &&& o matches Action::FollowScent(d) ==> hands != Hands::Plank && nest.distance(at) > r && (
            scent.uphill_among(grid, at, 8) matches Some(u) && u.0 == d)
            &&& o is CarryHome ==> hands == Hands::Fruit && nest.distance(at) <= r
            &&& o is Wait ==> hands == Hands::Plank || free_among(grid, occupancy, at, 8).len() == 0
            &&& o is Fetch ==> hands == Hands::Empty
            &&& o is TakePlank ==> hands == Hands::Empty
            &&& o is LetGoPlank ==> hands == Hands::Plank
        }),
{
    if hands != Hands::Plank {
        let in_sight = nest.distance(at) <= r;
        let fruits = fruits_spec(occupancy, grid, at, r);
        let plank = plank_spec(occupancy, grid, at);
        let first = if hands == Hands::Fruit {
            if in_sight { seq![Action::CarryHome] } else { Seq::<Action>::empty() }
        } else {
            fruits + plank
        };
        let trail = if in_sight {
            Seq::<Action>::empty()
        } else {
            match scent.uphill_among(grid, at, 8) {
                Some(u) => seq![Action::FollowScent(u.0)],
                None => Seq::<Action>::empty(),
            }
        };
        let free = free_among(grid, occupancy, at, 8);
        let ways = if free.len() == 0 {
            seq![Action::Wait]
        } else {
            free.map_values(|d: Dir| Action::Walk(d))
        };
        let all = first + trail + ways;
        assert(options_spec(grid, occupancy, nest, scent, at, hands, r) == all);
        if k < first.len() {
            assert(all[k] == first[k]);
            if hands == Hands::Empty {
                if k < fruits.len() {
                    lemma_fetches_are_fetches(
                        fruit_rows(occupancy, grid, at, r, (2 * r + 1) as nat),
                        8,
                        k,
                    );
                    assert(first[k] == fruits[k]);
                } else {
                    assert(first[k] == plank[k - fruits.len()]);
                }
            }
        } else if k < first.len() + trail.len() {
            assert(all[k] == trail[k - first.len()]);
        } else {
            let i = k - first.len() - trail.len();
            assert(all[k] == ways[i]);
            if free.len() > 0 {
                crate::world::lemma_free_among_free(grid, occupancy, at, 8);
                assert(ways[i] == Action::Walk(free[i]));
            }
        }
    }
}


/// Which of the keys an option can have it has: one class per key.
pub open spec fn key_class(a: Action) -> int {
    match a {
        Action::Walk(d) => d.index(),
        Action::Fetch { dir, .. } => 10 + dir.index(),
        Action::CarryHome => 20,
        Action::TakePlank { .. } => 21,
        Action::LetGoPlank => 22,
        Action::FollowScent(_) => 23,
        Action::Wait => 24,
    }
}

/// An action that can stand on a list: steps and fetches go somewhere.
pub open spec fn offerable(a: Action) -> bool {
    &&& a matches Action::Walk(d) ==> d != Dir::Stay
    &&& a matches Action::Fetch { dir, .. } ==> dir != Dir::Stay
}

/// The length of each class's key and its characters at 0, 6 and 12 (a
/// space where the key is too short).
pub open spec fn key_print(c: int) -> (int, char, char, char) {
    if c == 0 {
        (5, 'n', ' ', ' ')
    } else if c == 1 {
        (10, 'n', 'e', ' ')
    } else if c == 2 {
        (4, 'e', ' ', ' ')
    } else if c == 3 {
        (10, 's', 'e', ' ')
    } else if c == 4 {
        (5, 's', ' ', ' ')
    } else if c == 5 {
        (10, 's', 'w', ' ')
    } else if c == 6 {
        (4, 'w', ' ', ' ')
    } else if c == 7 {
        (10, 'n', 'w', ' ')
    } else if c == 10 {
        (11, 'f', 'n', ' ')
    } else if c == 11 {
        (16, 'f', 'n', 'e')
    } else if c == 12 {
        (10, 'f', 'e', ' ')
    } else if c == 13 {
        (16, 'f', 's', 'e')
    } else if c == 14 {
        (11, 'f', 's', ' ')
    } else if c == 15 {
        (16, 'f', 's', 'w')
    } else if c == 16 {
        (10, 'f', 'w', ' ')
    } else if c == 17 {
        (16, 'f', 'n', 'w')
    } else if c == 20 {
        (10, 'c', 'h', ' ')
    } else if c == 21 {
        (14, 't', 'h', 'n')
    } else if c == 22 {
        (19, 'l', '_', 'e')
    } else if c == 23 {
        (12, 'f', '_', ' ')
    } else {
        (4, 's', ' ', ' ')
    }
}

/// The key of an offerable action has the print of its class.
proof fn lemma_key_print(a: Action)
    requires
        offerable(a),
    ensures
        ({
            let k = a.key_text();
            let p = key_print(key_class(a));
            &&& k.len() == p.0
            &&& k[0] == p.1
            &&& p.0 > 6 ==> k[6] == p.2
            &&& p.0 > 12 ==> k[12] == p.3
        }),
{
    reveal_strlit("north");
    reveal_strlit("north_east");
    reveal_strlit("east");
    reveal_strlit("south_east");
    reveal_strlit("south");
    reveal_strlit("south_west");
    reveal_strlit("west");
    reveal_strlit("north_west");
    reveal_strlit("stay");
    reveal_strlit("take_the_plank");
    reveal_strlit("let_go_of_the_plank");
    reveal_strlit("fetch_");
    reveal_strlit("carry_home");
    reveal_strlit("follow_scent");
    match a {
        Action::Fetch { dir, .. } => {
            let k = "fetch_"@ + dir.key_text();
            assert(k.len() == 6 + dir.key_text().len());
            assert(k[0] == 'f');
            assert(k[6] == dir.key_text()[0]);
            if dir.key_text().len() > 6 {
                assert(k[12] == dir.key_text()[6]);
            }
            match dir {
                Dir::North => {},
                Dir::NorthEast => {},
                Dir::East => {},
                Dir::SouthEast => {},
                Dir::South => {},
                Dir::SouthWest => {},
                Dir::West => {},
                Dir::NorthWest => {},
                Dir::Stay => {},
            }
        },
        _ => {},
    }
}

/// Two offerable actions with the same key are of one class.
pub proof fn lemma_same_key_same_class(a: Action, b: Action)
    requires
        offerable(a),
        offerable(b),
        a.key_text() == b.key_text(),
    ensures
        key_class(a) == key_class(b),
{
    lemma_key_print(a);
    lemma_key_print(b);
    let pa = key_print(key_class(a));
    let pb = key_print(key_class(b));
    assert(pa.0 == pb.0 && pa.1 == pb.1);
    assert(pa.0 > 6 ==> pa.2 == pb.2);
    assert(pa.0 > 12 ==> pa.3 == pb.3);
}


/// The fetches on a list: offerable, one class per compass direction, in
/// compass order.
proof fn lemma_fetch_classes(slots: Seq<Option<(u32, int)>>, n: nat)
    requires
        n <= 8,
    ensures
        forall|k: int| 0 <= k < fetches_from(slots, n).len() ==> {
            let a = #[trigger] fetches_from(slots, n)[k];
            &&& offerable(a)
            &&& 10 <= key_class(a) < 10 + n
        },
        forall|k: int, l: int| 0 <= k < l < fetches_from(slots, n).len() ==> key_class(
            #[trigger] fetches_from(slots, n)[k],
        ) < key_class(#[trigger] fetches_from(slots, n)[l]),
    decreases n,
{
    if n > 0 {
        lemma_fetch_classes(slots, (n - 1) as nat);
        let before = fetches_from(slots, (n - 1) as nat);
        let now = fetches_from(slots, n);
        assert forall|k: int| 0 <= k < now.len() implies {
            let a = #[trigger] now[k];
            &&& offerable(a)
            &&& 10 <= key_class(a) < 10 + n
        } by {
            if k < before.len() {
                assert(now[k] == before[k]);
            }
        }
        assert forall|k: int, l: int| 0 <= k < l < now.len() implies key_class(#[trigger] now[k]) < key_class(
            #[trigger] now[l],
        ) by {
            assert(now[k] == before[k]);
            if l < before.len() {
                assert(now[l] == before[l]);
            }
        }
    }
}

/// The free directions: compass directions, in compass order.
proof fn lemma_free_classes(grid: Grid, occupancy: Occupancy, at: Cell, n: nat)
    requires
        n <= 8,
    ensures
        forall|k: int| 0 <= k < free_among(grid, occupancy, at, n).len() ==> {
            let d = #[trigger] free_among(grid, occupancy, at, n)[k];
            &&& d != Dir::Stay
            &&& 0 <= d.index() < n
        },
        forall|k: int, l: int| 0 <= k < l < free_among(grid, occupancy, at, n).len() ==> (
        #[trigger] free_among(grid, occupancy, at, n)[k]).index() < (#[trigger] free_among(
            grid,
            occupancy,
            at,
            n,
        )[l]).index(),
    decreases n,
{
    if n > 0 {
        lemma_free_classes(grid, occupancy, at, (n - 1) as nat);
        let before = free_among(grid, occupancy, at, (n - 1) as nat);
        let now = free_among(grid, occupancy, at, n);
        assert forall|k: int| 0 <= k < now.len() implies {
            let d = #[trigger] now[k];
            &&& d != Dir::Stay
            &&& 0 <= d.index() < n
        } by {
            if k < before.len() {
                assert(now[k] == before[k]);
            }
        }
        assert forall|k: int, l: int| 0 <= k < l < now.len() implies (#[trigger] now[k]).index() < (
        #[trigger] now[l]).index() by {
            assert(now[k] == before[k]);
            if l < before.len() {
                assert(now[l] == before[l]);
            }
        }
    }
}

/// Every option has its own key. The keys become the names of the choice,
/// so two options sharing one would silently collapse into a single entry
/// and the ant would be offered less than the board allows.
pub proof fn lemma_every_option_has_its_own_key(
    grid: Grid,
    occupancy: Occupancy,
    nest: Nest,
    scent: Scent,
    at: Cell,
    hands: Hands,
    r: int,
    i: int,
    j: int,
)
    requires
        0 <= i < j < options_spec(grid, occupancy, nest, scent, at, hands, r).len(),
    ensures
        options_spec(grid, occupancy, nest, scent, at, hands, r)[i].key_text() != options_spec(
            grid,
            occupancy,
            nest,
            scent,
            at,
            hands,
            r,
        )[j].key_text(),
{
    let all = options_spec(grid, occupancy, nest, scent, at, hands, r);
    if hands == Hands::Plank {
        reveal_strlit("stay");
        reveal_strlit("let_go_of_the_plank");
        assert(all[i] == Action::LetGoPlank && all[j] == Action::Wait);
        assert("stay"@.len() != "let_go_of_the_plank"@.len());
    } else {
        let in_sight = nest.distance(at) <= r;
        let slots = fruit_rows(occupancy, grid, at, r, (2 * r + 1) as nat);
        let fruits = fruits_spec(occupancy, grid, at, r);
        let plank = plank_spec(occupancy, grid, at);
        let first = if hands == Hands::Fruit {
            if in_sight { seq![Action::CarryHome] } else { Seq::<Action>::empty() }
        } else {
            fruits + plank
        };
        let trail = if in_sight {
            Seq::<Action>::empty()
        } else {
            match scent.uphill_among(grid, at, 8) {
                Some(u) => seq![Action::FollowScent(u.0)],
                None => Seq::<Action>::empty(),
            }
        };
        let free = free_among(grid, occupancy, at, 8);
        let ways = if free.len() == 0 {
            seq![Action::Wait]
        } else {
            free.map_values(|d: Dir| Action::Walk(d))
        };
        assert(all == first + trail + ways);
        lemma_fetch_classes(slots, 8);
        lemma_free_classes(grid, occupancy, at, 8);
        // Where each index falls, and what its class is.
        assert forall|k: int| 0 <= k < all.len() implies {
            &&& offerable(#[trigger] all[k])
            &&& (k < first.len() ==> 10 <= key_class(all[k]) <= 21)
            &&& (first.len() <= k < first.len() + trail.len() ==> key_class(all[k]) == 23)
            &&& (first.len() + trail.len() <= k ==> key_class(all[k]) <= 7 || key_class(all[k]) == 24)
        } by {
            if k < first.len() {
                assert(all[k] == first[k]);
                if hands == Hands::Empty && k < fruits.len() {
                    assert(first[k] == fruits[k]);
                } else if hands == Hands::Empty {
                    assert(first[k] == plank[k - fruits.len()]);
                }
            } else if k < first.len() + trail.len() {
                assert(all[k] == trail[k - first.len()]);
            } else {
                let w = k - first.len() - trail.len();
                assert(all[k] == ways[w]);
                if free.len() > 0 {
                    assert(ways[w] == Action::Walk(free[w]));
                }
            }
        }
        // Within one part the classes rise; across parts they cannot meet.
        assert(key_class(all[i]) != key_class(all[j])) by {
            if j < first.len() {
                assert(all[i] == first[i] && all[j] == first[j]);
                if hands == Hands::Empty {
                    if j < fruits.len() {
                        assert(first[i] == fruits[i] && first[j] == fruits[j]);
                    } else if i < fruits.len() {
                        assert(first[i] == fruits[i]);
                        assert(first[j] == plank[j - fruits.len()]);
                    } else {
                        assert(plank.len() <= 1);
                    }
                }
            } else if first.len() + trail.len() <= i {
                let wi = i - first.len() - trail.len();
                let wj = j - first.len() - trail.len();
                assert(all[i] == ways[wi] && all[j] == ways[wj]);
                if free.len() > 0 {
                    assert(ways[wi] == Action::Walk(free[wi]) && ways[wj] == Action::Walk(free[wj]));
                }
            } else if first.len() <= i && j < first.len() + trail.len() {
                assert(trail.len() <= 1);
            }
        }
    }
    if all[i].key_text() == all[j].key_text() {
        lemma_same_key_same_class(all[i], all[j]);
    }
}

} // verus!
