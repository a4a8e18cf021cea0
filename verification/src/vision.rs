//! What a single ant can see, as a handful of sentences rather than
//! coordinates: an ant that sees three cells far has no idea where on the
//! board it stands, and the state it sends must not give that away either.

use vstd::prelude::*;

use crate::config::PLANK_VISIBLE_FROM;
use crate::grid::{
    abs, chebyshev, compass, nearest_dir, reachable, shifted, Cell, Dir, Grid, Occupancy, Occupant,
    Terrain,
};
use crate::nest::Nest;
use crate::scent::{describe, Scent};
use crate::text::{joined, located, located_string};

verus! {

/// One thing within sight: how far, which way, and what.
#[derive(Clone, Copy)]
pub struct Seen {
    pub distance: u32,
    pub dir: Dir,
    pub what: &'static str,
}

/// A sighting as a plain value.
pub open spec fn seen_view(s: Seen) -> (int, Dir, Seq<char>) {
    (s.distance as int, s.dir, s.what@)
}

pub open spec fn opt_seq<T>(o: Option<T>) -> Seq<T> {
    match o {
        Some(t) => seq![t],
        None => Seq::empty(),
    }
}

/// What an ant standing at `from` sees `(dx, dy)` away: another ant or a
/// fruit. The plank is reported on its own, from further off.
pub open spec fn sight_at(
    occupancy: Occupancy,
    grid: Grid,
    from: Cell,
    dx: int,
    dy: int,
) -> Option<(int, Dir, Seq<char>)> {
    if dx == 0 && dy == 0 {
        None
    } else {
        match occupancy.occupant(grid, shifted(from, dx, dy)) {
            Some(Occupant::Ant(_)) => Some((chebyshev(dx, dy), nearest_dir(dx, dy), "another ant"@)),
            Some(Occupant::Fruit(_)) => Some((chebyshev(dx, dy), nearest_dir(dx, dy), "a fruit"@)),
            _ => None,
        }
    }
}

/// The sightings in the first `n` columns of the row `dy` of the square of
/// sight, west to east.
pub open spec fn row_found(
    occupancy: Occupancy,
    grid: Grid,
    from: Cell,
    r: int,
    dy: int,
    n: nat,
) -> Seq<(int, Dir, Seq<char>)>
    decreases n,
{
    if n == 0 {
        Seq::empty()
    } else {
        row_found(occupancy, grid, from, r, dy, (n - 1) as nat) + opt_seq(
            sight_at(occupancy, grid, from, -r + n - 1, dy),
        )
    }
}

/// The sightings in the first `m` rows of the square of sight, south to north.
pub open spec fn rows_found(occupancy: Occupancy, grid: Grid, from: Cell, r: int, m: nat) -> Seq<
    (int, Dir, Seq<char>),
>
    decreases m,
{
    if m == 0 {
        Seq::empty()
    } else {
        rows_found(occupancy, grid, from, r, (m - 1) as nat) + row_found(
            occupancy,
            grid,
            from,
            r,
            -r + m - 1,
            (2 * r + 1) as nat,
        )
    }
}

/// The first distance from `k` up to `r` at which `d` leads off the board.
pub open spec fn edge_from(grid: Grid, from: Cell, d: Dir, k: int, r: int) -> Option<int>
    decreases r + 1 - k,
{
    if k > r {
        None
    } else if !grid.holds(shifted(from, d.dx() * k, d.dy() * k)) {
        Some(k)
    } else {
        edge_from(grid, from, d, k + 1, r)
    }
}

/// The edge of the world where it is within sight, for the first `n`
/// directions of the compass.
pub open spec fn edges_among(grid: Grid, from: Cell, r: int, n: nat) -> Seq<(int, Dir, Seq<char>)>
    decreases n,
{
    if n == 0 {
        Seq::empty()
    } else {
        edges_among(grid, from, r, (n - 1) as nat) + match edge_from(grid, from, compass(n - 1), 1, r) {
            Some(k) => seq![(k, compass(n - 1), "the edge of the world"@)],
            None => Seq::empty(),
        }
    }
}

/// Ordered first by distance, then by the alphabetical order of the key of
/// the direction.
pub open spec fn after(a: (int, Dir, Seq<char>), b: (int, Dir, Seq<char>)) -> bool {
    a.0 > b.0 || (a.0 == b.0 && a.1.key_rank() > b.1.key_rank())
}

/// How many elements at the end of `s` come after `x`.
pub open spec fn tail_after(s: Seq<(int, Dir, Seq<char>)>, x: (int, Dir, Seq<char>)) -> nat
    decreases s.len(),
{
    if s.len() == 0 {
        0
    } else if after(s.last(), x) {
        1 + tail_after(s.drop_last(), x)
    } else {
        0
    }
}

/// `x` put into `s` behind everything that does not come after it.
pub open spec fn insert_sorted(s: Seq<(int, Dir, Seq<char>)>, x: (int, Dir, Seq<char>)) -> Seq<
    (int, Dir, Seq<char>),
> {
    s.insert(s.len() - tail_after(s, x), x)
}

/// The stable sort of `s` by distance and then direction key.
pub open spec fn sort_sightings(s: Seq<(int, Dir, Seq<char>)>) -> Seq<(int, Dir, Seq<char>)>
    decreases s.len(),
{
    if s.len() == 0 {
        s
    } else {
        insert_sorted(sort_sightings(s.drop_last()), s.last())
    }
}

/// What the nearest search is looking for.
#[derive(Clone, Copy, PartialEq, Eq, Debug, Structural)]
pub enum Wanted {
    Plank,
    Water,
    Bridge,
}

pub open spec fn wanted_at(occupancy: Occupancy, grid: Grid, c: Cell, w: Wanted) -> bool {
    match w {
        Wanted::Plank => occupancy.occupant(grid, c) matches Some(Occupant::Plank(_)),
        Wanted::Water => occupancy.terrain(grid, c) == Terrain::Water,
        Wanted::Bridge => occupancy.terrain(grid, c) == Terrain::Bridge,
    }
}

/// `best` after looking at the cell `(dx, dy)` away: a wanted cell on the
/// board replaces it if closer, or as close and first in compass order.
pub open spec fn consider(
    best: Option<(int, Dir)>,
    occupancy: Occupancy,
    grid: Grid,
    from: Cell,
    w: Wanted,
    dx: int,
    dy: int,
) -> Option<(int, Dir)> {
    let c = shifted(from, dx, dy);
    if (dx == 0 && dy == 0) || !grid.holds(c) || !wanted_at(occupancy, grid, c, w) {
        best
    } else {
        let d = chebyshev(dx, dy);
        let dir = nearest_dir(dx, dy);
        if best matches Some(b) && !(d < b.0 || (d == b.0 && dir.index() < b.1.index())) {
            best
        } else {
            Some((d, dir))
        }
    }
}

pub open spec fn nearest_row(
    start: Option<(int, Dir)>,
    occupancy: Occupancy,
    grid: Grid,
    from: Cell,
    w: Wanted,
    r: int,
    dy: int,
    n: nat,
) -> Option<(int, Dir)>
    decreases n,
{
    if n == 0 {
        start
    } else {
        consider(
            nearest_row(start, occupancy, grid, from, w, r, dy, (n - 1) as nat),
            occupancy,
            grid,
            from,
            w,
            -r + n - 1,
            dy,
        )
    }
}

pub open spec fn nearest_rows(
    occupancy: Occupancy,
    grid: Grid,
    from: Cell,
    w: Wanted,
    r: int,
    m: nat,
) -> Option<(int, Dir)>
    decreases m,
{
    if m == 0 {
        None
    } else {
        nearest_row(
            nearest_rows(occupancy, grid, from, w, r, (m - 1) as nat),
            occupancy,
            grid,
            from,
            w,
            r,
            -r + m - 1,
            (2 * r + 1) as nat,
        )
    }
}

/// Whether the cell `(dx, dy)` away lies within `r`, is not where the ant
/// stands, is on the board, and holds what is wanted.
pub open spec fn hit(occupancy: Occupancy, grid: Grid, from: Cell, w: Wanted, r: int, dx: int, dy: int) -> bool {
    &&& -r <= dx <= r
    &&& -r <= dy <= r
    &&& !(dx == 0 && dy == 0)
    &&& grid.holds(shifted(from, dx, dy))
    &&& wanted_at(occupancy, grid, shifted(from, dx, dy), w)
}

/// How a cell `(dx, dy)` away is reported: its distance in king's moves and
/// the direction it lies in.
pub open spec fn reported(dx: int, dy: int) -> (int, Dir) {
    (chebyshev(dx, dy), nearest_dir(dx, dy))
}

/// `a` comes before `b` or is the same: nearer, or as near and no later in
/// the compass.
pub open spec fn no_later(a: (int, Dir), b: (int, Dir)) -> bool {
    a.0 < b.0 || (a.0 == b.0 && a.1.index() <= b.1.index())
}

/// `b` is how the nearest wanted cell within `r` is reported: some wanted
/// cell is reported so, and no wanted cell comes before it.
pub open spec fn is_nearest(occupancy: Occupancy, grid: Grid, from: Cell, w: Wanted, r: int, b: (int, Dir)) -> bool {
    &&& exists|dx: int, dy: int| #[trigger] hit(occupancy, grid, from, w, r, dx, dy) && b == reported(dx, dy)
    &&& forall|dx: int, dy: int| #[trigger] hit(occupancy, grid, from, w, r, dx, dy) ==> no_later(b, reported(dx, dy))
}

/// The closest wanted cell within `r`, as distance and direction; ties go to
/// the direction that comes first in the compass. Nothing when no wanted
/// cell is in sight.
pub open spec fn nearest_wanted(occupancy: Occupancy, grid: Grid, from: Cell, w: Wanted, r: int) -> Option<
    (int, Dir),
> {
    if exists|dx: int, dy: int| #[trigger] hit(occupancy, grid, from, w, r, dx, dy) {
        Some(choose|b: (int, Dir)| is_nearest(occupancy, grid, from, w, r, b))
    } else {
        None
    }
}

/// Whether `(dx, dy)` lies in the part of the square scanned before row
/// `y0`, column `x0`.
pub open spec fn scanned(dx: int, dy: int, y0: int, x0: int) -> bool {
    dy < y0 || (dy == y0 && dx < x0)
}

/// `best` is the nearest among the wanted cells scanned so far, or nothing
/// when none of them is wanted.
pub open spec fn least_so_far(
    best: Option<(int, Dir)>,
    occupancy: Occupancy,
    grid: Grid,
    from: Cell,
    w: Wanted,
    r: int,
    y0: int,
    x0: int,
) -> bool {
    &&& best is None <==> !exists|dx: int, dy: int| #[trigger] hit(occupancy, grid, from, w, r, dx, dy) && scanned(dx, dy, y0, x0)
    &&& best matches Some(b) ==> {
        &&& exists|dx: int, dy: int| #[trigger] hit(occupancy, grid, from, w, r, dx, dy) && scanned(dx, dy, y0, x0) && b == reported(dx, dy)
        &&& forall|dx: int, dy: int| #[trigger] hit(occupancy, grid, from, w, r, dx, dy) && scanned(dx, dy, y0, x0) ==> no_later(b, reported(dx, dy))
    }
}

proof fn lemma_consider_keeps_least(
    best: Option<(int, Dir)>,
    occupancy: Occupancy,
    grid: Grid,
    from: Cell,
    w: Wanted,
    r: int,
    y0: int,
    x0: int,
)
    requires
        -r <= x0 <= r,
        -r <= y0 <= r,
        least_so_far(best, occupancy, grid, from, w, r, y0, x0),
    ensures
        least_so_far(consider(best, occupancy, grid, from, w, x0, y0), occupancy, grid, from, w, r, y0, x0 + 1),
{
    let next = consider(best, occupancy, grid, from, w, x0, y0);
    if hit(occupancy, grid, from, w, r, x0, y0) {
        let v = reported(x0, y0);
        assert(scanned(x0, y0, y0, x0 + 1));
        match best {
            Some(b) => {
                if v.0 < b.0 || (v.0 == b.0 && v.1.index() < b.1.index()) {
                    assert(next == Some(v));
                    assert forall|dx: int, dy: int| #[trigger] hit(occupancy, grid, from, w, r, dx, dy) && scanned(dx, dy, y0, x0 + 1)
                        implies no_later(v, reported(dx, dy)) by {
                        if !(dx == x0 && dy == y0) {
                            assert(scanned(dx, dy, y0, x0));
                        }
                    }
                } else {
                    assert(next == best);
                    let (ex, ey) = choose|dx: int, dy: int| #[trigger] hit(occupancy, grid, from, w, r, dx, dy) && scanned(dx, dy, y0, x0) && b == reported(dx, dy);
                    assert(scanned(ex, ey, y0, x0 + 1));
                    assert forall|dx: int, dy: int| #[trigger] hit(occupancy, grid, from, w, r, dx, dy) && scanned(dx, dy, y0, x0 + 1)
                        implies no_later(b, reported(dx, dy)) by {
                        if !(dx == x0 && dy == y0) {
                            assert(scanned(dx, dy, y0, x0));
                        }
                    }
                }
            },
            None => {
                assert(next == Some(v));
                assert forall|dx: int, dy: int| #[trigger] hit(occupancy, grid, from, w, r, dx, dy) && scanned(dx, dy, y0, x0 + 1)
                    implies no_later(v, reported(dx, dy)) by {
                    if !(dx == x0 && dy == y0) {
                        assert(scanned(dx, dy, y0, x0));
                        assert(false);
                    }
                }
            },
        }
    } else {
        assert(next == best);
        assert forall|dx: int, dy: int| #[trigger] hit(occupancy, grid, from, w, r, dx, dy) && scanned(dx, dy, y0, x0 + 1)
            implies scanned(dx, dy, y0, x0) by {}
        match best {
            Some(b) => {
                let (ex, ey) = choose|dx: int, dy: int| #[trigger] hit(occupancy, grid, from, w, r, dx, dy) && scanned(dx, dy, y0, x0) && b == reported(dx, dy);
                assert(scanned(ex, ey, y0, x0 + 1));
            },
            None => {},
        }
    }
}

proof fn lemma_row_least(
    start: Option<(int, Dir)>,
    occupancy: Occupancy,
    grid: Grid,
    from: Cell,
    w: Wanted,
    r: int,
    y0: int,
    n: nat,
)
    requires
        0 <= r,
        -r <= y0 <= r,
        n <= 2 * r + 1,
        least_so_far(start, occupancy, grid, from, w, r, y0, -r),
    ensures
        least_so_far(nearest_row(start, occupancy, grid, from, w, r, y0, n), occupancy, grid, from, w, r, y0, -r + n),
    decreases n,
{
    if n > 0 {
        lemma_row_least(start, occupancy, grid, from, w, r, y0, (n - 1) as nat);
        lemma_consider_keeps_least(
            nearest_row(start, occupancy, grid, from, w, r, y0, (n - 1) as nat),
            occupancy,
            grid,
            from,
            w,
            r,
            y0,
            -r + n - 1,
        );
    }
}

/// A row scanned to its end is the same as the next row not begun.
proof fn lemma_next_row(best: Option<(int, Dir)>, occupancy: Occupancy, grid: Grid, from: Cell, w: Wanted, r: int, y0: int)
    requires
        least_so_far(best, occupancy, grid, from, w, r, y0, r + 1),
    ensures
        least_so_far(best, occupancy, grid, from, w, r, y0 + 1, -r),
{
    assert forall|dx: int, dy: int| #[trigger] hit(occupancy, grid, from, w, r, dx, dy) implies (scanned(dx, dy, y0, r + 1)
        <==> scanned(dx, dy, y0 + 1, -r)) by {}
}

proof fn lemma_rows_least(occupancy: Occupancy, grid: Grid, from: Cell, w: Wanted, r: int, m: nat)
    requires
        0 <= r,
        m <= 2 * r + 1,
    ensures
        least_so_far(nearest_rows(occupancy, grid, from, w, r, m), occupancy, grid, from, w, r, -r + m, -r),
    decreases m,
{
    if m == 0 {
        assert forall|dx: int, dy: int| #[trigger] hit(occupancy, grid, from, w, r, dx, dy) implies !scanned(dx, dy, -r, -r) by {}
    } else {
        lemma_rows_least(occupancy, grid, from, w, r, (m - 1) as nat);
        let before = nearest_rows(occupancy, grid, from, w, r, (m - 1) as nat);
        lemma_row_least(before, occupancy, grid, from, w, r, -r + m - 1, (2 * r + 1) as nat);
        lemma_next_row(
            nearest_row(before, occupancy, grid, from, w, r, -r + m - 1, (2 * r + 1) as nat),
            occupancy,
            grid,
            from,
            w,
            r,
            -r + m - 1,
        );
    }
}

/// The scan of the whole square finds the nearest wanted cell.
proof fn lemma_scan_finds_nearest(occupancy: Occupancy, grid: Grid, from: Cell, w: Wanted, r: int)
    requires
        0 <= r,
    ensures
        nearest_rows(occupancy, grid, from, w, r, (2 * r + 1) as nat) == nearest_wanted(occupancy, grid, from, w, r),
        nearest_wanted(occupancy, grid, from, w, r) matches Some(b) ==> is_nearest(occupancy, grid, from, w, r, b),
{
    lemma_rows_least(occupancy, grid, from, w, r, (2 * r + 1) as nat);
    let found = nearest_rows(occupancy, grid, from, w, r, (2 * r + 1) as nat);
    assert forall|dx: int, dy: int| #[trigger] hit(occupancy, grid, from, w, r, dx, dy) implies scanned(dx, dy, r + 1, -r) by {}
    if exists|dx: int, dy: int| #[trigger] hit(occupancy, grid, from, w, r, dx, dy) {
        let b = found->0;
        assert(is_nearest(occupancy, grid, from, w, r, b));
        let c = choose|c: (int, Dir)| is_nearest(occupancy, grid, from, w, r, c);
        assert(is_nearest(occupancy, grid, from, w, r, c));
        let (ex, ey) = choose|dx: int, dy: int| #[trigger] hit(occupancy, grid, from, w, r, dx, dy) && c == reported(dx, dy);
        let (fx, fy) = choose|dx: int, dy: int| #[trigger] hit(occupancy, grid, from, w, r, dx, dy) && b == reported(dx, dy);
        assert(no_later(b, c));
        assert(no_later(c, b));
        assert(b.1.index() == c.1.index());
        assert(b.1 == c.1);
        assert(b == c);
    }
}

/// The nearest wanted cell, as the search reports it, really is the nearest:
/// some wanted cell within sight lies there, and none lies nearer or as near
/// and earlier in the compass; with no wanted cell in sight, there is none.
pub proof fn lemma_nearest_is_nearest(occupancy: Occupancy, grid: Grid, from: Cell, w: Wanted, r: int)
    ensures
        nearest_wanted(occupancy, grid, from, w, r) matches Some(b) ==> is_nearest(occupancy, grid, from, w, r, b),
        nearest_wanted(occupancy, grid, from, w, r) is None ==> forall|dx: int, dy: int| !#[trigger] hit(
            occupancy,
            grid,
            from,
            w,
            r,
            dx,
            dy,
        ),
{
    if exists|dx: int, dy: int| #[trigger] hit(occupancy, grid, from, w, r, dx, dy) {
        let (ex, ey) = choose|dx: int, dy: int| #[trigger] hit(occupancy, grid, from, w, r, dx, dy);
        assert(0 <= r);
        lemma_scan_finds_nearest(occupancy, grid, from, w, r);
    }
}

/// The sentence about the nest, if it is in sight.
pub open spec fn nest_part(nest: Nest, from: Cell, r: int) -> Seq<Seq<char>> {
    if nest.holds(from) {
        seq!["the nest, right where you stand"@]
    } else {
        let t = nest.closest(from);
        let d = chebyshev(t.x - from.x, t.y - from.y);
        if d <= r {
            seq![located("the nest"@, d as nat, nearest_dir(t.x - from.x, t.y - from.y))]
        } else {
            Seq::empty()
        }
    }
}

/// The way `nearest_dir` points for an offset `(x, y)` that is not zero:
/// never against either side of the offset, along every side that is the
/// longest, and not along a side that is zero.
proof fn lemma_nearest_dir_heads_along(x: int, y: int)
    requires
        x != 0 || y != 0,
    ensures
        ({
            let d = nearest_dir(x, y);
            &&& d != Dir::Stay
            &&& x == 0 ==> d.dx() == 0
            &&& x > 0 ==> d.dx() >= 0
            &&& x < 0 ==> d.dx() <= 0
            &&& y == 0 ==> d.dy() == 0
            &&& y > 0 ==> d.dy() >= 0
            &&& y < 0 ==> d.dy() <= 0
            &&& abs(x) >= abs(y) ==> d.dx() != 0
            &&& abs(y) >= abs(x) ==> d.dy() != 0
        }),
{
    let ax = abs(x);
    let ay = abs(y);
    assert(ay >= ax && ax > 0 ==> !((ax + ay) * (ax + ay) < 2 * (ax * ax))) by (nonlinear_arith);
    assert(ax >= ay && ay > 0 ==> !((ax + ay) * (ax + ay) < 2 * (ay * ay))) by (nonlinear_arith);
    assert(ay == 0 && ax > 0 ==> (ax + ay) * (ax + ay) < 2 * (ax * ax)) by (nonlinear_arith);
    assert(ax == 0 && ay > 0 ==> !((ax + ay) * (ax + ay) < 2 * (ax * ax))) by (nonlinear_arith);
    assert(ax == 0 && ay > 0 ==> (ax + ay) * (ax + ay) < 2 * (ay * ay)) by (nonlinear_arith);
}

/// The sentence about the nest says where home is. An ant inside is told so;
/// an ant that has it in sight is told how many king's moves away its nearest
/// cell is, and a direction in which one step brings the ant one move closer
/// to it; an ant that has it out of sight hears nothing of it.
pub proof fn lemma_the_nest_is_named_where_it_lies(nest: Nest, from: Cell, r: int)
    requires
        nest.wf(),
        reachable(from, 1),
    ensures
        nest.holds(from) ==> nest_part(nest, from, r) == seq!["the nest, right where you stand"@],
        !nest.holds(from) && nest.distance(from) > r ==> nest_part(nest, from, r) == Seq::<Seq<char>>::empty(),
        !nest.holds(from) && nest.distance(from) <= r ==> exists|d: Dir|
            {
                &&& d != Dir::Stay
                &&& nest_part(nest, from, r) == seq![located("the nest"@, nest.distance(from) as nat, d)]
                &&& #[trigger] nest.distance(shifted(from, d.dx(), d.dy())) == nest.distance(from) - 1
            },
{
    if !nest.holds(from) {
        let t = nest.closest(from);
        let x = t.x - from.x;
        let y = t.y - from.y;
        assert(x != 0 || y != 0);
        let d = nearest_dir(x, y);
        lemma_nearest_dir_heads_along(x, y);
        let next = shifted(from, d.dx(), d.dy());
        let u = nest.closest(next);
        assert(next.x == from.x + d.dx() && next.y == from.y + d.dy());
        assert(u.x - next.x == if d.dx() == 0 { x } else if x > 0 { x - 1 } else { x + 1 });
        assert(u.y - next.y == if d.dy() == 0 { y } else if y > 0 { y - 1 } else { y + 1 });
        assert(nest.distance(next) == nest.distance(from) - 1);
        if nest.distance(from) <= r {
            assert(nest_part(nest, from, r) == seq![located("the nest"@, nest.distance(from) as nat, d)]);
        }
    }
}

pub open spec fn plank_part(occupancy: Occupancy, grid: Grid, from: Cell) -> Seq<Seq<char>> {
    match nearest_wanted(occupancy, grid, from, Wanted::Plank, PLANK_VISIBLE_FROM as int) {
        Some((d, dir)) => seq![
            located("a plank lying on the ground"@, d as nat, dir)
                + " \u{2014} long enough to bridge water"@,
        ],
        None => Seq::empty(),
    }
}

pub open spec fn crossing_part(occupancy: Occupancy, grid: Grid, from: Cell, r: int) -> Seq<Seq<char>> {
    match nearest_wanted(occupancy, grid, from, Wanted::Bridge, r) {
        Some((d, dir)) => seq![
            located("a plank lying across the water"@, d as nat, dir)
                + " \u{2014} it can be walked over"@,
        ],
        None => Seq::empty(),
    }
}

pub open spec fn water_part(occupancy: Occupancy, grid: Grid, from: Cell, r: int) -> Seq<Seq<char>> {
    match nearest_wanted(occupancy, grid, from, Wanted::Water, r) {
        Some((d, dir)) => seq![
            located("water"@, d as nat, dir) + " \u{2014} no ant can wade through it"@,
        ],
        None => Seq::empty(),
    }
}

/// The word for a strength, as `describe` puts it.
pub open spec fn strength_word(strength: int) -> Seq<char> {
    if strength >= 700_000 {
        "strong"@
    } else if strength >= 300_000 {
        "clear"@
    } else {
        "faint"@
    }
}

pub open spec fn trail_part(scent: Scent, grid: Grid, from: Cell) -> Seq<Seq<char>> {
    match scent.uphill_among(grid, from, 8) {
        Some((dir, strength)) => seq![
            "a "@ + strength_word(strength as int) + " scent trail leading "@ + dir.spoken_text()
                + " \u{2014} the colony's own, it leads home"@,
        ],
        None => Seq::empty(),
    }
}

/// Other ants, fruit and the edge of the world within `r`, closest first.
pub open spec fn around_part(occupancy: Occupancy, grid: Grid, from: Cell, r: int) -> Seq<Seq<char>> {
    sort_sightings(
        rows_found(occupancy, grid, from, r, (2 * r + 1) as nat) + edges_among(grid, from, r, 8),
    ).map_values(|s: (int, Dir, Seq<char>)| located(s.2, s.0 as nat, s.1))
}

/// Everything an ant at `from` sees within `r` cells, in the order it is told.
pub open spec fn sightings_text(
    grid: Grid,
    occupancy: Occupancy,
    nest: Nest,
    scent: Scent,
    from: Cell,
    r: int,
) -> Seq<Seq<char>> {
    nest_part(nest, from, r) + plank_part(occupancy, grid, from) + crossing_part(
        occupancy,
        grid,
        from,
        r,
    ) + water_part(occupancy, grid, from, r) + trail_part(scent, grid, from) + around_part(
        occupancy,
        grid,
        from,
        r,
    )
}

/// The vision radius an ant may be given: enough room around it in `i32`.
pub open spec fn sight_fits(from: Cell, r: int) -> bool {
    &&& 0 <= r
    &&& reachable(from, r)
}

fn what_is_at(occupancy: &Occupancy, grid: Grid, from: Cell, dx: i32, dy: i32) -> (s: Option<Seen>)
    requires
        occupancy.wf(grid),
        i32::MIN <= from.x + dx <= i32::MAX,
        i32::MIN <= from.y + dy <= i32::MAX,
        -i32::MAX <= dx,
        -i32::MAX <= dy,
    ensures
        opt_seq(s).map_values(|x: Seen| seen_view(x)) == opt_seq(
            sight_at(*occupancy, grid, from, dx as int, dy as int),
        ),
{
    if dx == 0 && dy == 0 {
        return None;
    }
    let offset = Cell { x: dx, y: dy };
    let what: &'static str = match occupancy.at(grid, from.plus(offset)) {
        Some(Occupant::Ant(_)) => "another ant",
        Some(Occupant::Fruit(_)) => "a fruit",
        _ => {
            return None;
        },
    };
    let r = Seen { distance: offset.king_distance(), dir: Dir::nearest(offset), what };
    proof {
        assert(opt_seq(Some(r)).map_values(|x: Seen| seen_view(x)) =~= seq![seen_view(r)]);
    }
    Some(r)
}

fn edge_distance(grid: Grid, from: Cell, d: Dir, radius: i32) -> (e: Option<i32>)
    requires
        sight_fits(from, radius as int),
    ensures
        e matches Some(k) ==> edge_from(grid, from, d, 1, radius as int) == Some(k as int) && 1 <= k,
        e is None ==> edge_from(grid, from, d, 1, radius as int) is None,
{
    let mut k: i64 = 1;
    while k <= radius as i64
        invariant
            sight_fits(from, radius as int),
            1 <= k <= radius + 1,
            edge_from(grid, from, d, 1, radius as int) == edge_from(grid, from, d, k as int, radius as int),
        decreases radius + 1 - k,
    {
        let o = d.offset();
        assert(-1 <= o.x <= 1 && -1 <= o.y <= 1);
        assert(-k <= o.x * k <= k && -k <= o.y * k <= k) by (nonlinear_arith)
            requires
                -1 <= o.x <= 1,
                -1 <= o.y <= 1,
                k >= 1,
        ;
        let step = Cell { x: o.x * (k as i32), y: o.y * (k as i32) };
        if !grid.contains(from.plus(step)) {
            return Some(k as i32);
        }
        k = k + 1;
    }
    None
}

/// The closest cell within `radius` that `w` names, as distance and
/// direction. Ties go to the first in compass order, so two ants in the same
/// spot always read the same sentence.
pub fn nearest(occupancy: &Occupancy, grid: Grid, from: Cell, radius: i32, w: Wanted) -> (r: Option<
    (i32, Dir),
>)
    requires
        occupancy.wf(grid),
        sight_fits(from, radius as int),
    ensures
        r matches Some(b) ==> nearest_wanted(*occupancy, grid, from, w, radius as int) == Some(
            (b.0 as int, b.1),
        ),
        r is None ==> nearest_wanted(*occupancy, grid, from, w, radius as int) is None,
        r matches Some(b) ==> 0 <= b.0 <= radius,
{
    let mut best: Option<(i32, Dir)> = None;
    let mut dy: i64 = -(radius as i64);
    while dy <= radius as i64
        invariant
            occupancy.wf(grid),
            sight_fits(from, radius as int),
            -radius <= dy <= radius + 1,
            ({
                let spec_best = nearest_rows(*occupancy, grid, from, w, radius as int, (dy + radius) as nat);
                &&& best matches Some(b) ==> spec_best == Some((b.0 as int, b.1))
                &&& best is None ==> spec_best is None
            }),
            best matches Some(b) ==> 0 <= b.0 <= radius,
        decreases radius + 1 - dy,
    {
        let mut dx: i64 = -(radius as i64);
        while dx <= radius as i64
            invariant
                occupancy.wf(grid),
                sight_fits(from, radius as int),
                -radius <= dy <= radius,
                -radius <= dx <= radius + 1,
                ({
                    let spec_best = nearest_row(
                        nearest_rows(*occupancy, grid, from, w, radius as int, (dy + radius) as nat),
                        *occupancy,
                        grid,
                        from,
                        w,
                        radius as int,
                        dy as int,
                        (dx + radius) as nat,
                    );
                    &&& best matches Some(b) ==> spec_best == Some((b.0 as int, b.1))
                    &&& best is None ==> spec_best is None
                }),
                best matches Some(b) ==> 0 <= b.0 <= radius,
            decreases radius + 1 - dx,
        {
            let offset = Cell { x: dx as i32, y: dy as i32 };
            let cell = from.plus(offset);
            let hit: bool = if dx == 0 && dy == 0 || !grid.contains(cell) {
                false
            } else {
                match w {
                    Wanted::Plank => matches!(occupancy.at(grid, cell), Some(Occupant::Plank(_))),
                    Wanted::Water => matches!(occupancy.terrain_at(grid, cell), Terrain::Water),
                    Wanted::Bridge => matches!(occupancy.terrain_at(grid, cell), Terrain::Bridge),
                }
            };
            if hit {
                let distance: u32 = offset.king_distance();
                let direction = Dir::nearest(offset);
                let better: bool = match best {
                    None => true,
                    Some(b) => (distance as i32) < b.0 || (distance as i32 == b.0 && direction.compass_index()
                        < b.1.compass_index()),
                };
                if better {
                    best = Some((distance as i32, direction));
                }
            }
            dx = dx + 1;
        }
        dy = dy + 1;
    }
    proof {
        lemma_scan_finds_nearest(*occupancy, grid, from, w, radius as int);
    }
    best
}

/// The sightings in the square of sight, south to north and west to east.
fn found_around(occupancy: &Occupancy, grid: Grid, from: Cell, radius: i32) -> (v: Vec<Seen>)
    requires
        occupancy.wf(grid),
        sight_fits(from, radius as int),
    ensures
        v@.map_values(|x: Seen| seen_view(x)) == rows_found(
            *occupancy,
            grid,
            from,
            radius as int,
            (2 * radius + 1) as nat,
        ),
{
    let mut v: Vec<Seen> = Vec::new();
    let mut dy: i64 = -(radius as i64);
    while dy <= radius as i64
        invariant
            occupancy.wf(grid),
            sight_fits(from, radius as int),
            -radius <= dy <= radius + 1,
            v@.map_values(|x: Seen| seen_view(x)) == rows_found(
                *occupancy,
                grid,
                from,
                radius as int,
                (dy + radius) as nat,
            ),
        decreases radius + 1 - dy,
    {
        let mut dx: i64 = -(radius as i64);
        let ghost before = v@.map_values(|x: Seen| seen_view(x));
        while dx <= radius as i64
            invariant
                occupancy.wf(grid),
                sight_fits(from, radius as int),
                -radius <= dy <= radius,
                -radius <= dx <= radius + 1,
                before == rows_found(*occupancy, grid, from, radius as int, (dy + radius) as nat),
                v@.map_values(|x: Seen| seen_view(x)) == before + row_found(
                    *occupancy,
                    grid,
                    from,
                    radius as int,
                    dy as int,
                    (dx + radius) as nat,
                ),
            decreases radius + 1 - dx,
        {
            let ghost prev = v@;
            let seen = what_is_at(occupancy, grid, from, dx as i32, dy as i32);
            match seen {
                Some(s) => {
                    v.push(s);
                    assert(v@ == prev.push(s));
                    assert(v@.map_values(|x: Seen| seen_view(x)) =~= prev.map_values(
                        |x: Seen| seen_view(x),
                    ) + opt_seq(Some(s)).map_values(|x: Seen| seen_view(x)));
                },
                None => {
                    assert(opt_seq(sight_at(*occupancy, grid, from, dx as int, dy as int)).len()
                        == 0);
                },
            }
            assert(v@.map_values(|x: Seen| seen_view(x)) =~= before + row_found(
                *occupancy,
                grid,
                from,
                radius as int,
                dy as int,
                (dx + 1 + radius) as nat,
            ));
            dx = dx + 1;
        }
        assert(v@.map_values(|x: Seen| seen_view(x)) =~= rows_found(
            *occupancy,
            grid,
            from,
            radius as int,
            (dy + 1 + radius) as nat,
        ));
        dy = dy + 1;
    }
    v
}

/// The edge of the world, where it is within sight, in compass order.
fn edges(grid: Grid, from: Cell, radius: i32) -> (v: Vec<Seen>)
    requires
        sight_fits(from, radius as int),
    ensures
        v@.map_values(|x: Seen| seen_view(x)) == edges_among(grid, from, radius as int, 8),
{
    let mut v: Vec<Seen> = Vec::new();
    let mut i: usize = 0;
    while i < 8
        invariant
            sight_fits(from, radius as int),
            i <= 8,
            v@.map_values(|x: Seen| seen_view(x)) == edges_among(grid, from, radius as int, i as nat),
        decreases 8 - i,
    {
        let d = Dir::compass_at(i);
        let ghost prev = v@;
        match edge_distance(grid, from, d, radius) {
            Some(k) => {
                let s = Seen { distance: k as u32, dir: d, what: "the edge of the world" };
                v.push(s);
                assert(v@ == prev.push(s));
            },
            None => {},
        }
        assert(v@.map_values(|x: Seen| seen_view(x)) =~= edges_among(
            grid,
            from,
            radius as int,
            (i + 1) as nat,
        ));
        i = i + 1;
    }
    v
}

fn comes_after(a: &Seen, b: &Seen) -> (r: bool)
    ensures
        r == after(seen_view(*a), seen_view(*b)),
{
    a.distance > b.distance || (a.distance == b.distance && a.dir.rank() > b.dir.rank())
}

proof fn lemma_tail_after_prefix(s: Seq<(int, Dir, Seq<char>)>, x: (int, Dir, Seq<char>), p: int)
    requires
        0 <= p < s.len(),
        after(s[p], x),
    ensures
        tail_after(s.take(p + 1), x) == 1 + tail_after(s.take(p), x),
{
    assert(s.take(p + 1).drop_last() =~= s.take(p));
}

/// The stable sort by distance and direction key.
fn sort_seen(v: Vec<Seen>) -> (r: Vec<Seen>)
    ensures
        r@.map_values(|x: Seen| seen_view(x)) == sort_sightings(v@.map_values(|x: Seen| seen_view(x))),
{
    let mut sorted: Vec<Seen> = Vec::new();
    let mut i: usize = 0;
    while i < v.len()
        invariant
            i <= v.len(),
            sorted@.map_values(|x: Seen| seen_view(x)) == sort_sightings(
                v@.map_values(|x: Seen| seen_view(x)).take(i as int),
            ),
        decreases v.len() - i,
    {
        let x = v[i];
        let ghost all = v@.map_values(|y: Seen| seen_view(y));
        let ghost s = sorted@.map_values(|y: Seen| seen_view(y));
        let mut p: usize = sorted.len();
        assert(s.take(p as int) =~= s);
        while p > 0 && comes_after(&sorted[p - 1], &x)
            invariant
                p <= sorted.len(),
                s == sorted@.map_values(|y: Seen| seen_view(y)),
                tail_after(s, seen_view(x)) == (sorted.len() - p) + tail_after(s.take(p as int), seen_view(x)),
            decreases p,
        {
            proof {
                lemma_tail_after_prefix(s, seen_view(x), p - 1);
                assert(s[p - 1] == seen_view(sorted@[p - 1]));
            }
            p = p - 1;
        }
        proof {
            if p > 0 {
                assert(s.take(p as int).last() == s[p - 1]);
                assert(s[p - 1] == seen_view(sorted@[p - 1]));
            } else {
                assert(s.take(0).len() == 0);
            }
            assert(tail_after(s.take(p as int), seen_view(x)) == 0);
        }
        let ghost before = sorted@;
        sorted.insert(p, x);
        proof {
            assert(all.take(i + 1).drop_last() =~= all.take(i as int));
            assert(all.take(i + 1).last() == seen_view(x));
            assert(sorted@.map_values(|y: Seen| seen_view(y)) =~= s.insert(p as int, seen_view(x)));
        }
        i = i + 1;
    }
    proof {
        assert(v@.map_values(|x: Seen| seen_view(x)).take(v.len() as int) =~= v@.map_values(
            |x: Seen| seen_view(x),
        ));
    }
    sorted
}

/// The sentence about the nest, if it is in sight.
fn nest_sentences(nest: Nest, from: Cell, radius: i32) -> (v: Vec<String>)
    requires
        nest.wf(),
        0 <= radius,
    ensures
        v@.map_values(|s: String| s@) == nest_part(nest, from, radius as int),
{
    let mut out: Vec<String> = Vec::new();
    if nest.contains(from) {
        out.push(String::from_str("the nest, right where you stand"));
    } else {
        let target = nest.nearest_cell(from);
        let dx: i64 = target.x as i64 - from.x as i64;
        let dy: i64 = target.y as i64 - from.y as i64;
        let ax: i64 = if dx < 0 { -dx } else { dx };
        let ay: i64 = if dy < 0 { -dy } else { dy };
        let distance: i64 = if ax < ay { ay } else { ax };
        if distance <= radius as i64 {
            let offset = Cell { x: dx as i32, y: dy as i32 };
            out.push(located_string("the nest", distance as u32, Dir::nearest(offset)));
        }
    }
    assert(out@.map_values(|s: String| s@) =~= nest_part(nest, from, radius as int));
    out
}

/// The sentence about the nearest cell `w` names, if there is one within `radius`.
fn nearest_sentences(
    occupancy: &Occupancy,
    grid: Grid,
    from: Cell,
    radius: i32,
    w: Wanted,
    what: &str,
    tail: &str,
) -> (v: Vec<String>)
    requires
        occupancy.wf(grid),
        sight_fits(from, radius as int),
    ensures
        v@.map_values(|s: String| s@) == match nearest_wanted(*occupancy, grid, from, w, radius as int) {
            Some((d, dir)) => seq![located(what@, d as nat, dir) + tail@],
            None => Seq::<Seq<char>>::empty(),
        },
{
    let mut out: Vec<String> = Vec::new();
    match nearest(occupancy, grid, from, radius, w) {
        Some((distance, direction)) => {
            let line = located_string(what, distance as u32, direction);
            out.push(joined(line.as_str(), tail));
        },
        None => {},
    }
    assert(out@.map_values(|s: String| s@) =~= match nearest_wanted(*occupancy, grid, from, w, radius as int) {
        Some((d, dir)) => seq![located(what@, d as nat, dir) + tail@],
        None => Seq::<Seq<char>>::empty(),
    });
    out
}

/// The scent trail next door, if there is one worth following.
fn trail_sentences(scent: &Scent, grid: Grid, from: Cell) -> (v: Vec<String>)
    requires
        scent.wf(grid),
        reachable(from, 1),
    ensures
        v@.map_values(|s: String| s@) == trail_part(*scent, grid, from),
{
    let mut out: Vec<String> = Vec::new();
    match scent.uphill(grid, from) {
        Some((direction, strength)) => {
            let mut line = String::from_str("a ");
            line.append(describe(strength));
            line.append(" scent trail leading ");
            line.append(direction.spoken());
            line.append(" \u{2014} the colony's own, it leads home");
            assert(line@ == "a "@ + strength_word(strength as int) + " scent trail leading "@
                + direction.spoken_text() + " \u{2014} the colony's own, it leads home"@);
            out.push(line);
        },
        None => {},
    }
    assert(out@.map_values(|s: String| s@) =~= trail_part(*scent, grid, from));
    out
}

/// Other ants, fruit and the edge of the world, closest first.
fn around_sentences(occupancy: &Occupancy, grid: Grid, from: Cell, radius: i32) -> (v: Vec<String>)
    requires
        occupancy.wf(grid),
        sight_fits(from, radius as int),
    ensures
        v@.map_values(|s: String| s@) == around_part(*occupancy, grid, from, radius as int),
{
    let mut found = found_around(occupancy, grid, from, radius);
    let mut rims = edges(grid, from, radius);
    found.append(&mut rims);
    assert(found@.map_values(|x: Seen| seen_view(x)) =~= rows_found(
        *occupancy,
        grid,
        from,
        radius as int,
        (2 * radius + 1) as nat,
    ) + edges_among(grid, from, radius as int, 8));
    let sorted = sort_seen(found);
    let ghost sorted_view = sorted@.map_values(|x: Seen| seen_view(x));
    let mut out: Vec<String> = Vec::new();
    let mut k: usize = 0;
    assert(sorted_view.take(0).map_values(|s: (int, Dir, Seq<char>)| located(s.2, s.0 as nat, s.1)) =~= Seq::<Seq<char>>::empty());
    while k < sorted.len()
        invariant
            k <= sorted.len(),
            sorted_view == sorted@.map_values(|x: Seen| seen_view(x)),
            out@.map_values(|s: String| s@) == sorted_view.take(k as int).map_values(
                |s: (int, Dir, Seq<char>)| located(s.2, s.0 as nat, s.1),
            ),
        decreases sorted.len() - k,
    {
        let s = sorted[k];
        let line = located_string(s.what, s.distance, s.dir);
        let ghost prev = out@;
        out.push(line);
        proof {
            let f = |t: (int, Dir, Seq<char>)| located(t.2, t.0 as nat, t.1);
            let t = sorted_view.take(k as int);
            assert(seen_view(s) == sorted_view[k as int]);
            assert(sorted_view.take(k + 1) =~= t.push(seen_view(s)));
            assert(t.push(seen_view(s)).map_values(f) =~= t.map_values(f).push(f(seen_view(s))));
            assert(out@ == prev.push(line));
            assert(out@.map_values(|s: String| s@) =~= prev.map_values(|s: String| s@).push(line@));
        }
        k = k + 1;
    }
    assert(sorted_view.take(sorted.len() as int) =~= sorted_view);
    out
}

/// Everything within `radius` cells, described relative to the ant: the nest,
/// the plank, a bridge, water, a scent trail, then other ants, fruit and the
/// edge of the world, closest first. Two ants in the same situation produce
/// exactly the same text.
pub fn sightings(
    grid: Grid,
    occupancy: &Occupancy,
    nest: Nest,
    scent: &Scent,
    from: Cell,
    radius: i32,
) -> (v: Vec<String>)
    requires
        occupancy.wf(grid),
        scent.wf(grid),
        nest.wf(),
        sight_fits(from, radius as int),
        reachable(from, PLANK_VISIBLE_FROM as int),
    ensures
        v@.map_values(|s: String| s@) == sightings_text(grid, *occupancy, nest, *scent, from, radius as int),
{
    let mut out = nest_sentences(nest, from, radius);
    let mut plank = nearest_sentences(
        occupancy,
        grid,
        from,
        PLANK_VISIBLE_FROM,
        Wanted::Plank,
        "a plank lying on the ground",
        " \u{2014} long enough to bridge water",
    );
    let mut crossing = nearest_sentences(
        occupancy,
        grid,
        from,
        radius,
        Wanted::Bridge,
        "a plank lying across the water",
        " \u{2014} it can be walked over",
    );
    let mut water = nearest_sentences(
        occupancy,
        grid,
        from,
        radius,
        Wanted::Water,
        "water",
        " \u{2014} no ant can wade through it",
    );
    let mut trail = trail_sentences(scent, grid, from);
    let mut around = around_sentences(occupancy, grid, from, radius);
    let ghost parts = seq![out@, plank@, crossing@, water@, trail@, around@];
    out.append(&mut plank);
    out.append(&mut crossing);
    out.append(&mut water);
    out.append(&mut trail);
    out.append(&mut around);
    proof {
        let f = |s: String| s@;
        assert(out@ =~= parts[0] + parts[1] + parts[2] + parts[3] + parts[4] + parts[5]);
        assert(out@.map_values(f) =~= parts[0].map_values(f) + parts[1].map_values(f)
            + parts[2].map_values(f) + parts[3].map_values(f) + parts[4].map_values(f)
            + parts[5].map_values(f));
    }
    out
}

} // verus!
