//! What a route is: a sequence of directions that can be walked on a grid,
//! from one cell to a destination, over free cells only.

use vstd::prelude::*;

use crate::grid::cell_index;
use crate::location::{Direction, Location};

verus! {

/// The cell reached from `from` by the steps of `path`, whatever is on the
/// way.
pub open spec fn walk(from: Location, path: Seq<Direction>) -> Location
    decreases path.len(),
{
    if path.len() == 0 {
        from
    } else {
        walk(from, path.drop_last()).step(path.last())
    }
}

/// A step from `at` in direction `d` stays on the grid and lands on the
/// destination `to` or on a cell that `cells` shows free. The destination is
/// never an obstacle: what is sought stands on it.
pub open spec fn may_step(cells: Seq<bool>, to: Location, at: Location, d: Direction) -> bool {
    at.can_step(d) && (at.step(d) == to || !cells[cell_index(at.step(d))])
}

/// Every step of `path`, walked from `from`, is one that [`may_step`] allows.
pub open spec fn passable(
    cells: Seq<bool>,
    from: Location,
    to: Location,
    path: Seq<Direction>,
) -> bool
    decreases path.len(),
{
    path.len() == 0 || (passable(cells, from, to, path.drop_last()) && may_step(
        cells,
        to,
        walk(from, path.drop_last()),
        path.last(),
    ))
}

/// `path` is a route from `from` to `to`: it can be walked, and it ends on
/// `to`.
pub open spec fn is_route(
    cells: Seq<bool>,
    from: Location,
    to: Location,
    path: Seq<Direction>,
) -> bool {
    passable(cells, from, to, path) && walk(from, path) == to
}

/// `path` is a route from `from` to `to` and no route between them is shorter.
pub open spec fn is_shortest_route(
    cells: Seq<bool>,
    from: Location,
    to: Location,
    path: Seq<Direction>,
) -> bool {
    &&& is_route(cells, from, to, path)
    &&& forall|other: Seq<Direction>| #[trigger]
        is_route(cells, from, to, other) ==> path.len() <= other.len()
}

/// No cell of the grid is taken.
pub open spec fn all_free(cells: Seq<bool>) -> bool {
    forall|l: Location| l.in_bounds() ==> !#[trigger] cells[cell_index(l)]
}

/// A walk that starts on the grid stays on it.
pub proof fn lemma_walk_stays_on_grid(from: Location, path: Seq<Direction>)
    requires
        from.in_bounds(),
    ensures
        walk(from, path).in_bounds(),
    decreases path.len(),
{
    if path.len() > 0 {
        lemma_walk_stays_on_grid(from, path.drop_last());
    }
}

/// The first `n + 1` steps of a path lead one step further than its first `n`.
pub proof fn lemma_walk_one_more(from: Location, path: Seq<Direction>, n: int)
    requires
        0 <= n < path.len(),
    ensures
        walk(from, path.take(n + 1)) == walk(from, path.take(n)).step(path[n]),
{
    assert(path.take(n + 1).drop_last() =~= path.take(n));
}

/// What can be walked can be walked up to any point of it, and the step that
/// follows is allowed.
pub proof fn lemma_passable_prefix(
    cells: Seq<bool>,
    from: Location,
    to: Location,
    path: Seq<Direction>,
    n: int,
)
    requires
        passable(cells, from, to, path),
        0 <= n <= path.len(),
    ensures
        passable(cells, from, to, path.take(n)),
        n < path.len() ==> may_step(cells, to, walk(from, path.take(n)), path[n]),
    decreases path.len(),
{
    if n == path.len() {
        assert(path.take(n) =~= path);
    } else {
        assert(path.drop_last().take(n) =~= path.take(n));
        if n == path.len() - 1 {
            assert(path.take(n) =~= path.drop_last());
        } else {
            lemma_passable_prefix(cells, from, to, path.drop_last(), n);
        }
    }
}

/// One more allowed step keeps a path passable, and leads where the step
/// leads.
pub proof fn lemma_passable_push(
    cells: Seq<bool>,
    from: Location,
    to: Location,
    path: Seq<Direction>,
    d: Direction,
)
    requires
        passable(cells, from, to, path),
        may_step(cells, to, walk(from, path), d),
    ensures
        passable(cells, from, to, path.push(d)),
        walk(from, path.push(d)) == walk(from, path).step(d),
{
    assert(path.push(d).drop_last() =~= path);
}

/// Each step changes the distance to any cell `t` by one at most: the point
/// reached after `n` steps is no further from `t` than the end of the path
/// plus the steps that remain.
pub proof fn lemma_walk_nears_slowly(from: Location, path: Seq<Direction>, n: int, t: Location)
    requires
        0 <= n <= path.len(),
    ensures
        walk(from, path.take(n)).manhattan(t) <= walk(from, path).manhattan(t) + path.len() - n,
        walk(from, path).manhattan(t) <= walk(from, path.take(n)).manhattan(t) + path.len() - n,
    decreases path.len(),
{
    if n == path.len() {
        assert(path.take(n) =~= path);
    } else {
        assert(path.drop_last().take(n) =~= path.take(n));
        lemma_walk_nears_slowly(from, path.drop_last(), n, t);
    }
}

/// No route is shorter than the Manhattan distance between its ends.
pub proof fn lemma_route_spans_distance(from: Location, path: Seq<Direction>)
    ensures
        from.manhattan(walk(from, path)) <= path.len(),
{
    lemma_walk_nears_slowly(from, path, 0, from);
    assert(path.take(0) =~= Seq::<Direction>::empty());
}

/// A path that starts inside a set of cells and ends outside it
/// leaves the set somewhere: after some `n` steps it is inside, one step
/// later it is not.
pub proof fn lemma_path_leaves(
    from: Location,
    path: Seq<Direction>,
    inside: Set<Location>,
) -> (n: int)
    requires
        inside.contains(from),
        !inside.contains(walk(from, path)),
    ensures
        0 <= n < path.len(),
        inside.contains(walk(from, path.take(n))),
        !inside.contains(walk(from, path.take(n + 1))),
    decreases path.len(),
{
    if inside.contains(walk(from, path.drop_last())) {
        assert(path.take(path.len() - 1) =~= path.drop_last());
        assert(path.take(path.len() as int) =~= path);
        path.len() - 1
    } else {
        let n = lemma_path_leaves(from, path.drop_last(), inside);
        assert(path.drop_last().take(n) =~= path.take(n));
        assert(path.drop_last().take(n + 1) =~= path.take(n + 1));
        n
    }
}

/// On a grid without taken cells, a path of as many steps as the Manhattan
/// distance leads from any cell of the grid to any other: first along the
/// row, then along the column. It can be walked whatever the destination
/// `goal` is.
pub proof fn lemma_straight_path(
    cells: Seq<bool>,
    from: Location,
    at: Location,
    goal: Location,
) -> (path: Seq<Direction>)
    requires
        all_free(cells),
        from.in_bounds(),
        at.in_bounds(),
    ensures
        passable(cells, from, goal, path),
        walk(from, path) == at,
        path.len() == from.manhattan(at),
    decreases from.manhattan(at),
{
    if from == at {
        Seq::empty()
    } else {
        let (before, d) = if at.row > from.row {
            (Location { col: at.col, row: (at.row - 1) as u16 }, Direction::Down)
        } else if at.row < from.row {
            (Location { col: at.col, row: (at.row + 1) as u16 }, Direction::Up)
        } else if at.col > from.col {
            (Location { col: (at.col - 1) as u16, row: at.row }, Direction::Right)
        } else {
            (Location { col: (at.col + 1) as u16, row: at.row }, Direction::Left)
        };
        let path = lemma_straight_path(cells, from, before, goal);
        assert(before.step(d) == at);
        assert(!cells[cell_index(at)]);
        lemma_passable_push(cells, from, goal, path, d);
        path.push(d)
    }
}

/// On a grid without taken cells, the shortest routes between two cells of
/// the grid have as many steps as the Manhattan distance between the two.
pub proof fn lemma_shortest_on_open_plane(
    cells: Seq<bool>,
    from: Location,
    to: Location,
    path: Seq<Direction>,
)
    requires
        all_free(cells),
        from.in_bounds(),
        to.in_bounds(),
        is_shortest_route(cells, from, to, path),
    ensures
        path.len() == from.manhattan(to),
{
    let straight = lemma_straight_path(cells, from, to, to);
    assert(is_route(cells, from, to, straight));
    lemma_route_spans_distance(from, path);
}

/// No route leads from a cell of the grid to a cell off the grid.
pub proof fn lemma_no_route_off_grid(
    cells: Seq<bool>,
    from: Location,
    to: Location,
    path: Seq<Direction>,
)
    requires
        from.in_bounds(),
        !to.in_bounds(),
    ensures
        !is_route(cells, from, to, path),
{
    lemma_walk_stays_on_grid(from, path);
}

} // verus!
