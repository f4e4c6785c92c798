//! The route planner: A* over the grid, with unit steps in four directions
//! and the Manhattan distance to the destination as the estimate.

use vstd::prelude::*;

use crate::grid::{cell_index, lemma_cell_index, Grid};
use crate::location::{lemma_step_on_grid, Direction, Location};
use crate::open_set::{Node, OpenSet};
use crate::route::{
    all_free, is_route, is_shortest_route, lemma_no_route_off_grid, lemma_passable_prefix,
    lemma_passable_push, lemma_path_leaves, lemma_shortest_on_open_plane, lemma_straight_path,
    lemma_walk_nears_slowly, lemma_walk_one_more, lemma_walk_stays_on_grid, may_step, passable,
    walk,
};
use crate::{COLS, ROWS};
use std::collections::HashSet;

verus! {

broadcast use vstd::std_specs::hash::group_hash_axioms;

/// A node with the given cell and score, and the path that it holds, is what
/// the search may let wait: the path can be walked from `from` and ends on
/// the cell, the score is the length of the path plus the distance that
/// remains (for the start itself: zero), and the path is no longer than
/// `limit`.
pub open spec fn sound(
    cells: Seq<bool>,
    from: Location,
    to: Location,
    cell: Location,
    score: u16,
    path: Seq<Direction>,
    limit: int,
) -> bool {
    &&& passable(cells, from, to, path)
    &&& walk(from, path) == cell
    &&& score == if path.len() == 0 {
        0
    } else {
        path.len() + cell.manhattan(to)
    }
    &&& path.len() <= limit
}

/// Some node waits for `cell` with a score of `bound` at most.
pub open spec fn waits_within(
    open: Map<(Location, u16), Seq<Direction>>,
    cell: Location,
    bound: int,
) -> bool {
    exists|score: u16| #[trigger] open.contains_key((cell, score)) && score <= bound
}

/// The step from the expanded cell `at` in direction `d` has been seen to:
/// if it is allowed, the cell it leads to is expanded too, or a node waits for
/// it that is no worse than the way through `at`.
pub open spec fn settled(
    cells: Seq<bool>,
    to: Location,
    open: Map<(Location, u16), Seq<Direction>>,
    done: Map<Location, int>,
    at: Location,
    d: Direction,
) -> bool {
    may_step(cells, to, at, d) ==> done.contains_key(at.step(d)) || waits_within(
        open,
        at.step(d),
        done[at] + 1 + at.step(d).manhattan(to),
    )
}

/// What holds of a search between two expansions. `open` is what waits;
/// `done` holds the expanded cells, each with the length of the path by which
/// it was reached; `limit` is their number. While the cell `fresh` is being
/// expanded, its own steps need not be settled yet.
pub open spec fn search_inv(
    cells: Seq<bool>,
    from: Location,
    to: Location,
    open: Map<(Location, u16), Seq<Direction>>,
    done: Map<Location, int>,
    limit: int,
    fresh: Option<Location>,
) -> bool {
    &&& forall|k: (Location, u16)| #[trigger]
        open.contains_key(k) ==> sound(cells, from, to, k.0, k.1, open[k], limit)
    &&& forall|path: Seq<Direction>| #[trigger]
        passable(cells, from, to, path) && done.contains_key(walk(from, path)) ==> done[walk(
            from,
            path,
        )] <= path.len()
    &&& forall|at: Location, d: Direction|
        done.contains_key(at) && Some(at) != fresh ==> #[trigger] settled(
            cells,
            to,
            open,
            done,
            at,
            d,
        )
    &&& !done.contains_key(to)
    &&& done.contains_key(from) || open.contains_key((from, 0u16))
}

/// A node of least score among those that wait, for a cell that is not
/// expanded yet, holds a shortest path to its cell.
proof fn lemma_least_is_nearest(
    cells: Seq<bool>,
    from: Location,
    to: Location,
    open: Map<(Location, u16), Seq<Direction>>,
    done: Map<Location, int>,
    limit: int,
    cell: Location,
    score: u16,
    other: Seq<Direction>,
)
    requires
        search_inv(cells, from, to, open, done, limit, None),
        open.contains_key((cell, score)),
        forall|k: (Location, u16)| #[trigger] open.contains_key(k) ==> score <= k.1,
        !done.contains_key(cell),
        passable(cells, from, to, other),
        walk(from, other) == cell,
    ensures
        open[(cell, score)].len() <= other.len(),
{
    let path = open[(cell, score)];
    assert(sound(cells, from, to, cell, score, path, limit));
    if path.len() > 0 {
        if !done.contains_key(from) {
            assert(open.contains_key((from, 0u16)));
        }
        let n = lemma_path_leaves(from, other, done.dom());
        let at = walk(from, other.take(n));
        let d = other[n];
        lemma_passable_prefix(cells, from, to, other, n);
        lemma_walk_one_more(from, other, n);
        lemma_walk_nears_slowly(from, other, n + 1, to);
        assert(passable(cells, from, to, other.take(n)));
        assert(done[at] <= n);
        assert(settled(cells, to, open, done, at, d));
        let next = at.step(d);
        let waiting = choose|s: u16| #[trigger]
            open.contains_key((next, s)) && s <= done[at] + 1 + next.manhattan(to);
        assert(open.contains_key((next, waiting)));
    }
}

/// When nothing waits any more, the destination cannot be reached.
proof fn lemma_exhausted(
    cells: Seq<bool>,
    from: Location,
    to: Location,
    open: Map<(Location, u16), Seq<Direction>>,
    done: Map<Location, int>,
    limit: int,
)
    requires
        search_inv(cells, from, to, open, done, limit, None),
        forall|k: (Location, u16)| !open.contains_key(k),
    ensures
        forall|path: Seq<Direction>| !is_route(cells, from, to, path),
{
    assert forall|path: Seq<Direction>| !is_route(cells, from, to, path) by {
        if is_route(cells, from, to, path) {
            let n = lemma_path_leaves(from, path, done.dom());
            let at = walk(from, path.take(n));
            lemma_passable_prefix(cells, from, to, path, n);
            lemma_walk_one_more(from, path, n);
            assert(settled(cells, to, open, done, at, path[n]));
        }
    }
}

/// A node that is taken out for a cell that is expanded already leaves the
/// search as it was.
proof fn lemma_skip(
    cells: Seq<bool>,
    from: Location,
    to: Location,
    open: Map<(Location, u16), Seq<Direction>>,
    done: Map<Location, int>,
    limit: int,
    cell: Location,
    score: u16,
)
    requires
        search_inv(cells, from, to, open, done, limit, None),
        done.contains_key(cell),
    ensures
        search_inv(cells, from, to, open.remove((cell, score)), done, limit, None),
{
    let rest = open.remove((cell, score));
    assert forall|at: Location, d: Direction| done.contains_key(at) implies #[trigger] settled(
        cells,
        to,
        rest,
        done,
        at,
        d,
    ) by {
        lemma_settled_stays(cells, to, open, rest, done, done, at, d, cell);
    }
}

/// A settled step stays settled when the nodes that wait are still there,
/// but perhaps those for one cell `gone` that is now expanded.
proof fn lemma_settled_stays(
    cells: Seq<bool>,
    to: Location,
    open: Map<(Location, u16), Seq<Direction>>,
    rest: Map<(Location, u16), Seq<Direction>>,
    done: Map<Location, int>,
    now_done: Map<Location, int>,
    at: Location,
    d: Direction,
    gone: Location,
)
    requires
        settled(cells, to, open, done, at, d),
        done.contains_key(at),
        now_done.contains_key(gone),
        forall|l: Location| #[trigger]
            done.contains_key(l) ==> now_done.contains_key(l) && now_done[l] == done[l],
        forall|k: (Location, u16)| #[trigger]
            open.contains_key(k) && k.0 != gone ==> rest.contains_key(k),
    ensures
        settled(cells, to, rest, now_done, at, d),
{
    let next = at.step(d);
    if may_step(cells, to, at, d) && !now_done.contains_key(next) {
        if done.contains_key(next) {
            assert(now_done.contains_key(next));
        }
        assert(waits_within(open, next, done[at] + 1 + next.manhattan(to)));
        let waiting = choose|s: u16| #[trigger]
            open.contains_key((next, s)) && s <= done[at] + 1 + next.manhattan(to);
        assert(rest.contains_key((next, waiting)));
    }
}

/// Taking out a node of least score for a cell that is not expanded yet, and
/// recording the cell as expanded with the length of the node's path, keeps
/// the search in order; only the steps from that cell are still to be seen to.
proof fn lemma_close(
    cells: Seq<bool>,
    from: Location,
    to: Location,
    open: Map<(Location, u16), Seq<Direction>>,
    done: Map<Location, int>,
    limit: int,
    cell: Location,
    score: u16,
)
    requires
        search_inv(cells, from, to, open, done, limit, None),
        open.contains_key((cell, score)),
        forall|k: (Location, u16)| #[trigger] open.contains_key(k) ==> score <= k.1,
        !done.contains_key(cell),
        cell != to,
    ensures
        search_inv(
            cells,
            from,
            to,
            open.remove((cell, score)),
            done.insert(cell, open[(cell, score)].len() as int),
            limit + 1,
            Some(cell),
        ),
{
    let rest = open.remove((cell, score));
    let path = open[(cell, score)];
    let now_done = done.insert(cell, path.len() as int);
    assert(sound(cells, from, to, cell, score, path, limit));
    assert forall|k: (Location, u16)| #[trigger] rest.contains_key(k) implies sound(
        cells,
        from,
        to,
        k.0,
        k.1,
        rest[k],
        limit + 1,
    ) by {
        assert(open.contains_key(k));
    }
    assert forall|other: Seq<Direction>| #[trigger]
        passable(cells, from, to, other) && now_done.contains_key(
            walk(from, other),
        ) implies now_done[walk(from, other)] <= other.len() by {
        if walk(from, other) == cell {
            lemma_least_is_nearest(cells, from, to, open, done, limit, cell, score, other);
        }
    }
    assert forall|at: Location, d: Direction|
        now_done.contains_key(at) && Some(at) != Some(cell) implies #[trigger] settled(
        cells,
        to,
        rest,
        now_done,
        at,
        d,
    ) by {
        lemma_settled_stays(cells, to, open, rest, done, now_done, at, d, cell);
    }
    if !now_done.contains_key(from) {
        assert(open.contains_key((from, 0u16)));
        assert(rest.contains_key((from, 0u16)));
    }
}

/// The set of expanded cells, as the search keeps it, and `done` speak of the
/// same cells of the grid.
pub open spec fn marks(closed: Set<usize>, done: Map<Location, int>) -> bool {
    &&& closed.finite()
    &&& forall|x: usize| closed.contains(x) ==> x < COLS * ROWS
    &&& forall|l: Location| #[trigger]
        done.contains_key(l) <==> l.in_bounds() && closed.contains(cell_index(l) as usize)
}

/// A finite set of numbers below `n` has `n` members at most.
proof fn lemma_bounded_len(s: Set<usize>, n: nat)
    requires
        s.finite(),
        forall|x: usize| s.contains(x) ==> x < n,
    ensures
        s.len() <= n,
    decreases n,
{
    if n == 0 {
        assert(s =~= Set::<usize>::empty());
    } else {
        lemma_bounded_len(s.remove((n - 1) as usize), (n - 1) as nat);
    }
}

/// Looks at the step from the cell of `cur`, which is being expanded, in
/// direction `d`: where the step is allowed and leads to a cell that is not
/// expanded, a node for that cell is let wait, unless a better one waits.
fn consider(
    grid: &Grid,
    to: Location,
    cur: &Node,
    d: Direction,
    open_list: &mut OpenSet,
    closed_list: &HashSet<usize>,
    Ghost(from): Ghost<Location>,
    Ghost(done): Ghost<Map<Location, int>>,
)
    requires
        grid.wf(),
        from.in_bounds(),
        to.in_bounds(),
        old(open_list).wf(),
        marks(closed_list@, done),
        search_inv(
            grid@,
            from,
            to,
            old(open_list)@,
            done,
            closed_list@.len() as int,
            Some(cur.location),
        ),
        done.contains_key(cur.location),
        done[cur.location] == cur.path@.len(),
        passable(grid@, from, to, cur.path@),
        walk(from, cur.path@) == cur.location,
        cur.path@.len() < closed_list@.len(),
    ensures
        final(open_list).wf(),
        search_inv(
            grid@,
            from,
            to,
            final(open_list)@,
            done,
            closed_list@.len() as int,
            Some(cur.location),
        ),
        settled(grid@, to, final(open_list)@, done, cur.location, d),
        forall|e: Direction| #[trigger]
            settled(grid@, to, old(open_list)@, done, cur.location, e) ==> settled(
                grid@,
                to,
                final(open_list)@,
                done,
                cur.location,
                e,
            ),
{
    let ghost before = old(open_list)@;
    proof {
        lemma_bounded_len(closed_list@, (COLS * ROWS) as nat);
    }
    if cur.location.is_valid_move(d) {
        let next_location = cur.location.next_location(d);
        proof {
            lemma_step_on_grid(cur.location, d);
            lemma_cell_index(next_location, next_location);
        }
        if next_location == to || grid.is_free(next_location) {
            let h = next_location.distance(to);
            let g = cur.path.len() as u16 + 1;
            let mut new_path = cur.path.clone();
            assert(new_path@ =~= cur.path@);
            new_path.push(d);
            let child = Node::new(next_location, g + h, new_path);
            proof {
                lemma_passable_push(grid@, from, to, cur.path@, d);
            }
            if !closed_list.contains(&Grid::index(next_location)) && !open_list.has_better(
                child.location,
                child.fscore,
            ) {
                let ghost score = child.fscore;
                open_list.push(child);
                proof {
                    let after = open_list@;
                    assert(after.contains_key((next_location, score)));
                    assert(waits_within(
                        after,
                        next_location,
                        done[cur.location] + 1 + next_location.manhattan(to),
                    ));
                    assert forall|k: (Location, u16)| #[trigger]
                        after.contains_key(k) implies sound(
                        grid@,
                        from,
                        to,
                        k.0,
                        k.1,
                        after[k],
                        closed_list@.len() as int,
                    ) by {
                        assert(before.contains_key(k) || k == (next_location, score));
                    }
                    assert forall|at: Location, e: Direction|
                        done.contains_key(at) && settled(
                            grid@,
                            to,
                            before,
                            done,
                            at,
                            e,
                        ) implies #[trigger] settled(grid@, to, after, done, at, e) by {
                        lemma_settled_stays(grid@, to, before, after, done, done, at, e, at);
                    }
                }
            } else {
                proof {
                    if !closed_list@.contains(cell_index(next_location) as usize) {
                        let better = choose|f: u16|
                            f < child.fscore && #[trigger] before.contains_key((next_location, f));
                        assert(before.contains_key((next_location, better)));
                        assert(waits_within(
                            before,
                            next_location,
                            done[cur.location] + 1 + next_location.manhattan(to),
                        ));
                    }
                }
            }
        }
    }
}

/// Plans a route from `from` to `to` over the free cells of `grid`.
///
/// The result is a shortest route, as a list of steps, or `None` where there
/// is no route at all; a destination off the grid is never reached. Where
/// several routes are shortest, any of them may come back.
pub fn astar(grid: &Grid, from: Location, to: Location) -> (result: Option<Vec<Direction>>)
    requires
        grid.wf(),
        from.in_bounds(),
    ensures
        match result {
            Some(path) => is_shortest_route(grid@, from, to, path@),
            None => forall|path: Seq<Direction>| !is_route(grid@, from, to, path),
        },
        !to.in_bounds() ==> result is None,
        to.in_bounds() && all_free(grid@) ==> (result matches Some(path) && path@.len()
            == from.manhattan(to)),
{
    if to.col >= COLS || to.row >= ROWS {
        proof {
            assert forall|path: Seq<Direction>| !is_route(grid@, from, to, path) by {
                lemma_no_route_off_grid(grid@, from, to, path);
            }
        }
        return None;
    }
    let mut open_list = OpenSet::new();
    let mut closed_list: HashSet<usize> = HashSet::new();
    let ghost mut done: Map<Location, int> = Map::empty();
    let from_node = Node::new(from, 0, Vec::new());
    open_list.push(from_node);
    proof {
        assert(open_list@.contains_key((from, 0u16)));
        assert forall|k: (Location, u16)| #[trigger] open_list@.contains_key(k) implies sound(
            grid@,
            from,
            to,
            k.0,
            k.1,
            open_list@[k],
            0,
        ) by {
            assert(k == (from, 0u16));
        }
    }
    loop
        invariant
            grid.wf(),
            from.in_bounds(),
            to.in_bounds(),
            open_list.wf(),
            marks(closed_list@, done),
            search_inv(grid@, from, to, open_list@, done, closed_list@.len() as int, None),
        decreases COLS * ROWS - closed_list@.len(), open_list.len(),
    {
        let ghost waiting = open_list@;
        proof {
            lemma_bounded_len(closed_list@, (COLS * ROWS) as nat);
        }
        let cur_node = match open_list.pop() {
            Some(node) => node,
            None => {
                proof {
                    lemma_exhausted(grid@, from, to, waiting, done, closed_list@.len() as int);
                    if all_free(grid@) {
                        let straight = lemma_straight_path(grid@, from, to, to);
                        assert(is_route(grid@, from, to, straight));
                    }
                }
                return None;
            },
        };
        // this is the most promising path to the destination
        let cur_location = cur_node.location;
        let ghost score = cur_node.fscore;
        proof {
            assert(sound(
                grid@,
                from,
                to,
                cur_location,
                score,
                cur_node.path@,
                closed_list@.len() as int,
            ));
            lemma_walk_stays_on_grid(from, cur_node.path@);
            lemma_cell_index(cur_location, cur_location);
        }
        if cur_location == to {
            // nothing that waits can lead there by a shorter path
            proof {
                assert forall|other: Seq<Direction>| #[trigger]
                    is_route(grid@, from, to, other) implies cur_node.path@.len()
                    <= other.len() by {
                    lemma_least_is_nearest(
                        grid@,
                        from,
                        to,
                        waiting,
                        done,
                        closed_list@.len() as int,
                        cur_location,
                        score,
                        other,
                    );
                }
                if all_free(grid@) {
                    lemma_shortest_on_open_plane(grid@, from, to, cur_node.path@);
                }
            }
            return Some(cur_node.path);
        }
        let cell = Grid::index(cur_location);
        if closed_list.contains(&cell) {
            // a cell is expanded once
            proof {
                lemma_skip(
                    grid@,
                    from,
                    to,
                    waiting,
                    done,
                    closed_list@.len() as int,
                    cur_location,
                    score,
                );
            }
            continue ;
        }
        proof {
            lemma_close(
                grid@,
                from,
                to,
                waiting,
                done,
                closed_list@.len() as int,
                cur_location,
                score,
            );
            let ghost was_done = done;
            done = done.insert(cur_location, cur_node.path@.len() as int);
            assert forall|l: Location| #[trigger]
                done.contains_key(l) <==> l.in_bounds() && closed_list@.insert(cell).contains(
                    cell_index(l) as usize,
                ) by {
                if l.in_bounds() {
                    lemma_cell_index(l, cur_location);
                }
                assert(was_done.contains_key(l) <==> l.in_bounds() && closed_list@.contains(
                    cell_index(l) as usize,
                ));
            }
        }
        let ghost expanded = closed_list@.len();
        closed_list.insert(cell);
        assert(closed_list@.len() == expanded + 1);
        let cur = &cur_node;
        consider(
            grid,
            to,
            cur,
            Direction::Up,
            &mut open_list,
            &closed_list,
            Ghost(from),
            Ghost(done),
        );
        consider(
            grid,
            to,
            cur,
            Direction::Down,
            &mut open_list,
            &closed_list,
            Ghost(from),
            Ghost(done),
        );
        consider(
            grid,
            to,
            cur,
            Direction::Left,
            &mut open_list,
            &closed_list,
            Ghost(from),
            Ghost(done),
        );
        consider(
            grid,
            to,
            cur,
            Direction::Right,
            &mut open_list,
            &closed_list,
            Ghost(from),
            Ghost(done),
        );
        proof {
            lemma_bounded_len(closed_list@, (COLS * ROWS) as nat);
            assert forall|at: Location, d: Direction|
                done.contains_key(at) implies #[trigger] settled(
                grid@,
                to,
                open_list@,
                done,
                at,
                d,
            ) by {
                if at == cur_location {
                    match d {
                        Direction::Up => {},
                        Direction::Down => {},
                        Direction::Left => {},
                        Direction::Right => {},
                    }
                }
            }
        }
    }
}

} // verus!
