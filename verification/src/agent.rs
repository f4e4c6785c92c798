//! Agents: each fetches the nearest tile, carries it to the nearest hole, and
//! starts over.

use vstd::prelude::*;

use crate::astar::astar;
use crate::chance::random_between;
use crate::grid::{cell_index, lemma_cell_index, Grid};
use crate::hole::Hole;
use crate::location::{closest, is_closest, lemma_step_on_grid, Direction, Located, Location};
use crate::route::{is_route, is_shortest_route, lemma_passable_prefix};
use crate::tile::Tile;
use crate::{COLS, ROWS};

verus! {

/// What an agent is after. On the way to a hole it carries the score of the
/// tile that it picked up.
#[derive(Debug, PartialEq, Eq, Structural, Clone, Copy)]
pub enum AgentState {
    MoveToTile,
    MoveToHole { carried: u8 },
}

/// What became of an agent's turn.
#[derive(Debug, PartialEq, Eq, Structural, Clone, Copy)]
pub enum Outcome {
    /// There was nothing to go for.
    NoTarget,
    /// No route led to the target.
    NoPath,
    /// The agent stood on the target already.
    EmptyPath,
    /// The agent took a step and is not there yet.
    Moved,
    /// The agent took a step onto the target.
    Arrived,
}

/// An agent: where it stands, what it is after, and what it has scored.
#[derive(Debug, Clone, Copy)]
pub struct Agent {
    pub id: u8,
    pub location: Location,
    pub state: AgentState,
    pub score: u32,
}

/// What the agents share: the grid, the tiles and the holes.
pub struct World {
    pub grid: Grid,
    pub tiles: Vec<Tile>,
    pub holes: Vec<Hole>,
}

/// A world as plain values.
pub struct WorldView {
    pub cells: Seq<bool>,
    pub tiles: Seq<Tile>,
    pub holes: Seq<Hole>,
}

impl View for World {
    type V = WorldView;

    open spec fn view(&self) -> WorldView {
        WorldView { cells: self.grid@, tiles: self.tiles@, holes: self.holes@ }
    }
}

impl World {
    /// The grid is whole, and every tile and every hole lies on it.
    pub open spec fn wf(&self) -> bool {
        &&& self.grid.wf()
        &&& forall|i: int|
            0 <= i < self.tiles@.len() ==> (#[trigger] self.tiles@[i]).location.in_bounds()
        &&& forall|i: int|
            0 <= i < self.holes@.len() ==> (#[trigger] self.holes@[i]).location.in_bounds()
    }
}

/// `l` is a cell of the grid that `cells` shows free.
pub open spec fn free_in(cells: Seq<bool>, l: Location) -> bool {
    l.in_bounds() && !cells[cell_index(l)]
}

/// Some route leads from `from` to `to`.
pub open spec fn reachable(cells: Seq<bool>, from: Location, to: Location) -> bool {
    exists|path: Seq<Direction>| is_route(cells, from, to, path)
}

/// `d` is the first step of a shortest route from `from` to `to`.
pub open spec fn leads(cells: Seq<bool>, from: Location, to: Location, d: Direction) -> bool {
    exists|path: Seq<Direction>| #[trigger]
        is_shortest_route(cells, from, to, path) && path.len() > 0 && path[0] == d
}

/// The grid after something has left the cell `from` and taken the cell
/// `onto`.
pub open spec fn shifted(cells: Seq<bool>, from: Location, onto: Location) -> Seq<bool> {
    cells.update(cell_index(from), false).update(cell_index(onto), true)
}

/// The agent `a` went one step towards `to` and became `a2`: it took the
/// first step of a shortest route, and nothing else about it changed.
pub open spec fn stepped(cells: Seq<bool>, a: Agent, to: Location, a2: Agent) -> bool {
    &&& a2.id == a.id
    &&& a2.score == a.score
    &&& a2.state == a.state
    &&& exists|d: Direction| #[trigger]
        leads(cells, a.location, to, d) && a2.location == a.location.step(d)
}

/// `next` is where the first step of a shortest route from `from` to `to`
/// leads.
pub open spec fn first_step(
    cells: Seq<bool>,
    from: Location,
    to: Location,
    next: Location,
) -> bool {
    exists|d: Direction| #[trigger] leads(cells, from, to, d) && next == from.step(d)
}

/// What is reported of the turn of an agent that stood on `from`, was after
/// `target` and stands on `now`.
pub open spec fn outcome_of(
    cells: Seq<bool>,
    from: Location,
    target: Location,
    now: Location,
) -> Outcome {
    if from == target {
        Outcome::EmptyPath
    } else if !reachable(cells, from, target) {
        Outcome::NoPath
    } else if now == target {
        Outcome::Arrived
    } else {
        Outcome::Moved
    }
}

/// Nothing differs between the two worlds.
pub open spec fn same_world(w: WorldView, w2: WorldView) -> bool {
    w2.cells == w.cells && w2.tiles == w.tiles && w2.holes == w.holes
}

/// One turn of the agent `a`, which is after the `i`-th tile of the world
/// `w`, leads to the agent `a2` and the world `w2`.
///
/// Where the agent cannot advance, nothing changes. Otherwise it takes the
/// first step of a shortest route to the tile. If that step does not end on
/// the tile, only the place of the agent changes. If it does, the agent
/// carries the score that the tile had and is after a hole, and the tile has
/// a score from 1 to 4 and lies on a cell that was free once the agent had
/// moved, and which is now taken.
pub open spec fn turn_for_tile(
    a: Agent,
    w: WorldView,
    a2: Agent,
    w2: WorldView,
    i: int,
    outcome: Outcome,
) -> bool {
    let target = w.tiles[i].location;
    let moved = shifted(w.cells, a.location, a2.location);
    &&& outcome == outcome_of(w.cells, a.location, target, a2.location)
    &&& if !can_advance(w.cells, a.location, target) {
        a2 == a && same_world(w, w2)
    } else {
        &&& a2.id == a.id
        &&& a2.score == a.score
        &&& first_step(w.cells, a.location, target, a2.location)
        &&& w2.holes == w.holes
        &&& if a2.location != target {
            &&& a2.state == a.state
            &&& w2.cells == moved
            &&& w2.tiles == w.tiles
        } else {
            &&& a2.state == (AgentState::MoveToHole { carried: w.tiles[i].score })
            &&& w2.tiles == w.tiles.update(i, w2.tiles[i])
            &&& 1 <= w2.tiles[i].score < 5
            &&& free_in(moved, w2.tiles[i].location)
            &&& w2.cells == moved.update(cell_index(w2.tiles[i].location), true)
        }
    }
}

/// One turn of the agent `a`, which carries `carried` and is after the `i`-th
/// hole of the world `w`, leads to the agent `a2` and the world `w2`.
///
/// Where the agent cannot advance, nothing changes. Otherwise it takes the
/// first step of a shortest route to the hole. If that step does not end on
/// the hole, only the place of the agent changes. If it does, what the agent
/// carried is added to its score, the agent is after a tile again, and the
/// hole lies on a cell that was free once the agent had moved, and which is
/// now taken.
pub open spec fn turn_for_hole(
    a: Agent,
    carried: u8,
    w: WorldView,
    a2: Agent,
    w2: WorldView,
    i: int,
    outcome: Outcome,
) -> bool {
    let target = w.holes[i].location;
    let moved = shifted(w.cells, a.location, a2.location);
    &&& outcome == outcome_of(w.cells, a.location, target, a2.location)
    &&& if !can_advance(w.cells, a.location, target) {
        a2 == a && same_world(w, w2)
    } else {
        &&& a2.id == a.id
        &&& first_step(w.cells, a.location, target, a2.location)
        &&& w2.tiles == w.tiles
        &&& if a2.location != target {
            &&& a2.state == a.state
            &&& a2.score == a.score
            &&& w2.cells == moved
            &&& w2.holes == w.holes
        } else {
            &&& a2.state == AgentState::MoveToTile
            &&& a2.score == a.score + carried
            &&& w2.holes == w.holes.update(i, w2.holes[i])
            &&& free_in(moved, w2.holes[i].location)
            &&& w2.cells == moved.update(cell_index(w2.holes[i].location), true)
        }
    }
}

/// One turn of the agent `a` in the world `w` leads to the agent `a2` and the
/// world `w2`: the agent goes for the nearest of what it is after, the first
/// of several that are equally near, as [`turn_for_tile`] and
/// [`turn_for_hole`] say; where there is nothing to go for, nothing changes.
/// `outcome` is what is reported of the turn.
pub open spec fn turn(a: Agent, w: WorldView, a2: Agent, w2: WorldView, outcome: Outcome) -> bool {
    match a.state {
        AgentState::MoveToTile => if w.tiles.len() == 0 {
            a2 == a && same_world(w, w2) && outcome == Outcome::NoTarget
        } else {
            exists|i: int| #[trigger]
                is_closest(a.location, w.tiles, i) && turn_for_tile(a, w, a2, w2, i, outcome)
        },
        AgentState::MoveToHole { carried } => if w.holes.len() == 0 {
            a2 == a && same_world(w, w2) && outcome == Outcome::NoTarget
        } else {
            exists|i: int| #[trigger]
                is_closest(a.location, w.holes, i) && turn_for_hole(
                    a,
                    carried,
                    w,
                    a2,
                    w2,
                    i,
                    outcome,
                )
        },
    }
}

/// Whether an agent on `from` that is after `to` moves at all: it stays
/// where it is if it stands on `to`, or if no route leads there.
pub open spec fn can_advance(cells: Seq<bool>, from: Location, to: Location) -> bool {
    from != to && reachable(cells, from, to)
}

/// The first step of a shortest route leads from a cell of the grid to a
/// neighbour on the grid, which is the destination or free.
pub proof fn lemma_first_step(cells: Seq<bool>, from: Location, to: Location, next: Location)
    requires
        from.in_bounds(),
        first_step(cells, from, to, next),
    ensures
        next.in_bounds(),
        next != from,
        from.manhattan(next) == 1,
        next == to || free_in(cells, next),
{
    let d = choose|d: Direction| #[trigger] leads(cells, from, to, d) && next == from.step(d);
    let path = choose|path: Seq<Direction>| #[trigger]
        is_shortest_route(cells, from, to, path) && path.len() > 0 && path[0] == d;
    lemma_passable_prefix(cells, from, to, path, 0);
    assert(path.take(0) =~= Seq::<Direction>::empty());
    lemma_step_on_grid(from, d);
}

/// When a turn makes an agent that was after a tile go after a hole, the
/// agent stands where the nearest tile lay and carries the score that this
/// tile had; the tile lies elsewhere now, on a cell that is taken.
pub proof fn lemma_tile_picked_up(
    a: Agent,
    w: WorldView,
    a2: Agent,
    w2: WorldView,
    outcome: Outcome,
) -> (i: int)
    requires
        w.cells.len() == COLS * ROWS,
        a.location.in_bounds(),
        a.state == AgentState::MoveToTile,
        a2.state != AgentState::MoveToTile,
        turn(a, w, a2, w2, outcome),
    ensures
        outcome == Outcome::Arrived,
        is_closest(a.location, w.tiles, i),
        a2.location == w.tiles[i].location,
        a2.state == (AgentState::MoveToHole { carried: w.tiles[i].score }),
        w2.tiles[i].location != w.tiles[i].location,
        w2.tiles[i].location.in_bounds(),
        w2.cells[cell_index(w2.tiles[i].location)],
{
    let i = choose|i: int| #[trigger]
        is_closest(a.location, w.tiles, i) && turn_for_tile(a, w, a2, w2, i, outcome);
    lemma_first_step(w.cells, a.location, w.tiles[i].location, a2.location);
    lemma_cell_index(w2.tiles[i].location, a2.location);
    i
}

/// When a turn makes an agent that carried a tile go after a tile again, the
/// agent stands where the nearest hole lay and what it carried has been added
/// to its score; the hole lies elsewhere now, on a cell that is taken.
pub proof fn lemma_tile_delivered(
    a: Agent,
    carried: u8,
    w: WorldView,
    a2: Agent,
    w2: WorldView,
    outcome: Outcome,
) -> (i: int)
    requires
        w.cells.len() == COLS * ROWS,
        a.location.in_bounds(),
        a.state == (AgentState::MoveToHole { carried }),
        a2.state == AgentState::MoveToTile,
        turn(a, w, a2, w2, outcome),
    ensures
        outcome == Outcome::Arrived,
        is_closest(a.location, w.holes, i),
        a2.location == w.holes[i].location,
        a2.score == a.score + carried,
        w2.holes[i].location != w.holes[i].location,
        w2.holes[i].location.in_bounds(),
        w2.cells[cell_index(w2.holes[i].location)],
{
    let i = choose|i: int| #[trigger]
        is_closest(a.location, w.holes, i) && turn_for_hole(a, carried, w, a2, w2, i, outcome);
    lemma_first_step(w.cells, a.location, w.holes[i].location, a2.location);
    lemma_cell_index(w2.holes[i].location, a2.location);
    i
}

impl Agent {
    /// A new agent on `location`: it is after a tile, and has no score yet.
    pub fn new(id: u8, location: Location) -> (agent: Agent)
        ensures
            agent.id == id,
            agent.location == location,
            agent.state == AgentState::MoveToTile,
            agent.score == 0,
    {
        Self { id, location, state: AgentState::MoveToTile, score: 0 }
    }

    /// The score of the tile that the agent carries, if it carries one.
    pub fn tile_score(&self) -> (carried: Option<u8>)
        ensures
            carried == match self.state {
                AgentState::MoveToTile => None::<u8>,
                AgentState::MoveToHole { carried } => Some(carried),
            },
    {
        match self.state {
            AgentState::MoveToTile => None,
            AgentState::MoveToHole { carried } => Some(carried),
        }
    }

    /// Takes one step on a shortest route to `to`, if there is a route and the
    /// agent is not there already, and tells whether the step ended on `to`.
    /// The agent frees the cell that it leaves and takes the one that it
    /// enters.
    pub fn move_to(&mut self, grid: &mut Grid, to: Location) -> (arrived: bool)
        requires
            old(grid).wf(),
            old(self).location.in_bounds(),
        ensures
            final(grid).wf(),
            final(self).location.in_bounds(),
            if can_advance(old(grid)@, old(self).location, to) {
                &&& stepped(old(grid)@, *old(self), to, *final(self))
                &&& final(grid)@ == shifted(old(grid)@, old(self).location, final(self).location)
                &&& final(self).location != old(self).location
                &&& final(self).location == to || free_in(old(grid)@, final(self).location)
                &&& arrived == (final(self).location == to)
            } else {
                &&& *final(self) == *old(self)
                &&& final(grid)@ == old(grid)@
                &&& !arrived
            },
    {
        let ghost cells = grid@;
        let ghost from = self.location;
        if let Some(path) = astar(grid, self.location, to) {
            if path.len() == 0 {
                return false;
            }
            let direction = path[0];
            proof {
                assert(is_route(cells, from, to, path@));
                if from == to {
                    assert(is_route(cells, from, to, Seq::<Direction>::empty()));
                }
                lemma_passable_prefix(cells, from, to, path@, 0);
                assert(path@.take(0) =~= Seq::<Direction>::empty());
                lemma_step_on_grid(from, direction);
                assert(leads(cells, from, to, direction));
            }
            let next = self.location.next_location(direction);
            grid.remove(self.location);
            self.location = next;
            grid.set(self.location);
            if next == to {
                return true;
            }
        }
        false
    }

    /// One turn of the agent: it looks for the nearest tile, or the nearest
    /// hole if it carries a tile, plans a route there and takes one step. On
    /// arrival it picks the tile up, or drops what it carries into the hole;
    /// the tile or hole then turns up again on a free cell drawn at random,
    /// the tile with a score drawn from 1 to 4. What comes back says what
    /// became of the turn; a turn without a step is no failure.
    pub fn update(&mut self, world: &mut World) -> (outcome: Outcome)
        requires
            old(world).wf(),
            old(self).location.in_bounds(),
            old(self).state matches AgentState::MoveToHole { carried } ==> old(self).score + carried
                <= u32::MAX,
        ensures
            final(world).wf(),
            final(self).location.in_bounds(),
            turn(*old(self), old(world)@, *final(self), final(world)@, outcome),
    {
        let ghost a = *self;
        let ghost w = world@;
        let from = self.location;
        match self.state {
            AgentState::MoveToTile => {
                assert forall|j: int| 0 <= j < world.tiles@.len() implies self.location.manhattan(
                    #[trigger] world.tiles@[j].place(),
                ) <= u16::MAX by {
                    assert(world.tiles@[j].location.in_bounds());
                }
                if let Some(i) = closest(self.location, &world.tiles) {
                    let target = world.tiles[i].location();
                    let arrived = self.move_to(&mut world.grid, target);
                    if arrived {
                        proof {
                            lemma_cell_index(a.location, self.location);
                            assert(world.grid.free(a.location));
                        }
                        let new_tile = world.grid.random_location();
                        let new_score = random_between(1, 5) as u8;
                        let mut tile = world.tiles[i];
                        self.collect(&mut tile, new_tile, new_score);
                        world.tiles.set(i, tile);
                        world.grid.set(new_tile);
                    }
                    let outcome = Agent::report(from, target, self.location, arrived);
                    proof {
                        assert(is_closest(a.location, w.tiles, i as int));
                        assert(turn_for_tile(a, w, *self, world@, i as int, outcome));
                    }
                    outcome
                } else {
                    Outcome::NoTarget
                }
            },
            AgentState::MoveToHole { carried } => {
                assert forall|j: int| 0 <= j < world.holes@.len() implies self.location.manhattan(
                    #[trigger] world.holes@[j].place(),
                ) <= u16::MAX by {
                    assert(world.holes@[j].location.in_bounds());
                }
                if let Some(i) = closest(self.location, &world.holes) {
                    let target = world.holes[i].location();
                    let arrived = self.move_to(&mut world.grid, target);
                    if arrived {
                        proof {
                            lemma_cell_index(a.location, self.location);
                            assert(world.grid.free(a.location));
                        }
                        let new_hole = world.grid.random_location();
                        let mut hole = world.holes[i];
                        self.deliver(&mut hole, new_hole);
                        world.holes.set(i, hole);
                        world.grid.set(new_hole);
                    }
                    let outcome = Agent::report(from, target, self.location, arrived);
                    proof {
                        assert(is_closest(a.location, w.holes, i as int));
                        assert(turn_for_hole(a, carried, w, *self, world@, i as int, outcome));
                    }
                    outcome
                } else {
                    Outcome::NoTarget
                }
            },
        }
    }

    /// What to report of a turn, from where the agent stood, what it was
    /// after, where it stands now and whether it has arrived.
    fn report(from: Location, target: Location, now: Location, arrived: bool) -> (outcome: Outcome)
        ensures
            outcome == if from == target {
                Outcome::EmptyPath
            } else if arrived {
                Outcome::Arrived
            } else if now != from {
                Outcome::Moved
            } else {
                Outcome::NoPath
            },
    {
        if from == target {
            Outcome::EmptyPath
        } else if arrived {
            Outcome::Arrived
        } else if now != from {
            Outcome::Moved
        } else {
            Outcome::NoPath
        }
    }

    /// Picks up `tile`: the agent carries the tile's score from now on and is
    /// after a hole; the tile turns up again on `new_location` with
    /// `new_score`.
    pub fn collect(&mut self, tile: &mut Tile, new_location: Location, new_score: u8)
        ensures
            final(self).state == (AgentState::MoveToHole { carried: old(tile).score }),
            final(self).id == old(self).id,
            final(self).location == old(self).location,
            final(self).score == old(self).score,
            final(tile).location == new_location,
            final(tile).score == new_score,
    {
        self.state = AgentState::MoveToHole { carried: tile.score };
        tile.set_location(new_location);
        tile.score = new_score;
    }

    /// Drops what the agent carries into `hole`: the carried score is added to
    /// the agent's own, and the agent is after a tile again; the hole turns up
    /// again on `new_location`.
    pub fn deliver(&mut self, hole: &mut Hole, new_location: Location)
        requires
            old(self).state matches AgentState::MoveToHole { carried } && old(self).score + carried
                <= u32::MAX,
        ensures
            final(self).state == AgentState::MoveToTile,
            old(self).state matches AgentState::MoveToHole { carried } && final(self).score == old(
                self,
            ).score + carried,
            final(self).id == old(self).id,
            final(self).location == old(self).location,
            final(hole).location == new_location,
    {
        if let AgentState::MoveToHole { carried } = self.state {
            self.score += carried as u32;
        }
        self.state = AgentState::MoveToTile;
        hole.set_location(new_location);
    }
}

} // verus!
