//! The simulation: the world, the agents that act in it, and the obstacles.

use vstd::prelude::*;

use crate::agent::{
    can_advance, lemma_first_step, turn, turn_for_hole, turn_for_tile, Agent, AgentState, Outcome,
    World, WorldView,
};
use crate::claims::{
    consistent, lemma_claim_added, lemma_claim_moved, lemma_claim_taken_over,
    lemma_claims_fix_grid,
};
use crate::chance::random_between;
use crate::grid::{cell_index, lemma_room_left, marked, Grid};
use crate::hole::Hole;
use crate::location::{is_closest, Location};
use crate::obstacle::Obstacle;
use crate::tile::Tile;
use crate::{COLS, NUM_AGENTS, NUM_HOLES, NUM_OBSTACLES, NUM_TILES, ROWS};

verus! {

/// The cells that are claimed: those of the agents, then of the tiles, of the
/// holes and of the obstacles.
pub open spec fn claims_of(agents: Seq<Agent>, w: WorldView, obstacles: Seq<Obstacle>) -> Seq<
    Location,
> {
    agents.map_values(|a: Agent| a.location) + w.tiles.map_values(|t: Tile| t.location)
        + w.holes.map_values(|h: Hole| h.location) + obstacles.map_values(
        |o: Obstacle| o.location,
    )
}

/// Every tile is worth 1 to 4, and so is what an agent carries.
pub open spec fn scores_ok(agents: Seq<Agent>, w: WorldView) -> bool {
    &&& forall|i: int| 0 <= i < w.tiles.len() ==> 1 <= (#[trigger] w.tiles[i]).score < 5
    &&& forall|k: int|
        0 <= k < agents.len() ==> ((#[trigger] agents[k]).state matches AgentState::MoveToHole {
            carried,
        } ==> 1 <= carried < 5)
}

/// A turn of the `k`-th agent keeps grid and claims consistent and the scores
/// in their range, and neither adds nor removes a tile or a hole.
pub proof fn lemma_turn_keeps_order(
    agents: Seq<Agent>,
    w: WorldView,
    obstacles: Seq<Obstacle>,
    k: int,
    a2: Agent,
    w2: WorldView,
    outcome: Outcome,
)
    requires
        consistent(w.cells, claims_of(agents, w, obstacles)),
        scores_ok(agents, w),
        0 <= k < agents.len(),
        turn(agents[k], w, a2, w2, outcome),
    ensures
        consistent(w2.cells, claims_of(agents.update(k, a2), w2, obstacles)),
        scores_ok(agents.update(k, a2), w2),
        w2.tiles.len() == w.tiles.len(),
        w2.holes.len() == w.holes.len(),
{
    let a = agents[k];
    let claims = claims_of(agents, w, obstacles);
    let claims2 = claims_of(agents.update(k, a2), w2, obstacles);
    let na = agents.len() as int;
    let nt = w.tiles.len() as int;
    assert(claims[k] == a.location);
    match a.state {
        AgentState::MoveToTile => {
            if w.tiles.len() == 0 {
                assert(claims2 =~= claims);
            } else {
                let i = choose|i: int| #[trigger]
                    is_closest(a.location, w.tiles, i) && turn_for_tile(a, w, a2, w2, i, outcome);
                let target = w.tiles[i].location;
                assert(claims[na + i] == target);
                if !can_advance(w.cells, a.location, target) {
                    assert(claims2 =~= claims);
                } else {
                    lemma_first_step(w.cells, a.location, target, a2.location);
                    if a2.location != target {
                        lemma_claim_moved(w.cells, claims, k, a2.location);
                        assert(claims2 =~= claims.update(k, a2.location));
                    } else {
                        let onto = w2.tiles[i].location;
                        lemma_claim_taken_over(w.cells, claims, k, na + i, onto);
                        assert(claims2 =~= claims.update(k, target).update(na + i, onto));
                    }
                }
            }
        },
        AgentState::MoveToHole { carried } => {
            if w.holes.len() == 0 {
                assert(claims2 =~= claims);
            } else {
                let i = choose|i: int| #[trigger]
                    is_closest(a.location, w.holes, i) && turn_for_hole(
                        a,
                        carried,
                        w,
                        a2,
                        w2,
                        i,
                        outcome,
                    );
                let target = w.holes[i].location;
                assert(claims[na + nt + i] == target);
                if !can_advance(w.cells, a.location, target) {
                    assert(claims2 =~= claims);
                } else {
                    lemma_first_step(w.cells, a.location, target, a2.location);
                    if a2.location != target {
                        lemma_claim_moved(w.cells, claims, k, a2.location);
                        assert(claims2 =~= claims.update(k, a2.location));
                    } else {
                        let onto = w2.holes[i].location;
                        lemma_claim_taken_over(w.cells, claims, k, na + nt + i, onto);
                        assert(claims2 =~= claims.update(k, target).update(na + nt + i, onto));
                    }
                }
            }
        },
    }
}

/// Claims of which the `p`-th is no cell of the grid, or a cell that an
/// earlier one claims too, are consistent with no grid.
proof fn lemma_claim_refused(cells: Seq<bool>, claims: Seq<Location>, p: int)
    requires
        0 <= p < claims.len(),
        !(claims[p].in_bounds() && !claims.take(p).contains(claims[p])),
    ensures
        !consistent(cells, claims),
{
    if claims[p].in_bounds() {
        let q = choose|q: int| 0 <= q < claims.take(p).len() && claims.take(p)[q] == claims[p];
        assert(claims[q] == claims[p]);
    }
}

/// The agents in `before` took their turns one after the other, each in the
/// world that the one before it left: that led from the world `start` to the
/// world `end`, and to the agents in `after`; `outcomes` holds what is
/// reported of each turn.
pub open spec fn took_turns(
    before: Seq<Agent>,
    start: WorldView,
    after: Seq<Agent>,
    end: WorldView,
    outcomes: Seq<Outcome>,
) -> bool {
    &&& after.len() == before.len()
    &&& outcomes.len() == before.len()
    &&& exists|worlds: Seq<WorldView>|
        {
            &&& worlds.len() == before.len() + 1
            &&& worlds[0] == start
            &&& worlds[before.len() as int] == end
            &&& forall|k: int|
                0 <= k < before.len() ==> turn(
                    #[trigger] before[k],
                    worlds[k],
                    after[k],
                    worlds[k + 1],
                    outcomes[k],
                )
        }
}

/// A simulation: the world, the agents in the order in which they take their
/// turns, and the obstacles.
pub struct State {
    pub world: World,
    pub agents: Vec<Agent>,
    pub obstacles: Vec<Obstacle>,
}

impl State {
    /// The cells that are claimed.
    pub open spec fn claims(&self) -> Seq<Location> {
        claims_of(self.agents@, self.world@, self.obstacles@)
    }

    /// Grid and claims are consistent, and the scores are in their range.
    pub open spec fn wf(&self) -> bool {
        &&& consistent(self.world.grid@, self.claims())
        &&& scores_ok(self.agents@, self.world@)
    }

    /// No agent's score is so high that one more tile could not be added.
    pub open spec fn scores_fit(&self) -> bool {
        forall|k: int|
            0 <= k < self.agents@.len() ==> (#[trigger] self.agents@[k]).score <= u32::MAX - 4
    }

    /// Marks `location` on `scratch`, on which the cells in `claims` are
    /// marked so far, if it is a cell of the grid that is still free there.
    fn claim(scratch: &mut Grid, location: Location, Ghost(claims): Ghost<Seq<Location>>) -> (ok:
        bool)
        requires
            consistent(old(scratch)@, claims),
        ensures
            ok == (location.in_bounds() && !claims.contains(location)),
            ok ==> consistent(final(scratch)@, claims.push(location)),
            !ok ==> final(scratch)@ == old(scratch)@,
    {
        if location.col < COLS && location.row < ROWS && scratch.is_free(location) {
            proof {
                lemma_claim_added(scratch@, claims, location);
            }
            scratch.set(location);
            true
        } else {
            false
        }
    }

    /// Whether the scores are in their range.
    fn scores_in_range(&self) -> (ok: bool)
        ensures
            ok == scores_ok(self.agents@, self.world@),
    {
        let mut i: usize = 0;
        while i < self.world.tiles.len()
            invariant
                i <= self.world.tiles@.len(),
                forall|k: int| 0 <= k < i ==> 1 <= (#[trigger] self.world.tiles@[k]).score < 5,
            decreases self.world.tiles@.len() - i,
        {
            let score = self.world.tiles[i].score;
            if score < 1 || score >= 5 {
                assert(self.world@.tiles[i as int].score == score);
                return false;
            }
            i += 1;
        }
        let mut i: usize = 0;
        while i < self.agents.len()
            invariant
                i <= self.agents@.len(),
                forall|k: int| 0 <= k < self.world.tiles@.len() ==> 1 <= (
                #[trigger] self.world.tiles@[k]).score < 5,
                forall|k: int|
                    0 <= k < i ==> ((#[trigger] self.agents@[k]).state matches
                    AgentState::MoveToHole { carried } ==> 1 <= carried < 5),
            decreases self.agents@.len() - i,
        {
            if let AgentState::MoveToHole { carried } = self.agents[i].state {
                if carried < 1 || carried >= 5 {
                    assert(self.agents@[i as int].state == (AgentState::MoveToHole { carried }));
                    return false;
                }
            }
            i += 1;
        }
        true
    }

    /// Whether the state is as [`State::wf`] asks: whether every agent, tile,
    /// hole and obstacle stands on a cell of the grid, each on one of its
    /// own, whether exactly those cells are taken, and whether the scores are
    /// in their range.
    pub fn in_order(&self) -> (ok: bool)
        requires
            self.world.grid.wf(),
        ensures
            ok == self.wf(),
    {
        if !self.scores_in_range() {
            return false;
        }
        let ghost all = self.claims();
        let ghost na = self.agents@.len() as int;
        let ghost nt = self.world.tiles@.len() as int;
        let ghost nh = self.world.holes@.len() as int;
        let mut scratch = Grid::new();
        proof {
            assert forall|l: Location| l.in_bounds() implies (scratch@[cell_index(l)]
                <==> #[trigger] all.take(0).contains(l)) by {
                assert(scratch.free(l));
            }
        }
        let mut i: usize = 0;
        while i < self.agents.len()
            invariant
                i <= self.agents@.len(),
                all == self.claims(),
                consistent(scratch@, all.take(i as int)),
            decreases self.agents@.len() - i,
        {
            assert(all[i as int] == self.agents@[i as int].location);
            if !State::claim(&mut scratch, self.agents[i].location, Ghost(all.take(i as int))) {
                proof {
                    lemma_claim_refused(self.world.grid@, all, i as int);
                }
                return false;
            }
            assert(all.take(i as int).push(all[i as int]) =~= all.take(i + 1));
            i += 1;
        }
        let mut i: usize = 0;
        while i < self.world.tiles.len()
            invariant
                i <= self.world.tiles@.len(),
                all == self.claims(),
                na == self.agents@.len(),
                consistent(scratch@, all.take(na + i)),
            decreases self.world.tiles@.len() - i,
        {
            assert(all[na + i] == self.world.tiles@[i as int].location);
            if !State::claim(&mut scratch, self.world.tiles[i].location, Ghost(all.take(na + i))) {
                proof {
                    lemma_claim_refused(self.world.grid@, all, na + i);
                }
                return false;
            }
            assert(all.take(na + i).push(all[na + i]) =~= all.take(na + i + 1));
            i += 1;
        }
        let mut i: usize = 0;
        while i < self.world.holes.len()
            invariant
                i <= self.world.holes@.len(),
                all == self.claims(),
                na == self.agents@.len(),
                nt == self.world.tiles@.len(),
                consistent(scratch@, all.take(na + nt + i)),
            decreases self.world.holes@.len() - i,
        {
            assert(all[na + nt + i] == self.world.holes@[i as int].location);
            if !State::claim(
                &mut scratch,
                self.world.holes[i].location,
                Ghost(all.take(na + nt + i)),
            ) {
                proof {
                    lemma_claim_refused(self.world.grid@, all, na + nt + i);
                }
                return false;
            }
            assert(all.take(na + nt + i).push(all[na + nt + i]) =~= all.take(na + nt + i + 1));
            i += 1;
        }
        let mut i: usize = 0;
        while i < self.obstacles.len()
            invariant
                i <= self.obstacles@.len(),
                all == self.claims(),
                na == self.agents@.len(),
                nt == self.world.tiles@.len(),
                nh == self.world.holes@.len(),
                consistent(scratch@, all.take(na + nt + nh + i)),
            decreases self.obstacles@.len() - i,
        {
            assert(all[na + nt + nh + i] == self.obstacles@[i as int].location);
            if !State::claim(
                &mut scratch,
                self.obstacles[i].location,
                Ghost(all.take(na + nt + nh + i)),
            ) {
                proof {
                    lemma_claim_refused(self.world.grid@, all, na + nt + nh + i);
                }
                return false;
            }
            assert(all.take(na + nt + nh + i).push(all[na + nt + nh + i]) =~= all.take(
                na + nt + nh + i + 1,
            ));
            i += 1;
        }
        proof {
            assert(all.take(all.len() as int) =~= all);
            if consistent(self.world.grid@, all) {
                lemma_claims_fix_grid(scratch@, self.world.grid@, all);
            }
        }
        scratch.same_as(&self.world.grid)
    }

    /// Draws a free cell of `grid` and marks it.
    fn place(grid: &mut Grid, Ghost(claims): Ghost<Seq<Location>>) -> (location: Location)
        requires
            consistent(old(grid)@, claims),
            marked(old(grid)@) < COLS * ROWS,
        ensures
            consistent(final(grid)@, claims.push(location)),
            marked(final(grid)@) == marked(old(grid)@) + 1,
    {
        proof {
            lemma_room_left(grid@);
            let l = choose|l: Location| l.in_bounds() && !grid@[cell_index(l)];
            assert(grid.free(l));
        }
        let location = grid.random_location();
        proof {
            lemma_claim_added(grid@, claims, location);
        }
        grid.set(location);
        location
    }

    /// A new simulation on an empty grid: the agents, the tiles, the holes
    /// and the obstacles, as many of each as the constants of the crate say,
    /// each on a cell of its own that was drawn at random. The agents are
    /// numbered from 0, are after a tile and have no score; each tile has a
    /// score drawn from 1 to 4.
    pub fn new() -> (state: State)
        ensures
            state.wf(),
            state.scores_fit(),
            state.agents@.len() == NUM_AGENTS,
            state.world.tiles@.len() == NUM_TILES,
            state.world.holes@.len() == NUM_HOLES,
            state.obstacles@.len() == NUM_OBSTACLES,
            forall|k: int|
                0 <= k < NUM_AGENTS ==> (#[trigger] state.agents@[k]).id == k
                    && state.agents@[k].state == AgentState::MoveToTile && state.agents@[k].score
                    == 0,
    {
        let mut grid = Grid::new();
        let ghost mut claims: Seq<Location> = Seq::empty();
        proof {
            assert forall|l: Location| l.in_bounds() implies (grid@[cell_index(l)]
                <==> #[trigger] claims.contains(l)) by {
                assert(grid.free(l));
            }
        }
        let mut agents: Vec<Agent> = Vec::new();
        let mut i: u8 = 0;
        while i < NUM_AGENTS
            invariant
                i <= NUM_AGENTS,
                agents@.len() == i,
                consistent(grid@, claims),
                marked(grid@) == i,
                claims == agents@.map_values(|a: Agent| a.location),
                forall|k: int|
                    0 <= k < i ==> (#[trigger] agents@[k]).id == k && agents@[k].state
                        == AgentState::MoveToTile && agents@[k].score == 0,
            decreases NUM_AGENTS - i,
        {
            let location = State::place(&mut grid, Ghost(claims));
            let a = Agent::new(i, location);
            agents.push(a);
            proof {
                claims = claims.push(location);
                assert(claims =~= agents@.map_values(|a: Agent| a.location));
            }
            i += 1;
        }
        let ghost agent_claims = claims;
        let mut tiles: Vec<Tile> = Vec::new();
        let mut i: u8 = 0;
        while i < NUM_TILES
            invariant
                i <= NUM_TILES,
                tiles@.len() == i,
                consistent(grid@, claims),
                marked(grid@) == NUM_AGENTS + i,
                claims == agent_claims + tiles@.map_values(|t: Tile| t.location),
                forall|k: int| 0 <= k < i ==> 1 <= (#[trigger] tiles@[k]).score < 5,
            decreases NUM_TILES - i,
        {
            let location = State::place(&mut grid, Ghost(claims));
            let score = random_between(1, 5) as u8;
            let a = Tile::new(location, score);
            tiles.push(a);
            proof {
                claims = claims.push(location);
                assert(claims =~= agent_claims + tiles@.map_values(|t: Tile| t.location));
            }
            i += 1;
        }
        let ghost tile_claims = claims;
        let mut holes: Vec<Hole> = Vec::new();
        let mut i: u8 = 0;
        while i < NUM_HOLES
            invariant
                i <= NUM_HOLES,
                holes@.len() == i,
                consistent(grid@, claims),
                marked(grid@) == NUM_AGENTS + NUM_TILES + i,
                claims == tile_claims + holes@.map_values(|h: Hole| h.location),
            decreases NUM_HOLES - i,
        {
            let location = State::place(&mut grid, Ghost(claims));
            let a = Hole::new(location);
            holes.push(a);
            proof {
                claims = claims.push(location);
                assert(claims =~= tile_claims + holes@.map_values(|h: Hole| h.location));
            }
            i += 1;
        }
        let ghost hole_claims = claims;
        let mut obstacles: Vec<Obstacle> = Vec::new();
        let mut i: u8 = 0;
        while i < NUM_OBSTACLES
            invariant
                i <= NUM_OBSTACLES,
                obstacles@.len() == i,
                consistent(grid@, claims),
                marked(grid@) == NUM_AGENTS + NUM_TILES + NUM_HOLES + i,
                claims == hole_claims + obstacles@.map_values(|o: Obstacle| o.location),
            decreases NUM_OBSTACLES - i,
        {
            let location = State::place(&mut grid, Ghost(claims));
            let a = Obstacle::new(location);
            obstacles.push(a);
            proof {
                claims = claims.push(location);
                assert(claims =~= hole_claims + obstacles@.map_values(|o: Obstacle| o.location));
            }
            i += 1;
        }
        State { world: World { grid, tiles, holes }, agents, obstacles }
    }

    /// One tick of the simulation: every agent takes its turn, in the order
    /// of the list, each in the world as the one before it left it. What
    /// comes back says, agent by agent, what became of the turn.
    pub fn update(&mut self) -> (outcomes: Vec<Outcome>)
        requires
            old(self).wf(),
            old(self).scores_fit(),
        ensures
            final(self).wf(),
            final(self).obstacles@ == old(self).obstacles@,
            took_turns(
                old(self).agents@,
                old(self).world@,
                final(self).agents@,
                final(self).world@,
                outcomes@,
            ),
    {
        let ghost before = self.agents@;
        let mut outcomes: Vec<Outcome> = Vec::new();
        let ghost mut worlds: Seq<WorldView> = seq![self.world@];
        let mut i: usize = 0;
        while i < self.agents.len()
            invariant
                i <= self.agents@.len(),
                self.agents@.len() == before.len(),
                self.obstacles@ == old(self).obstacles@,
                self.wf(),
                forall|k: int| i <= k < before.len() ==> self.agents@[k] == #[trigger] before[k],
                forall|k: int|
                    0 <= k < before.len() ==> (#[trigger] before[k]).score <= u32::MAX - 4,
                worlds.len() == i + 1,
                outcomes@.len() == i,
                worlds[0] == old(self).world@,
                worlds[i as int] == self.world@,
                forall|k: int|
                    0 <= k < i ==> turn(
                        #[trigger] before[k],
                        worlds[k],
                        self.agents@[k],
                        worlds[k + 1],
                        outcomes@[k],
                    ),
            decreases self.agents@.len() - i,
        {
            let ghost now = self.agents@;
            let ghost w = self.world@;
            let mut agent = self.agents[i];
            proof {
                assert(before[i as int] == agent);
                assert(self.claims()[i as int] == agent.location);
                assert forall|j: int| 0 <= j < w.tiles.len() implies (
                #[trigger] w.tiles[j]).location.in_bounds() by {
                    assert(self.claims()[now.len() + j] == w.tiles[j].location);
                }
                assert forall|j: int| 0 <= j < w.holes.len() implies (
                #[trigger] w.holes[j]).location.in_bounds() by {
                    assert(self.claims()[now.len() + w.tiles.len() + j] == w.holes[j].location);
                }
            }
            let outcome = agent.update(&mut self.world);
            self.agents.set(i, agent);
            outcomes.push(outcome);
            proof {
                lemma_turn_keeps_order(
                    now,
                    w,
                    self.obstacles@,
                    i as int,
                    agent,
                    self.world@,
                    outcome,
                );
                worlds = worlds.push(self.world@);
            }
            i += 1;
        }
        proof {
            assert(took_turns(before, old(self).world@, self.agents@, self.world@, outcomes@)) by {
                assert(worlds.len() == before.len() + 1);
            }
        }
        outcomes
    }
}

} // verus!
