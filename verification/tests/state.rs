use tileworld::agent::{Agent, AgentState, Outcome, World};
use tileworld::grid::Grid;
use tileworld::hole::Hole;
use tileworld::location::Location;
use tileworld::obstacle::Obstacle;
use tileworld::state::State;
use tileworld::tile::Tile;
use tileworld::{COLS, NUM_AGENTS, NUM_HOLES, NUM_OBSTACLES, NUM_TILES, ROWS};

fn claims(state: &State) -> Vec<Location> {
    let mut cells = Vec::new();
    cells.extend(state.agents.iter().map(|a| a.location));
    cells.extend(state.world.tiles.iter().map(|t| t.location));
    cells.extend(state.world.holes.iter().map(|h| h.location));
    cells.extend(state.obstacles.iter().map(|o| o.location));
    cells
}

fn assert_in_order(state: &State) {
    assert!(state.in_order());
    let cells = claims(state);
    assert_eq!(cells.len(), 66);
    for (i, l) in cells.iter().enumerate() {
        assert!(l.col < COLS && l.row < ROWS);
        assert!(!state.world.grid.is_free(*l));
        for other in &cells[..i] {
            assert_ne!(l, other);
        }
    }
    assert_eq!(state.world.grid.count(), cells.len());
    for t in &state.world.tiles {
        assert!(1 <= t.score && t.score < 5);
    }
    for a in &state.agents {
        if let AgentState::MoveToHole { carried } = a.state {
            assert!(1 <= carried && carried < 5);
        }
    }
}

#[test]
fn the_numbers_of_a_new_simulation() {
    assert_eq!((COLS, ROWS), (40, 40));
    assert_eq!((NUM_AGENTS, NUM_TILES, NUM_HOLES, NUM_OBSTACLES), (6, 20, 20, 20));
}

#[test]
fn a_new_state_is_in_order() {
    for _ in 0..20 {
        let state = State::new();
        assert_eq!(state.agents.len(), 6);
        assert_eq!(state.world.tiles.len(), 20);
        assert_eq!(state.world.holes.len(), 20);
        assert_eq!(state.obstacles.len(), 20);
        for (i, a) in state.agents.iter().enumerate() {
            assert_eq!(a.id as usize, i);
            assert_eq!(a.state, AgentState::MoveToTile);
            assert_eq!(a.score, 0);
            assert_eq!(a.tile_score(), None);
        }
        assert_in_order(&state);
    }
}

#[test]
fn new_states_differ() {
    let first = claims(&State::new());
    let mut other = false;
    for _ in 0..5 {
        if claims(&State::new()) != first {
            other = true;
        }
    }
    assert!(other);
}

#[test]
fn every_tick_keeps_the_state_in_order() {
    let mut state = State::new();
    let obstacles: Vec<Location> = state.obstacles.iter().map(|o| o.location).collect();
    for _ in 0..300 {
        let before: Vec<_> = state.agents.iter().map(|a| (a.location, a.score, a.state)).collect();
        let outcomes = state.update();
        assert_eq!(outcomes.len(), 6);
        assert_in_order(&state);
        for ((a, (location, score, was)), outcome) in state.agents.iter().zip(before).zip(outcomes) {
            assert!(a.location.distance(location) <= 1);
            assert!(a.score >= score);
            assert_eq!(a.location != location, outcome == Outcome::Moved || outcome == Outcome::Arrived);
            assert_eq!(a.state != was, outcome == Outcome::Arrived);
            assert_ne!(outcome, Outcome::NoTarget);
            match (was, a.state) {
                (AgentState::MoveToHole { carried }, AgentState::MoveToTile) => {
                    assert_eq!(a.score, score + carried as u32);
                    assert_eq!(a.location.distance(location), 1);
                }
                (AgentState::MoveToTile, AgentState::MoveToHole { .. }) => {
                    assert_eq!(a.score, score);
                    assert_eq!(a.location.distance(location), 1);
                }
                _ => {
                    assert_eq!(a.state, was);
                    assert_eq!(a.score, score);
                }
            }
        }
        let now: Vec<Location> = state.obstacles.iter().map(|o| o.location).collect();
        assert_eq!(now, obstacles);
    }
    // in three hundred ticks on a grid of forty by forty, tiles have been brought in
    assert!(state.agents.iter().map(|a| a.score).sum::<u32>() > 0);
}

fn small_state(agents: Vec<Agent>, tiles: Vec<Tile>, holes: Vec<Hole>, obstacles: Vec<Obstacle>) -> State {
    let mut grid = Grid::new();
    for a in &agents {
        grid.set(a.location);
    }
    for t in &tiles {
        grid.set(t.location);
    }
    for h in &holes {
        grid.set(h.location);
    }
    for o in &obstacles {
        grid.set(o.location);
    }
    State { world: World { grid, tiles, holes }, agents, obstacles }
}

#[test]
fn agents_take_their_turns_in_order() {
    // two agents next to one tile: the first in the list gets it, and the
    // second goes for the tile where it has turned up again
    for _ in 0..20 {
        let mut state = small_state(
            vec![Agent::new(0, Location::new(5, 4)), Agent::new(1, Location::new(5, 6))],
            vec![Tile::new(Location::new(5, 5), 2)],
            vec![Hole::new(Location::new(30, 30))],
            Vec::new(),
        );
        assert!(state.in_order());
        let outcomes = state.update();
        assert_eq!(outcomes[0], Outcome::Arrived);
        assert_eq!(state.agents[0].location, Location::new(5, 5));
        assert_eq!(state.agents[0].state, AgentState::MoveToHole { carried: 2 });
        let tile = state.world.tiles[0];
        assert_ne!(tile.location, Location::new(5, 5));
        // the second agent found the tile gone: it has not picked up the one
        // that the first carries
        let second = state.agents[1];
        assert_ne!(second.location, Location::new(5, 5));
        match outcomes[1] {
            Outcome::Moved => {
                assert_eq!(second.state, AgentState::MoveToTile);
                assert_eq!(second.location.distance(Location::new(5, 6)), 1);
                // nearer by a step, unless the first agent stands in the way
                if tile.location.col != 5 || tile.location.row > 6 {
                    assert_eq!(
                        second.location.distance(tile.location) + 1,
                        Location::new(5, 6).distance(tile.location)
                    );
                }
            }
            // the tile had turned up next to the second agent
            Outcome::Arrived => assert_ne!(second.state, AgentState::MoveToTile),
            other => panic!("the second agent did not move: {:?}", other),
        }
        assert!(state.in_order());
    }
}

#[test]
fn an_obstacle_is_gone_round() {
    let mut state = small_state(
        vec![Agent::new(0, Location::new(0, 0))],
        vec![Tile::new(Location::new(2, 0), 1)],
        vec![Hole::new(Location::new(20, 20))],
        vec![Obstacle::new(Location::new(1, 0))],
    );
    assert!(state.in_order());
    assert_eq!(state.update(), vec![Outcome::Moved]);
    assert_eq!(state.agents[0].location, Location::new(0, 1));
    assert_eq!(state.update(), vec![Outcome::Moved]);
    assert_eq!(state.agents[0].location, Location::new(1, 1));
    assert_eq!(state.update(), vec![Outcome::Moved]);
    assert_eq!(state.agents[0].location, Location::new(2, 1));
    assert_eq!(state.update(), vec![Outcome::Arrived]);
    assert_eq!(state.agents[0].location, Location::new(2, 0));
    assert_eq!(state.agents[0].tile_score(), Some(1));
    assert_eq!(state.obstacles[0].location, Location::new(1, 0));
    assert!(state.in_order());
}

#[test]
fn in_order_sees_what_is_wrong() {
    let good = || {
        small_state(
            vec![Agent::new(0, Location::new(1, 1))],
            vec![Tile::new(Location::new(2, 2), 1)],
            vec![Hole::new(Location::new(3, 3))],
            vec![Obstacle::new(Location::new(4, 4))],
        )
    };
    assert!(good().in_order());

    // a cell that is taken and that nothing claims
    let mut state = good();
    state.world.grid.set(Location::new(9, 9));
    assert!(!state.in_order());

    // a claim on a cell that is free
    let mut state = good();
    state.world.grid.remove(Location::new(4, 4));
    assert!(!state.in_order());

    // two on one cell
    let mut state = good();
    state.world.holes[0].location = Location::new(1, 1);
    state.world.grid.remove(Location::new(3, 3));
    assert!(!state.in_order());

    // off the grid
    let mut state = good();
    state.agents[0].location = Location::new(40, 1);
    state.world.grid.remove(Location::new(1, 1));
    assert!(!state.in_order());

    // scores out of range
    let mut state = good();
    state.world.tiles[0].score = 5;
    assert!(!state.in_order());
    let mut state = good();
    state.world.tiles[0].score = 0;
    assert!(!state.in_order());
    let mut state = good();
    state.agents[0].state = AgentState::MoveToHole { carried: 0 };
    assert!(!state.in_order());
    let mut state = good();
    state.agents[0].state = AgentState::MoveToHole { carried: 4 };
    assert!(state.in_order());
}
