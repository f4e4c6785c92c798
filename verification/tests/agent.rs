use tileworld::agent::{Agent, AgentState, Outcome, World};
use tileworld::grid::Grid;
use tileworld::hole::Hole;
use tileworld::location::Location;
use tileworld::tile::Tile;

fn world(agent: &Agent, tiles: Vec<Tile>, holes: Vec<Hole>) -> World {
    let mut grid = Grid::new();
    grid.set(agent.location);
    for t in &tiles {
        grid.set(t.location);
    }
    for h in &holes {
        grid.set(h.location);
    }
    World { grid, tiles, holes }
}

#[test]
fn a_new_agent_is_after_a_tile() {
    let agent = Agent::new(3, Location::new(4, 5));
    assert_eq!(agent.id, 3);
    assert_eq!(agent.location, Location::new(4, 5));
    assert_eq!(agent.state, AgentState::MoveToTile);
    assert_eq!(agent.score, 0);
    assert_eq!(agent.tile_score(), None);
}

#[test]
fn tile_score_is_what_the_agent_carries() {
    let mut agent = Agent::new(0, Location::new(0, 0));
    agent.state = AgentState::MoveToHole { carried: 3 };
    assert_eq!(agent.tile_score(), Some(3));
}

#[test]
fn move_to_takes_one_step() {
    let mut agent = Agent::new(0, Location::new(5, 5));
    let mut grid = Grid::new();
    grid.set(agent.location);
    let to = Location::new(5, 9);
    grid.set(to);
    let arrived = agent.move_to(&mut grid, to);
    assert!(!arrived);
    assert_eq!(agent.location, Location::new(5, 6));
    assert!(grid.is_free(Location::new(5, 5)));
    assert!(!grid.is_free(Location::new(5, 6)));
    assert!(!grid.is_free(to));
    assert_eq!(grid.count(), 2);
    assert_eq!(agent.state, AgentState::MoveToTile);
    assert_eq!(agent.score, 0);
}

#[test]
fn move_to_arrives_on_the_last_step() {
    let mut agent = Agent::new(0, Location::new(5, 5));
    let mut grid = Grid::new();
    grid.set(agent.location);
    let to = Location::new(4, 5);
    grid.set(to);
    assert!(agent.move_to(&mut grid, to));
    assert_eq!(agent.location, to);
    assert!(grid.is_free(Location::new(5, 5)));
    assert!(!grid.is_free(to));
    assert_eq!(grid.count(), 1);
}

#[test]
fn move_to_gets_nearer_with_every_step() {
    let mut agent = Agent::new(0, Location::new(30, 2));
    let mut grid = Grid::new();
    grid.set(agent.location);
    let to = Location::new(3, 20);
    let mut left = agent.location.distance(to);
    assert_eq!(left, 45);
    while left > 0 {
        let arrived = agent.move_to(&mut grid, to);
        assert_eq!(agent.location.distance(to), left - 1);
        left -= 1;
        assert_eq!(arrived, left == 0);
        assert_eq!(grid.count(), 1);
        assert!(!grid.is_free(agent.location));
    }
    assert_eq!(agent.location, to);
}

#[test]
fn move_to_stays_where_no_path_leads() {
    let mut agent = Agent::new(0, Location::new(0, 0));
    let mut grid = Grid::new();
    grid.set(agent.location);
    grid.set(Location::new(1, 0));
    grid.set(Location::new(0, 1));
    let before = grid.picture();
    assert!(!agent.move_to(&mut grid, Location::new(9, 9)));
    assert_eq!(agent.location, Location::new(0, 0));
    assert_eq!(grid.picture(), before);
    assert!(!agent.move_to(&mut grid, Location::new(100, 100)));
    assert_eq!(agent.location, Location::new(0, 0));
    assert_eq!(grid.picture(), before);
}

#[test]
fn move_to_stays_on_the_destination() {
    let mut agent = Agent::new(0, Location::new(8, 8));
    let mut grid = Grid::new();
    grid.set(agent.location);
    assert!(!agent.move_to(&mut grid, Location::new(8, 8)));
    assert_eq!(agent.location, Location::new(8, 8));
    assert!(!grid.is_free(Location::new(8, 8)));
    assert_eq!(grid.count(), 1);
}

#[test]
fn collect_takes_the_score_and_moves_the_tile() {
    let mut agent = Agent::new(2, Location::new(3, 3));
    agent.score = 10;
    let mut tile = Tile::new(Location::new(3, 3), 4);
    agent.collect(&mut tile, Location::new(20, 21), 2);
    assert_eq!(agent.state, AgentState::MoveToHole { carried: 4 });
    assert_eq!(agent.tile_score(), Some(4));
    assert_eq!(agent.score, 10);
    assert_eq!(agent.location, Location::new(3, 3));
    assert_eq!(agent.id, 2);
    assert_eq!(tile.location, Location::new(20, 21));
    assert_eq!(tile.score, 2);
}

#[test]
fn deliver_adds_the_score_and_moves_the_hole() {
    let mut agent = Agent::new(2, Location::new(3, 3));
    agent.score = 10;
    agent.state = AgentState::MoveToHole { carried: 4 };
    let mut hole = Hole::new(Location::new(3, 3));
    agent.deliver(&mut hole, Location::new(1, 38));
    assert_eq!(agent.state, AgentState::MoveToTile);
    assert_eq!(agent.tile_score(), None);
    assert_eq!(agent.score, 14);
    assert_eq!(agent.location, Location::new(3, 3));
    assert_eq!(hole.location, Location::new(1, 38));
}

#[test]
fn update_without_a_target_does_nothing() {
    let mut agent = Agent::new(0, Location::new(5, 5));
    let mut w = world(&agent, Vec::new(), vec![Hole::new(Location::new(5, 6))]);
    let before = w.grid.picture();
    assert_eq!(agent.update(&mut w), Outcome::NoTarget);
    assert_eq!(agent.location, Location::new(5, 5));
    assert_eq!(agent.state, AgentState::MoveToTile);
    assert_eq!(w.grid.picture(), before);
    assert_eq!(w.holes[0].location, Location::new(5, 6));

    let mut carrier = Agent::new(1, Location::new(5, 5));
    carrier.state = AgentState::MoveToHole { carried: 2 };
    let mut w = world(&carrier, vec![Tile::new(Location::new(5, 6), 1)], Vec::new());
    let before = w.grid.picture();
    assert_eq!(carrier.update(&mut w), Outcome::NoTarget);
    assert_eq!(carrier.location, Location::new(5, 5));
    assert_eq!(carrier.state, AgentState::MoveToHole { carried: 2 });
    assert_eq!(carrier.score, 0);
    assert_eq!(w.grid.picture(), before);
}

#[test]
fn update_goes_for_the_nearest_tile() {
    let mut agent = Agent::new(0, Location::new(10, 10));
    let tiles = vec![
        Tile::new(Location::new(10, 30), 1),
        Tile::new(Location::new(14, 10), 2),
        Tile::new(Location::new(10, 2), 3),
    ];
    let mut w = world(&agent, tiles, vec![Hole::new(Location::new(10, 11))]);
    assert_eq!(agent.update(&mut w), Outcome::Moved);
    assert_eq!(agent.location, Location::new(11, 10));
    assert_eq!(agent.state, AgentState::MoveToTile);
    assert!(w.grid.is_free(Location::new(10, 10)));
    assert!(!w.grid.is_free(Location::new(11, 10)));
    assert_eq!(w.grid.count(), 5);
    assert_eq!(w.tiles[1].location, Location::new(14, 10));
    assert_eq!(w.tiles[1].score, 2);
}

#[test]
fn update_goes_for_the_first_of_two_tiles_equally_near() {
    let mut agent = Agent::new(0, Location::new(10, 10));
    let tiles = vec![Tile::new(Location::new(10, 13), 1), Tile::new(Location::new(10, 7), 2)];
    let mut w = world(&agent, tiles, Vec::new());
    agent.update(&mut w);
    assert_eq!(agent.location, Location::new(10, 11));

    let mut agent = Agent::new(0, Location::new(10, 10));
    let tiles = vec![Tile::new(Location::new(10, 7), 2), Tile::new(Location::new(10, 13), 1)];
    let mut w = world(&agent, tiles, Vec::new());
    agent.update(&mut w);
    assert_eq!(agent.location, Location::new(10, 9));
}

#[test]
fn a_carrying_agent_goes_for_the_nearest_hole() {
    let mut agent = Agent::new(0, Location::new(10, 10));
    agent.state = AgentState::MoveToHole { carried: 3 };
    let tiles = vec![Tile::new(Location::new(10, 11), 1)];
    let holes = vec![Hole::new(Location::new(30, 10)), Hole::new(Location::new(6, 10))];
    let mut w = world(&agent, tiles, holes);
    agent.update(&mut w);
    assert_eq!(agent.location, Location::new(9, 10));
    assert_eq!(agent.state, AgentState::MoveToHole { carried: 3 });
    assert_eq!(agent.score, 0);
}

#[test]
fn on_arrival_the_agent_carries_the_score_and_the_tile_moves() {
    for _ in 0..50 {
        let mut agent = Agent::new(0, Location::new(10, 10));
        let target = Location::new(10, 11);
        let mut w = world(&agent, vec![Tile::new(target, 4)], vec![Hole::new(Location::new(0, 0))]);
        assert_eq!(agent.update(&mut w), Outcome::Arrived);
        assert_eq!(agent.location, target);
        assert_eq!(agent.state, AgentState::MoveToHole { carried: 4 });
        assert_eq!(agent.score, 0);
        let tile = w.tiles[0];
        assert_ne!(tile.location, target);
        assert_ne!(tile.location, Location::new(0, 0));
        assert!(tile.location.col < 40 && tile.location.row < 40);
        assert!(!w.grid.is_free(tile.location));
        assert!(1 <= tile.score && tile.score < 5);
        // the agent, the tile and the hole hold one cell each; the cell that the agent left is free
        assert!(!w.grid.is_free(target));
        assert_eq!(w.grid.count(), 3);
        assert_eq!(w.grid.is_free(Location::new(10, 10)), tile.location != Location::new(10, 10));
        assert_eq!(w.holes[0].location, Location::new(0, 0));
    }
}

#[test]
fn on_arrival_at_the_hole_the_score_grows_and_the_hole_moves() {
    for _ in 0..50 {
        let mut agent = Agent::new(0, Location::new(10, 10));
        agent.state = AgentState::MoveToHole { carried: 3 };
        agent.score = 7;
        let target = Location::new(9, 10);
        let mut w = world(&agent, vec![Tile::new(Location::new(0, 0), 2)], vec![Hole::new(target)]);
        assert_eq!(agent.update(&mut w), Outcome::Arrived);
        assert_eq!(agent.location, target);
        assert_eq!(agent.state, AgentState::MoveToTile);
        assert_eq!(agent.tile_score(), None);
        assert_eq!(agent.score, 10);
        let hole = w.holes[0];
        assert_ne!(hole.location, target);
        assert_ne!(hole.location, Location::new(0, 0));
        assert!(!w.grid.is_free(hole.location));
        assert!(!w.grid.is_free(target));
        assert_eq!(w.grid.count(), 3);
        assert_eq!(w.tiles[0].location, Location::new(0, 0));
        assert_eq!(w.tiles[0].score, 2);
    }
}

#[test]
fn new_tile_scores_cover_one_to_four() {
    let mut seen = [false; 6];
    for _ in 0..400 {
        let mut agent = Agent::new(0, Location::new(10, 10));
        let mut w = world(&agent, vec![Tile::new(Location::new(10, 11), 4)], Vec::new());
        agent.update(&mut w);
        seen[w.tiles[0].score as usize] = true;
    }
    assert_eq!(seen, [false, true, true, true, true, false]);
}

#[test]
fn an_agent_fetches_a_tile_and_brings_it_to_a_hole() {
    let start = Location::new(0, 0);
    let tile_at = Location::new(2, 1);
    let hole_at = Location::new(4, 4);
    assert_eq!(start.distance(tile_at), 3);
    assert_eq!(tile_at.distance(hole_at), 5);
    let mut agent = Agent::new(0, start);
    let mut w = world(&agent, vec![Tile::new(tile_at, 3)], vec![Hole::new(hole_at)]);

    for tick in 1..=3 {
        let outcome = agent.update(&mut w);
        assert_eq!(outcome, if tick == 3 { Outcome::Arrived } else { Outcome::Moved });
        assert_eq!(agent.location.distance(tile_at), 3 - tick);
    }
    assert_eq!(agent.location, tile_at);
    assert_eq!(agent.state, AgentState::MoveToHole { carried: 3 });
    assert_eq!(agent.score, 0);
    let new_tile = w.tiles[0];
    assert_ne!(new_tile.location, tile_at);
    assert!(!w.grid.is_free(new_tile.location));

    // five more steps, unless the tile has turned up in the way
    let in_the_way = (2..=4).contains(&new_tile.location.col) && (1..=4).contains(&new_tile.location.row);
    let mut ticks = 0;
    while agent.state != AgentState::MoveToTile {
        agent.update(&mut w);
        ticks += 1;
        assert!(ticks <= 9);
    }
    assert!(ticks >= 5);
    if !in_the_way {
        assert_eq!(ticks, 5);
    }
    assert_eq!(agent.location, hole_at);
    assert_eq!(agent.score, 3);
    assert_eq!(agent.tile_score(), None);
    assert_ne!(w.holes[0].location, hole_at);
    assert!(!w.grid.is_free(w.holes[0].location));
    assert_eq!(w.tiles[0].location, new_tile.location);
    assert_eq!(w.tiles[0].score, new_tile.score);
    assert_eq!(w.grid.count(), 3);
}

#[test]
fn a_turn_without_a_path_is_reported() {
    let mut agent = Agent::new(0, Location::new(0, 0));
    let mut w = world(&agent, vec![Tile::new(Location::new(9, 9), 2)], Vec::new());
    w.grid.set(Location::new(1, 0));
    w.grid.set(Location::new(0, 1));
    let before = w.grid.picture();
    assert_eq!(agent.update(&mut w), Outcome::NoPath);
    assert_eq!(agent.location, Location::new(0, 0));
    assert_eq!(agent.state, AgentState::MoveToTile);
    assert_eq!(w.grid.picture(), before);
    assert_eq!(w.tiles[0].location, Location::new(9, 9));
    assert_eq!(w.tiles[0].score, 2);
}

#[test]
fn a_turn_on_the_target_is_reported() {
    let mut agent = Agent::new(0, Location::new(6, 6));
    let mut w = world(&agent, vec![Tile::new(Location::new(6, 6), 2)], Vec::new());
    assert_eq!(agent.update(&mut w), Outcome::EmptyPath);
    assert_eq!(agent.location, Location::new(6, 6));
    assert_eq!(agent.state, AgentState::MoveToTile);
    assert_eq!(w.tiles[0].location, Location::new(6, 6));
    assert_eq!(w.grid.count(), 1);
}
