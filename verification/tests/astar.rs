use tileworld::astar::astar;
use tileworld::grid::Grid;
use tileworld::location::{Direction, Location};

#[test]
fn test_path() {
    let grid = Grid::new();
    let from = Location::new(0, 0);
    let to = Location::new(1, 1);
    let path = astar(&grid, from, to);
    let p = path.unwrap();
    assert_eq!(p.len(), 2);
    assert_eq!(p[0], Direction::Down);
    assert_eq!(p[1], Direction::Right);
}

#[test]
fn test_path2() {
    let grid = Grid::new();
    let from = Location::new(0, 0);
    let to = Location::new(0, 1);
    let path = astar(&grid, from, to);
    let p = path.unwrap();
    assert_eq!(p.len(), 1);
    assert_eq!(p[0], Direction::Down);
}

#[test]
fn test_path3() {
    let grid = Grid::new();
    let from = Location::new(0, 0);
    let to = Location::new(2, 2);
    let path = astar(&grid, from, to);
    let p = path.unwrap();
    assert_eq!(p.len(), 4);
    assert_eq!(p[0], Direction::Down);
    assert_eq!(p[1], Direction::Right);
    assert_eq!(p[2], Direction::Right);
    assert_eq!(p[3], Direction::Down);
}

#[test]
fn test_big_grid() {
    let grid = Grid::new();
    let from = Location::new(0, 0);
    let to = Location::new(9, 9);
    let path = astar(&grid, from, to);
    assert!(path.is_some());
    let p = path.unwrap();
    assert_eq!(p.len(), 18);
}

#[test]
fn test_can_not_reach() {
    let grid = Grid::new();
    let from = Location::new(0, 0);
    let to = Location::new(100, 100); // these are outside of the grid, no way to find a path
    let path = astar(&grid, from, to);
    assert!(path.is_none());
}

fn follow(from: Location, path: &[Direction]) -> Location {
    let mut at = from;
    for d in path {
        assert!(at.is_valid_move(*d));
        at = at.next_location(*d);
    }
    at
}

fn assert_route(grid: &Grid, from: Location, to: Location, path: &[Direction]) {
    let mut at = from;
    for d in path {
        assert!(at.is_valid_move(*d));
        at = at.next_location(*d);
        assert!(at == to || grid.is_free(at));
    }
    assert_eq!(at, to);
}

#[test]
fn test_path_obstacle() {
    let mut grid = Grid::new();
    let from = Location::new(0, 0);
    let to = Location::new(1, 1);
    grid.set(Location::new(1, 0));
    let p = astar(&grid, from, to).unwrap();
    assert_eq!(p.len(), 2);
    assert_eq!(p[0], Direction::Down);
    assert_eq!(p[1], Direction::Right);
}

#[test]
fn the_path_to_the_start_is_empty() {
    let mut grid = Grid::new();
    let at = Location::new(7, 7);
    assert_eq!(astar(&grid, at, at), Some(Vec::new()));
    grid.set(at);
    assert_eq!(astar(&grid, at, at), Some(Vec::new()));
}

#[test]
fn on_an_empty_grid_the_path_is_as_long_as_the_distance() {
    let grid = Grid::new();
    let cells = [
        Location::new(0, 0),
        Location::new(39, 39),
        Location::new(0, 39),
        Location::new(39, 0),
        Location::new(20, 20),
        Location::new(3, 17),
        Location::new(17, 3),
        Location::new(12, 12),
    ];
    for from in cells {
        for to in cells {
            let p = astar(&grid, from, to).unwrap();
            assert_eq!(p.len(), from.distance(to) as usize);
            assert_eq!(follow(from, &p), to);
        }
    }
}

#[test]
fn no_path_leads_off_the_grid() {
    let grid = Grid::new();
    let from = Location::new(39, 39);
    assert!(astar(&grid, from, Location::new(40, 39)).is_none());
    assert!(astar(&grid, from, Location::new(39, 40)).is_none());
    assert!(astar(&grid, from, Location::new(40, 40)).is_none());
    assert!(astar(&grid, from, Location::new(65535, 65535)).is_none());
    assert!(astar(&grid, Location::new(0, 0), Location::new(65535, 0)).is_none());
}

#[test]
fn a_taken_destination_is_reached_all_the_same() {
    let mut grid = Grid::new();
    let from = Location::new(2, 2);
    let to = Location::new(6, 4);
    grid.set(from);
    grid.set(to);
    let p = astar(&grid, from, to).unwrap();
    assert_eq!(p.len(), 6);
    assert_route(&grid, from, to, &p);
}

#[test]
fn the_path_goes_round_a_wall() {
    let mut grid = Grid::new();
    // a wall in column 5 from row 0 to row 10, open below
    for row in 0..=10 {
        grid.set(Location::new(5, row));
    }
    let from = Location::new(3, 0);
    let to = Location::new(7, 0);
    let p = astar(&grid, from, to).unwrap();
    // down to row 11, across, and up again
    assert_eq!(p.len(), 4 + 2 * 11);
    assert_route(&grid, from, to, &p);
}

#[test]
fn the_path_takes_the_gap_in_a_wall() {
    let mut grid = Grid::new();
    for row in 0..40 {
        if row != 30 {
            grid.set(Location::new(20, row));
        }
    }
    let from = Location::new(19, 0);
    let to = Location::new(21, 0);
    let p = astar(&grid, from, to).unwrap();
    assert_eq!(p.len(), 2 + 2 * 30);
    assert_route(&grid, from, to, &p);
    assert!(p.len() > from.distance(to) as usize);
}

#[test]
fn a_closed_wall_leaves_no_path() {
    let mut grid = Grid::new();
    for row in 0..40 {
        grid.set(Location::new(20, row));
    }
    assert!(astar(&grid, Location::new(19, 5), Location::new(21, 5)).is_none());
    assert!(astar(&grid, Location::new(21, 5), Location::new(0, 0)).is_none());
    // the wall itself can be reached, as a destination
    let p = astar(&grid, Location::new(19, 5), Location::new(20, 7)).unwrap();
    assert_eq!(p.len(), 3);
}

#[test]
fn a_walled_in_destination_is_not_reached() {
    let mut grid = Grid::new();
    let to = Location::new(5, 5);
    grid.set(to);
    grid.set(Location::new(4, 5));
    grid.set(Location::new(6, 5));
    grid.set(Location::new(5, 4));
    grid.set(Location::new(5, 6));
    assert!(astar(&grid, Location::new(0, 0), to).is_none());
    grid.remove(Location::new(5, 6));
    let p = astar(&grid, Location::new(0, 0), to).unwrap();
    assert_eq!(p.len(), 12);
    assert_route(&grid, Location::new(0, 0), to, &p);
}

#[test]
fn a_walled_in_start_leads_nowhere() {
    let mut grid = Grid::new();
    grid.set(Location::new(1, 0));
    grid.set(Location::new(0, 1));
    assert!(astar(&grid, Location::new(0, 0), Location::new(5, 5)).is_none());
    assert_eq!(astar(&grid, Location::new(0, 0), Location::new(1, 0)), Some(vec![Direction::Right]));
}

#[test]
fn the_path_through_a_maze_is_shortest() {
    let mut grid = Grid::new();
    // two walls with gaps at opposite ends
    for row in 0..39 {
        grid.set(Location::new(10, row));
    }
    for row in 1..40 {
        grid.set(Location::new(12, row));
    }
    let from = Location::new(9, 0);
    let to = Location::new(13, 39);
    let p = astar(&grid, from, to).unwrap();
    assert_route(&grid, from, to, &p);
    // down to the gap in row 39, two to the right, up to row 0, over, down again
    assert_eq!(p.len(), 39 + 2 + 39 + 2 + 39);
}

#[test]
fn planning_leaves_the_grid_alone() {
    let mut grid = Grid::new();
    grid.set(Location::new(4, 4));
    let before = grid.picture();
    astar(&grid, Location::new(0, 0), Location::new(9, 9));
    assert_eq!(grid.picture(), before);
}
