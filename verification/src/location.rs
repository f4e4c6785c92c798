//! Cells of the grid, the four directions, and movement between neighbours.

use vstd::prelude::*;

use crate::{COLS, ROWS};

verus! {

/// One of the four directions an agent can step in. There are no diagonals.
#[derive(Hash, PartialEq, Eq, Structural, Debug, Clone, Copy)]
pub enum Direction {
    Up,
    Down,
    Left,
    Right,
}

/// A cell, named by its column and its row.
///
/// Any pair of numbers is a `Location`; the cells of the grid are those for
/// which [`Location::in_bounds`] holds.
#[derive(Debug, PartialEq, Eq, Structural, Hash, Clone, Copy)]
pub struct Location {
    pub col: u16,
    pub row: u16,
}

/// What stands on a cell of the grid and can be moved to another.
pub trait Located {
    /// The cell on which this stands.
    spec fn place(&self) -> Location;

    fn location(&self) -> (location: Location)
        ensures
            location == self.place(),
    ;

    fn set_location(&mut self, location: Location)
        ensures
            final(self).place() == location,
    ;
}

/// Absolute difference of two coordinates.
pub open spec fn gap(a: int, b: int) -> int {
    if a > b {
        a - b
    } else {
        b - a
    }
}

impl Location {
    /// The cell lies on the grid.
    pub open spec fn in_bounds(self) -> bool {
        self.col < COLS && self.row < ROWS
    }

    /// A step from this cell in direction `d` neither leaves the top or left
    /// edge nor passes the last row or column.
    pub open spec fn can_step(self, d: Direction) -> bool {
        match d {
            Direction::Up => self.row > 0,
            Direction::Down => self.row < ROWS - 1,
            Direction::Left => self.col > 0,
            Direction::Right => self.col < COLS - 1,
        }
    }

    /// The cell one step away in direction `d`, or this cell where
    /// [`Location::can_step`] does not hold.
    pub open spec fn step(self, d: Direction) -> Location {
        if !self.can_step(d) {
            self
        } else {
            match d {
                Direction::Up => Location { col: self.col, row: (self.row - 1) as u16 },
                Direction::Down => Location { col: self.col, row: (self.row + 1) as u16 },
                Direction::Left => Location { col: (self.col - 1) as u16, row: self.row },
                Direction::Right => Location { col: (self.col + 1) as u16, row: self.row },
            }
        }
    }

    /// Manhattan distance between two cells.
    pub open spec fn manhattan(self, other: Location) -> int {
        gap(self.col as int, other.col as int) + gap(self.row as int, other.row as int)
    }

    pub fn new(c: u16, r: u16) -> (l: Location)
        ensures
            l.col == c,
            l.row == r,
    {
        Location { col: c, row: r }
    }

    /// The neighbour in direction `d`; at the edge of the grid the cell itself.
    pub fn next_location(&self, d: Direction) -> (next: Location)
        ensures
            next == self.step(d),
    {
        match d {
            Direction::Up => {
                if self.row > 0 {
                    Location::new(self.col, self.row - 1)
                } else {
                    *self
                }
            },
            Direction::Down => {
                if self.row < ROWS - 1 {
                    Location::new(self.col, self.row + 1)
                } else {
                    *self
                }
            },
            Direction::Left => {
                if self.col > 0 {
                    Location::new(self.col - 1, self.row)
                } else {
                    *self
                }
            },
            Direction::Right => {
                if self.col < COLS - 1 {
                    Location::new(self.col + 1, self.row)
                } else {
                    *self
                }
            },
        }
    }

    /// Whether a step in direction `d` stays on the grid.
    pub fn is_valid_move(&self, d: Direction) -> (valid: bool)
        ensures
            valid == self.can_step(d),
    {
        match d {
            Direction::Up => self.row > 0,
            Direction::Down => self.row < ROWS - 1,
            Direction::Left => self.col > 0,
            Direction::Right => self.col < COLS - 1,
        }
    }

    /// Manhattan distance to `other`.
    pub fn distance(&self, other: Location) -> (dist: u16)
        requires
            self.manhattan(other) <= u16::MAX,
        ensures
            dist == self.manhattan(other),
    {
        let col_diff = if self.col > other.col {
            self.col - other.col
        } else {
            other.col - self.col
        };
        let row_diff = if self.row > other.row {
            self.row - other.row
        } else {
            other.row - self.row
        };
        col_diff + row_diff
    }
}

/// The `i`-th of `list` is the nearest to `our`: none is nearer, and those
/// before it are further away.
pub open spec fn is_closest<T: Located>(our: Location, list: Seq<T>, i: int) -> bool {
    &&& 0 <= i < list.len()
    &&& forall|j: int|
        0 <= j < list.len() ==> our.manhattan(list[i].place()) <= our.manhattan(
            #[trigger] list[j].place(),
        )
    &&& forall|j: int|
        0 <= j < i ==> our.manhattan(list[i].place()) < our.manhattan(#[trigger] list[j].place())
}

/// The index of the entry of `list` that is nearest to `our` by Manhattan
/// distance; of several at the same distance, the first. `None` for an empty
/// list.
pub fn closest<T: Located>(our: Location, list: &Vec<T>) -> (found: Option<usize>)
    requires
        forall|j: int|
            0 <= j < list@.len() ==> our.manhattan(#[trigger] list@[j].place()) <= u16::MAX,
    ensures
        match found {
            Some(i) => is_closest(our, list@, i as int),
            None => list@.len() == 0,
        },
{
    let mut closest: Option<usize> = None;
    let mut closest_distance: u16 = u16::MAX;
    let mut i: usize = 0;
    while i < list.len()
        invariant
            i <= list@.len(),
            forall|j: int|
                0 <= j < list@.len() ==> our.manhattan(#[trigger] list@[j].place()) <= u16::MAX,
            match closest {
                Some(c) => c < i && closest_distance == our.manhattan(list@[c as int].place())
                    && is_closest(our, list@.take(i as int), c as int),
                None => i == 0,
            },
        decreases list@.len() - i,
    {
        let loc = list[i].location();
        let dist = our.distance(loc);
        if closest.is_none() || dist < closest_distance {
            closest_distance = dist;
            closest = Some(i);
        }
        i += 1;
    }
    assert(list@.take(i as int) =~= list@);
    closest
}

/// Of two entries that are equally near, the one that stands first in the
/// list is the nearest.
pub proof fn lemma_first_of_equals<T: Located>(our: Location, list: Seq<T>, i: int, j: int)
    requires
        is_closest(our, list, i),
        0 <= j < list.len(),
        our.manhattan(list[j].place()) == our.manhattan(list[i].place()),
    ensures
        i <= j,
{
}

/// On the grid, a step can be taken exactly when the cell it would lead to by
/// plain arithmetic is on the grid too; the step then lands on that cell, one
/// away from where it started.
pub proof fn lemma_step_on_grid(l: Location, d: Direction)
    requires
        l.in_bounds(),
    ensures
        l.step(d).in_bounds(),
        l.can_step(d) <==> l.step(d) != l,
        l.can_step(d) ==> l.manhattan(l.step(d)) == 1,
        l.can_step(d) <==> match d {
            Direction::Up => 0 <= l.row - 1,
            Direction::Down => l.row + 1 < ROWS,
            Direction::Left => 0 <= l.col - 1,
            Direction::Right => l.col + 1 < COLS,
        },
{
}

} // verus!
