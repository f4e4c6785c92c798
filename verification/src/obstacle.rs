//! Obstacles: cells that stay taken.

use vstd::prelude::*;

use crate::location::Location;

verus! {

/// An obstacle takes its cell and never moves.
#[derive(Debug, Clone, Copy)]
pub struct Obstacle {
    pub location: Location,
}

impl Obstacle {
    pub fn new(location: Location) -> (obstacle: Obstacle)
        ensures
            obstacle.location == location,
    {
        Self { location }
    }
}

} // verus!
