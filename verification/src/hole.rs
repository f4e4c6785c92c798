//! Holes: where the agents bring the tiles.

use vstd::prelude::*;

use crate::location::{Located, Location};

verus! {

/// A hole lies on a cell.
#[derive(Debug, Clone, Copy)]
pub struct Hole {
    pub location: Location,
}

impl Located for Hole {
    open spec fn place(&self) -> Location {
        self.location
    }

    fn location(&self) -> (location: Location) {
        self.location
    }

    fn set_location(&mut self, new: Location) {
        self.location = new;
    }
}

impl Hole {
    pub fn new(location: Location) -> (hole: Hole)
        ensures
            hole.location == location,
    {
        Self { location }
    }
}

} // verus!
