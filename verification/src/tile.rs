//! Tiles: what the agents fetch.

use vstd::prelude::*;

use crate::location::{Located, Location};

verus! {

/// A tile lies on a cell and is worth its score to the agent that brings it
/// to a hole.
#[derive(Debug, Clone, Copy)]
pub struct Tile {
    pub location: Location,
    pub score: u8,
}

impl Located for Tile {
    open spec fn place(&self) -> Location {
        self.location
    }

    fn location(&self) -> (location: Location) {
        self.location
    }

    fn set_location(&mut self, new: Location)
        ensures
            final(self).score == old(self).score,
    {
        self.location = new;
    }
}

impl Tile {
    pub fn new(location: Location, score: u8) -> (tile: Tile)
        ensures
            tile.location == location,
            tile.score == score,
    {
        Self { location, score }
    }
}

} // verus!
