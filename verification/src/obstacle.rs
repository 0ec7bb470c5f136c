//! Static obstacles: non-tile hazards a body can collide with.

use vstd::prelude::*;
use crate::tiles::TileID;
use crate::types::Rect;

verus! {

/// A static obstacle: an optional drawn frame, an optional tile reference,
/// and an optional world rectangle used for collisions.
#[derive(PartialEq, Eq, Clone, Copy, Debug, Structural)]
pub struct Obstacle {
    pub frame: Option<Rect>,
    pub tile_id: Option<TileID>,
    pub rect: Option<Rect>,
    pub destroyed: bool,
}

impl Obstacle {
    pub fn new(frame: Option<Rect>, tile_id: Option<TileID>, rect: Option<Rect>) -> (r: Obstacle)
        ensures
            r == (Obstacle { frame, tile_id, rect, destroyed: false }),
    {
        Obstacle { frame, tile_id, rect, destroyed: false }
    }
}

/// An obstacle that always has a frame and a tile reference.
#[derive(PartialEq, Eq, Clone, Copy, Debug, Structural)]
pub struct Obstacle2 {
    pub frame: Rect,
    pub tile_id: TileID,
    pub destroyed: bool,
}

impl Obstacle2 {
    pub fn new(frame: Rect, tile_id: TileID) -> (r: Obstacle2)
        ensures
            r == (Obstacle2 { frame, tile_id, destroyed: false }),
    {
        Obstacle2 { frame, tile_id, destroyed: false }
    }
}

/// Bare collidable terrain: a world rectangle.
#[derive(PartialEq, Eq, Clone, Copy, Debug, Structural)]
pub struct Terrain {
    pub rect: Option<Rect>,
    pub destroyed: bool,
}

} // verus!
