//! Tile geometry: the framebuffer is covered by a fixed grid of square
//! tiles, and every piece of work is addressed by a frame number and a tile
//! position inside that grid.

use vstd::prelude::*;

verus! {

/// Edge length, in pixels, of one square tile.
pub const TILE_SIZE: usize = 128;

/// Number of tile columns in the framebuffer.
pub const TILES_X: usize = 8;

/// Number of tile rows in the framebuffer.
pub const TILES_Y: usize = 6;

/// Number of tiles that make up one complete frame.
pub const TILES_PER_FRAME: usize = TILES_X * TILES_Y;

/// Framebuffer width in pixels.
pub const WIDTH: usize = TILES_X * TILE_SIZE;

/// Framebuffer height in pixels.
pub const HEIGHT: usize = TILES_Y * TILE_SIZE;

/// Address of one tile: the frame it belongs to and its grid position.
/// Frames are numbered from 1; position `(0, 0)` is the top-left tile.
#[derive(Clone, Copy, Debug, PartialEq, Eq, Structural)]
pub struct TileAddr {
    pub frame: u64,
    pub x: usize,
    pub y: usize,
}

impl TileAddr {
    /// A well-formed address lies inside the tile grid and belongs to a
    /// frame that the scheduler can actually have issued.
    pub open spec fn wf(self) -> bool {
        &&& self.x < TILES_X
        &&& self.y < TILES_Y
        &&& self.frame >= 1
    }

    /// Row-major index of this tile inside its frame; it selects both the
    /// precomputed ray bundle and the ownership slot for this tile.
    pub fn rays_index(&self) -> (r: usize)
        requires
            self.wf(),
        ensures
            r == self.y * TILES_X + self.x,
            r < TILES_PER_FRAME,
    {
        self.y * TILES_X + self.x
    }
}

} // verus!
