//! What the renderer reads from the game: the sprite shown for each tile and
//! the score line's value.
use vstd::prelude::*;

use crate::board::Tile;

verus! {

/// The score shown on the scoreboard.
pub struct Scoreboard {
    pub score: usize,
}

/// Frame of the tile sprite sheet that shows `tile`: black stone, white
/// stone, bare board, in that order.
pub fn sprite_index(tile: Tile) -> (r: usize)
    ensures
        r == match tile {
            Tile::Black => 0usize,
            Tile::White => 1usize,
            Tile::Empty => 2usize,
        },
{
    match tile {
        Tile::Empty => 2,
        Tile::Black => 0,
        Tile::White => 1,
    }
}

} // verus!
