//! The 9x9 board: tile states, liveness flags and grid adjacency.
use vstd::prelude::*;

verus! {


/// What occupies a tile.
#[derive(Copy, Clone, Debug, PartialEq, Eq, Hash, Structural)]
pub enum Tile {
    Empty,
    Black,
    White,
}

/// One tile: its occupant and the scratch flag used while resolving captures.
#[derive(Copy, Clone, Debug, PartialEq, Eq, Hash, Structural)]
pub struct TileData {
    pub tile_state: Tile,
    pub is_alive: bool,
}

impl Default for TileData {
    fn default() -> (r: TileData)
        ensures
            r == (TileData { tile_state: Tile::Empty, is_alive: false }),
    {
        TileData { tile_state: Tile::Empty, is_alive: false }
    }
}

/// Links a rendered sprite to the board tile it shows.
pub struct TileSpriteData {
    pub index: usize,
}

impl TileSpriteData {
    pub fn new(index: usize) -> (r: TileSpriteData)
        ensures
            r.index == index,
    {
        TileSpriteData { index }
    }
}

/// `b` is an orthogonal neighbour of `a` on the 9x9 grid: directly above or
/// below, or beside it in the same row.
pub open spec fn adjacent(a: int, b: int) -> bool {
    &&& 0 <= a < 81
    &&& 0 <= b < 81
    &&& {
        ||| b == a - 9
        ||| b == a + 9
        ||| (b == a - 1 && a % 9 != 0)
        ||| (b == a + 1 && a % 9 != 8)
    }
}

/// The neighbours of `i` in the order up, down, left, right.
pub open spec fn neighbor_seq(i: int) -> Seq<usize> {
    let up: Seq<usize> = if i >= 9 { seq![(i - 9) as usize] } else { seq![] };
    let down: Seq<usize> = if i + 9 < 81 { seq![(i + 9) as usize] } else { seq![] };
    let left: Seq<usize> = if i % 9 != 0 { seq![(i - 1) as usize] } else { seq![] };
    let right: Seq<usize> = if i % 9 != 8 { seq![(i + 1) as usize] } else { seq![] };
    up + down + left + right
}

/// Adjacency is symmetric.
pub proof fn lemma_adjacent_symmetric(a: int, b: int)
    ensures
        adjacent(a, b) == adjacent(b, a),
{
}

/// The tiles next to `index`: up to four, none off the board and none reached
/// by wrapping round a row's end.
pub fn neighbor_indices(index: usize) -> (r: Vec<usize>)
    requires
        index < 81,
    ensures
        r@ == neighbor_seq(index as int),
        r@.len() <= 4,
        r@.no_duplicates(),
        forall|j: usize| r@.contains(j) <==> adjacent(index as int, j as int),
        forall|k: int| 0 <= k < r@.len() ==> adjacent(index as int, r@[k] as int),
{
    let mut r: Vec<usize> = Vec::new();
    if index >= 9 {
        r.push(index - 9);
    }
    if index + 9 < 81 {
        r.push(index + 9);
    }
    if index % 9 != 0 {
        r.push(index - 1);
    }
    if index % 9 != 8 {
        r.push(index + 1);
    }
    proof {
        assert(r@ =~= neighbor_seq(index as int));
        let u: int = if index >= 9 { 1 } else { 0 };
        let d: int = if index + 9 < 81 { 1 } else { 0 };
        let l: int = if index % 9 != 0 { 1 } else { 0 };
        assert forall|j: usize| r@.contains(j) <==> adjacent(index as int, j as int) by {
            if adjacent(index as int, j as int) {
                if j == index - 9 {
                    assert(r@[0] == j);
                } else if j == index + 9 {
                    assert(r@[u] == j);
                } else if j == index - 1 && index % 9 != 0 {
                    assert(r@[u + d] == j);
                } else {
                    assert(r@[u + d + l] == j);
                }
            }
        }
    }
    r
}

/// Clears the liveness flag of every tile, leaving occupants as they are.
pub fn reset_all_liveness(board: &mut Vec<TileData>)
    ensures
        final(board)@.len() == old(board)@.len(),
        forall|i: int|
            0 <= i < old(board)@.len() ==> #[trigger] final(board)@[i] == (TileData {
                tile_state: old(board)@[i].tile_state,
                is_alive: false,
            }),
{
    let mut i: usize = 0;
    while i < board.len()
        invariant
            i <= board@.len(),
            board@.len() == old(board)@.len(),
            forall|k: int|
                0 <= k < i ==> #[trigger] board@[k] == (TileData {
                    tile_state: old(board)@[k].tile_state,
                    is_alive: false,
                }),
            forall|k: int| i <= k < board@.len() ==> #[trigger] board@[k] == old(board)@[k],
        decreases board@.len() - i,
    {
        let mut t = board[i];
        t.is_alive = false;
        board.set(i, t);
        i += 1;
    }
}

} // verus!
