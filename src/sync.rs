//! Applying confirmed input frames to the game, one player after another,
//! and replaying a run of frames.
use vstd::prelude::*;

use crate::board::Tile;
use crate::codec::{decode_input, decoded};
use crate::game::{next_state, GameState, GameView};

verus! {

/// Width in pixels of a tile's sprite.
pub const TILE_PIXELS: u64 = 32;

/// Squared distance in pixels below which a click lands on a tile.
pub const REACH_SQUARED: i64 = 256;

/// Pixel position of the centre of tile `i`.
pub open spec fn tile_center(i: int) -> (int, int) {
    ((i % 9) * 32 + 32, (i / 9) * 32 + 32)
}

/// A click at `(x, y)` lies less than half a tile from the centre of tile `i`.
pub open spec fn within_reach(i: int, x: int, y: int) -> bool {
    let (cx, cy) = tile_center(i);
    (x - cx) * (x - cx) + (y - cy) * (y - cy) < 256
}

/// The first tile, from `i` on, that a click at `(x, y)` reaches.
pub open spec fn first_tile_within(x: int, y: int, i: nat) -> Option<usize>
    decreases 81 - i,
{
    if i >= 81 {
        None
    } else if within_reach(i as int, x, y) {
        Some(i as usize)
    } else {
        first_tile_within(x, y, i + 1)
    }
}

/// The tile a click at `(x, y)` lands on, if any.
pub open spec fn tile_at(x: int, y: int) -> Option<usize> {
    first_tile_within(x, y, 0)
}

/// Finds the tile whose centre lies less than half a tile from the click.
pub fn tile_at_position(x: u16, y: u16) -> (r: Option<usize>)
    ensures
        r == tile_at(x as int, y as int),
        match r {
            Some(i) => i < 81 && within_reach(i as int, x as int, y as int) && forall|j: int|
                0 <= j < i ==> !within_reach(j, x as int, y as int),
            None => forall|j: int| 0 <= j < 81 ==> !within_reach(j, x as int, y as int),
        },
{
    let mut i: usize = 0;
    while i < 81
        invariant
            i <= 81,
            tile_at(x as int, y as int) == first_tile_within(x as int, y as int, i as nat),
            forall|j: int| 0 <= j < i ==> !within_reach(j, x as int, y as int),
        decreases 81 - i,
    {
        let cx: i64 = ((i % 9) as u64 * TILE_PIXELS + TILE_PIXELS) as i64;
        let cy: i64 = ((i / 9) as u64 * TILE_PIXELS + TILE_PIXELS) as i64;
        assert(32 <= cx <= 288 && 32 <= cy <= 320);
        assert(cx as int == tile_center(i as int).0 && cy as int == tile_center(i as int).1);
        let dx: i64 = x as i64 - cx;
        let dy: i64 = y as i64 - cy;
        assert(0 <= dx * dx <= 65568 * 65568) by (nonlinear_arith)
            requires
                -65568 <= dx <= 65568,
        ;
        assert(0 <= dy * dy <= 65568 * 65568) by (nonlinear_arith)
            requires
                -65568 <= dy <= 65568,
        ;
        if dx * dx + dy * dy < REACH_SQUARED {
            return Some(i);
        }
        i += 1;
    }
    None
}

/// The game after one player's frame: a click that lands on a tile is a
/// move there; anything else changes nothing.
pub open spec fn apply_input(g: GameView, frame: Seq<u8>) -> GameView {
    match decoded(frame) {
        None => g,
        Some((x, y)) => match tile_at(x as int, y as int) {
            None => g,
            Some(i) => next_state(g, i as int),
        },
    }
}

/// The game after the frames of one simulation step, in player order.
pub open spec fn apply_frame(g: GameView, inputs: Seq<[u8; 4]>) -> GameView
    decreases inputs.len(),
{
    if inputs.len() == 0 {
        g
    } else {
        apply_input(apply_frame(g, inputs.drop_last()), inputs.last()@)
    }
}

/// The game after a run of simulation steps, in order.
pub open spec fn replay(g: GameView, frames: Seq<Vec<[u8; 4]>>) -> GameView
    decreases frames.len(),
{
    if frames.len() == 0 {
        g
    } else {
        apply_frame(replay(g, frames.drop_last()), frames.last()@)
    }
}

/// Applies one confirmed simulation step: each player's frame, in ascending
/// player order, becomes at most one move.
pub fn make_move_system(game_state: &mut GameState, inputs: &Vec<[u8; 4]>)
    requires
        old(game_state).wf(),
    ensures
        final(game_state).wf(),
        final(game_state)@ == apply_frame(old(game_state)@, inputs@),
{
    let mut p: usize = 0;
    while p < inputs.len()
        invariant
            p <= inputs@.len(),
            game_state.wf(),
            game_state@ == apply_frame(old(game_state)@, inputs@.subrange(0, p as int)),
        decreases inputs@.len() - p,
    {
        proof {
            let s = inputs@.subrange(0, p as int + 1);
            assert(s.drop_last() =~= inputs@.subrange(0, p as int));
        }
        match decode_input(inputs[p]) {
            Some((x, y)) => match tile_at_position(x, y) {
                Some(i) => game_state.make_move(i),
                None => {},
            },
            None => {},
        }
        p += 1;
    }
    assert(inputs@.subrange(0, inputs@.len() as int) =~= inputs@);
}

/// Runs `frames` in order on `game_state`: how a rollback resimulates from a
/// restored snapshot.
pub fn replay_frames(game_state: &mut GameState, frames: &Vec<Vec<[u8; 4]>>)
    requires
        old(game_state).wf(),
    ensures
        final(game_state).wf(),
        final(game_state)@ == replay(old(game_state)@, frames@),
{
    let mut f: usize = 0;
    while f < frames.len()
        invariant
            f <= frames@.len(),
            game_state.wf(),
            game_state@ == replay(old(game_state)@, frames@.subrange(0, f as int)),
        decreases frames@.len() - f,
    {
        proof {
            let s = frames@.subrange(0, f as int + 1);
            assert(s.drop_last() =~= frames@.subrange(0, f as int));
        }
        make_move_system(game_state, &frames[f]);
        f += 1;
    }
    assert(frames@.subrange(0, frames@.len() as int) =~= frames@);
}

/// Replaying a run of frames is determined by the starting game and the
/// frames alone: equal starts and equal frames give equal games.
pub proof fn lemma_replay_deterministic(
    g1: GameView,
    g2: GameView,
    frames1: Seq<Vec<[u8; 4]>>,
    frames2: Seq<Vec<[u8; 4]>>,
)
    requires
        g1 == g2,
        frames1 == frames2,
    ensures
        replay(g1, frames1) == replay(g2, frames2),
{
}

/// Replaying from a snapshot taken after `before` gives the same game as
/// replaying the whole run from the start.
pub proof fn lemma_replay_from_snapshot(g: GameView, before: Seq<Vec<[u8; 4]>>, after: Seq<Vec<[u8; 4]>>)
    ensures
        replay(replay(g, before), after) == replay(g, before + after),
    decreases after.len(),
{
    if after.len() == 0 {
        assert(before + after =~= before);
    } else {
        lemma_replay_from_snapshot(g, before, after.drop_last());
        assert((before + after).drop_last() =~= before + after.drop_last());
        assert((before + after).last() == after.last());
    }
}

} // verus!
