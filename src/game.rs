//! The game state machine: the board, whose turn it is, and the move
//! transition.
use vstd::prelude::*;

use crate::board::{adjacent, lemma_adjacent_symmetric, Tile, TileData};
use crate::capture::{
    apply_life_and_death_rules_to_board,
    captured,
    captured_upto,
    lemma_captured_upto,
    lemma_live_spreads,
    live,
    live_within,
    marked_board,
    stones,
};

verus! {

/// The state of one game: board, colour to move and the turn id that goes with it.
#[derive(Clone, Debug, PartialEq, Eq, Hash)]
pub struct GameState {
    pub game_board: Vec<TileData>,
    pub current_player: Tile,
    pub current_player_id: usize,
}

/// A game as a value: board, colour to move, turn id.
pub type GameView = (Seq<TileData>, Tile, usize);

impl View for GameState {
    type V = GameView;

    open spec fn view(&self) -> GameView {
        (self.game_board@, self.current_player, self.current_player_id)
    }
}

/// A board of 81 tiles; White to move with turn id 0, or Black with turn id 1.
pub open spec fn game_wf(g: GameView) -> bool {
    &&& g.0.len() == 81
    &&& (g.1 == Tile::White && g.2 == 0) || (g.1 == Tile::Black && g.2 == 1)
}

/// An empty board with White to move.
pub open spec fn fresh_game() -> GameView {
    (Seq::new(81, |i: int| TileData { tile_state: Tile::Empty, is_alive: false }), Tile::White, 0)
}

/// The colour that moves after `p`.
pub open spec fn other(p: Tile) -> Tile {
    if p == Tile::White {
        Tile::Black
    } else {
        Tile::White
    }
}

/// The board once captures on `placed` are resolved: captured stones are
/// removed, and each flag tells whether the tile's group had a liberty.
pub open spec fn resolved(placed: Seq<Tile>) -> Seq<TileData> {
    Seq::new(
        placed.len(),
        |k: int|
            TileData {
                tile_state: if captured(placed, k) {
                    Tile::Empty
                } else {
                    placed[k]
                },
                is_alive: live(placed, k),
            },
    )
}

/// The game after a move at `index`: nothing changes on an occupied tile;
/// on an empty one the mover's stone is placed, captures are resolved and
/// the turn passes.
pub open spec fn next_state(g: GameView, index: int) -> GameView {
    if g.0[index].tile_state != Tile::Empty {
        g
    } else {
        (resolved(stones(g.0).update(index, g.1)), other(g.1), (1 - g.2) as usize)
    }
}

impl GameState {
    pub open spec fn wf(&self) -> bool {
        game_wf(self@)
    }

    /// Plays the current colour at `index`. A move onto an occupied tile is
    /// ignored.
    pub fn make_move(&mut self, index: usize)
        requires
            old(self).wf(),
            index < 81,
        ensures
            final(self)@ == next_state(old(self)@, index as int),
            final(self).wf(),
    {
        if self.game_board[index].tile_state != Tile::Empty {
            return;
        }
        let mut t = self.game_board[index];
        t.tile_state = self.current_player;
        self.game_board.set(index, t);
        let ghost placed = stones(self.game_board@);
        proof {
            assert(placed =~= stones(old(self)@.0).update(index as int, old(self)@.1));
        }
        match self.current_player {
            Tile::White => {
                self.current_player = Tile::Black;
                self.current_player_id = 1;
            },
            _ => {
                self.current_player = Tile::White;
                self.current_player_id = 0;
            },
        }
        let dead = apply_life_and_death_rules_to_board(&mut self.game_board);
        proof {
            lemma_captured_upto(placed, 81);
        }
        let ghost marked = marked_board(placed);
        let ghost player = self.current_player;
        let ghost player_id = self.current_player_id;
        assert(player == other(old(self)@.1) && player_id == (1 - old(self)@.2) as usize);
        let cleared = TileData { tile_state: Tile::Empty, is_alive: false };
        let mut p: usize = 0;
        while p < dead.len()
            invariant
                self.current_player == player,
                self.current_player_id == player_id,
                dead@ == captured_upto(placed, 81),
                placed.len() == 81,
                marked.len() == 81,
                marked == marked_board(placed),
                p <= dead@.len(),
                self.game_board@.len() == 81,
                forall|q: int| 0 <= q < dead@.len() ==> captured(placed, #[trigger] dead@[q] as int) && dead@[q] < 81,
                forall|q: int| 0 <= q < p ==> self.game_board@[#[trigger] dead@[q] as int] == cleared,
                forall|k: int|
                    0 <= k < 81 ==> #[trigger] self.game_board@[k] == marked[k] || (self.game_board@[k] == cleared
                        && captured(placed, k)),
            decreases dead@.len() - p,
        {
            let d = dead[p];
            self.game_board.set(d, cleared);
            p += 1;
        }
        proof {
            assert forall|k: int| 0 <= k < 81 implies #[trigger] self.game_board@[k] == resolved(placed)[k] by {
                if captured(placed, k) {
                    assert(dead@.contains(k as usize));
                    let q = choose|q: int| 0 <= q < dead@.len() && dead@[q] == k as usize;
                    assert(self.game_board@[dead@[q] as int] == cleared);
                }
            }
            assert(self.game_board@ =~= resolved(placed));
        }
    }
}

impl Default for GameState {
    /// An empty board with White to move.
    fn default() -> (r: GameState)
        ensures
            r@ == fresh_game(),
            r.wf(),
    {
        let mut game_board: Vec<TileData> = Vec::new();
        let mut i: usize = 0;
        while i < 81
            invariant
                i <= 81,
                game_board@.len() == i,
                forall|k: int| 0 <= k < i ==> #[trigger] game_board@[k] == (TileData { tile_state: Tile::Empty, is_alive: false }),
            decreases 81 - i,
        {
            game_board.push(TileData::default());
            i += 1;
        }
        assert(game_board@ =~= fresh_game().0);
        GameState { game_board, current_player: Tile::White, current_player_id: 0 }
    }
}

/// The game after playing `moves` in order from `g`.
pub open spec fn play(g: GameView, moves: Seq<usize>) -> GameView
    decreases moves.len(),
{
    if moves.len() == 0 {
        g
    } else {
        next_state(play(g, moves.drop_last()), moves.last() as int)
    }
}

/// How many of `moves`, played in order from `g`, landed on an empty tile.
pub open spec fn accepted_moves(g: GameView, moves: Seq<usize>) -> nat
    decreases moves.len(),
{
    if moves.len() == 0 {
        0
    } else {
        accepted_moves(g, moves.drop_last()) + if play(g, moves.drop_last()).0[moves.last() as int].tile_state
            == Tile::Empty {
            1nat
        } else {
            0nat
        }
    }
}

/// A move keeps the game well formed.
pub proof fn lemma_next_state_wf(g: GameView, index: int)
    requires
        game_wf(g),
        0 <= index < 81,
    ensures
        game_wf(next_state(g, index)),
{
}

/// A move onto an occupied tile leaves the game unchanged.
pub proof fn lemma_move_on_occupied_tile(g: GameView, index: int)
    requires
        game_wf(g),
        0 <= index < 81,
        g.0[index].tile_state != Tile::Empty,
    ensures
        next_state(g, index) == g,
{
}

/// A move onto an empty tile gives that tile the mover's colour and passes
/// the turn, provided the new stone's group keeps a liberty.
pub proof fn lemma_move_on_empty_tile(g: GameView, index: int)
    requires
        game_wf(g),
        0 <= index < 81,
        g.0[index].tile_state == Tile::Empty,
        live(stones(g.0).update(index, g.1), index),
    ensures
        next_state(g, index).0[index].tile_state == g.1,
        next_state(g, index).1 == other(g.1),
        next_state(g, index).1 != g.1,
{
}

/// Turns alternate: from a fresh game, White is to move after an even number
/// of accepted moves and Black after an odd number.
pub proof fn lemma_turns_alternate(moves: Seq<usize>)
    requires
        forall|k: int| 0 <= k < moves.len() ==> #[trigger] moves[k] < 81,
    ensures
        game_wf(play(fresh_game(), moves)),
        play(fresh_game(), moves).1 == if accepted_moves(fresh_game(), moves) % 2 == 0 {
            Tile::White
        } else {
            Tile::Black
        },
    decreases moves.len(),
{
    if moves.len() > 0 {
        let prefix = moves.drop_last();
        assert forall|k: int| 0 <= k < prefix.len() implies #[trigger] prefix[k] < 81 by {
            assert(prefix[k] == moves[k]);
        }
        lemma_turns_alternate(prefix);
        lemma_next_state_wf(play(fresh_game(), prefix), moves.last() as int);
    }
}

/// `k` and `j` hold stones of one colour joined by a chain of at most `n`
/// steps between orthogonal neighbours of that colour.
pub open spec fn connected_within(st: Seq<Tile>, k: int, j: int, n: nat) -> bool
    decreases n,
{
    &&& 0 <= k < st.len()
    &&& 0 <= j < st.len()
    &&& {
        ||| k == j
        ||| (n > 0 && exists|m: int|
            #![trigger adjacent(k, m)]
            adjacent(k, m) && m < st.len() && st[m] == st[k] && connected_within(st, m, j, (n - 1) as nat))
    }
}

/// Tile `k` is next to an empty tile.
pub open spec fn has_liberty(st: Seq<Tile>, k: int) -> bool {
    exists|e: int| #[trigger] adjacent(k, e) && e < st.len() && st[e] == Tile::Empty
}

/// A stone in a group with any member next to an empty tile is not captured,
/// however large the group.
pub proof fn lemma_group_with_liberty_survives(st: Seq<Tile>, j: int, k: int, n: nat)
    requires
        st.len() == 81,
        st[j] != Tile::Empty,
        connected_within(st, j, k, n),
        has_liberty(st, k),
    ensures
        live(st, j),
        !captured(st, j),
        resolved(st)[j].tile_state == st[j],
    decreases n,
{
    if j == k {
        let e = choose|e: int| #[trigger] adjacent(k, e) && e < st.len() && st[e] == Tile::Empty;
        assert(live_within(st, j, 0));
    } else {
        let m = choose|m: int|
            #![trigger adjacent(j, m)]
            adjacent(j, m) && m < st.len() && st[m] == st[j] && connected_within(st, m, k, (n - 1) as nat);
        lemma_group_with_liberty_survives(st, m, k, (n - 1) as nat);
        lemma_adjacent_symmetric(j, m);
        lemma_live_spreads(st, m, j);
    }
}

} // verus!
