use go_rollback::board::{Tile, TileData};
use go_rollback::game::GameState;

fn play(game: &mut GameState, moves: &[usize]) {
    for m in moves {
        game.make_move(*m);
    }
}

#[test]
fn fresh_game_is_empty_with_white_to_move() {
    let g = GameState::default();
    assert_eq!(g.game_board.len(), 81);
    assert!(g.game_board.iter().all(|t| *t == TileData::default()));
    assert!(g.current_player == Tile::White);
    assert_eq!(g.current_player_id, 0);
}

#[test]
fn move_on_empty_tile_places_stone_and_passes_turn() {
    let mut g = GameState::default();
    g.make_move(40);
    assert!(g.game_board[40].tile_state == Tile::White);
    assert!(g.current_player == Tile::Black);
    assert_eq!(g.current_player_id, 1);
    g.make_move(41);
    assert!(g.game_board[41].tile_state == Tile::Black);
    assert!(g.current_player == Tile::White);
    assert_eq!(g.current_player_id, 0);
}

#[test]
fn move_on_occupied_tile_changes_nothing() {
    let mut g = GameState::default();
    g.make_move(40);
    let before = g.clone();
    g.make_move(40);
    assert_eq!(g, before);
    assert!(g.current_player == Tile::Black);
}

#[test]
fn turns_alternate_with_accepted_moves() {
    let mut g = GameState::default();
    for n in 0..20usize {
        let expected = if n % 2 == 0 { Tile::White } else { Tile::Black };
        assert!(g.current_player == expected);
        g.make_move(n * 4 % 81);
        // a rejected move on the stone just placed
        g.make_move(n * 4 % 81);
    }
    assert!(g.current_player == Tile::White);
}

#[test]
fn encircled_stone_is_removed() {
    let mut g = GameState::default();
    play(&mut g, &[40, 31, 0, 39, 8, 41, 72]);
    assert!(g.game_board[40].tile_state == Tile::White);
    g.make_move(49);
    assert!(g.game_board[40].tile_state == Tile::Empty);
    assert!(g.game_board[49].tile_state == Tile::Black);
    assert!(g.game_board[0].tile_state == Tile::White);
    assert!(g.current_player == Tile::White);
    g.make_move(40);
    assert!(g.game_board[40].tile_state == Tile::Empty);
    assert!(g.current_player == Tile::Black);
}

#[test]
fn stone_without_liberty_is_removed_at_once() {
    let mut g = GameState::default();
    play(&mut g, &[40, 1, 50, 9, 0]);
    assert!(g.game_board[0].tile_state == Tile::Empty);
    assert!(g.game_board[1].tile_state == Tile::Black);
    assert!(g.current_player == Tile::Black);
}

#[test]
fn edge_group_is_captured_whole() {
    let mut g = GameState::default();
    play(&mut g, &[0, 2, 1, 9, 60, 10]);
    assert!(g.game_board[0].tile_state == Tile::Empty);
    assert!(g.game_board[1].tile_state == Tile::Empty);
    assert!(g.game_board[60].tile_state == Tile::White);
    assert!(g.current_player == Tile::White);
}

#[test]
fn group_with_distant_liberty_survives() {
    let mut g = GameState::default();
    // White builds a chain along the top row; Black fills under it except
    // below the last stone.
    play(&mut g, &[0, 9, 1, 10, 2, 11, 3, 12, 4]);
    for i in 0..5usize {
        assert!(g.game_board[i].tile_state == Tile::White);
    }
    assert!(g.game_board[5].tile_state == Tile::Empty);
}
