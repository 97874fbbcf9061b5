use go_rollback::board::Tile;
use go_rollback::codec::encode_input;
use go_rollback::game::GameState;
use go_rollback::sync::{make_move_system, replay_frames, tile_at_position};

fn click(x: u16, y: u16) -> [u8; 4] {
    encode_input(x, y, true)
}

#[test]
fn click_near_center_finds_tile() {
    assert_eq!(tile_at_position(32, 32), Some(0));
    assert_eq!(tile_at_position(47, 32), Some(0));
    assert_eq!(tile_at_position(64, 32), Some(1));
    assert_eq!(tile_at_position(32, 64), Some(9));
    assert_eq!(tile_at_position(288, 288), Some(80));
    assert_eq!(tile_at_position(170, 150), Some(40));
}

#[test]
fn click_far_from_tiles_finds_nothing() {
    assert_eq!(tile_at_position(48, 32), None);
    assert_eq!(tile_at_position(0, 0), None);
    assert_eq!(tile_at_position(43, 43), Some(0));
    assert_eq!(tile_at_position(44, 44), None);
    assert_eq!(tile_at_position(1000, 1000), None);
}

#[test]
fn inputs_apply_in_player_order() {
    let mut g = GameState::default();
    make_move_system(&mut g, &vec![click(32, 32), click(64, 32)]);
    assert!(g.game_board[0].tile_state == Tile::White);
    assert!(g.game_board[1].tile_state == Tile::Black);
    assert!(g.current_player == Tile::White);
}

#[test]
fn zero_frames_and_misses_change_nothing() {
    let mut g = GameState::default();
    make_move_system(&mut g, &vec![[0, 0, 0, 0], click(48, 32), [0, 0, 0, 0]]);
    assert_eq!(g, GameState::default());
}

#[test]
fn same_tile_from_both_players_takes_first() {
    let mut g = GameState::default();
    make_move_system(&mut g, &vec![click(160, 160), click(160, 160)]);
    assert!(g.game_board[40].tile_state == Tile::White);
    assert!(g.current_player == Tile::Black);
}

fn sample_frames() -> Vec<Vec<[u8; 4]>> {
    vec![
        vec![click(160, 160), [0, 0, 0, 0]],
        vec![[0, 0, 0, 0], click(160, 128)],
        vec![click(32, 32), click(128, 160)],
        vec![click(48, 200), [0, 0, 0, 0]],
        vec![click(288, 288), click(192, 160)],
        vec![click(288, 256), click(160, 192)],
    ]
}

#[test]
fn replay_from_fresh_is_identical() {
    let mut a = GameState::default();
    let mut b = GameState::default();
    replay_frames(&mut a, &sample_frames());
    replay_frames(&mut b, &sample_frames());
    assert_eq!(a, b);
    assert!(a.game_board[40].tile_state == Tile::Empty);
    assert!(a.game_board[0].tile_state == Tile::White);
}

#[test]
fn rollback_resimulation_matches() {
    let frames = sample_frames();
    let mut g = GameState::default();
    replay_frames(&mut g, &frames[..2].to_vec());
    let snapshot = g.clone();
    replay_frames(&mut g, &frames[2..].to_vec());
    let first = g.clone();
    g = snapshot;
    replay_frames(&mut g, &frames[2..].to_vec());
    assert_eq!(g, first);

    let mut whole = GameState::default();
    replay_frames(&mut whole, &frames);
    assert_eq!(whole, first);
}
