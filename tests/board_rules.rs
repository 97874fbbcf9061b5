use go_rollback::board::{neighbor_indices, Tile, TileData, TileSpriteData};
use go_rollback::capture::apply_life_and_death_rules_to_board;
use go_rollback::display::{sprite_index, Scoreboard};

fn sorted(mut v: Vec<usize>) -> Vec<usize> {
    v.sort();
    v
}

fn empty_board() -> Vec<TileData> {
    vec![TileData::default(); 81]
}

fn stone(color: Tile) -> TileData {
    TileData { tile_state: color, is_alive: false }
}

#[test]
fn corner_has_two_neighbors() {
    assert_eq!(sorted(neighbor_indices(0)), vec![1, 9]);
    assert_eq!(sorted(neighbor_indices(8)), vec![7, 17]);
    assert_eq!(sorted(neighbor_indices(72)), vec![63, 73]);
    assert_eq!(sorted(neighbor_indices(80)), vec![71, 79]);
}

#[test]
fn center_has_four_neighbors() {
    assert_eq!(neighbor_indices(40), vec![31, 49, 39, 41]);
}

#[test]
fn edge_neighbors_do_not_wrap_rows() {
    assert_eq!(sorted(neighbor_indices(9)), vec![0, 10, 18]);
    assert_eq!(sorted(neighbor_indices(17)), vec![8, 16, 26]);
    assert_eq!(sorted(neighbor_indices(4)), vec![3, 5, 13]);
}

#[test]
fn neighbors_stay_on_board_and_in_row() {
    for i in 0..81usize {
        let ns = neighbor_indices(i);
        assert!(ns.len() >= 2 && ns.len() <= 4);
        for n in ns {
            assert!(n < 81);
            let same_col = n % 9 == i % 9 && (n + 9 == i || i + 9 == n);
            let same_row = n / 9 == i / 9 && (n + 1 == i || i + 1 == n);
            assert!(same_col || same_row);
        }
    }
}

#[test]
fn default_tile_is_empty_and_unflagged() {
    let t = TileData::default();
    assert!(t.tile_state == Tile::Empty);
    assert!(!t.is_alive);
}

#[test]
fn surrounded_stone_is_reported_captured() {
    let mut board = empty_board();
    board[40] = stone(Tile::White);
    for i in [31usize, 39, 41, 49] {
        board[i] = stone(Tile::Black);
    }
    let dead = apply_life_and_death_rules_to_board(&mut board);
    assert_eq!(dead, vec![40]);
    assert!(board[40].tile_state == Tile::White);
    assert!(!board[40].is_alive);
    assert!(board[31].is_alive);
    assert!(!board[0].is_alive);
}

#[test]
fn stone_with_liberty_is_not_captured() {
    let mut board = empty_board();
    board[40] = stone(Tile::White);
    for i in [31usize, 39, 41] {
        board[i] = stone(Tile::Black);
    }
    let dead = apply_life_and_death_rules_to_board(&mut board);
    assert!(dead.is_empty());
    assert!(board[40].is_alive);
}

#[test]
fn stale_flags_are_reset_before_resolution() {
    let mut board = empty_board();
    board[0] = TileData { tile_state: Tile::White, is_alive: true };
    board[1] = TileData { tile_state: Tile::Black, is_alive: true };
    board[9] = TileData { tile_state: Tile::Black, is_alive: true };
    board[50] = TileData { tile_state: Tile::Empty, is_alive: true };
    let dead = apply_life_and_death_rules_to_board(&mut board);
    assert_eq!(dead, vec![0]);
    assert!(!board[0].is_alive);
    assert!(!board[50].is_alive);
}

#[test]
fn large_group_with_one_liberty_survives() {
    let mut board = vec![stone(Tile::Black); 81];
    board[80] = stone(Tile::Empty);
    let dead = apply_life_and_death_rules_to_board(&mut board);
    assert!(dead.is_empty());
    for i in 0..80usize {
        assert!(board[i].is_alive);
    }
}

#[test]
fn full_board_without_liberty_is_all_captured() {
    let mut board = vec![stone(Tile::Black); 81];
    let dead = apply_life_and_death_rules_to_board(&mut board);
    assert_eq!(dead, (0..81usize).collect::<Vec<usize>>());
}

#[test]
fn two_groups_captured_together() {
    let mut board = empty_board();
    board[0] = stone(Tile::White);
    board[1] = stone(Tile::White);
    board[2] = stone(Tile::Black);
    board[9] = stone(Tile::Black);
    board[10] = stone(Tile::Black);
    board[80] = stone(Tile::Black);
    board[79] = stone(Tile::White);
    board[71] = stone(Tile::White);
    let dead = apply_life_and_death_rules_to_board(&mut board);
    assert_eq!(dead, vec![0, 1, 80]);
}

#[test]
fn sprite_frames_follow_sheet_order() {
    assert_eq!(sprite_index(Tile::Black), 0);
    assert_eq!(sprite_index(Tile::White), 1);
    assert_eq!(sprite_index(Tile::Empty), 2);
}

#[test]
fn sprite_data_keeps_index() {
    assert_eq!(TileSpriteData::new(17).index, 17);
    let s = Scoreboard { score: 3 };
    assert_eq!(s.score, 3);
}

#[test]
fn reset_clears_every_flag() {
    let mut board = vec![TileData { tile_state: Tile::Black, is_alive: true }; 81];
    board[5] = TileData { tile_state: Tile::Empty, is_alive: true };
    go_rollback::board::reset_all_liveness(&mut board);
    assert_eq!(board.len(), 81);
    assert!(board.iter().all(|t| !t.is_alive));
    assert!(board[5].tile_state == Tile::Empty);
    assert!(board[6].tile_state == Tile::Black);
}
