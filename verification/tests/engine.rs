use twenty48::Direction;
use twenty48::Game;
use twenty48::SaveRecord;
use twenty48::evaluate;
use twenty48::slide_row_left;
use twenty48::slide_row_right;

fn record_with_board(rows: [[u32; 4]; 4]) -> SaveRecord {
    SaveRecord {
        board: rows.iter().map(|r| r.to_vec()).collect(),
        score: 0,
        game_over: false,
        won: false,
        dark_mode: false,
        history: Vec::new(),
    }
}

#[test]
fn slide_left_merges_pair_and_packs() {
    let row = vec![2u32, 2, 4, 0];
    let (out, delta, hit) = slide_row_left(&row);
    assert_eq!(out, vec![4, 4, 0, 0]);
    assert_eq!(delta, 4);
    assert!(!hit);
}

#[test]
fn slide_left_two_independent_merges() {
    let row = vec![2u32, 2, 2, 2];
    let (out, delta, hit) = slide_row_left(&row);
    assert_eq!(out, vec![4, 4, 0, 0]);
    assert_eq!(delta, 8);
    assert!(!hit);
}

#[test]
fn slide_right_merges_across_gap() {
    let row = vec![2u32, 0, 0, 2];
    let (out, delta, _) = slide_row_right(&row);
    assert_eq!(out, vec![0, 0, 0, 4]);
    assert_eq!(delta, 4);
}

#[test]
fn slide_does_not_chain_merges() {
    let row = vec![4u32, 4, 8, 8];
    let (out, delta, _) = slide_row_left(&row);
    assert_eq!(out, vec![8, 16, 0, 0]);
    assert_eq!(delta, 24);
}

#[test]
fn slide_conserves_tile_sum() {
    let rows = [
        vec![2u32, 2, 4, 0],
        vec![2u32, 2, 2, 2],
        vec![0u32, 8, 8, 16],
        vec![4u32, 0, 4, 8],
    ];
    for row in rows.iter() {
        let before: u32 = row.iter().sum();
        let (out, _, _) = slide_row_left(row);
        let after: u32 = out.iter().sum();
        assert_eq!(before, after);
        let (out_r, _, _) = slide_row_right(row);
        let after_r: u32 = out_r.iter().sum();
        assert_eq!(before, after_r);
    }
}

#[test]
fn slide_reports_winning_merge() {
    let row = vec![1024u32, 1024, 0, 0];
    let (out, delta, hit) = slide_row_left(&row);
    assert_eq!(out, vec![2048, 0, 0, 0]);
    assert_eq!(delta, 2048);
    assert!(hit);
}

#[test]
fn full_distinct_grid_is_over() {
    let board: Vec<u32> = vec![
        2, 4, 8, 16, 32, 64, 128, 256, 512, 1024, 2048, 4096, 8192, 16384, 32768, 65536,
    ];
    assert!(evaluate(&board));
}

#[test]
fn grid_with_empty_cell_is_not_over() {
    let board: Vec<u32> = vec![2, 4, 8, 16, 32, 64, 128, 256, 512, 1024, 2048, 4096, 8192, 16384, 32768, 0];
    assert!(!evaluate(&board));
}

#[test]
fn grid_with_row_pair_is_not_over() {
    let board: Vec<u32> = vec![2, 2, 8, 16, 32, 64, 128, 256, 512, 1024, 2048, 4096, 8192, 16384, 32768, 65536];
    assert!(!evaluate(&board));
}

#[test]
fn grid_with_column_pair_is_not_over() {
    let board: Vec<u32> = vec![2, 4, 8, 16, 2, 64, 128, 256, 512, 1024, 2048, 4096, 8192, 16384, 32768, 65536];
    assert!(!evaluate(&board));
}

#[test]
fn noop_move_changes_nothing() {
    // every row is packed left with no equal neighbours: Left is a no-op
    let rec = record_with_board([
        [2, 4, 8, 16],
        [32, 64, 128, 256],
        [512, 1024, 2, 4],
        [8, 16, 32, 64],
    ]);
    let mut game = Game::decode(&rec).unwrap();
    let before = game.encode();
    let moved = game.move_tiles(Direction::Left);
    assert!(!moved);
    assert_eq!(game.encode(), before);
    assert_eq!(game.history_len(), 0);
}

#[test]
fn effective_move_scores_and_spawns() {
    let rec = record_with_board([
        [2, 2, 0, 0],
        [0, 0, 0, 0],
        [0, 0, 0, 0],
        [0, 0, 0, 0],
    ]);
    let mut game = Game::decode(&rec).unwrap();
    let moved = game.move_tiles(Direction::Left);
    assert!(moved);
    assert_eq!(game.score(), 4);
    let board = game.board().clone();
    assert_eq!(board[0], 4);
    // the merged tile plus exactly one spawned tile
    let nonzero: Vec<u32> = board.iter().copied().filter(|v| *v != 0).collect();
    assert_eq!(nonzero.len(), 2);
    assert!(nonzero.contains(&4));
    assert_eq!(game.history_len(), 1);
    assert!(game.can_undo());
}

#[test]
fn move_reaching_win_tile_sets_won() {
    let rec = record_with_board([
        [1024, 1024, 0, 0],
        [0, 0, 0, 0],
        [0, 0, 0, 0],
        [0, 0, 0, 0],
    ]);
    let mut game = Game::decode(&rec).unwrap();
    assert!(!game.won());
    let moved = game.move_tiles(Direction::Left);
    assert!(moved);
    assert!(game.won());
    assert_eq!(game.score(), 2048);
}

#[test]
fn undo_restores_state_before_move() {
    let rec = record_with_board([
        [2, 2, 4, 0],
        [0, 8, 8, 0],
        [0, 0, 0, 2],
        [4, 0, 0, 4],
    ]);
    let mut game = Game::decode(&rec).unwrap();
    let before = game.encode();
    let moved = game.move_tiles(Direction::Left);
    assert!(moved);
    assert!(game.can_undo());
    let undone = game.undo();
    assert!(undone);
    assert_eq!(game.encode(), before);
}

#[test]
fn undo_on_empty_history_is_noop() {
    let mut game = Game::load_from(None);
    assert!(!game.can_undo());
    let before = game.encode();
    assert!(!game.undo());
    assert_eq!(game.encode(), before);
}

#[test]
fn fresh_game_has_two_small_tiles() {
    for _ in 0..50 {
        let game = Game::load_from(None);
        assert_eq!(game.score(), 0);
        assert!(!game.game_over());
        assert!(!game.won());
        assert!(!game.dark_mode());
        assert_eq!(game.history_len(), 0);
        let nonzero: Vec<u32> = game.board().iter().copied().filter(|v| *v != 0).collect();
        assert_eq!(nonzero.len(), 2);
        for v in nonzero {
            assert!(v == 2 || v == 4);
        }
    }
}
