use twenty48::Command;
use twenty48::DecodeError;
use twenty48::Direction;
use twenty48::Game;
use twenty48::SaveRecord;
use twenty48::SnapshotRecord;

fn rows(values: [[u32; 4]; 4]) -> Vec<Vec<u32>> {
    values.iter().map(|r| r.to_vec()).collect()
}

fn simple_record(values: [[u32; 4]; 4]) -> SaveRecord {
    SaveRecord {
        board: rows(values),
        score: 0,
        game_over: false,
        won: false,
        dark_mode: false,
        history: Vec::new(),
    }
}

#[test]
fn round_trip_after_play() {
    let mut game = Game::load_from(None);
    for d in [Direction::Left, Direction::Up, Direction::Right, Direction::Down] {
        game.move_tiles(d);
    }
    let rec = game.encode();
    let decoded = Game::decode(&rec).unwrap();
    assert_eq!(decoded.encode(), rec);
}

#[test]
fn round_trip_keeps_every_field() {
    let rec = SaveRecord {
        board: rows([[2, 4, 0, 2], [0, 0, 8, 0], [16, 0, 0, 0], [0, 2, 0, 4]]),
        score: 1234,
        game_over: false,
        won: true,
        dark_mode: true,
        history: vec![SnapshotRecord {
            board: rows([[2, 4, 0, 0], [0, 0, 8, 0], [16, 0, 0, 0], [0, 2, 0, 4]]),
            score: 1230,
            game_over: false,
            won: true,
        }],
    };
    let game = Game::decode(&rec).unwrap();
    assert_eq!(game.score(), 1234);
    assert!(game.won());
    assert!(!game.game_over());
    assert!(game.dark_mode());
    assert_eq!(game.history_len(), 1);
    assert_eq!(game.encode(), rec);
}

#[test]
fn decode_rejects_wrong_shape() {
    let mut rec = simple_record([[2, 0, 0, 0], [0, 0, 0, 0], [0, 0, 0, 0], [0, 0, 0, 0]]);
    rec.board.pop();
    assert_eq!(Game::decode(&rec).unwrap_err(), DecodeError::WrongShape);
}

#[test]
fn decode_rejects_wrong_history_shape() {
    let mut rec = simple_record([[2, 0, 0, 0], [0, 0, 0, 0], [0, 0, 0, 0], [0, 0, 0, 0]]);
    rec.history.push(SnapshotRecord {
        board: vec![vec![2, 0, 0, 0]],
        score: 0,
        game_over: false,
        won: false,
    });
    assert_eq!(Game::decode(&rec).unwrap_err(), DecodeError::WrongShape);
}

#[test]
fn decode_rejects_non_power_of_two() {
    let rec = simple_record([[3, 0, 0, 0], [0, 0, 0, 0], [0, 0, 0, 0], [0, 0, 0, 0]]);
    assert_eq!(Game::decode(&rec).unwrap_err(), DecodeError::InvalidTile);
}

#[test]
fn decode_rejects_one() {
    let rec = simple_record([[1, 0, 0, 0], [0, 0, 0, 0], [0, 0, 0, 0], [0, 0, 0, 0]]);
    assert_eq!(Game::decode(&rec).unwrap_err(), DecodeError::InvalidTile);
}

#[test]
fn decode_rejects_oversized_sum() {
    let rec = simple_record([
        [0x8000_0000, 2, 0, 0],
        [0, 0, 0, 0],
        [0, 0, 0, 0],
        [0, 0, 0, 0],
    ]);
    assert_eq!(Game::decode(&rec).unwrap_err(), DecodeError::SumTooLarge);
}

#[test]
fn load_falls_back_on_bad_record() {
    let rec = simple_record([[3, 0, 0, 0], [0, 0, 0, 0], [0, 0, 0, 0], [0, 0, 0, 0]]);
    let game = Game::load_from(Some(rec));
    assert_eq!(game.score(), 0);
    let nonzero = game.board().iter().filter(|v| **v != 0).count();
    assert_eq!(nonzero, 2);
}

#[test]
fn move_on_lost_game_is_ignored() {
    let mut rec = simple_record([[2, 4, 0, 0], [0, 0, 0, 0], [0, 0, 0, 0], [0, 0, 0, 0]]);
    rec.game_over = true;
    let mut game = Game::decode(&rec).unwrap();
    let before = game.encode();
    let persist = game.apply(Command::Move(Direction::Left));
    assert!(!persist);
    assert_eq!(game.encode(), before);
}

#[test]
fn toggle_theme_flips_only_theme() {
    let mut game = Game::load_from(None);
    let before = game.encode();
    let persist = game.apply(Command::ToggleTheme);
    assert!(persist);
    let after = game.encode();
    assert!(after.dark_mode);
    assert_eq!(after.board, before.board);
    assert_eq!(after.score, before.score);
    assert_eq!(after.history, before.history);
}

#[test]
fn new_game_keeps_theme_and_clears_history() {
    let mut game = Game::load_from(None);
    game.apply(Command::ToggleTheme);
    // make some history
    for d in [Direction::Left, Direction::Up, Direction::Right, Direction::Down] {
        game.apply(Command::Move(d));
    }
    let persist = game.apply(Command::NewGame);
    assert!(persist);
    assert!(game.dark_mode());
    assert_eq!(game.score(), 0);
    assert_eq!(game.history_len(), 0);
    let nonzero = game.board().iter().filter(|v| **v != 0).count();
    assert_eq!(nonzero, 2);
}

#[test]
fn reset_board_keeps_theme_and_history() {
    let mut game = Game::load_from(None);
    game.apply(Command::ToggleTheme);
    let mut moves = 0;
    for d in [Direction::Left, Direction::Up, Direction::Right, Direction::Down] {
        if game.move_tiles(d) {
            moves += 1;
        }
    }
    assert!(moves > 0);
    let history_before = game.history_len();
    let persist = game.apply(Command::ResetBoard);
    assert!(persist);
    assert!(game.dark_mode());
    assert_eq!(game.score(), 0);
    assert_eq!(game.history_len(), history_before);
    let nonzero = game.board().iter().filter(|v| **v != 0).count();
    assert_eq!(nonzero, 2);
}

#[test]
fn quit_changes_nothing() {
    let mut game = Game::load_from(None);
    let before = game.encode();
    let persist = game.apply(Command::Quit);
    assert!(!persist);
    assert_eq!(game.encode(), before);
}

#[test]
fn undo_command_persists_even_when_empty() {
    let mut game = Game::load_from(None);
    let persist = game.apply(Command::Undo);
    assert!(persist);
}
