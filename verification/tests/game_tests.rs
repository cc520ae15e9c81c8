use jungo::board::{Board, Stone};
use jungo::game::Game;

#[test]
fn test_game_creation() {
    let game = Game::new(9);
    assert_eq!(game.board.size(), 9);
    assert_eq!(game.current_turn, Stone::Black);
    assert_eq!(game.consecutive_passes, 0);
}

#[test]
fn test_consecutive_passes() {
    let mut game = Game::new(9);

    assert_eq!(game.consecutive_passes, 0);

    game.consecutive_passes = 1;
    assert_eq!(game.consecutive_passes, 1);

    game.consecutive_passes = 2;
    assert_eq!(game.consecutive_passes, 2);
}

#[test]
fn test_turn_switching() {
    let mut game = Game::new(9);

    assert_eq!(game.current_turn, Stone::Black);
    game.current_turn = game.current_turn.opposite();
    assert_eq!(game.current_turn, Stone::White);
    game.current_turn = game.current_turn.opposite();
    assert_eq!(game.current_turn, Stone::Black);
}

#[test]
fn test_ko_situation() {
    let mut game = Game::new(5);

    assert!(game.previous_board.is_none());

    game.board.place_stone(0, 0, Stone::Black).unwrap();
    game.previous_board = Some(game.board.clone());

    game.board.place_stone(1, 1, Stone::White).unwrap();
}

#[test]
fn test_zobrist_hashing() {
    let mut board1 = Board::new(5);
    let board2 = Board::new(5);

    assert_eq!(board1.get_hash(), board2.get_hash());

    board1.place_stone(0, 0, Stone::Black).unwrap();
    assert_ne!(board1.get_hash(), board2.get_hash());

    let mut board3 = Board::new(5);
    let original_hash = board3.get_hash();
    board3.place_stone(2, 2, Stone::Black).unwrap();
    let after_place = board3.get_hash();
    assert_ne!(original_hash, after_place);

    let game = Game::new(5);
    assert_eq!(game.board_history.len(), 1);
}

#[test]
fn test_ko_rejection_and_release() {
    // Build a genuine ko on a 5x5 board.  Black's capture at (2, 1) takes the
    // white stone at (1, 1); White's immediate recapture at (1, 1) would
    // recreate the position from two plies back and is rejected, but the same
    // point is accepted once other moves have been interposed.
    let mut game = Game::new(5);

    assert!(game.submit_move(1, 0)); // Black
    assert!(game.submit_move(2, 0)); // White
    assert!(game.submit_move(0, 1)); // Black
    assert!(game.submit_move(3, 1)); // White
    assert!(game.submit_move(1, 2)); // Black
    assert!(game.submit_move(2, 2)); // White
    assert!(game.submit_move(4, 4)); // Black (elsewhere)
    assert!(game.submit_move(1, 1)); // White takes the ko point

    // Black captures the lone white stone at (1, 1) by playing (2, 1)
    assert!(game.submit_move(2, 1));
    assert_eq!(game.board.get(1, 1), None);
    assert_eq!(game.board.get_captured().0, 1);

    // White's immediate recapture is a Ko violation
    assert!(!game.submit_move(1, 1));
    assert_eq!(game.current_turn, Stone::White);
    assert_eq!(game.board.get(2, 1), Some(Stone::Black));

    // after an interposed exchange the same point is accepted
    assert!(game.submit_move(4, 0)); // White elsewhere
    assert!(game.submit_move(0, 4)); // Black elsewhere
    assert!(game.submit_move(1, 1)); // White retakes the ko
    assert_eq!(game.board.get(2, 1), None);
    assert_eq!(game.board.get_captured(), (1, 1));
}

#[test]
fn test_two_passes_finish_the_game() {
    let mut game = Game::new(5);
    assert!(!game.is_finished());

    assert!(game.submit_move(2, 2));
    assert!(!game.is_finished());

    game.submit_pass(); // White passes
    assert!(!game.is_finished());
    assert_eq!(game.current_turn, Stone::Black);

    game.submit_pass(); // Black passes: game over
    assert!(game.is_finished());

    // no move is accepted once the game is finished
    assert!(!game.submit_move(1, 1));
}

#[test]
fn test_one_pass_then_move_resets() {
    let mut game = Game::new(5);
    game.submit_pass(); // Black passes
    assert_eq!(game.consecutive_passes, 1);
    assert_eq!(game.current_turn, Stone::White);
    assert!(game.submit_move(3, 3)); // White plays
    assert_eq!(game.consecutive_passes, 0);
    assert!(!game.is_finished());
}

#[test]
fn test_score_is_stones_plus_captures() {
    let mut game = Game::new(5);
    assert!(game.submit_move(1, 0)); // Black
    assert!(game.submit_move(0, 0)); // White into the corner (one liberty left)
    assert!(game.submit_move(0, 1)); // Black captures it

    assert_eq!(game.board.get(0, 0), None);
    assert_eq!(game.board.get_captured(), (1, 0));
    // Black: two stones plus one capture; White: nothing on the board
    assert_eq!(game.score(Stone::Black), 3);
    assert_eq!(game.score(Stone::White), 0);
}

#[test]
fn test_capture_scenario_corner() {
    // 5x5 empty board; the mover places at (1,0) and (0,1); the opponent
    // places at (0,0), whose two liberties are both occupied by the mover:
    // the stone disappears at once.  No capture credit is booked for either
    // side: the stone was removed by its own placement (self-capture), and
    // self-captured stones never earn credit.
    let mut board = Board::new(5);
    board.place_stone(1, 0, Stone::Black).unwrap();
    board.place_stone(0, 1, Stone::Black).unwrap();
    assert!(board.place_stone(0, 0, Stone::White).is_ok());

    assert_eq!(board.get(0, 0), None);
    assert_eq!(board.get_captured(), (0, 0));
    assert_eq!(board.count_stones(), (2, 0));
}

#[test]
fn test_run_game_silent_finishes() {
    let (black_score, white_score, moves) = jungo::stats::run_game_silent(5);
    assert!(black_score >= 0);
    assert!(white_score >= 0);
    assert!(moves as i64 >= 0);
}

#[test]
fn test_game_stats_start_at_zero() {
    let stats = jungo::stats::GameStats::new();
    assert_eq!(stats.black_wins, 0);
    assert_eq!(stats.white_wins, 0);
    assert_eq!(stats.draws, 0);
    assert_eq!(stats.total_moves, 0);
}

#[test]
fn test_hashing_is_reproducible() {
    // the key tables are seeded deterministically: equal-sized tables agree
    // key by key, and equal-sized boards hash identically after the same
    // moves
    let t1 = jungo::zobrist::ZobristTable::new(5);
    let t2 = jungo::zobrist::ZobristTable::new(5);
    for y in 0..5 {
        for x in 0..5 {
            assert_eq!(t1.get_stone_hash(x, y, true), t2.get_stone_hash(x, y, true));
            assert_eq!(t1.get_stone_hash(x, y, false), t2.get_stone_hash(x, y, false));
        }
    }

    let mut b1 = Board::new(5);
    let mut b2 = Board::new(5);
    b1.place_stone(1, 2, Stone::Black).unwrap();
    b1.place_stone(3, 3, Stone::White).unwrap();
    b2.place_stone(1, 2, Stone::Black).unwrap();
    b2.place_stone(3, 3, Stone::White).unwrap();
    assert_eq!(b1.get_hash(), b2.get_hash());

    // and the hash returns to the colour-for-colour identical position:
    // capture the white stone on both boards the same way
    assert_ne!(b1.get_hash(), b2.would_result_in_hash(4, 4, Stone::Black).unwrap());
    assert_eq!(
        b1.would_result_in_hash(4, 4, Stone::Black),
        b2.would_result_in_hash(4, 4, Stone::Black)
    );
}
