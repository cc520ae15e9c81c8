use jungo::ai::fast_random::FastRandomAI;
use jungo::ai::light_random::LightRandomAI;
use jungo::ai::mc::MonteCarloAI;
use jungo::ai::mcts::{get_valid_moves, Mcts};
use jungo::ai::minimax::MinimaxAI;
use jungo::ai::random::RandomAI;
use jungo::board::{Board, Stone};
use jungo::player::Player;

#[test]
fn test_random_ai_plays_legal_moves() {
    let ai = jungo::ai::RandomAI::new();
    let board = Board::new(5);
    for _ in 0..20 {
        let mv = ai.get_move(&board, Stone::Black);
        let (x, y) = mv.expect("an empty board has moves");
        assert!(board.is_valid_move(x, y, Stone::Black));
    }
}

#[test]
fn test_random_ai_passes_on_full_board() {
    let mut board = Board::new(2);
    // fill the board so that no point is playable for White
    board.place_stone(0, 0, Stone::White).unwrap();
    board.place_stone(1, 0, Stone::White).unwrap();
    board.place_stone(0, 1, Stone::White).unwrap();
    // (1, 1) is now an eye of a group with a single eye: White must pass
    let ai = RandomAI::new();
    assert_eq!(ai.get_move(&board, Stone::White), None);
}

#[test]
fn test_fast_random_finds_the_only_move() {
    // exactly one legal point for White on this 2x2 board
    let mut board = Board::new(2);
    board.place_stone(0, 0, Stone::Black).unwrap();
    board.place_stone(1, 0, Stone::Black).unwrap();
    board.place_stone(0, 1, Stone::Black).unwrap();
    let ai = FastRandomAI::new();
    for _ in 0..10 {
        assert_eq!(ai.get_move(&board, Stone::White), Some((1, 1)));
    }
}

#[test]
fn test_light_random_fast_move_is_legal() {
    let mut ai = LightRandomAI::new();
    let board = Board::new(5);
    for _ in 0..20 {
        let (x, y) = ai.get_fast_move(&board, Stone::White).expect("moves exist");
        assert!(board.is_valid_move(x, y, Stone::White));
    }
}

#[test]
fn test_get_valid_moves_avoids_scarce_eyes() {
    // Black owns one eye at (1, 1); with at most two eyes the rollout
    // candidates exclude it while other legal points exist.
    let mut board = Board::new(5);
    board.place_stone(0, 0, Stone::Black).unwrap();
    board.place_stone(1, 0, Stone::Black).unwrap();
    board.place_stone(0, 1, Stone::Black).unwrap();
    board.place_stone(2, 1, Stone::Black).unwrap();
    board.place_stone(1, 2, Stone::Black).unwrap();
    assert!(board.is_eye(1, 1, Stone::Black));
    assert!(board.is_valid_move(1, 1, Stone::Black));

    let moves = get_valid_moves(&board, Stone::Black);
    assert!(!moves.is_empty());
    assert!(!moves.contains(&(1, 1)));
}

#[test]
fn test_mcts_single_choice_returns_immediately() {
    // a position with exactly one candidate point: MCTS returns it at once,
    // without running any simulations (so even a long budget is no delay)
    let mut board = Board::new(2);
    board.place_stone(0, 0, Stone::Black).unwrap();
    board.place_stone(1, 0, Stone::Black).unwrap();
    board.place_stone(0, 1, Stone::Black).unwrap();

    let ai = Mcts::new(3600);
    let start = std::time::Instant::now();
    assert_eq!(ai.get_move(&board, Stone::White), Some((1, 1)));
    assert!(start.elapsed() < std::time::Duration::from_secs(60));
}

#[test]
fn test_mcts_plays_a_legal_move() {
    let ai = Mcts::new_with_millis(50);
    let board = Board::new(3);
    let mv = ai.get_move(&board, Stone::Black);
    let (x, y) = mv.expect("an empty board has moves");
    assert!(board.is_valid_move(x, y, Stone::Black));
}

#[test]
fn test_minimax_depth_one_matches_static_argmax() {
    // depth-1 minimax picks the same move as directly comparing the static
    // evaluation of each one-ply successor, ties resolved to the first move
    // in row-major enumeration order
    let mut board = Board::new(3);
    board.place_stone(0, 0, Stone::Black).unwrap();
    board.place_stone(2, 2, Stone::White).unwrap();
    board.place_stone(2, 1, Stone::Black).unwrap();

    let ai = MinimaxAI::new(1);
    let mut expected: Option<(usize, usize)> = None;
    let mut best_score: Option<i64> = None;
    for y in 0..3 {
        for x in 0..3 {
            if board.is_valid_move(x, y, Stone::Black) {
                let mut successor = board.clone();
                successor.place_stone(x, y, Stone::Black).unwrap();
                let score = ai.evaluate_board(&successor, Stone::Black);
                if best_score.is_none() || score > best_score.unwrap() {
                    best_score = Some(score);
                    expected = Some((x, y));
                }
            }
        }
    }
    assert!(expected.is_some());
    assert_eq!(ai.get_move(&board, Stone::Black), expected);
}

#[test]
fn test_minimax_takes_the_capture() {
    // White at (0, 0) is in atari; depth-1 minimax for Black prefers the
    // capturing move, which maximises the material evaluation
    let mut board = Board::new(3);
    board.place_stone(0, 0, Stone::White).unwrap();
    board.place_stone(1, 0, Stone::Black).unwrap();

    let ai = MinimaxAI::new(1);
    assert_eq!(ai.get_move(&board, Stone::Black), Some((0, 1)));
}

#[test]
fn test_full_minimax_plays_legal_moves() {
    let ai = jungo::ai::MinimaxAI::new(2);
    let mut board = Board::new(3);
    board.place_stone(1, 1, Stone::Black).unwrap();
    let mv = ai.get_move(&board, Stone::White);
    let (x, y) = mv.expect("moves exist");
    assert!(board.is_valid_move(x, y, Stone::White));
}

#[test]
fn test_monte_carlo_plays_legal_moves() {
    let ai = MonteCarloAI::new(0);
    let board = Board::new(3);
    let mv = ai.get_move(&board, Stone::Black);
    let (x, y) = mv.expect("an empty board has moves");
    assert!(board.is_valid_move(x, y, Stone::Black));
}

#[test]
fn test_flat_mcts_plays_legal_moves() {
    let ai = jungo::ai::Mcts::new(0);
    let board = Board::new(3);
    let mv = ai.get_move(&board, Stone::White);
    let (x, y) = mv.expect("an empty board has moves");
    assert!(board.is_valid_move(x, y, Stone::White));
}

#[test]
fn test_agent_names() {
    assert_eq!(jungo::ai::RandomAI::new().name(), "Random AI");
    assert_eq!(jungo::ai::minimax::MinimaxAI::new(3).name(), "Minimax AI (depth 3)");
    assert_eq!(MonteCarloAI::new(2).name(), "Monte Carlo AI (2s)");
    assert_eq!(Mcts::new(1).name(), "MCTS AI (1s)");
    assert_eq!(jungo::player::HumanPlayer::new().name(), "Human");
}
