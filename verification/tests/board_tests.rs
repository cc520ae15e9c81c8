use jungo::board::{Board, Stone};

#[test]
fn test_stone_opposite() {
    assert_eq!(Stone::Black.opposite(), Stone::White);
    assert_eq!(Stone::White.opposite(), Stone::Black);
}

#[test]
fn test_board_creation() {
    let board = Board::new(9);
    assert_eq!(board.size(), 9);
    assert!(board.is_empty());
}

#[test]
fn test_board_place_stone() {
    let mut board = Board::new(9);

    assert!(board.place_stone(0, 0, Stone::Black).is_ok());
    assert_eq!(board.get(0, 0), Some(Stone::Black));

    assert!(board.place_stone(0, 0, Stone::White).is_err());
}

#[test]
fn test_board_is_valid_move() {
    let mut board = Board::new(9);

    assert!(board.is_valid_move(0, 0, Stone::Black));
    assert!(board.is_valid_move(8, 8, Stone::White));
    assert!(!board.is_valid_move(9, 0, Stone::Black));
    assert!(!board.is_valid_move(0, 9, Stone::White));

    board.place_stone(0, 0, Stone::Black).unwrap();
    assert!(!board.is_valid_move(0, 0, Stone::White));
}

#[test]
fn test_simple_capture() {
    let mut board = Board::new(9);

    board.place_stone(1, 0, Stone::Black).unwrap();
    board.place_stone(0, 1, Stone::Black).unwrap();
    board.place_stone(0, 0, Stone::White).unwrap();

    assert_eq!(board.get(0, 0), None);
    assert_eq!(board.get_captured(), (0, 0));
}

#[test]
fn test_group_capture() {
    let mut board = Board::new(9);

    board.place_stone(1, 0, Stone::White).unwrap();
    board.place_stone(2, 0, Stone::White).unwrap();
    board.place_stone(1, 1, Stone::White).unwrap();

    board.place_stone(0, 0, Stone::Black).unwrap();
    board.place_stone(0, 1, Stone::Black).unwrap();
    board.place_stone(1, 2, Stone::Black).unwrap();
    board.place_stone(2, 1, Stone::Black).unwrap();
    board.place_stone(3, 0, Stone::Black).unwrap();

    assert_eq!(board.get(1, 0), None);
    assert_eq!(board.get(2, 0), None);
    assert_eq!(board.get(1, 1), None);
    assert_eq!(board.get_captured(), (3, 0));
}

#[test]
fn test_count_stones() {
    let mut board = Board::new(9);

    board.place_stone(0, 0, Stone::Black).unwrap();
    board.place_stone(1, 0, Stone::White).unwrap();
    board.place_stone(2, 0, Stone::Black).unwrap();
    board.place_stone(3, 0, Stone::White).unwrap();

    let (black, white) = board.count_stones();
    assert_eq!(black, 2);
    assert_eq!(white, 2);
}

#[test]
fn test_edge_coordinates() {
    let mut board = Board::new(9);

    assert!(board.place_stone(0, 0, Stone::Black).is_ok());
    assert!(board.place_stone(8, 0, Stone::White).is_ok());
    assert!(board.place_stone(0, 8, Stone::Black).is_ok());
    assert!(board.place_stone(8, 8, Stone::White).is_ok());

    assert!(board.place_stone(9, 0, Stone::Black).is_err());
    assert!(board.place_stone(0, 9, Stone::White).is_err());
}

#[test]
fn test_liberty_calculation() {
    let mut board = Board::new(9);

    board.place_stone(4, 4, Stone::Black).unwrap();

    board.place_stone(3, 4, Stone::White).unwrap();
    board.place_stone(5, 4, Stone::White).unwrap();
    board.place_stone(4, 3, Stone::White).unwrap();
    board.place_stone(4, 5, Stone::White).unwrap();

    assert_eq!(board.get(4, 4), None);
    assert_eq!(board.get_captured(), (0, 1));
}

#[test]
fn test_corner_capture() {
    let mut board = Board::new(9);

    board.place_stone(1, 0, Stone::Black).unwrap();
    board.place_stone(0, 1, Stone::Black).unwrap();
    board.place_stone(0, 0, Stone::White).unwrap();

    assert_eq!(board.get(0, 0), None);
    assert_eq!(board.get_captured(), (0, 0));
}

#[test]
fn test_self_capture_allowed() {
    let mut board = Board::new(9);

    board.place_stone(1, 0, Stone::Black).unwrap();
    board.place_stone(0, 1, Stone::Black).unwrap();

    assert!(board.place_stone(0, 0, Stone::White).is_ok());
    assert_eq!(board.get(0, 0), None);
}

#[test]
fn test_large_group_capture() {
    let mut board = Board::new(9);

    for i in 0..4 {
        board.place_stone(i, 0, Stone::White).unwrap();
        board.place_stone(i, 1, Stone::White).unwrap();
    }

    for i in 0..4 {
        board.place_stone(i, 2, Stone::Black).unwrap();
        if i < 3 {
            board.place_stone(i + 1, 3, Stone::Black).unwrap();
        }
    }
    board.place_stone(4, 0, Stone::Black).unwrap();
    board.place_stone(4, 1, Stone::Black).unwrap();
    board.place_stone(0, 3, Stone::Black).unwrap();

    for i in 0..4 {
        assert_eq!(board.get(i, 0), None);
        assert_eq!(board.get(i, 1), None);
    }
    assert_eq!(board.get_captured(), (8, 0));
}

#[test]
fn test_suicide_without_capture_invalid() {
    let mut board = Board::new(5);

    for y in 0..5 {
        for x in 0..5 {
            if !(y == 3 && (x == 0 || x == 2)) {
                board.place_stone(x, y, Stone::Black).unwrap();
            }
        }
    }

    assert!(!board.is_valid_move(0, 3, Stone::White));
    assert!(!board.is_valid_move(2, 3, Stone::White));
}

#[test]
fn test_suicide_with_capture_valid() {
    let mut board = Board::new(5);

    board.place_stone(0, 0, Stone::White).unwrap();
    board.place_stone(1, 0, Stone::Black).unwrap();
    board.place_stone(0, 1, Stone::Black).unwrap();
    board.place_stone(1, 1, Stone::White).unwrap();

    assert!(board.is_valid_move(0, 0, Stone::Black));
}

#[test]
fn test_eye_detection() {
    let mut board = Board::new(5);

    board.place_stone(0, 0, Stone::Black).unwrap();
    board.place_stone(1, 0, Stone::Black).unwrap();
    board.place_stone(0, 1, Stone::Black).unwrap();
    board.place_stone(2, 1, Stone::Black).unwrap();
    board.place_stone(1, 2, Stone::Black).unwrap();

    assert!(board.is_eye(1, 1, Stone::Black));
    assert!(!board.is_eye(1, 1, Stone::White));

    assert!(!board.is_eye(3, 3, Stone::Black));
}

#[test]
fn test_corner_eye() {
    let mut board = Board::new(5);

    board.place_stone(1, 0, Stone::White).unwrap();
    board.place_stone(0, 1, Stone::White).unwrap();
    board.place_stone(1, 1, Stone::White).unwrap();

    assert!(board.is_eye(0, 0, Stone::White));
    assert!(!board.is_eye(0, 0, Stone::Black));
}

#[test]
fn test_edge_eye() {
    let mut board = Board::new(5);

    board.place_stone(0, 0, Stone::Black).unwrap();
    board.place_stone(2, 0, Stone::Black).unwrap();
    board.place_stone(1, 1, Stone::Black).unwrap();

    assert!(board.is_eye(1, 0, Stone::Black));
}

#[test]
fn test_false_eye() {
    let mut board = Board::new(5);

    board.place_stone(1, 0, Stone::Black).unwrap();
    board.place_stone(0, 1, Stone::Black).unwrap();
    board.place_stone(2, 1, Stone::Black).unwrap();
    board.place_stone(1, 2, Stone::Black).unwrap();

    board.place_stone(0, 0, Stone::White).unwrap();
    board.place_stone(2, 0, Stone::White).unwrap();
    board.place_stone(0, 2, Stone::White).unwrap();
    board.place_stone(2, 2, Stone::White).unwrap();

    assert!(!board.is_eye(1, 1, Stone::Black));
}

#[test]
fn test_fresh_board_no_eyes_no_captures() {
    // A freshly constructed board of any size has no stones, no capture
    // credit, and no eyes for either colour.
    for size in [1, 2, 5, 9] {
        let board = Board::new(size);
        assert_eq!(board.count_stones(), (0, 0));
        assert_eq!(board.get_captured(), (0, 0));
        assert_eq!(board.count_eyes_for_color(Stone::Black), 0);
        assert_eq!(board.count_eyes_for_color(Stone::White), 0);
        assert_eq!(board.get_hash(), 0);
    }
}

#[test]
fn test_place_stone_error_messages() {
    let mut board = Board::new(5);
    assert_eq!(board.place_stone(5, 0, Stone::Black), Err("Position out of bounds"));
    assert_eq!(board.place_stone(0, 7, Stone::White), Err("Position out of bounds"));
    board.place_stone(2, 2, Stone::Black).unwrap();
    assert_eq!(board.place_stone(2, 2, Stone::White), Err("Position already occupied"));
}

#[test]
fn test_failed_place_changes_nothing() {
    // A rejected placement leaves grid, counters and hash untouched.
    let mut board = Board::new(5);
    board.place_stone(1, 1, Stone::Black).unwrap();
    let hash_before = board.get_hash();
    let captured_before = board.get_captured();
    let stones_before = board.count_stones();

    assert!(board.place_stone(1, 1, Stone::White).is_err());
    assert!(board.place_stone(9, 9, Stone::White).is_err());

    assert_eq!(board.get_hash(), hash_before);
    assert_eq!(board.get_captured(), captured_before);
    assert_eq!(board.count_stones(), stones_before);
    assert_eq!(board.get(1, 1), Some(Stone::Black));
}

#[test]
fn test_self_capture_gives_no_credit() {
    // A move that leaves its own new group with no liberty and captures
    // nothing removes the group without crediting anyone.
    let mut board = Board::new(9);
    board.place_stone(1, 0, Stone::Black).unwrap();
    board.place_stone(0, 1, Stone::Black).unwrap();
    let before = board.get_captured();
    assert!(board.place_stone(0, 0, Stone::White).is_ok());
    assert_eq!(board.get(0, 0), None);
    assert_eq!(board.get_captured(), before);
    // the mover's own removed stone is not counted either way
    assert_eq!(board.count_stones(), (2, 0));
}

#[test]
fn test_interior_eye_diagonal_tolerance() {
    // On a 5x5 board, the mover's stones on the four orthogonal neighbours of
    // an interior point make it an eye when at most one diagonal is opposing.
    let mut board = Board::new(5);
    board.place_stone(1, 2, Stone::Black).unwrap();
    board.place_stone(3, 2, Stone::Black).unwrap();
    board.place_stone(2, 1, Stone::Black).unwrap();
    board.place_stone(2, 3, Stone::Black).unwrap();
    board.place_stone(1, 1, Stone::White).unwrap();

    assert!(board.is_eye(2, 2, Stone::Black));
    assert!(!board.is_eye(2, 2, Stone::White));

    // two opposing diagonals break the eye
    board.place_stone(3, 3, Stone::White).unwrap();
    assert!(!board.is_eye(2, 2, Stone::Black));

    // removing one orthogonal neighbour makes it an eye for neither colour
    let mut board2 = Board::new(5);
    board2.place_stone(1, 2, Stone::Black).unwrap();
    board2.place_stone(3, 2, Stone::Black).unwrap();
    board2.place_stone(2, 1, Stone::Black).unwrap();
    board2.place_stone(1, 1, Stone::White).unwrap();
    assert!(!board2.is_eye(2, 2, Stone::Black));
    assert!(!board2.is_eye(2, 2, Stone::White));
}

#[test]
fn test_would_result_in_hash() {
    let board = Board::new(5);
    // legal move: a hash is offered, and it matches actually playing the move
    let h = board.would_result_in_hash(2, 2, Stone::Black);
    assert!(h.is_some());
    let mut played = board.clone();
    played.place_stone(2, 2, Stone::Black).unwrap();
    assert_eq!(h, Some(played.get_hash()));

    // occupied and out-of-range points offer nothing
    assert_eq!(played.would_result_in_hash(2, 2, Stone::White), None);
    assert_eq!(played.would_result_in_hash(7, 7, Stone::White), None);
}
