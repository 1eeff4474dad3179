use uttt::board::{Board, Player, Square};

#[test]
fn test_basic_moves_2lv() {
    let mut b = Board::new(2);
    let moves = vec![20, 22, 38, 21, 29, 23, 50, 49, 41, 46, 14, 52];
    for i in moves {
        assert!(b.make_move(i));
        println!("move: {}", i);
    }
    assert!(b.make_move(68));
    assert!(!b.make_move(48));
}

#[test]
fn test_basic_victory_2lv() {
    let mut b = Board::new(2);
    let moves = vec![0, 3, 27, 4, 36, 5, 46, 13, 37, 12, 28, 14, 47, 22, 38, 21, 29, 23];
    for i in moves {
        assert!(b.make_move(i));
        println!("move: {}", i);
    }
    assert!(b.winner == Player::O);
}

#[test]
fn test_undo_basic_victory_2lv() {
    let mut b = Board::new(2);
    let moves = vec![0, 3, 27, 4, 36, 5, 46, 13, 37, 12, 28, 14, 47, 22, 38, 21, 29, 23];
    for i in &moves {
        assert!(b.make_move(*i));
        println!("move: {}", i);
    }
    for _i in &moves {
        b.undo_move();
    }
    for i in &moves {
        assert!(b.make_move(*i));
        println!("move: {}", i);
    }
    assert!(b.winner == Player::O);
}

#[test]
fn test_full_square_ascend_2lv() {
    let mut b = Board::new(2);
    let moves = vec![
        0, 1, 10, 9, 5, 45, 7, 70, 71, 80, 72, 4, 36, 8, 73, 11, 18, 2, 20, 21, 27, 3, 33, 54, 6,
        61, 63, 13,
    ];
    for i in moves {
        assert!(b.make_move(i));
        println!("move: {}", i);
    }
}

#[test]
fn test_draw_2lv() {
    let mut b = Board::new(2);
    let moves = vec![
        0, 1, 9, 4, 36, 7, 70, 71, 79, 67, 43, 63, 20, 21, 31, 40, 37, 13, 38, 23, 49, 22, 10, 14,
        52, 55, 11, 50, 46, 30, 29, 27, 32, 33, 58, 78, 59, 72, 57, 73, 74, 76, 77, 80,
    ];
    for i in moves {
        assert!(b.make_move(i));
        println!("move: {}", i);
    }
    assert!(b.winner == Player::DEAD);
}

#[test]
fn test_basic_undo_2lv() {
    let mut b = Board::new(2);
    let moves = vec![20, 22, 38, 21, 29, 23, 50, 49, 41, 46, 14, 52];
    for i in &moves {
        assert!(b.make_move(*i));
        assert!(b.undo_move());
        assert!(b.make_move(*i));
        println!("move: {}", *i);
    }
    assert!(b.make_move(68));
    assert!(!b.make_move(48));

    for _i in 0..(moves.len() + 1) {
        assert!(b.undo_move());
    }

    for i in &moves {
        assert!(b.make_move(*i));
        assert!(b.undo_move());
        assert!(b.make_move(*i));
        println!("move: {}", *i);
    }
    assert!(b.make_move(68));
    assert!(!b.make_move(48));
}

#[test]
fn test_basic_victory_undo_2lv() {
    let mut b = Board::new(2);
    let moves = vec![0, 3, 27, 4, 36, 5, 46, 13, 37, 12, 28, 14, 47, 22, 38, 21, 29, 23];
    for i in &moves {
        assert!(b.make_move(*i));
        assert!(b.undo_move());
        assert!(b.make_move(*i));
        println!("move: {}", *i);
    }
    assert!(b.winner == Player::O);
    for _i in 0..moves.len() {
        assert!(b.undo_move());
    }

    for i in &moves {
        assert!(b.make_move(*i));
        assert!(b.undo_move());
        assert!(b.make_move(*i));
        println!("move: {}", *i);
    }
    assert!(b.winner == Player::O);
}

#[test]
fn test_full_square_ascend_undo_2lv() {
    let mut b = Board::new(2);
    let moves = vec![
        0, 1, 10, 9, 5, 45, 7, 70, 71, 80, 72, 4, 36, 8, 73, 11, 18, 2, 20, 21, 27, 3, 33, 54, 6,
        61, 63, 13,
    ];
    for i in moves {
        assert!(b.make_move(i));
        assert!(b.undo_move());
        assert!(b.make_move(i));
        println!("move: {}", i);
    }
}

#[test]
fn test_undo_restores_initial_state() {
    // Undoing every move of a decided game restores the initial state
    // exactly, and replaying decides it again the same way.
    let mut b = Board::new(2);
    let moves = vec![0, 3, 27, 4, 36, 5, 46, 13, 37, 12, 28, 14, 47, 22, 38, 21, 29, 23];
    for i in &moves {
        assert!(b.make_move(*i));
    }
    assert!(b.winner == Player::O);
    for _i in 0..moves.len() {
        assert!(b.undo_move());
    }
    let fresh = Board::new(2);
    assert!(b == fresh);
    assert!(!b.undo_move());
    for i in &moves {
        assert!(b.make_move(*i));
    }
    assert!(b.winner == Player::O);
}

#[test]
fn test_make_undo_round_trip_per_move() {
    // After each single move, one undo restores the exact prior board.
    let mut b = Board::new(2);
    let moves = vec![20, 22, 38, 21, 29, 23, 50, 49];
    for i in &moves {
        let before = b.clone();
        assert!(b.make_move(*i));
        assert!(b.undo_move());
        assert!(b == before);
        assert!(b.make_move(*i));
    }
}

#[test]
fn test_accepted_moves_are_generated() {
    // Every move that make_move accepts was in get_moves just before.
    let mut b = Board::new(2);
    for i in [20usize, 22, 38, 21, 29, 23] {
        let moves = b.get_moves();
        assert!(moves.contains(&i));
        assert!(b.make_move(i));
    }
    // And a rejected move was not.
    let moves = b.get_moves();
    assert!(!moves.contains(&20));
    assert!(!b.make_move(20));
}

#[test]
fn test_fresh_board_moves() {
    let b = Board::new(2);
    let moves = b.get_moves();
    assert_eq!(moves.len(), 81);
    assert_eq!(moves[0], 0);
    assert_eq!(moves[80], 80);
    assert_eq!(b.get_to_move(), Player::X);
    assert_eq!(b.winner, Player::NEITHER);
}

#[test]
fn test_forced_sub_board() {
    // A move in a sub-board's cell 4 forces the opponent into sub-board 4.
    let mut b = Board::new(2);
    assert!(b.make_move(40));
    assert_eq!(b.next_legal, Square { top_left: 36, level: 1 });
    let moves = b.get_moves();
    assert_eq!(moves, vec![36, 37, 38, 39, 41, 42, 43, 44]);
}

#[test]
fn test_ongoing_game_always_has_moves() {
    // While the game is undecided the move generator is never empty.
    let mut b = Board::new(2);
    let moves = vec![0, 3, 27, 4, 36, 5, 46, 13, 37, 12, 28, 14, 47, 22, 38, 21, 29];
    for i in &moves {
        assert_eq!(b.winner, Player::NEITHER);
        assert!(!b.get_moves().is_empty());
        assert!(b.make_move(*i));
    }
}

#[test]
fn test_check_victory_open_square() {
    // An unresolved square with no completed line of a real player is
    // reported as open by both victory checks.
    let b = Board::new(2);
    let sq = Square { top_left: 0, level: 1 };
    assert_eq!(b.check_victory(&sq), Player::NEITHER);
    assert_eq!(b.check_victory_old(&sq), Player::NEITHER);
    let top = Square { top_left: 0, level: 2 };
    assert_eq!(b.check_victory(&top), Player::NEITHER);
    assert_eq!(b.check_victory_old(&top), Player::NEITHER);
}

#[test]
fn test_winner_has_line_of_sub_boards() {
    // When O wins, O owns a completed line of level-1 sub-boards.
    let mut b = Board::new(2);
    let moves = vec![0, 3, 27, 4, 36, 5, 46, 13, 37, 12, 28, 14, 47, 22, 38, 21, 29, 23];
    for i in moves {
        assert!(b.make_move(i));
    }
    assert_eq!(b.winner, Player::O);
    // O captured the top row of sub-boards.
    assert_eq!(b.get(Square { top_left: 0, level: 1 }), Player::O);
    assert_eq!(b.get(Square { top_left: 9, level: 1 }), Player::O);
    assert_eq!(b.get(Square { top_left: 18, level: 1 }), Player::O);
    // Both victory checks see O's line, whoever is to move.
    let top = Square { top_left: 0, level: 2 };
    assert_eq!(b.check_victory_old(&top), Player::O);
    assert_eq!(b.check_victory(&top), Player::O);
}

#[test]
fn test_check_victory_reports_either_player() {
    // O completes the middle row of sub-board 0; with X to move, both
    // victory checks still report O's line.
    let mut b = Board::new(2);
    for i in [0usize, 3, 27, 4, 36, 5] {
        assert!(b.make_move(i));
    }
    assert_eq!(b.get_to_move(), Player::X);
    let sq = Square { top_left: 0, level: 1 };
    assert_eq!(b.check_victory(&sq), Player::O);
    assert_eq!(b.check_victory_old(&sq), Player::O);
    // The sub-board was captured for O on the spot.
    assert_eq!(b.get(sq), Player::O);
}
