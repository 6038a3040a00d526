use kaissa::board::{Board, Piece};
use kaissa::params::PositionParams;
use kaissa::position_utils::set_board_position;
use kaissa::search::{move_to_uci, Search};
use std::sync::atomic::AtomicBool;

#[test]
fn find_best_move_white_mate_in_one() {
    let mut board = Board {
        board: [Piece::Empty; 64],
        white_to_move: true,
        can_white_castle_kingside: false,
        can_white_castle_queenside: false,
        can_black_castle_kingside: false,
        can_black_castle_queenside: false,
        en_passant_square: -1,
        half_move_capture_or_pawn_clock: 0,
        full_move_number: 1,
    };
    let params = PositionParams {
        is_fen: true,
        position: "4k3/8/4K3/8/8/8/8/7R w - - 0 1".to_string(),
        moves: vec![],
    };
    set_board_position(&mut board, &params).unwrap();

    let mut search = Search::new();
    let stop = AtomicBool::new(false);

    let best_move = search.find_best_move(&mut board, 2, &stop, None);
    assert!(best_move.is_some());
    assert_eq!(move_to_uci(&best_move.unwrap()), "h1h8");
}

#[test]
fn find_best_move_black_mate_in_one() {
    let mut board = Board {
        board: [Piece::Empty; 64],
        white_to_move: false,
        can_white_castle_kingside: false,
        can_white_castle_queenside: false,
        can_black_castle_kingside: false,
        can_black_castle_queenside: false,
        en_passant_square: -1,
        half_move_capture_or_pawn_clock: 0,
        full_move_number: 1,
    };
    let params = PositionParams {
        is_fen: true,
        position: "7r/8/8/8/8/4k3/8/4K3 b - - 0 1".to_string(),
        moves: vec![],
    };
    set_board_position(&mut board, &params).unwrap();

    let mut search = Search::new();
    let stop = AtomicBool::new(false);

    let best_move = search.find_best_move(&mut board, 2, &stop, None);
    assert!(best_move.is_some());
    assert_eq!(move_to_uci(&best_move.unwrap()), "h8h1");
}

#[test]
fn find_best_move_hanging_queen() {
    let mut board = Board {
        board: [Piece::Empty; 64],
        white_to_move: true,
        can_white_castle_kingside: false,
        can_white_castle_queenside: false,
        can_black_castle_kingside: false,
        can_black_castle_queenside: false,
        en_passant_square: -1,
        half_move_capture_or_pawn_clock: 0,
        full_move_number: 1,
    };
    let params = PositionParams {
        is_fen: true,
        position: "rnb1kbnr/pppp1ppp/8/4p1q1/4P3/5N2/PPPP1PPP/RNBQKB1R w - - 0 1".to_string(),
        moves: vec![],
    };
    set_board_position(&mut board, &params).unwrap();

    let mut search = Search::new();
    let stop = AtomicBool::new(false);

    let best_move = search.find_best_move(&mut board, 2, &stop, None);
    assert!(best_move.is_some());
    assert_eq!(move_to_uci(&best_move.unwrap()), "f3g5");
}

#[test]
fn find_best_move_knight_fork() {
    let mut board = Board {
        board: [Piece::Empty; 64],
        white_to_move: true,
        can_white_castle_kingside: false,
        can_white_castle_queenside: false,
        can_black_castle_kingside: false,
        can_black_castle_queenside: false,
        en_passant_square: -1,
        half_move_capture_or_pawn_clock: 0,
        full_move_number: 1,
    };
    let params = PositionParams {
        is_fen: true,
        position: "8/4k3/7q/8/8/4N3/4K3/4R3 w - - 0 1".to_string(),
        moves: vec![],
    };
    set_board_position(&mut board, &params).unwrap();

    let mut search = Search::new();
    let stop = AtomicBool::new(false);

    let best_move = search.find_best_move(&mut board, 4, &stop, None);
    assert!(best_move.is_some());
    assert_eq!(move_to_uci(&best_move.unwrap()), "e3f5");
}

#[test]
fn find_best_move_queen_sac_smothered_mate() {
    let mut board = Board {
        board: [Piece::Empty; 64],
        white_to_move: true,
        can_white_castle_kingside: false,
        can_white_castle_queenside: false,
        can_black_castle_kingside: false,
        can_black_castle_queenside: false,
        en_passant_square: -1,
        half_move_capture_or_pawn_clock: 0,
        full_move_number: 1,
    };
    let params = PositionParams {
        is_fen: true,
        position: "r6k/1p1b1Qbp/1n2B1pN/p7/Pq6/8/1P4PP/R6K w - - 1 27".to_string(),
        moves: vec![],
    };
    set_board_position(&mut board, &params).unwrap();

    let mut search = Search::new();
    let stop = AtomicBool::new(false);

    let best_move = search.find_best_move(&mut board, 4, &stop, None);
    assert!(best_move.is_some());
    assert_eq!(move_to_uci(&best_move.unwrap()), "f7g8");
}

#[test]
fn find_best_move_opening_hanging_bishop() {
    let mut board = Board {
        board: [Piece::Empty; 64],
        white_to_move: false,
        can_white_castle_kingside: true,
        can_white_castle_queenside: true,
        can_black_castle_kingside: true,
        can_black_castle_queenside: true,
        en_passant_square: -1,
        half_move_capture_or_pawn_clock: 0,
        full_move_number: 1,
    };
    let params = PositionParams {
        is_fen: true,
        position: "rnb1kbnr/ppqppppp/2p5/1B6/3PP3/2P5/PP3PPP/RNBQK1NR b KQkq - 0 1".to_string(),
        moves: vec![],
    };
    set_board_position(&mut board, &params).unwrap();

    let mut search = Search::new();
    let stop = AtomicBool::new(false);

    let best_move = search.find_best_move(&mut board, 3, &stop, None);
    assert!(best_move.is_some());
    assert_eq!(move_to_uci(&best_move.unwrap()), "c6b5");
}
