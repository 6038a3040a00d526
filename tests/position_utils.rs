use kaissa::board::{Board, Piece};
use kaissa::params::PositionParams;
use kaissa::position_utils::{parse_fen, set_board_position, set_to_starting_position};

#[test]
fn test_startpos() {
    let mut board = Board {
        board: [Piece::Empty; 64],
        white_to_move: false,
        can_white_castle_kingside: false,
        can_white_castle_queenside: false,
        can_black_castle_kingside: false,
        can_black_castle_queenside: false,
        en_passant_square: 0,
        half_move_capture_or_pawn_clock: 7,
        full_move_number: 66,
    };
    set_to_starting_position(&mut board);
    assert_eq!(board.board[0], Piece::BR);
    assert_eq!(board.board[1], Piece::BN);
    assert_eq!(board.board[2], Piece::BB);
    assert_eq!(board.board[3], Piece::BQ);
    assert_eq!(board.board[4], Piece::BK);
    assert_eq!(board.board[5], Piece::BB);
    assert_eq!(board.board[6], Piece::BN);
    assert_eq!(board.board[7], Piece::BR);
    assert_eq!(board.board[8], Piece::BP);
    for file in 0..8 {
        assert_eq!(board.board[8 + file], Piece::BP);
    }
    for file in 0..8 {
        assert_eq!(board.board[48 + file], Piece::WP);
    }
    assert_eq!(board.board[56], Piece::WR);
    assert_eq!(board.board[57], Piece::WN);
    assert_eq!(board.board[58], Piece::WB);
    assert_eq!(board.board[59], Piece::WQ);
    assert_eq!(board.board[60], Piece::WK);
    assert_eq!(board.board[61], Piece::WB);
    assert_eq!(board.board[62], Piece::WN);
    assert_eq!(board.board[63], Piece::WR);
    assert_eq!(board.white_to_move, true);
    assert_eq!(board.can_white_castle_kingside, true);
    assert_eq!(board.can_black_castle_queenside, true);
    assert_eq!(board.en_passant_square, -1);
    assert_eq!(board.full_move_number, 1);
}

#[test]
fn test_parse_fen_basic() {
    let mut board = Board {
        board: [Piece::Empty; 64],
        white_to_move: true,
        can_white_castle_kingside: true,
        can_white_castle_queenside: true,
        can_black_castle_kingside: true,
        can_black_castle_queenside: true,
        en_passant_square: -1,
        half_move_capture_or_pawn_clock: 0,
        full_move_number: 1,
    };
    let fen = "5rk1/pp4pp/4p3/2R3Q1/3n4/2q4r/P1P2PPP/5RK1 b - - 1 23".to_string();
    let res = parse_fen(&mut board, fen);
    assert!(res.is_ok());
    assert_eq!(board.white_to_move, false);
    assert_eq!(board.can_white_castle_kingside, false);
    assert_eq!(board.can_white_castle_queenside, false);
    assert_eq!(board.can_black_castle_kingside, false);
    assert_eq!(board.can_black_castle_queenside, false);
    assert_eq!(board.en_passant_square, -1);
    assert_eq!(board.half_move_capture_or_pawn_clock, 1);
    assert_eq!(board.full_move_number, 23);
}

#[test]
fn test_set_board_position_with_moves() {
    let mut board = Board {
        board: [Piece::Empty; 64],
        white_to_move: true,
        can_white_castle_kingside: false,
        can_white_castle_queenside: false,
        can_black_castle_kingside: false,
        can_black_castle_queenside: false,
        en_passant_square: -1,
        half_move_capture_or_pawn_clock: 0,
        full_move_number: 1,
    };
    let params = PositionParams {
        is_fen: true,
        position: "5rk1/pp4pp/4p3/2R3Q1/3n4/2q4r/P1P2PPP/5RK1 b - - 1 23".to_string(),
        moves: vec!["c3g3", "g5g3", "d4e2", "g1h1", "e2g3", "f2g3", "f8f1"]
            .into_iter()
            .map(String::from)
            .collect(),
    };
    let result = set_board_position(&mut board, &params);
    assert!(result.is_ok());
    assert_eq!(board.white_to_move, true);
    assert_eq!(board.can_white_castle_kingside, false);
    assert_eq!(board.can_white_castle_queenside, false);
    assert_eq!(board.can_black_castle_kingside, false);
    assert_eq!(board.can_black_castle_queenside, false);
    assert_eq!(board.en_passant_square, -1);
    assert_eq!(board.half_move_capture_or_pawn_clock, 0);
    // Seven moves are played from black's move 23: the fullmove number rises
    // after each of black's four moves.
    assert_eq!(board.full_move_number, 27);
}
