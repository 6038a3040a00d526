use kaissa::board::{Board, Piece};
use kaissa::movegen::{generate_legal_moves, to_index};

fn set_starting_position(board: &mut Board) {
    board.board = [Piece::Empty; 64];

    board.board[0] = Piece::BR;
    board.board[1] = Piece::BN;
    board.board[2] = Piece::BB;
    board.board[3] = Piece::BQ;
    board.board[4] = Piece::BK;
    board.board[5] = Piece::BB;
    board.board[6] = Piece::BN;
    board.board[7] = Piece::BR;
    for file in 0..8 {
        board.board[8 + file] = Piece::BP;
    }

    for file in 0..8 {
        board.board[48 + file] = Piece::WP;
    }
    board.board[56] = Piece::WR;
    board.board[57] = Piece::WN;
    board.board[58] = Piece::WB;
    board.board[59] = Piece::WQ;
    board.board[60] = Piece::WK;
    board.board[61] = Piece::WB;
    board.board[62] = Piece::WN;
    board.board[63] = Piece::WR;

    board.white_to_move = true;
    board.can_white_castle_kingside = true;
    board.can_white_castle_queenside = true;
    board.can_black_castle_kingside = true;
    board.can_black_castle_queenside = true;
    board.en_passant_square = -1;
    board.half_move_capture_or_pawn_clock = 0;
    board.full_move_number = 1;
}

#[test]
fn test_starting_position_move_count() {
    let mut board = Board {
        board: [Piece::Empty; 64],
        white_to_move: true,
        can_white_castle_kingside: true,
        can_white_castle_queenside: true,
        can_black_castle_kingside: true,
        can_black_castle_queenside: true,
        en_passant_square: -1,
        half_move_capture_or_pawn_clock: 0,
        full_move_number: 1,
    };
    set_starting_position(&mut board);

    let moves = generate_legal_moves(&board);
    assert_eq!(moves.len(), 20);
}

#[test]
fn test_two_corner_king_position_move_count() {
    let mut board = Board {
        board: [Piece::Empty; 64],
        white_to_move: true,
        can_white_castle_kingside: false,
        can_white_castle_queenside: false,
        can_black_castle_kingside: false,
        can_black_castle_queenside: false,
        en_passant_square: -1,
        half_move_capture_or_pawn_clock: 0,
        full_move_number: 1,
    };

    board.board[0] = Piece::BK;
    board.board[63] = Piece::WK;

    let moves = generate_legal_moves(&board);
    assert_eq!(moves.len(), 3);
}

#[test]
fn test_most_possible_moves_position_move_count() {
    let mut board = Board {
        board: [Piece::Empty; 64],
        white_to_move: false, // 'b' => black to move
        can_white_castle_kingside: false,
        can_white_castle_queenside: false,
        can_black_castle_kingside: false,
        can_black_castle_queenside: false,
        en_passant_square: -1,
        half_move_capture_or_pawn_clock: 1,
        full_move_number: 59,
    };
    board.board[to_index(0, 3) as usize] = Piece::BQ; // d8
    board.board[to_index(0, 7) as usize] = Piece::BR; // h8
    board.board[to_index(1, 6) as usize] = Piece::WK; // g7
    board.board[to_index(2, 2) as usize] = Piece::BN; // c6
    board.board[to_index(2, 4) as usize] = Piece::BB; // e6
    board.board[to_index(3, 2) as usize] = Piece::BQ; // c5
    board.board[to_index(3, 4) as usize] = Piece::BK; // e5
    board.board[to_index(4, 4) as usize] = Piece::BN; // e4
    board.board[to_index(6, 0) as usize] = Piece::BR; // a2
    board.board[to_index(7, 0) as usize] = Piece::BQ; // a1
    board.board[to_index(7, 1) as usize] = Piece::BQ; // b1
    board.board[to_index(7, 3) as usize] = Piece::BQ; // d1
    board.board[to_index(7, 4) as usize] = Piece::BQ; // e1
    board.board[to_index(7, 5) as usize] = Piece::BQ; // f1
    board.board[to_index(7, 7) as usize] = Piece::BQ; // h1

    let moves = generate_legal_moves(&board);
    assert_eq!(moves.len(), 147);
}
