use kaissa::board::{board_to_string, piece_to_char, square_to_algebraic, Board, Piece};
use kaissa::chessmove::{ChessMove, UndoInfo};
use kaissa::movegen::{
    col_of, generate_legal_moves, is_checkmate, is_king_in_check, is_stalemate, make_move,
    row_of, to_index, unmake_move,
};
use kaissa::params::PositionParams;
use kaissa::position_utils::{parse_fen, set_board_position, set_to_starting_position};
use kaissa::search::{
    move_to_uci, requested_depth, root_answer, NodeType, Search, TranspositionTable, MATE_SCORE,
};
use std::sync::atomic::AtomicBool;
use std::time::Duration;

fn empty_board() -> Board {
    Board {
        board: [Piece::Empty; 64],
        white_to_move: true,
        can_white_castle_kingside: false,
        can_white_castle_queenside: false,
        can_black_castle_kingside: false,
        can_black_castle_queenside: false,
        en_passant_square: -1,
        half_move_capture_or_pawn_clock: 0,
        full_move_number: 1,
    }
}

fn board_from_fen(fen: &str) -> Board {
    let mut board = empty_board();
    parse_fen(&mut board, fen.to_string()).unwrap();
    board
}

fn board_after(fen: Option<&str>, moves: &[&str]) -> Result<Board, String> {
    let mut board = empty_board();
    let params = PositionParams {
        is_fen: fen.is_some(),
        position: fen.unwrap_or("").to_string(),
        moves: moves.iter().map(|m| m.to_string()).collect(),
    };
    set_board_position(&mut board, &params).map(|_| board)
}

fn same_board(a: &Board, b: &Board) -> bool {
    a.board == b.board
        && a.white_to_move == b.white_to_move
        && a.can_white_castle_kingside == b.can_white_castle_kingside
        && a.can_white_castle_queenside == b.can_white_castle_queenside
        && a.can_black_castle_kingside == b.can_black_castle_kingside
        && a.can_black_castle_queenside == b.can_black_castle_queenside
        && a.en_passant_square == b.en_passant_square
        && a.half_move_capture_or_pawn_clock == b.half_move_capture_or_pawn_clock
        && a.full_move_number == b.full_move_number
}

fn undo_for(board: &Board, mv: &ChessMove, key: u64) -> UndoInfo {
    UndoInfo {
        the_move: *mv,
        piece_moved: board.board[mv.from as usize],
        white_to_move_before: board.white_to_move,
        can_white_castle_kingside_before: board.can_white_castle_kingside,
        can_white_castle_queenside_before: board.can_white_castle_queenside,
        can_black_castle_kingside_before: board.can_black_castle_kingside,
        can_black_castle_queenside_before: board.can_black_castle_queenside,
        en_passant_square_before: board.en_passant_square,
        half_move_capture_or_pawn_clock_before: board.half_move_capture_or_pawn_clock,
        full_move_number_before: board.full_move_number,
        zobrist_key_before: key,
    }
}

fn uci_moves(board: &Board) -> Vec<String> {
    generate_legal_moves(board).iter().map(move_to_uci).collect()
}

const SAMPLE_FENS: [&str; 5] = [
    "rnbqkbnr/pppppppp/8/8/8/8/PPPPPPPP/RNBQKBNR w KQkq - 0 1",
    "r3k2r/p1ppqpb1/bn2pnp1/3PN3/1p2P3/2N2Q1p/PPPBBPPP/R3K2R w KQkq - 0 1",
    "rnbqkbnr/ppp1p1pp/8/3pPp2/8/8/PPPP1PPP/RNBQKBNR w KQkq f6 0 3",
    "r3k2r/8/8/8/8/8/8/R3K2R b KQkq - 3 20",
    "8/P6k/8/8/8/8/6Kp/8 w - - 0 50",
];

#[test]
fn unmake_restores_every_field_and_key() {
    let search = Search::new();
    for fen in SAMPLE_FENS {
        let start = board_from_fen(fen);
        for mv in generate_legal_moves(&start) {
            let mut board = start;
            let key = search.zobrist_key(&board);
            let undo = undo_for(&board, &mv, key);
            make_move(&mut board, &mv);
            unmake_move(&mut board, &mv, &undo);
            assert!(same_board(&board, &start), "{} {}", fen, move_to_uci(&mv));
            assert_eq!(search.zobrist_key(&board), undo.zobrist_key_before);
        }
    }
}

#[test]
fn zobrist_key_ignores_move_counters() {
    let search = Search::new();
    let a = board_from_fen("rnbqkbnr/pppppppp/8/8/4P3/8/PPPP1PPP/RNBQKBNR b KQkq e3 0 1");
    let b = board_from_fen("rnbqkbnr/pppppppp/8/8/4P3/8/PPPP1PPP/RNBQKBNR b KQkq e3 17 40");
    assert_eq!(search.zobrist_key(&a), search.zobrist_key(&b));
    let c = board_from_fen("rnbqkbnr/pppppppp/8/8/4P3/8/PPPP1PPP/RNBQKBNR w KQkq e3 0 1");
    let d = board_from_fen("rnbqkbnr/pppppppp/8/8/4P3/8/PPPP1PPP/RNBQKBNR b KQk e3 0 1");
    let e = board_from_fen("rnbqkbnr/pppppppp/8/8/4P3/8/PPPP1PPP/RNBQKBNR b KQkq - 0 1");
    assert_ne!(search.zobrist_key(&a), search.zobrist_key(&c));
    assert_ne!(search.zobrist_key(&a), search.zobrist_key(&d));
    assert_ne!(search.zobrist_key(&a), search.zobrist_key(&e));
}

#[test]
fn legal_moves_leave_the_king_safe() {
    for fen in SAMPLE_FENS {
        let board = board_from_fen(fen);
        for mv in generate_legal_moves(&board) {
            let mut after = board;
            make_move(&mut after, &mv);
            assert!(!is_king_in_check(&after, board.white_to_move));
        }
    }
}

#[test]
fn pinned_piece_cannot_move() {
    // the e2 knight is pinned against the king by the e8 rook
    let board = board_from_fen("4r2k/8/8/8/8/8/4N3/4K3 w - - 0 1");
    let moves = uci_moves(&board);
    assert!(moves.iter().all(|m| !m.starts_with("e2")));
    assert_eq!(moves.len(), 4);
}

#[test]
fn check_is_an_attack_on_the_king() {
    let checked = board_from_fen("4k3/8/8/8/8/8/8/4R1K1 b - - 0 1");
    assert!(is_king_in_check(&checked, false));
    assert!(!is_king_in_check(&checked, true));
    let knight = board_from_fen("4k3/8/3N4/8/8/8/8/6K1 b - - 0 1");
    assert!(is_king_in_check(&knight, false));
    let pawn = board_from_fen("4k3/3P4/8/8/8/8/8/6K1 b - - 0 1");
    assert!(is_king_in_check(&pawn, false));
    // a knight two files away across the board edge gives no check
    let wrapped = board_from_fen("7k/8/8/N7/8/8/8/6K1 b - - 0 1");
    assert!(!is_king_in_check(&wrapped, false));
    let no_king = empty_board();
    assert!(!is_king_in_check(&no_king, true));
}

#[test]
fn checkmate_and_stalemate() {
    let mate = board_from_fen("R5k1/5ppp/8/8/8/8/8/6K1 b - - 0 1");
    assert!(is_checkmate(&mate, false));
    assert!(!is_stalemate(&mate, false));
    let stale = board_from_fen("7k/5Q2/6K1/8/8/8/8/8 b - - 0 1");
    assert!(is_stalemate(&stale, false));
    assert!(!is_checkmate(&stale, false));
    let start = board_after(None, &[]).unwrap();
    assert!(!is_checkmate(&start, true));
    assert!(!is_stalemate(&start, true));
}

#[test]
fn evaluation_and_depth_zero_search_agree() {
    let mut search = Search::new();
    let start = board_after(None, &[]).unwrap();
    assert_eq!(search.evaluate(&start), 0);
    let mut board = board_from_fen("4k3/8/8/8/8/8/8/QR2K3 w - - 0 1");
    // queen 9.0 plus rook 5.0, in tenths of a pawn
    assert_eq!(search.evaluate(&board), 140);
    assert_eq!(search.alpha_beta(&mut board, 0, -1000, 1000), 140);
    let black = board_from_fen("4k2q/8/8/8/8/8/8/4K3 w - - 0 1");
    assert_eq!(search.evaluate(&black), -90);
}

#[test]
fn search_scores_stay_within_mate_bounds() {
    let mut search = Search::new();
    for fen in SAMPLE_FENS {
        let mut board = board_from_fen(fen);
        let score = search.alpha_beta(&mut board, 2, -1_000_000_000, 1_000_000_000);
        assert!((-MATE_SCORE..=MATE_SCORE).contains(&score));
    }
    let mut mated = board_from_fen("R5k1/5ppp/8/8/8/8/8/6K1 b - - 0 1");
    assert_eq!(search.alpha_beta(&mut mated, 1, -1_000_000_000, 1_000_000_000), -MATE_SCORE);
    let mut stale = board_from_fen("7k/5Q2/6K1/8/8/8/8/8 b - - 0 1");
    assert_eq!(search.alpha_beta(&mut stale, 1, -1_000_000_000, 1_000_000_000), 0);
}

#[test]
fn best_move_is_legal() {
    for fen in SAMPLE_FENS {
        let mut board = board_from_fen(fen);
        let legal = generate_legal_moves(&board);
        let mut search = Search::new();
        let stop = AtomicBool::new(false);
        let best = search.find_best_move(&mut board, 2, &stop, None).unwrap();
        assert!(legal.contains(&best));
    }
    let mut mated = board_from_fen("R5k1/5ppp/8/8/8/8/8/6K1 b - - 0 1");
    let mut search = Search::new();
    let stop = AtomicBool::new(false);
    assert_eq!(search.find_best_move(&mut mated, 2, &stop, None), None);
}

#[test]
fn stopped_or_timed_out_search_returns_first_move() {
    let mut board = board_after(None, &[]).unwrap();
    let first = generate_legal_moves(&board)[0];
    let mut search = Search::new();
    let stop = AtomicBool::new(true);
    assert_eq!(search.find_best_move(&mut board, 3, &stop, None), Some(first));
    let running = AtomicBool::new(false);
    let timed = search.find_best_move(&mut board, 3, &running, Some(Duration::from_millis(0)));
    assert_eq!(timed, Some(first));
}

#[test]
fn start_position_move_list() {
    let board = board_after(None, &[]).unwrap();
    let moves = uci_moves(&board);
    assert_eq!(moves.len(), 20);
    assert_eq!(moves[0], "a2a3");
    assert!(moves.contains(&"e2e4".to_string()));
    assert!(moves.contains(&"g1f3".to_string()));
}

#[test]
fn kings_alone_in_corners() {
    let mut board = empty_board();
    board.board[0] = Piece::BK;
    board.board[63] = Piece::WK;
    assert_eq!(generate_legal_moves(&board).len(), 3);
    board.white_to_move = false;
    assert_eq!(generate_legal_moves(&board).len(), 3);
}

#[test]
fn en_passant_capture_removes_the_pawn() {
    let board = board_after(None, &["e2e4", "a7a6", "e4e5", "d7d5"]).unwrap();
    assert_eq!(board.en_passant_square, 19);
    let after = board_after(None, &["e2e4", "a7a6", "e4e5", "d7d5", "e5d6"]).unwrap();
    assert_eq!(after.board[19], Piece::WP);
    assert_eq!(after.board[27], Piece::Empty);
    assert_eq!(after.board[28], Piece::Empty);
    assert_eq!(after.en_passant_square, -1);
    assert_eq!(after.half_move_capture_or_pawn_clock, 0);
}

#[test]
fn castling_moves_the_rook_and_clears_rights() {
    let board = board_from_fen("r3k2r/8/8/8/8/8/8/R3K2R w KQkq - 0 1");
    let moves = uci_moves(&board);
    assert!(moves.contains(&"e1g1".to_string()));
    assert!(moves.contains(&"e1c1".to_string()));
    let after = board_after(Some("r3k2r/8/8/8/8/8/8/R3K2R w KQkq - 0 1"), &["e1g1"]).unwrap();
    assert_eq!(after.board[62], Piece::WK);
    assert_eq!(after.board[61], Piece::WR);
    assert_eq!(after.board[63], Piece::Empty);
    assert!(!after.can_white_castle_kingside && !after.can_white_castle_queenside);
    assert!(after.can_black_castle_kingside && after.can_black_castle_queenside);
    let rook_moved = board_after(Some("r3k2r/8/8/8/8/8/8/R3K2R b KQkq - 0 1"), &["a8b8"]).unwrap();
    assert!(!rook_moved.can_black_castle_queenside && rook_moved.can_black_castle_kingside);
}

#[test]
fn no_castling_out_of_or_through_check() {
    // the black rook on f8 covers f1, which the king would cross
    let through = board_from_fen("5r1k/8/8/8/8/8/8/4K2R w K - 0 1");
    assert!(!uci_moves(&through).contains(&"e1g1".to_string()));
    // the black rook on e8 gives check
    let out_of = board_from_fen("4r2k/8/8/8/8/8/8/4K2R w K - 0 1");
    assert!(!uci_moves(&out_of).contains(&"e1g1".to_string()));
    let free = board_from_fen("7k/8/8/8/8/8/8/4K2R w K - 0 1");
    assert!(uci_moves(&free).contains(&"e1g1".to_string()));
}

#[test]
fn promotions_come_in_four() {
    let board = board_from_fen("7k/P7/8/8/8/8/8/K7 w - - 0 1");
    let moves = uci_moves(&board);
    for m in ["a7a8q", "a7a8r", "a7a8b", "a7a8n"] {
        assert!(moves.contains(&m.to_string()));
    }
    let after = board_after(Some("7k/P7/8/8/8/8/8/K7 w - - 0 1"), &["a7a8n"]).unwrap();
    assert_eq!(after.board[0], Piece::WN);
    let upper = board_after(Some("7k/P7/8/8/8/8/8/K7 w - - 0 1"), &["a7a8Q"]).unwrap();
    assert_eq!(upper.board[0], Piece::WQ);
}

#[test]
fn counters_follow_the_moves() {
    let board = board_after(None, &["g1f3", "g8f6", "f3g1"]).unwrap();
    assert_eq!(board.half_move_capture_or_pawn_clock, 3);
    assert_eq!(board.full_move_number, 2);
    assert!(!board.white_to_move);
    let after_black = board_after(None, &["g1f3", "g8f6"]).unwrap();
    assert_eq!(after_black.full_move_number, 2);
    let after_white = board_after(None, &["g1f3"]).unwrap();
    assert_eq!(after_white.full_move_number, 1);
    let pushed = board_after(None, &["e2e4"]).unwrap();
    assert_eq!(pushed.en_passant_square, 44);
}

#[test]
fn fen_fields_are_read() {
    let board = board_from_fen("rnbqkbnr/pppppppp/8/8/4P3/8/PPPP1PPP/RNBQKBNR b Kq e3 5 12");
    assert!(!board.white_to_move);
    assert!(board.can_white_castle_kingside && !board.can_white_castle_queenside);
    assert!(!board.can_black_castle_kingside && board.can_black_castle_queenside);
    assert_eq!(board.en_passant_square, 44);
    assert_eq!(board.half_move_capture_or_pawn_clock, 5);
    assert_eq!(board.full_move_number, 12);
    assert_eq!(board.board[36], Piece::WP);
    assert_eq!(board.board[52], Piece::Empty);
    let negative = board_from_fen("8/8/8/8/8/8/8/8 w - - -3 +7");
    assert_eq!(negative.half_move_capture_or_pawn_clock, -3);
    assert_eq!(negative.full_move_number, 7);
}

#[test]
fn malformed_fens_are_rejected() {
    let bad = [
        "rnbqkbnr/pppppppp/8/8/8/8/PPPPPPPP/RNBQKBNR w KQkq - 0",
        "rnbqkbnr/pppppppp/8/8/8/PPPPPPPP/RNBQKBNR w KQkq - 0 1",
        "rnbqkbnr/pppppppp/8/8/8/8/PPPPPPPP/RNBQKBNX w KQkq - 0 1",
        "rnbqkbnr/ppppppppp/8/8/8/8/PPPPPPPP/RNBQKBNR w KQkq - 0 1",
        "rnbqkbnr/ppppppp/8/8/8/8/PPPPPPPP/RNBQKBNR w KQkq - 0 1",
        "rnbqkbnr/pppppppp/9/8/8/8/PPPPPPPP/RNBQKBNR w KQkq - 0 1",
        "rnbqkbnr/pppppppp/8/8/8/8/PPPPPPPP/RNBQKBNR x KQkq - 0 1",
        "rnbqkbnr/pppppppp/8/8/8/8/PPPPPPPP/RNBQKBNR w KQkq e9 0 1",
        "rnbqkbnr/pppppppp/8/8/8/8/PPPPPPPP/RNBQKBNR w KQkq - x 1",
        "rnbqkbnr/pppppppp/8/8/8/8/PPPPPPPP/RNBQKBNR w KQkq - 0 99999999999",
        "rnbqkbnr/pppppppp/8/8/8/8/PPPPPPPP/RNBQKBNR w KQkq - 0 -",
    ];
    for fen in bad {
        let mut board = empty_board();
        assert!(parse_fen(&mut board, fen.to_string()).is_err(), "{}", fen);
    }
    let mut board = empty_board();
    let extreme = "8/8/8/8/8/8/8/8 w - - 2147483647 -2147483648";
    assert!(parse_fen(&mut board, extreme.to_string()).is_ok());
    assert_eq!(board.half_move_capture_or_pawn_clock, i32::MAX);
    assert_eq!(board.full_move_number, i32::MIN);
}

#[test]
fn bad_moves_are_rejected() {
    assert!(board_after(None, &["e2e5"]).is_err());
    assert!(board_after(None, &["e2"]).is_err());
    assert!(board_after(None, &["z2e4"]).is_err());
    assert!(board_after(None, &["e2e9"]).is_err());
    assert!(board_after(Some("7k/P7/8/8/8/8/8/K7 w - - 0 1"), &["a7a8x"]).is_err());
    assert!(board_after(Some("7k/P7/8/8/8/8/8/K7 w - - 0 1"), &["a7a8"]).is_err());
    assert!(board_after(Some("not a fen"), &[]).is_err());
}

#[test]
fn start_position_is_set() {
    let mut board = board_from_fen("8/8/8/8/8/8/8/8 b - c6 9 70");
    set_to_starting_position(&mut board);
    let from_text =
        board_from_fen("rnbqkbnr/pppppppp/8/8/8/8/PPPPPPPP/RNBQKBNR w KQkq - 0 1");
    assert!(same_board(&board, &from_text));
}

#[test]
fn square_names_and_move_text() {
    assert_eq!(square_to_algebraic(0), "a8");
    assert_eq!(square_to_algebraic(63), "h1");
    assert_eq!(square_to_algebraic(36), "e4");
    assert_eq!(piece_to_char(Piece::WK), 'K');
    assert_eq!(piece_to_char(Piece::BN), 'n');
    assert_eq!(piece_to_char(Piece::Empty), '.');
    let promo = ChessMove {
        from: 12,
        to: 4,
        promoted_piece: Piece::WQ,
        captured_piece: Piece::Empty,
        is_en_passant: false,
        is_castle: false,
    };
    assert_eq!(move_to_uci(&promo), "e7e8q");
    let quiet = ChessMove { promoted_piece: Piece::Empty, ..promo };
    assert_eq!(move_to_uci(&quiet), "e7e8");
    assert_eq!(to_index(7, 4), 60);
    assert_eq!(row_of(60), 7);
    assert_eq!(col_of(60), 4);
}

#[test]
fn transposition_table_keeps_the_latest_store() {
    let mut tt = TranspositionTable::new();
    assert!(tt.probe(7).is_none());
    let mv = ChessMove {
        from: 52,
        to: 36,
        promoted_piece: Piece::Empty,
        captured_piece: Piece::Empty,
        is_en_passant: false,
        is_castle: false,
    };
    tt.store(7, 15, NodeType::PVNode, 3, mv);
    tt.store(7, -4, NodeType::CutNode, 2, mv);
    let entry = tt.probe(7).unwrap();
    assert_eq!(entry.value, -4);
    assert_eq!(entry.depth, 2);
    assert_eq!(entry.node_type, NodeType::CutNode);
    assert!(tt.probe(8).is_none());
    tt.clear();
    assert!(tt.probe(7).is_none());
}

#[test]
fn board_diagram_text() {
    let start = board_after(None, &[]).unwrap();
    let expected = [
        "  +-----------------+",
        "8 | r n b q k b n r |",
        "7 | p p p p p p p p |",
        "6 | . . . . . . . . |",
        "5 | . . . . . . . . |",
        "4 | . . . . . . . . |",
        "3 | . . . . . . . . |",
        "2 | P P P P P P P P |",
        "1 | R N B Q K B N R |",
        "  +-----------------+",
        "    a b c d e f g h",
        "",
        "White to move",
        "Castling rights: KQkq",
        "En passant target: -",
        "Halfmove clock: 0",
        "Fullmove number: 1",
        "",
    ]
    .join("\n");
    assert_eq!(board_to_string(&start), expected);
    let other = board_from_fen("8/8/8/8/4P3/8/8/8 b q e3 -3 120");
    let text = board_to_string(&other);
    assert!(text.contains("4 | . . . . P . . . |\n"));
    assert!(text.contains("Black to move\nCastling rights: q\nEn passant target: e3\n"));
    assert!(text.ends_with("Halfmove clock: -3\nFullmove number: 120\n"));
    let none = board_from_fen("8/8/8/8/8/8/8/8 w - - 0 1");
    assert!(board_to_string(&none).contains("Castling rights: -\n"));
}

#[test]
fn move_written_out() {
    let mv = ChessMove {
        from: 12,
        to: 4,
        promoted_piece: Piece::WQ,
        captured_piece: Piece::BN,
        is_en_passant: false,
        is_castle: false,
    };
    assert_eq!(
        mv.to_string(),
        "Move { from: 12, to: 4, promoted: WQ, captured: BN, en_passant: false, castle: false }"
    );
    let castle = ChessMove {
        from: 60,
        to: 62,
        promoted_piece: Piece::Empty,
        captured_piece: Piece::Empty,
        is_en_passant: false,
        is_castle: true,
    };
    assert_eq!(
        castle.to_string(),
        "Move { from: 60, to: 62, promoted: Empty, captured: Empty, en_passant: false, castle: true }"
    );
}

#[test]
fn root_answer_follows_the_stop_check() {
    let board = board_after(None, &[]).unwrap();
    let moves = generate_legal_moves(&board);
    assert_eq!(root_answer(true, &moves, &vec![]), Some(moves[0]));
    assert_eq!(root_answer(false, &moves, &vec![]), None);
    assert_eq!(root_answer(true, &moves, &vec![3, 9, 9, -2]), Some(moves[1]));
    assert_eq!(root_answer(false, &moves, &vec![3, 9, 9, -2]), None);
    let all: Vec<i64> = (0..moves.len() as i64).map(|i| if i == 7 { 50 } else { i }).collect();
    assert_eq!(root_answer(false, &moves, &all), Some(moves[7]));
    let mut peak = all.clone();
    peak[7] = 0;
    assert_eq!(root_answer(false, &moves, &peak), Some(moves[19]));
}

#[test]
fn search_leaves_the_board_and_clone_keeps_keys() {
    for fen in SAMPLE_FENS {
        let start = board_from_fen(fen);
        let mut board = start;
        let mut search = Search::new();
        let stop = AtomicBool::new(false);
        search.find_best_move(&mut board, 3, &stop, None);
        assert!(same_board(&board, &start));
        search.alpha_beta(&mut board, 2, -1_000_000_000, 1_000_000_000);
        assert!(same_board(&board, &start));
        let copy = search.clone();
        assert_eq!(copy.zobrist_key(&board), search.zobrist_key(&board));
    }
}

#[test]
fn depth_one_picks_the_first_best_leaf_score() {
    for fen in SAMPLE_FENS {
        let mut board = board_from_fen(fen);
        let mut search = Search::new();
        let scores: Vec<i64> = generate_legal_moves(&board)
            .iter()
            .map(|m| {
                let mut after = board;
                make_move(&mut after, m);
                -search.evaluate(&after)
            })
            .collect();
        let top = *scores.iter().max().unwrap();
        let first = scores.iter().position(|s| *s == top).unwrap();
        let stop = AtomicBool::new(false);
        let best = search.find_best_move(&mut board, 1, &stop, None).unwrap();
        assert_eq!(best, generate_legal_moves(&board)[first]);
        let mut fresh = Search::new();
        assert_eq!(fresh.alpha_beta(&mut board, 1, -1_000_000_000, 1_000_000_000), top);
    }
}

#[test]
fn root_steps_score_each_move_until_stopped() {
    let start = board_from_fen("4k3/8/4K3/8/8/8/8/7R w - - 0 1");
    let mut board = start;
    let moves = generate_legal_moves(&board);
    let mut search = Search::new();
    let mut scores: Vec<i64> = Vec::new();
    let mut alpha: i64 = -1_000_000_000;
    // a stop before the first root move answers with the first move
    assert_eq!(
        search.root_step(&mut board, 2, &moves, &mut scores, &mut alpha, true),
        Some(moves[0])
    );
    assert!(scores.is_empty());
    // without a stop every move gets a score, then the best one is answered
    for k in 0..moves.len() {
        assert_eq!(search.root_step(&mut board, 2, &moves, &mut scores, &mut alpha, false), None);
        assert_eq!(scores.len(), k + 1);
        assert!(same_board(&board, &start));
    }
    let best = search.root_step(&mut board, 2, &moves, &mut scores, &mut alpha, false).unwrap();
    assert_eq!(move_to_uci(&best), "h1h8");
    assert_eq!(*scores.iter().max().unwrap(), MATE_SCORE);
    assert_eq!(alpha, MATE_SCORE);
}

#[test]
fn requested_depth_defaults_to_five() {
    assert_eq!(requested_depth(None), Some(5));
    assert_eq!(requested_depth(Some(3)), Some(3));
    assert_eq!(requested_depth(Some(64)), Some(64));
    assert_eq!(requested_depth(Some(0)), None);
    assert_eq!(requested_depth(Some(65)), None);
    assert_eq!(requested_depth(Some(-2)), None);
}
