use crate::board::{Board, Piece};
use crate::chessmove::{ChessMove, UndoInfo};
use vstd::prelude::*;

verus! {

// ---------------------------------------------------------------------------
// Geometry
// ---------------------------------------------------------------------------

/// Row of a square index: 0 is rank 8, 7 is rank 1.
pub open spec fn row(i: int) -> int {
    i / 8
}

/// Column of a square index: 0 is file a, 7 is file h.
pub open spec fn col(i: int) -> int {
    i % 8
}

pub open spec fn on_sq(i: int) -> bool {
    0 <= i < 64
}

pub fn to_index(row: i32, col: i32) -> (r: i32)
    requires
        0 <= row < 8,
        0 <= col < 8,
    ensures
        r == row * 8 + col,
        0 <= r < 64,
{
    row * 8 + col
}

pub fn row_of(index: i32) -> (r: i32)
    requires
        index >= 0,
    ensures
        r == row(index as int),
{
    index / 8
}

pub fn col_of(index: i32) -> (r: i32)
    requires
        index >= 0,
    ensures
        r == col(index as int),
{
    index % 8
}

fn on_board(index: i32) -> (r: bool)
    ensures
        r == on_sq(index as int),
{
    0 <= index && index < 64
}

// ---------------------------------------------------------------------------
// Pieces
// ---------------------------------------------------------------------------

pub open spec fn white_piece(p: Piece) -> bool {
    p is WP || p is WN || p is WB || p is WR || p is WQ || p is WK
}

pub open spec fn black_piece(p: Piece) -> bool {
    p is BP || p is BN || p is BB || p is BR || p is BQ || p is BK
}

/// `target` is a piece of the other colour than `p`.
pub open spec fn enemies(p: Piece, target: Piece) -> bool {
    target != Piece::Empty && ((white_piece(p) && black_piece(target)) || (black_piece(p)
        && white_piece(target)))
}

fn is_white_piece(p: Piece) -> (r: bool)
    ensures
        r == white_piece(p),
{
    matches!(p, Piece::WP | Piece::WN | Piece::WB | Piece::WR | Piece::WQ | Piece::WK)
}

fn is_black_piece(p: Piece) -> (r: bool)
    ensures
        r == black_piece(p),
{
    matches!(p, Piece::BP | Piece::BN | Piece::BB | Piece::BR | Piece::BQ | Piece::BK)
}

fn is_enemy_piece(p: Piece, target: Piece) -> (r: bool)
    ensures
        r == enemies(p, target),
{
    if target == Piece::Empty {
        return false;
    }
    (is_white_piece(p) && is_black_piece(target)) || (is_black_piece(p) && is_white_piece(target))
}

// ---------------------------------------------------------------------------
// Making and taking back moves
// ---------------------------------------------------------------------------

/// The square of the pawn taken en passant by `mover` landing on `to`.
pub open spec fn ep_victim_square(mover: Piece, to: int) -> int {
    if mover == Piece::WP {
        to + 8
    } else {
        to - 8
    }
}

/// Where the victim of an en-passant capture stood, from the victim's colour.
pub open spec fn ep_restore_square(victim: Piece, to: int) -> int {
    if victim == Piece::WP {
        to - 8
    } else {
        to + 8
    }
}

/// The rook of a castling move changes places: `kingside` is the h-file rook.
pub open spec fn castle_rook_after(s: Seq<Piece>, king: Piece, kingside: bool) -> Seq<Piece> {
    if king == Piece::WK {
        if kingside {
            s.update(63, Piece::Empty).update(61, Piece::WR)
        } else {
            s.update(56, Piece::Empty).update(59, Piece::WR)
        }
    } else if king == Piece::BK {
        if kingside {
            s.update(7, Piece::Empty).update(5, Piece::BR)
        } else {
            s.update(0, Piece::Empty).update(3, Piece::BR)
        }
    } else {
        s
    }
}

/// The rook of a castling move goes back home.
pub open spec fn castle_rook_back(s: Seq<Piece>, king: Piece, kingside: bool) -> Seq<Piece> {
    if king == Piece::WK {
        if kingside {
            s.update(63, Piece::WR).update(61, Piece::Empty)
        } else {
            s.update(56, Piece::WR).update(59, Piece::Empty)
        }
    } else if king == Piece::BK {
        if kingside {
            s.update(7, Piece::BR).update(5, Piece::Empty)
        } else {
            s.update(0, Piece::BR).update(3, Piece::Empty)
        }
    } else {
        s
    }
}

/// The placement after `m`: the mover leaves its square, an en-passant victim
/// is removed, a castling rook is moved, and the mover (or the promotion piece)
/// lands on the destination.
pub open spec fn placement_after(s: Seq<Piece>, m: ChessMove) -> Seq<Piece> {
    let mover = s[m.from as int];
    let to = m.to as int;
    let s1 = s.update(m.from as int, Piece::Empty);
    let victim = ep_victim_square(mover, to);
    let s2 = if m.is_en_passant && on_sq(victim) {
        s1.update(victim, Piece::Empty)
    } else {
        s1
    };
    let s3 = if m.captured_piece != Piece::Empty && !m.is_en_passant {
        s2.update(to, Piece::Empty)
    } else {
        s2
    };
    let s4 = if m.is_castle {
        castle_rook_after(s3, mover, col(to) == 6)
    } else {
        s3
    };
    s4.update(
        to,
        if m.promoted_piece != Piece::Empty {
            m.promoted_piece
        } else {
            mover
        },
    )
}

/// A castling move went to the king side: its destination is on the g-file.
pub open spec fn castle_was_kingside(m: ChessMove) -> bool {
    col(m.to as int) == 6
}

/// The placement after taking `m` back, where `moved` is the piece that made it.
pub open spec fn placement_before(s: Seq<Piece>, m: ChessMove, moved: Piece) -> Seq<Piece> {
    let to = m.to as int;
    let standing = if m.promoted_piece != Piece::Empty {
        m.promoted_piece
    } else {
        moved
    };
    let s1 = s.update(to, Piece::Empty);
    let s2 = if m.is_castle {
        castle_rook_back(s1, standing, castle_was_kingside(m))
    } else {
        s1
    };
    let s3 = s2.update(m.from as int, moved);
    let restore = ep_restore_square(m.captured_piece, to);
    if m.is_en_passant {
        if on_sq(restore) {
            s3.update(restore, m.captured_piece)
        } else {
            s3
        }
    } else if m.captured_piece != Piece::Empty {
        s3.update(to, m.captured_piece)
    } else {
        s3
    }
}

/// The counter incremented without overflow: it stays at the largest value.
pub open spec fn bump(x: i32) -> i32 {
    if x < i32::MAX {
        (x + 1) as i32
    } else {
        x
    }
}

/// The board fields other than the placement after `m` is made on `b`.
pub open spec fn rights_after(b: Board, m: ChessMove, a: Board) -> bool {
    let mover = b.board@[m.from as int];
    let cap = m.captured_piece != Piece::Empty;
    let from = m.from as int;
    let to = m.to as int;
    &&& a.can_white_castle_kingside == (b.can_white_castle_kingside && mover != Piece::WK && from
        != 63 && !(cap && to == 63))
    &&& a.can_white_castle_queenside == (b.can_white_castle_queenside && mover != Piece::WK && from
        != 56 && !(cap && to == 56))
    &&& a.can_black_castle_kingside == (b.can_black_castle_kingside && mover != Piece::BK && from
        != 7 && !(cap && to == 7))
    &&& a.can_black_castle_queenside == (b.can_black_castle_queenside && mover != Piece::BK && from
        != 0 && !(cap && to == 0))
    &&& a.en_passant_square == (if mover == Piece::WP && to - from == -16 {
        from - 8
    } else if mover == Piece::BP && to - from == 16 {
        from + 8
    } else {
        -1
    })
    &&& a.half_move_capture_or_pawn_clock == (if mover == Piece::WP || mover == Piece::BP || cap {
        0
    } else {
        bump(b.half_move_capture_or_pawn_clock)
    })
    &&& a.white_to_move == !b.white_to_move
    &&& a.full_move_number == (if b.white_to_move {
        b.full_move_number
    } else {
        bump(b.full_move_number)
    })
}

/// `a` is `b` after the move `m`.
pub open spec fn moved(b: Board, m: ChessMove, a: Board) -> bool {
    &&& a.board@ == placement_after(b.board@, m)
    &&& rights_after(b, m, a)
}

/// The squares of a move lie on the board.
pub open spec fn move_on_board(m: ChessMove) -> bool {
    on_sq(m.from as int) && on_sq(m.to as int)
}

/// The snapshot taken before `m` is made on `b`, with the key `key`.
pub open spec fn undo_for(b: Board, m: ChessMove, key: u64) -> UndoInfo {
    UndoInfo {
        the_move: m,
        piece_moved: b.board@[m.from as int],
        white_to_move_before: b.white_to_move,
        can_white_castle_kingside_before: b.can_white_castle_kingside,
        can_white_castle_queenside_before: b.can_white_castle_queenside,
        can_black_castle_kingside_before: b.can_black_castle_kingside,
        can_black_castle_queenside_before: b.can_black_castle_queenside,
        en_passant_square_before: b.en_passant_square,
        half_move_capture_or_pawn_clock_before: b.half_move_capture_or_pawn_clock,
        full_move_number_before: b.full_move_number,
        zobrist_key_before: key,
    }
}

/// `r` is `a` with the move `m` taken back from the snapshot `u`.
pub open spec fn unmoved(a: Board, m: ChessMove, u: UndoInfo, r: Board) -> bool {
    &&& r.board@ == placement_before(a.board@, m, u.piece_moved)
    &&& r.white_to_move == u.white_to_move_before
    &&& r.can_white_castle_kingside == u.can_white_castle_kingside_before
    &&& r.can_white_castle_queenside == u.can_white_castle_queenside_before
    &&& r.can_black_castle_kingside == u.can_black_castle_kingside_before
    &&& r.can_black_castle_queenside == u.can_black_castle_queenside_before
    &&& r.en_passant_square == u.en_passant_square_before
    &&& r.half_move_capture_or_pawn_clock == u.half_move_capture_or_pawn_clock_before
    &&& r.full_move_number == u.full_move_number_before
}

fn bump_counter(x: i32) -> (r: i32)
    ensures
        r == bump(x),
{
    if x < i32::MAX {
        x + 1
    } else {
        x
    }
}

/// Plays `mv` on `board`: the placement changes as `placement_after` says and
/// the other fields as `rights_after` says.
pub fn make_move(board: &mut Board, mv: &ChessMove)
    requires
        move_on_board(*mv),
    ensures
        moved(*old(board), *mv, *final(board)),
{
    let ghost s0 = old(board).board@;
    let moving_piece = board.board[mv.from as usize];
    board.board.set(mv.from as usize, Piece::Empty);

    if mv.is_en_passant {
        let victim = if moving_piece == Piece::WP {
            mv.to + 8
        } else {
            mv.to - 8
        };
        if on_board(victim) {
            board.board.set(victim as usize, Piece::Empty);
        }
    }
    if mv.captured_piece != Piece::Empty && !mv.is_en_passant {
        board.board.set(mv.to as usize, Piece::Empty);
    }
    if mv.is_castle {
        let king_side = col_of(mv.to) == 6;
        if moving_piece == Piece::WK {
            if king_side {
                board.board.set(63, Piece::Empty);
                board.board.set(61, Piece::WR);
            } else {
                board.board.set(56, Piece::Empty);
                board.board.set(59, Piece::WR);
            }
        } else if moving_piece == Piece::BK {
            if king_side {
                board.board.set(7, Piece::Empty);
                board.board.set(5, Piece::BR);
            } else {
                board.board.set(0, Piece::Empty);
                board.board.set(3, Piece::BR);
            }
        }
    }
    if mv.promoted_piece != Piece::Empty {
        board.board.set(mv.to as usize, mv.promoted_piece);
    } else {
        board.board.set(mv.to as usize, moving_piece);
    }
    proof {
        assert(board.board@ =~= placement_after(s0, *mv));
    }

    update_castling_rights(board, moving_piece, mv);

    if moving_piece == Piece::WP && mv.to - mv.from == -16 {
        board.en_passant_square = mv.from - 8;
    } else if moving_piece == Piece::BP && mv.to - mv.from == 16 {
        board.en_passant_square = mv.from + 8;
    } else {
        board.en_passant_square = -1;
    }

    if moving_piece == Piece::WP || moving_piece == Piece::BP || mv.captured_piece != Piece::Empty {
        board.half_move_capture_or_pawn_clock = 0;
    } else {
        board.half_move_capture_or_pawn_clock = bump_counter(board.half_move_capture_or_pawn_clock);
    }

    board.white_to_move = !board.white_to_move;
    if board.white_to_move {
        board.full_move_number = bump_counter(board.full_move_number);
    }
}

fn update_castling_rights(board: &mut Board, moving_piece: Piece, mv: &ChessMove)
    ensures
        final(board).board == old(board).board,
        final(board).white_to_move == old(board).white_to_move,
        final(board).en_passant_square == old(board).en_passant_square,
        final(board).half_move_capture_or_pawn_clock == old(board).half_move_capture_or_pawn_clock,
        final(board).full_move_number == old(board).full_move_number,
        final(board).can_white_castle_kingside == (old(board).can_white_castle_kingside
            && moving_piece != Piece::WK && mv.from != 63 && !(mv.captured_piece != Piece::Empty
            && mv.to == 63)),
        final(board).can_white_castle_queenside == (old(board).can_white_castle_queenside
            && moving_piece != Piece::WK && mv.from != 56 && !(mv.captured_piece != Piece::Empty
            && mv.to == 56)),
        final(board).can_black_castle_kingside == (old(board).can_black_castle_kingside
            && moving_piece != Piece::BK && mv.from != 7 && !(mv.captured_piece != Piece::Empty
            && mv.to == 7)),
        final(board).can_black_castle_queenside == (old(board).can_black_castle_queenside
            && moving_piece != Piece::BK && mv.from != 0 && !(mv.captured_piece != Piece::Empty
            && mv.to == 0)),
{
    if moving_piece == Piece::WK {
        board.can_white_castle_kingside = false;
        board.can_white_castle_queenside = false;
    } else if moving_piece == Piece::BK {
        board.can_black_castle_kingside = false;
        board.can_black_castle_queenside = false;
    }
    disable_rook_castle(board, mv.from);
    if mv.captured_piece != Piece::Empty {
        disable_rook_castle(board, mv.to);
    }
}

/// Clears the castling right of the rook whose home square is `sq`, if any.
fn disable_rook_castle(board: &mut Board, sq: i32)
    ensures
        final(board).board == old(board).board,
        final(board).white_to_move == old(board).white_to_move,
        final(board).en_passant_square == old(board).en_passant_square,
        final(board).half_move_capture_or_pawn_clock == old(board).half_move_capture_or_pawn_clock,
        final(board).full_move_number == old(board).full_move_number,
        final(board).can_white_castle_kingside == (old(board).can_white_castle_kingside && sq
            != 63),
        final(board).can_white_castle_queenside == (old(board).can_white_castle_queenside && sq
            != 56),
        final(board).can_black_castle_kingside == (old(board).can_black_castle_kingside && sq
            != 7),
        final(board).can_black_castle_queenside == (old(board).can_black_castle_queenside && sq
            != 0),
{
    if sq == 56 {
        board.can_white_castle_queenside = false;
    } else if sq == 63 {
        board.can_white_castle_kingside = false;
    } else if sq == 0 {
        board.can_black_castle_queenside = false;
    } else if sq == 7 {
        board.can_black_castle_kingside = false;
    }
}

/// Takes `mv` back from the snapshot `undo` made before it was played.
pub fn unmake_move(board: &mut Board, mv: &ChessMove, undo: &UndoInfo)
    requires
        move_on_board(*mv),
    ensures
        unmoved(*old(board), *mv, *undo, *final(board)),
{
    let ghost s0 = old(board).board@;
    board.white_to_move = undo.white_to_move_before;
    board.can_white_castle_kingside = undo.can_white_castle_kingside_before;
    board.can_white_castle_queenside = undo.can_white_castle_queenside_before;
    board.can_black_castle_kingside = undo.can_black_castle_kingside_before;
    board.can_black_castle_queenside = undo.can_black_castle_queenside_before;
    board.en_passant_square = undo.en_passant_square_before;
    board.half_move_capture_or_pawn_clock = undo.half_move_capture_or_pawn_clock_before;
    board.full_move_number = undo.full_move_number_before;

    let moving_piece = if mv.promoted_piece != Piece::Empty {
        mv.promoted_piece
    } else {
        undo.piece_moved
    };
    board.board.set(mv.to as usize, Piece::Empty);

    if mv.is_castle {
        let king_side = col_of(mv.to) == 6;
        if moving_piece == Piece::WK {
            if king_side {
                board.board.set(63, Piece::WR);
                board.board.set(61, Piece::Empty);
            } else {
                board.board.set(56, Piece::WR);
                board.board.set(59, Piece::Empty);
            }
        } else if moving_piece == Piece::BK {
            if king_side {
                board.board.set(7, Piece::BR);
                board.board.set(5, Piece::Empty);
            } else {
                board.board.set(0, Piece::BR);
                board.board.set(3, Piece::Empty);
            }
        }
    }
    board.board.set(mv.from as usize, undo.piece_moved);

    if mv.is_en_passant {
        let captured = mv.captured_piece;
        let restore = if captured == Piece::WP {
            mv.to - 8
        } else {
            mv.to + 8
        };
        if on_board(restore) {
            board.board.set(restore as usize, captured);
        }
    } else if mv.captured_piece != Piece::Empty {
        board.board.set(mv.to as usize, mv.captured_piece);
    }
    proof {
        assert(board.board@ =~= placement_before(s0, *mv, undo.piece_moved));
    }
}

// ---------------------------------------------------------------------------
// Positions and moves that belong together
// ---------------------------------------------------------------------------

/// At most one square of `s` holds `p`.
pub open spec fn at_most_one(s: Seq<Piece>, p: Piece) -> bool {
    forall|i: int, j: int| 0 <= i < 64 && 0 <= j < 64 && s[i] == p && s[j] == p ==> i == j
}

/// The invariants of a position reached by play: at most one king per side, a
/// castling right only with king and rook on their home squares, and an
/// en-passant target only behind a pawn that has just advanced two squares.
pub open spec fn valid_board(b: Board) -> bool {
    let s = b.board@;
    let ep = b.en_passant_square as int;
    &&& at_most_one(s, Piece::WK)
    &&& at_most_one(s, Piece::BK)
    &&& b.can_white_castle_kingside ==> s[60] == Piece::WK && s[63] == Piece::WR
    &&& b.can_white_castle_queenside ==> s[60] == Piece::WK && s[56] == Piece::WR
    &&& b.can_black_castle_kingside ==> s[4] == Piece::BK && s[7] == Piece::BR
    &&& b.can_black_castle_queenside ==> s[4] == Piece::BK && s[0] == Piece::BR
    &&& on_sq(ep) ==> if b.white_to_move {
        row(ep) == 2 && s[ep] == Piece::Empty && s[ep + 8] == Piece::BP
    } else {
        row(ep) == 5 && s[ep] == Piece::Empty && s[ep - 8] == Piece::WP
    }
}

/// A castling move of the king from its home square, over empty squares, with
/// the rook at home.
pub open spec fn castle_fits(s: Seq<Piece>, m: ChessMove) -> bool {
    let mover = s[m.from as int];
    let from = m.from as int;
    let to = m.to as int;
    &&& !m.is_en_passant
    &&& m.captured_piece == Piece::Empty
    &&& m.promoted_piece == Piece::Empty
    &&& {
        ||| (mover == Piece::WK && from == 60 && to == 62 && s[61] == Piece::Empty && s[62]
            == Piece::Empty && s[63] == Piece::WR)
        ||| (mover == Piece::WK && from == 60 && to == 58 && s[59] == Piece::Empty && s[58]
            == Piece::Empty && s[57] == Piece::Empty && s[56] == Piece::WR)
        ||| (mover == Piece::BK && from == 4 && to == 6 && s[5] == Piece::Empty && s[6]
            == Piece::Empty && s[7] == Piece::BR)
        ||| (mover == Piece::BK && from == 4 && to == 2 && s[3] == Piece::Empty && s[2]
            == Piece::Empty && s[1] == Piece::Empty && s[0] == Piece::BR)
    }
}

/// An en-passant capture: a pawn moves onto an empty square and the opposing
/// pawn behind it is taken.
pub open spec fn en_passant_fits(s: Seq<Piece>, m: ChessMove) -> bool {
    let mover = s[m.from as int];
    let to = m.to as int;
    let victim = ep_victim_square(mover, to);
    &&& m.promoted_piece == Piece::Empty
    &&& s[to] == Piece::Empty
    &&& (mover == Piece::WP && m.captured_piece == Piece::BP) || (mover == Piece::BP
        && m.captured_piece == Piece::WP)
    &&& on_sq(victim)
    &&& victim != m.from as int
    &&& s[victim] == m.captured_piece
}

/// `m` describes the position `b` truly: its squares are distinct and on the
/// board, and its captured piece, castling rook and en-passant victim are
/// where it says.
pub open spec fn fits(b: Board, m: ChessMove) -> bool {
    let s = b.board@;
    &&& move_on_board(m)
    &&& m.from != m.to
    &&& if m.is_castle {
        castle_fits(s, m)
    } else if m.is_en_passant {
        en_passant_fits(s, m)
    } else {
        s[m.to as int] == m.captured_piece
    }
}

/// Taking back a move with the snapshot made before it restores every field of
/// the board, and with them its Zobrist key.
pub proof fn lemma_unmake_restores(
    b: Board,
    m: ChessMove,
    a: Board,
    r: Board,
    t: crate::board::ZobristTables,
)
    requires
        fits(b, m),
        moved(b, m, a),
        unmoved(a, m, undo_for(b, m, crate::board::zobrist(b, t)), r),
    ensures
        r == b,
        crate::board::zobrist(r, t) == undo_for(b, m, crate::board::zobrist(b, t)).zobrist_key_before,
{
    assert(r.board@ =~= b.board@);
    assert(r.board == b.board);
}

// ---------------------------------------------------------------------------
// Kings and attacks
// ---------------------------------------------------------------------------

pub open spec fn king_of(white: bool) -> Piece {
    if white {
        Piece::WK
    } else {
        Piece::BK
    }
}

/// The first square from `i` on that holds `p`, or -1.
pub open spec fn first_from(s: Seq<Piece>, p: Piece, i: int) -> int
    decreases 64 - i,
{
    if !(0 <= i < 64) {
        -1
    } else if s[i] == p {
        i
    } else {
        first_from(s, p, i + 1)
    }
}

/// The square of the king of one side (the first, scanning from a8), or -1.
pub open spec fn king_square(s: Seq<Piece>, white: bool) -> int {
    first_from(s, king_of(white), 0)
}

pub open spec fn dist(a: int, b: int) -> int {
    if a >= b {
        a - b
    } else {
        b - a
    }
}

pub open spec fn knight_offset(k: int) -> int {
    if k == 0 {
        -17
    } else if k == 1 {
        -15
    } else if k == 2 {
        -10
    } else if k == 3 {
        -6
    } else if k == 4 {
        6
    } else if k == 5 {
        10
    } else if k == 6 {
        15
    } else {
        17
    }
}

pub open spec fn king_offset(k: int) -> int {
    if k == 0 {
        -9
    } else if k == 1 {
        -8
    } else if k == 2 {
        -7
    } else if k == 3 {
        -1
    } else if k == 4 {
        1
    } else if k == 5 {
        7
    } else if k == 6 {
        8
    } else {
        9
    }
}

/// The four diagonal steps, then the four straight ones.
pub open spec fn slide_dir(diagonal: bool, k: int) -> int {
    if diagonal {
        if k == 0 {
            -9
        } else if k == 1 {
            -7
        } else if k == 2 {
            7
        } else {
            9
        }
    } else {
        if k == 0 {
            -8
        } else if k == 1 {
            -1
        } else if k == 2 {
            1
        } else {
            8
        }
    }
}

/// A knight's jump that lands on the board without wrapping round an edge.
pub open spec fn knight_jump(from: int, to: int) -> bool {
    on_sq(to) && ((dist(row(to), row(from)) == 2 && dist(col(to), col(from)) == 1) || (dist(
        row(to),
        row(from),
    ) == 1 && dist(col(to), col(from)) == 2))
}

/// One step of a sliding piece from `cur` to `next` along `d` that stays on
/// its diagonal or line.
pub open spec fn slide_ok(cur: int, next: int, d: int, diagonal: bool) -> bool {
    on_sq(next) && if diagonal {
        dist(row(next), row(cur)) == 1 && dist(col(next), col(cur)) == 1
    } else {
        ((d == -1 || d == 1) ==> row(cur) == row(next)) && ((d == -8 || d == 8) ==> col(cur)
            == col(next))
    }
}

/// The first piece met walking from `cur` along `d` (at most `fuel` steps), or
/// `Empty` if the walk leaves the board first.
pub open spec fn ray_first(s: Seq<Piece>, cur: int, d: int, diagonal: bool, fuel: nat) -> Piece
    decreases fuel,
{
    if fuel == 0 {
        Piece::Empty
    } else {
        let next = cur + d;
        if !slide_ok(cur, next, d, diagonal) {
            Piece::Empty
        } else if s[next] != Piece::Empty {
            s[next]
        } else {
            ray_first(s, next, d, diagonal, (fuel - 1) as nat)
        }
    }
}

pub open spec fn pawn_attack(s: Seq<Piece>, sq: int, by_white: bool) -> bool {
    let r = row(sq);
    let c = col(sq);
    if by_white {
        (r < 7 && c > 0 && s[sq + 7] == Piece::WP) || (r < 7 && c < 7 && s[sq + 9] == Piece::WP)
    } else {
        (r > 0 && c > 0 && s[sq - 9] == Piece::BP) || (r > 0 && c < 7 && s[sq - 7] == Piece::BP)
    }
}

/// A knight of `by_white` stands a knight's jump from `sq`, among the first `k` jumps.
pub open spec fn knight_attack(s: Seq<Piece>, sq: int, by_white: bool, k: int) -> bool
    decreases k,
{
    if k <= 0 {
        false
    } else {
        let t = sq + knight_offset(k - 1);
        knight_attack(s, sq, by_white, k - 1) || (knight_jump(sq, t) && s[t] == (if by_white {
            Piece::WN
        } else {
            Piece::BN
        }))
    }
}

/// The king of `by_white` stands next to `sq`, among the first `k` neighbours.
pub open spec fn king_attack(s: Seq<Piece>, sq: int, by_white: bool, k: int) -> bool
    decreases k,
{
    if k <= 0 {
        false
    } else {
        let t = sq + king_offset(k - 1);
        king_attack(s, sq, by_white, k - 1) || (on_sq(t) && dist(row(t), row(sq)) <= 1 && dist(
            col(t),
            col(sq),
        ) <= 1 && s[t] == king_of(by_white))
    }
}

/// A piece that attacks along diagonals (bishop, queen) or lines (rook, queen).
pub open spec fn slider_of(p: Piece, by_white: bool, diagonal: bool) -> bool {
    if by_white {
        p == Piece::WQ || p == (if diagonal {
            Piece::WB
        } else {
            Piece::WR
        })
    } else {
        p == Piece::BQ || p == (if diagonal {
            Piece::BB
        } else {
            Piece::BR
        })
    }
}

/// The first piece on one of the first `k` rays from `sq` is a slider of `by_white`.
pub open spec fn slider_attack(s: Seq<Piece>, sq: int, by_white: bool, diagonal: bool, k: int) -> bool
    decreases k,
{
    if k <= 0 {
        false
    } else {
        slider_attack(s, sq, by_white, diagonal, k - 1) || slider_of(
            ray_first(s, sq, slide_dir(diagonal, k - 1), diagonal, 8),
            by_white,
            diagonal,
        )
    }
}

/// The square `sq` is attacked by a piece of `by_white`.
pub open spec fn attacked(s: Seq<Piece>, sq: int, by_white: bool) -> bool {
    ||| pawn_attack(s, sq, by_white)
    ||| knight_attack(s, sq, by_white, 8)
    ||| king_attack(s, sq, by_white, 8)
    ||| slider_attack(s, sq, by_white, true, 4)
    ||| slider_attack(s, sq, by_white, false, 4)
}

/// The king of `white` is on the board and attacked by the other side.
pub open spec fn in_check(s: Seq<Piece>, white: bool) -> bool {
    let k = king_square(s, white);
    k != -1 && attacked(s, k, !white)
}

fn knight_offset_at(k: usize) -> (r: i32)
    requires
        k < 8,
    ensures
        r == knight_offset(k as int),
{
    if k == 0 {
        -17
    } else if k == 1 {
        -15
    } else if k == 2 {
        -10
    } else if k == 3 {
        -6
    } else if k == 4 {
        6
    } else if k == 5 {
        10
    } else if k == 6 {
        15
    } else {
        17
    }
}

fn king_offset_at(k: usize) -> (r: i32)
    requires
        k < 8,
    ensures
        r == king_offset(k as int),
{
    if k == 0 {
        -9
    } else if k == 1 {
        -8
    } else if k == 2 {
        -7
    } else if k == 3 {
        -1
    } else if k == 4 {
        1
    } else if k == 5 {
        7
    } else if k == 6 {
        8
    } else {
        9
    }
}

fn slide_dir_at(diagonal: bool, k: usize) -> (r: i32)
    requires
        k < 4,
    ensures
        r == slide_dir(diagonal, k as int),
{
    if diagonal {
        if k == 0 {
            -9
        } else if k == 1 {
            -7
        } else if k == 2 {
            7
        } else {
            9
        }
    } else {
        if k == 0 {
            -8
        } else if k == 1 {
            -1
        } else if k == 2 {
            1
        } else {
            8
        }
    }
}

proof fn lemma_slider_attack_grows(s: Seq<Piece>, sq: int, w: bool, diagonal: bool, k: int, n: int)
    requires
        slider_attack(s, sq, w, diagonal, k),
        k <= n,
    ensures
        slider_attack(s, sq, w, diagonal, n),
    decreases n - k,
{
    if k < n {
        lemma_slider_attack_grows(s, sq, w, diagonal, k, n - 1);
    }
}

proof fn lemma_knight_attack_grows(s: Seq<Piece>, sq: int, w: bool, k: int, n: int)
    requires
        knight_attack(s, sq, w, k),
        k <= n,
    ensures
        knight_attack(s, sq, w, n),
    decreases n - k,
{
    if k < n {
        lemma_knight_attack_grows(s, sq, w, k, n - 1);
    }
}

proof fn lemma_king_attack_grows(s: Seq<Piece>, sq: int, w: bool, k: int, n: int)
    requires
        king_attack(s, sq, w, k),
        k <= n,
    ensures
        king_attack(s, sq, w, n),
    decreases n - k,
{
    if k < n {
        lemma_king_attack_grows(s, sq, w, k, n - 1);
    }
}

fn find_king_square(board: &Board, white_king: bool) -> (r: i32)
    ensures
        r == king_square(board.board@, white_king),
{
    let wanted = if white_king {
        Piece::WK
    } else {
        Piece::BK
    };
    let mut i: usize = 0;
    while i < 64
        invariant
            i <= 64,
            wanted == king_of(white_king),
            first_from(board.board@, wanted, 0) == first_from(board.board@, wanted, i as int),
        decreases 64 - i,
    {
        if board.board[i] == wanted {
            return i as i32;
        }
        i = i + 1;
    }
    -1
}

/// Whether a step from `cur` to `next` along `d` stays on its diagonal or line.
fn slide_step_ok(cur: i32, next: i32, d: i32, diagonal: bool) -> (r: bool)
    requires
        on_sq(cur as int),
        -9 <= d <= 9,
    ensures
        r == slide_ok(cur as int, next as int, d as int, diagonal),
{
    if !on_board(next) {
        return false;
    }
    if diagonal {
        let dr = row_of(next) - row_of(cur);
        let dc = col_of(next) - col_of(cur);
        (dr == 1 || dr == -1) && (dc == 1 || dc == -1)
    } else {
        if (d == -1 || d == 1) && row_of(cur) != row_of(next) {
            return false;
        }
        if (d == -8 || d == 8) && col_of(cur) != col_of(next) {
            return false;
        }
        true
    }
}

/// The first piece met walking from `square` along `d`.
fn first_piece_on_ray(board: &Board, square: i32, d: i32, diagonal: bool) -> (r: Piece)
    requires
        on_sq(square as int),
        -9 <= d <= 9,
    ensures
        r == ray_first(board.board@, square as int, d as int, diagonal, 8),
{
    let ghost s = board.board@;
    let mut current = square;
    let mut fuel: u32 = 8;
    while fuel > 0
        invariant
            on_sq(current as int),
            -9 <= d <= 9,
            s == board.board@,
            ray_first(s, square as int, d as int, diagonal, 8) == ray_first(
                s,
                current as int,
                d as int,
                diagonal,
                fuel as nat,
            ),
        decreases fuel,
    {
        let next = current + d;
        if !slide_step_ok(current, next, d, diagonal) {
            return Piece::Empty;
        }
        let p = board.board[next as usize];
        if p != Piece::Empty {
            return p;
        }
        current = next;
        fuel = fuel - 1;
    }
    Piece::Empty
}

fn is_slider_of(p: Piece, by_white: bool, diagonal: bool) -> (r: bool)
    ensures
        r == slider_of(p, by_white, diagonal),
{
    if by_white {
        p == Piece::WQ || p == (if diagonal {
            Piece::WB
        } else {
            Piece::WR
        })
    } else {
        p == Piece::BQ || p == (if diagonal {
            Piece::BB
        } else {
            Piece::BR
        })
    }
}

fn check_slider_attack(board: &Board, square: i32, by_white: bool, diagonal: bool) -> (r: bool)
    requires
        on_sq(square as int),
    ensures
        r == slider_attack(board.board@, square as int, by_white, diagonal, 4),
{
    let mut k: usize = 0;
    while k < 4
        invariant
            k <= 4,
            on_sq(square as int),
            !slider_attack(board.board@, square as int, by_white, diagonal, k as int),
        decreases 4 - k,
    {
        let d = slide_dir_at(diagonal, k);
        let p = first_piece_on_ray(board, square, d, diagonal);
        if is_slider_of(p, by_white, diagonal) {
            proof {
                lemma_slider_attack_grows(board.board@, square as int, by_white, diagonal, k as int + 1, 4);
            }
            return true;
        }
        k = k + 1;
    }
    false
}

fn check_diagonal_attack(board: &Board, square: i32, white: bool) -> (r: bool)
    requires
        on_sq(square as int),
    ensures
        r == slider_attack(board.board@, square as int, white, true, 4),
{
    check_slider_attack(board, square, white, true)
}

fn check_straight_attack(board: &Board, square: i32, white: bool) -> (r: bool)
    requires
        on_sq(square as int),
    ensures
        r == slider_attack(board.board@, square as int, white, false, 4),
{
    check_slider_attack(board, square, white, false)
}

/// Whether a piece of `attacked_by_white`'s side attacks `square`: pawns,
/// knights, king, then sliders along diagonals and lines.
fn is_square_attacked(board: &Board, square: i32, attacked_by_white: bool) -> (r: bool)
    requires
        on_sq(square as int),
    ensures
        r == attacked(board.board@, square as int, attacked_by_white),
{
    let ghost s = board.board@;
    let r = row_of(square);
    let c = col_of(square);
    let pawn = if attacked_by_white {
        Piece::WP
    } else {
        Piece::BP
    };
    let pawn_hit = if attacked_by_white {
        (r < 7 && c > 0 && board.board[(square + 7) as usize] == pawn) || (r < 7 && c < 7
            && board.board[(square + 9) as usize] == pawn)
    } else {
        (r > 0 && c > 0 && board.board[(square - 9) as usize] == pawn) || (r > 0 && c < 7
            && board.board[(square - 7) as usize] == pawn)
    };
    if pawn_hit {
        return true;
    }
    let knight = if attacked_by_white {
        Piece::WN
    } else {
        Piece::BN
    };
    let mut k: usize = 0;
    while k < 8
        invariant
            k <= 8,
            on_sq(square as int),
            s == board.board@,
            knight == (if attacked_by_white {
                Piece::WN
            } else {
                Piece::BN
            }),
            !knight_attack(s, square as int, attacked_by_white, k as int),
        decreases 8 - k,
    {
        let target = square + knight_offset_at(k);
        if on_board(target) {
            let dr = row_of(target) - row_of(square);
            let dc = col_of(target) - col_of(square);
            let jump = ((dr == 2 || dr == -2) && (dc == 1 || dc == -1)) || ((dr == 1 || dr == -1)
                && (dc == 2 || dc == -2));
            if jump && board.board[target as usize] == knight {
                proof {
                    lemma_knight_attack_grows(s, square as int, attacked_by_white, k as int + 1, 8);
                }
                return true;
            }
        }
        k = k + 1;
    }
    let king = if attacked_by_white {
        Piece::WK
    } else {
        Piece::BK
    };
    let mut j: usize = 0;
    while j < 8
        invariant
            j <= 8,
            on_sq(square as int),
            s == board.board@,
            king == king_of(attacked_by_white),
            !king_attack(s, square as int, attacked_by_white, j as int),
        decreases 8 - j,
    {
        let target = square + king_offset_at(j);
        if on_board(target) {
            let dr = row_of(target) - row_of(square);
            let dc = col_of(target) - col_of(square);
            if -1 <= dr && dr <= 1 && -1 <= dc && dc <= 1 && board.board[target as usize] == king {
                proof {
                    lemma_king_attack_grows(s, square as int, attacked_by_white, j as int + 1, 8);
                }
                return true;
            }
        }
        j = j + 1;
    }
    if check_diagonal_attack(board, square, attacked_by_white) {
        return true;
    }
    check_straight_attack(board, square, attacked_by_white)
}

/// Whether the king of `white_king`'s side stands on a square the other side
/// attacks; false when that side has no king.
pub fn is_king_in_check(board: &Board, white_king: bool) -> (r: bool)
    ensures
        r == in_check(board.board@, white_king),
{
    let king_square = find_king_square(board, white_king);
    if king_square == -1 {
        return false;
    }
    proof {
        lemma_first_from_range(board.board@, king_of(white_king), 0);
    }
    is_square_attacked(board, king_square, !white_king)
}

proof fn lemma_first_from_range(s: Seq<Piece>, p: Piece, i: int)
    ensures
        first_from(s, p, i) == -1 || (0 <= first_from(s, p, i) < 64 && s[first_from(s, p, i)]
            == p),
    decreases 64 - i,
{
    if 0 <= i < 64 && s[i] != p {
        lemma_first_from_range(s, p, i + 1);
    }
}

/// A king in check is a king on an attacked square: the check test is the
/// attack test at the king's square, by the other side.
pub proof fn lemma_check_is_attack_on_king(s: Seq<Piece>, white: bool)
    requires
        king_square(s, white) != -1,
    ensures
        in_check(s, white) == attacked(s, king_square(s, white), !white),
        0 <= king_square(s, white) < 64,
        s[king_square(s, white)] == king_of(white),
{
    lemma_first_from_range(s, king_of(white), 0);
}

// ---------------------------------------------------------------------------
// Pseudo-legal moves
// ---------------------------------------------------------------------------

/// A move without promotion, en passant or castling.
pub open spec fn simple_move(from: int, to: int, cap: Piece) -> ChessMove {
    ChessMove {
        from: from as i32,
        to: to as i32,
        promoted_piece: Piece::Empty,
        captured_piece: cap,
        is_en_passant: false,
        is_castle: false,
    }
}

pub open spec fn promotion_move(from: int, to: int, cap: Piece, promo: Piece) -> ChessMove {
    ChessMove {
        from: from as i32,
        to: to as i32,
        promoted_piece: promo,
        captured_piece: cap,
        is_en_passant: false,
        is_castle: false,
    }
}

/// The four promotions of one pawn move: queen, rook, bishop, knight.
pub open spec fn promotions(from: int, to: int, cap: Piece, white: bool) -> Seq<ChessMove> {
    if white {
        seq![
            promotion_move(from, to, cap, Piece::WQ),
            promotion_move(from, to, cap, Piece::WR),
            promotion_move(from, to, cap, Piece::WB),
            promotion_move(from, to, cap, Piece::WN),
        ]
    } else {
        seq![
            promotion_move(from, to, cap, Piece::BQ),
            promotion_move(from, to, cap, Piece::BR),
            promotion_move(from, to, cap, Piece::BB),
            promotion_move(from, to, cap, Piece::BN),
        ]
    }
}

pub open spec fn pawn_forward(white: bool) -> int {
    if white {
        -8
    } else {
        8
    }
}

pub open spec fn promotion_row(white: bool) -> int {
    if white {
        0
    } else {
        7
    }
}

/// The pushes of the pawn on `sq`: one square ahead onto an empty square
/// (as four promotions on the last row), and two from the start row.
pub open spec fn pawn_pushes(s: Seq<Piece>, sq: int) -> Seq<ChessMove> {
    let white = s[sq] == Piece::WP;
    let fwd = pawn_forward(white);
    let one = sq + fwd;
    let two = one + fwd;
    if on_sq(one) && s[one] == Piece::Empty {
        if row(one) == promotion_row(white) {
            promotions(sq, one, Piece::Empty, white)
        } else if row(sq) == (if white {
            6int
        } else {
            1int
        }) && on_sq(two) && s[two] == Piece::Empty {
            seq![simple_move(sq, one, Piece::Empty), simple_move(sq, two, Piece::Empty)]
        } else {
            seq![simple_move(sq, one, Piece::Empty)]
        }
    } else {
        seq![]
    }
}

/// The en-passant capture of the pawn on `from` onto `to`.
pub open spec fn en_passant_move(from: int, to: int, white: bool) -> ChessMove {
    ChessMove {
        from: from as i32,
        to: to as i32,
        promoted_piece: Piece::Empty,
        captured_piece: if white {
            Piece::BP
        } else {
            Piece::WP
        },
        is_en_passant: true,
        is_castle: false,
    }
}

/// The diagonal captures of the pawn on `sq` towards column offset `dc`: an
/// enemy piece (four promotions on the last row), then en passant if the
/// square is the target.
pub open spec fn pawn_captures(b: Board, sq: int, dc: int) -> Seq<ChessMove> {
    let s = b.board@;
    let p = s[sq];
    let white = p == Piece::WP;
    let cs = sq + pawn_forward(white) + dc;
    let ep = b.en_passant_square as int;
    if col(sq) + dc < 0 || col(sq) + dc > 7 || !on_sq(cs) {
        seq![]
    } else {
        let t = s[cs];
        let caps = if enemies(p, t) {
            if row(cs) == promotion_row(white) {
                promotions(sq, cs, t, white)
            } else {
                seq![simple_move(sq, cs, t)]
            }
        } else {
            seq![]
        };
        if on_sq(ep) && cs == ep {
            caps.push(en_passant_move(sq, cs, white))
        } else {
            caps
        }
    }
}

pub open spec fn pawn_moves(b: Board, sq: int) -> Seq<ChessMove> {
    pawn_pushes(b.board@, sq) + pawn_captures(b, sq, -1) + pawn_captures(b, sq, 1)
}

/// The move onto `to` if it is empty or holds an enemy piece.
pub open spec fn target_move(s: Seq<Piece>, from: int, to: int) -> Seq<ChessMove> {
    if s[to] == Piece::Empty || enemies(s[from], s[to]) {
        seq![simple_move(from, to, s[to])]
    } else {
        seq![]
    }
}

/// The knight moves from `sq` along the first `k` jumps.
pub open spec fn knight_moves(s: Seq<Piece>, sq: int, k: int) -> Seq<ChessMove>
    decreases k,
{
    if k <= 0 {
        seq![]
    } else {
        let t = sq + knight_offset(k - 1);
        knight_moves(s, sq, k - 1) + if knight_jump(sq, t) {
            target_move(s, sq, t)
        } else {
            seq![]
        }
    }
}

/// The one-step king moves from `sq` along the first `k` directions.
pub open spec fn king_moves(s: Seq<Piece>, sq: int, k: int) -> Seq<ChessMove>
    decreases k,
{
    if k <= 0 {
        seq![]
    } else {
        let t = sq + king_offset(k - 1);
        king_moves(s, sq, k - 1) + if on_sq(t) && dist(col(t), col(sq)) <= 1 {
            target_move(s, sq, t)
        } else {
            seq![]
        }
    }
}

/// The moves of the slider on `from` walking from `cur` along `d`: every empty
/// square, then the first occupied one if it holds an enemy.
pub open spec fn ray_moves(
    s: Seq<Piece>,
    from: int,
    cur: int,
    d: int,
    diagonal: bool,
    fuel: nat,
) -> Seq<ChessMove>
    decreases fuel,
{
    if fuel == 0 {
        seq![]
    } else {
        let next = cur + d;
        if !slide_ok(cur, next, d, diagonal) {
            seq![]
        } else if s[next] == Piece::Empty {
            seq![simple_move(from, next, Piece::Empty)] + ray_moves(
                s,
                from,
                next,
                d,
                diagonal,
                (fuel - 1) as nat,
            )
        } else if enemies(s[from], s[next]) {
            seq![simple_move(from, next, s[next])]
        } else {
            seq![]
        }
    }
}

/// The slider moves from `sq` along the first `k` diagonal or straight rays.
pub open spec fn slider_moves(s: Seq<Piece>, sq: int, diagonal: bool, k: int) -> Seq<ChessMove>
    decreases k,
{
    if k <= 0 {
        seq![]
    } else {
        slider_moves(s, sq, diagonal, k - 1) + ray_moves(
            s,
            sq,
            sq,
            slide_dir(diagonal, k - 1),
            diagonal,
            8,
        )
    }
}

/// The moves of the piece on `sq`, by its kind.
pub open spec fn piece_moves(b: Board, sq: int) -> Seq<ChessMove> {
    let s = b.board@;
    let p = s[sq];
    if p == Piece::WP || p == Piece::BP {
        pawn_moves(b, sq)
    } else if p == Piece::WN || p == Piece::BN {
        knight_moves(s, sq, 8)
    } else if p == Piece::WB || p == Piece::BB {
        slider_moves(s, sq, true, 4)
    } else if p == Piece::WR || p == Piece::BR {
        slider_moves(s, sq, false, 4)
    } else if p == Piece::WQ || p == Piece::BQ {
        slider_moves(s, sq, true, 4) + slider_moves(s, sq, false, 4)
    } else if p == Piece::WK || p == Piece::BK {
        king_moves(s, sq, 8)
    } else {
        seq![]
    }
}

/// `p` belongs to the side to move.
pub open spec fn own_piece(b: Board, p: Piece) -> bool {
    if b.white_to_move {
        white_piece(p)
    } else {
        black_piece(p)
    }
}

/// The moves of the side to move's pieces on the first `n` squares, in square order.
pub open spec fn piece_moves_upto(b: Board, n: int) -> Seq<ChessMove>
    decreases n,
{
    if n <= 0 {
        seq![]
    } else {
        piece_moves_upto(b, n - 1) + if own_piece(b, b.board@[n - 1]) {
            piece_moves(b, n - 1)
        } else {
            seq![]
        }
    }
}

pub open spec fn castle_move(from: int, to: int) -> ChessMove {
    ChessMove {
        from: from as i32,
        to: to as i32,
        promoted_piece: Piece::Empty,
        captured_piece: Piece::Empty,
        is_en_passant: false,
        is_castle: true,
    }
}

/// Castling of the side to move: the right is held, the squares between king
/// and rook are empty, and neither the king's square nor the square it
/// crosses is attacked.
pub open spec fn castling_moves(b: Board) -> Seq<ChessMove> {
    let s = b.board@;
    let white = b.white_to_move;
    let ks = king_square(s, white);
    let base = if white {
        56int
    } else {
        0int
    };
    let (kingside, queenside) = if white {
        (b.can_white_castle_kingside, b.can_white_castle_queenside)
    } else {
        (b.can_black_castle_kingside, b.can_black_castle_queenside)
    };
    if ks == -1 {
        seq![]
    } else {
        let safe = !attacked(s, ks, !white);
        let short = if kingside && s[base + 5] == Piece::Empty && s[base + 6] == Piece::Empty && safe
            && !attacked(s, base + 5, !white) {
            seq![castle_move(ks, base + 6)]
        } else {
            seq![]
        };
        let long = if queenside && s[base + 3] == Piece::Empty && s[base + 2] == Piece::Empty && s[base
            + 1] == Piece::Empty && safe && !attacked(s, base + 3, !white) {
            seq![castle_move(ks, base + 2)]
        } else {
            seq![]
        };
        short + long
    }
}

/// All pseudo-legal moves: piece moves in square order, then castling.
pub open spec fn pseudo_legal_moves(b: Board) -> Seq<ChessMove> {
    piece_moves_upto(b, 64) + castling_moves(b)
}

/// Making `m` does not leave the mover's king in check.
pub open spec fn leaves_king_safe(b: Board, m: ChessMove) -> bool {
    !in_check(placement_after(b.board@, m), b.white_to_move)
}

/// The legal moves: the pseudo-legal ones, in order, that leave the mover's
/// king safe.
pub open spec fn legal_moves(b: Board) -> Seq<ChessMove> {
    pseudo_legal_moves(b).filter(king_safe_after(b))
}

pub open spec fn king_safe_after(b: Board) -> spec_fn(ChessMove) -> bool {
    |m: ChessMove| leaves_king_safe(b, m)
}

/// A generated move lies on the board, joins two different squares, takes en
/// passant only with a pawn of the other colour than the mover's pawn, and on
/// a valid board fits it.
pub open spec fn sound_move(b: Board, m: ChessMove) -> bool {
    let mover = b.board@[m.from as int];
    &&& move_on_board(m)
    &&& m.from != m.to
    &&& m.is_en_passant ==> (mover == Piece::WP && m.captured_piece == Piece::BP) || (mover
        == Piece::BP && m.captured_piece == Piece::WP)
    &&& valid_board(b) ==> fits(b, m)
}

pub open spec fn all_sound(b: Board, moves: Seq<ChessMove>) -> bool {
    forall|i: int| 0 <= i < moves.len() ==> sound_move(b, #[trigger] moves[i])
}

proof fn lemma_first_from_unique(s: Seq<Piece>, p: Piece, i: int, j: int)
    requires
        at_most_one(s, p),
        s.len() == 64,
        0 <= j <= i < 64,
        s[i] == p,
    ensures
        first_from(s, p, j) == i,
    decreases i - j,
{
    if j < i {
        assert(s[j] != p);
        lemma_first_from_unique(s, p, i, j + 1);
    }
}

fn new_move(from: i32, to: i32, cap: Piece) -> (m: ChessMove)
    ensures
        m == simple_move(from as int, to as int, cap),
{
    ChessMove {
        from,
        to,
        promoted_piece: Piece::Empty,
        captured_piece: cap,
        is_en_passant: false,
        is_castle: false,
    }
}

/// The promotion pieces of one colour: queen, rook, bishop, knight.
fn promotion_pieces(white: bool) -> (r: [Piece; 4])
    ensures
        r@ == (if white {
            seq![Piece::WQ, Piece::WR, Piece::WB, Piece::WN]
        } else {
            seq![Piece::BQ, Piece::BR, Piece::BB, Piece::BN]
        }),
{
    let r = if white {
        [Piece::WQ, Piece::WR, Piece::WB, Piece::WN]
    } else {
        [Piece::BQ, Piece::BR, Piece::BB, Piece::BN]
    };
    proof {
        if white {
            assert(r@ =~= seq![Piece::WQ, Piece::WR, Piece::WB, Piece::WN]);
        } else {
            assert(r@ =~= seq![Piece::BQ, Piece::BR, Piece::BB, Piece::BN]);
        }
    }
    r
}

fn push_promotions(
    board: &Board,
    from: i32,
    to: i32,
    cap: Piece,
    white: bool,
    moves_out: &mut Vec<ChessMove>,
)
    requires
        on_sq(from as int),
        on_sq(to as int),
        from != to,
        board.board@[to as int] == cap,
        all_sound(*board, old(moves_out)@),
    ensures
        final(moves_out)@ == old(moves_out)@ + promotions(from as int, to as int, cap, white),
        all_sound(*board, final(moves_out)@),
{
    let pieces = promotion_pieces(white);
    let ghost start = moves_out@;
    let mut i: usize = 0;
    while i < 4
        invariant
            i <= 4,
            pieces@ == (if white {
                seq![Piece::WQ, Piece::WR, Piece::WB, Piece::WN]
            } else {
                seq![Piece::BQ, Piece::BR, Piece::BB, Piece::BN]
            }),
            moves_out@ == start + promotions(from as int, to as int, cap, white).subrange(0, i as int),
            on_sq(from as int),
            on_sq(to as int),
            from != to,
            board.board@[to as int] == cap,
            all_sound(*board, moves_out@),
        decreases 4 - i,
    {
        let m = ChessMove {
            from,
            to,
            promoted_piece: pieces[i],
            captured_piece: cap,
            is_en_passant: false,
            is_castle: false,
        };
        proof {
            assert(promotions(from as int, to as int, cap, white)[i as int] == m);
        }
        moves_out.push(m);
        proof {
            assert(moves_out@ =~= start + promotions(from as int, to as int, cap, white).subrange(
                0,
                i + 1,
            ));
        }
        i = i + 1;
    }
    proof {
        assert(promotions(from as int, to as int, cap, white).subrange(0, 4) =~= promotions(
            from as int,
            to as int,
            cap,
            white,
        ));
    }
}

fn generate_pawn_capture(board: &Board, square: i32, dc: i32, moves_out: &mut Vec<ChessMove>)
    requires
        on_sq(square as int),
        dc == -1 || dc == 1,
        board.board@[square as int] == Piece::WP || board.board@[square as int] == Piece::BP,
        own_piece(*board, board.board@[square as int]),
        all_sound(*board, old(moves_out)@),
    ensures
        final(moves_out)@ == old(moves_out)@ + pawn_captures(*board, square as int, dc as int),
        all_sound(*board, final(moves_out)@),
{
    let ghost start = moves_out@;
    let ghost b = *board;
    let p = board.board[square as usize];
    let white = p == Piece::WP;
    let forward: i32 = if white {
        -8
    } else {
        8
    };
    let promotion_rank: i32 = if white {
        0
    } else {
        7
    };
    let capture_col = col_of(square) + dc;
    if capture_col < 0 || capture_col > 7 {
        proof {
            assert(moves_out@ =~= start + pawn_captures(b, square as int, dc as int));
        }
        return;
    }
    let capture_square = square + forward + dc;
    if !on_board(capture_square) {
        proof {
            assert(moves_out@ =~= start + pawn_captures(b, square as int, dc as int));
        }
        return;
    }
    let target_piece = board.board[capture_square as usize];
    if is_enemy_piece(p, target_piece) {
        if row_of(capture_square) == promotion_rank {
            push_promotions(board, square, capture_square, target_piece, white, moves_out);
        } else {
            moves_out.push(new_move(square, capture_square, target_piece));
        }
    }
    let ghost mid = moves_out@;
    if board.en_passant_square >= 0 && board.en_passant_square < 64 && capture_square
        == board.en_passant_square {
        let m = ChessMove {
            from: square,
            to: capture_square,
            promoted_piece: Piece::Empty,
            captured_piece: if white {
                Piece::BP
            } else {
                Piece::WP
            },
            is_en_passant: true,
            is_castle: false,
        };
        proof {
            if valid_board(b) {
                assert(fits(b, m));
            }
        }
        moves_out.push(m);
    }
    proof {
        assert(moves_out@ =~= start + pawn_captures(b, square as int, dc as int));
    }
}

fn generate_pawn_moves(board: &Board, square: i32, moves_out: &mut Vec<ChessMove>)
    requires
        on_sq(square as int),
        board.board@[square as int] == Piece::WP || board.board@[square as int] == Piece::BP,
        own_piece(*board, board.board@[square as int]),
        all_sound(*board, old(moves_out)@),
    ensures
        final(moves_out)@ == old(moves_out)@ + pawn_moves(*board, square as int),
        all_sound(*board, final(moves_out)@),
{
    let ghost start = moves_out@;
    let ghost s = board.board@;
    let p = board.board[square as usize];
    let white = p == Piece::WP;
    let forward: i32 = if white {
        -8
    } else {
        8
    };
    let start_rank: i32 = if white {
        6
    } else {
        1
    };
    let promotion_rank: i32 = if white {
        0
    } else {
        7
    };
    let forward_one = square + forward;
    if on_board(forward_one) && board.board[forward_one as usize] == Piece::Empty {
        if row_of(forward_one) == promotion_rank {
            push_promotions(board, square, forward_one, Piece::Empty, white, moves_out);
        } else {
            moves_out.push(new_move(square, forward_one, Piece::Empty));
            if row_of(square) == start_rank {
                let forward_two = forward_one + forward;
                if on_board(forward_two) && board.board[forward_two as usize] == Piece::Empty {
                    moves_out.push(new_move(square, forward_two, Piece::Empty));
                }
            }
        }
    }
    proof {
        assert(moves_out@ =~= start + pawn_pushes(s, square as int));
    }
    generate_pawn_capture(board, square, -1, moves_out);
    generate_pawn_capture(board, square, 1, moves_out);
    proof {
        assert(moves_out@ =~= start + pawn_moves(*board, square as int));
    }
}

fn generate_knight_moves(board: &Board, square: i32, moves_out: &mut Vec<ChessMove>)
    requires
        on_sq(square as int),
        all_sound(*board, old(moves_out)@),
    ensures
        final(moves_out)@ == old(moves_out)@ + knight_moves(board.board@, square as int, 8),
        all_sound(*board, final(moves_out)@),
{
    let ghost start = moves_out@;
    let ghost s = board.board@;
    let piece = board.board[square as usize];
    let from_row = row_of(square);
    let from_col = col_of(square);
    let mut k: usize = 0;
    while k < 8
        invariant
            k <= 8,
            on_sq(square as int),
            s == board.board@,
            piece == s[square as int],
            from_row == row(square as int),
            from_col == col(square as int),
            moves_out@ == start + knight_moves(s, square as int, k as int),
            all_sound(*board, moves_out@),
        decreases 8 - k,
    {
        let target = square + knight_offset_at(k);
        let ghost before = moves_out@;
        if on_board(target) {
            let drow = row_of(target) - from_row;
            let dcol = col_of(target) - from_col;
            if ((drow == 2 || drow == -2) && (dcol == 1 || dcol == -1)) || ((drow == 1 || drow
                == -1) && (dcol == 2 || dcol == -2)) {
                let tgt_piece = board.board[target as usize];
                if tgt_piece == Piece::Empty || is_enemy_piece(piece, tgt_piece) {
                    moves_out.push(new_move(square, target, tgt_piece));
                }
            }
        }
        proof {
            assert(moves_out@ =~= start + knight_moves(s, square as int, k as int + 1));
        }
        k = k + 1;
    }
}

fn generate_king_moves(board: &Board, square: i32, moves_out: &mut Vec<ChessMove>)
    requires
        on_sq(square as int),
        all_sound(*board, old(moves_out)@),
    ensures
        final(moves_out)@ == old(moves_out)@ + king_moves(board.board@, square as int, 8),
        all_sound(*board, final(moves_out)@),
{
    let ghost start = moves_out@;
    let ghost s = board.board@;
    let piece = board.board[square as usize];
    let mut k: usize = 0;
    while k < 8
        invariant
            k <= 8,
            on_sq(square as int),
            s == board.board@,
            piece == s[square as int],
            moves_out@ == start + king_moves(s, square as int, k as int),
            all_sound(*board, moves_out@),
        decreases 8 - k,
    {
        let target = square + king_offset_at(k);
        if on_board(target) {
            let dcol = col_of(target) - col_of(square);
            if -1 <= dcol && dcol <= 1 {
                let tgt_piece = board.board[target as usize];
                if tgt_piece == Piece::Empty || is_enemy_piece(piece, tgt_piece) {
                    moves_out.push(new_move(square, target, tgt_piece));
                }
            }
        }
        proof {
            assert(moves_out@ =~= start + king_moves(s, square as int, k as int + 1));
        }
        k = k + 1;
    }
}

/// Walks one ray of a slider on `square` along `d`.
fn generate_ray_moves(
    board: &Board,
    square: i32,
    d: i32,
    diagonal: bool,
    moves_out: &mut Vec<ChessMove>,
)
    requires
        on_sq(square as int),
        d == -9 || d == -8 || d == -7 || d == -1 || d == 1 || d == 7 || d == 8 || d == 9,
        all_sound(*board, old(moves_out)@),
    ensures
        final(moves_out)@ == old(moves_out)@ + ray_moves(
            board.board@,
            square as int,
            square as int,
            d as int,
            diagonal,
            8,
        ),
        all_sound(*board, final(moves_out)@),
{
    let ghost start = moves_out@;
    let ghost s = board.board@;
    let ghost whole = ray_moves(s, square as int, square as int, d as int, diagonal, 8);
    let piece = board.board[square as usize];
    let mut current = square;
    let mut fuel: u32 = 8;
    while fuel > 0
        invariant
            on_sq(current as int),
            on_sq(square as int),
            d == -9 || d == -8 || d == -7 || d == -1 || d == 1 || d == 7 || d == 8 || d == 9,
            d > 0 ==> current >= square,
            d < 0 ==> current <= square,
            s == board.board@,
            start == old(moves_out)@,
            whole == ray_moves(s, square as int, square as int, d as int, diagonal, 8),
            piece == s[square as int],
            start + whole == moves_out@ + ray_moves(
                s,
                square as int,
                current as int,
                d as int,
                diagonal,
                fuel as nat,
            ),
            all_sound(*board, moves_out@),
        decreases fuel,
    {
        let next = current + d;
        if !slide_step_ok(current, next, d, diagonal) {
            proof {
                assert(moves_out@ =~= start + whole);
            }
            return;
        }
        let tgt = board.board[next as usize];
        if tgt == Piece::Empty {
            let ghost before = moves_out@;
            let ghost rest = ray_moves(s, square as int, next as int, d as int, diagonal, (fuel - 1) as nat);
            let m = new_move(square, next, Piece::Empty);
            moves_out.push(m);
            proof {
                assert(before + (seq![m] + rest) =~= moves_out@ + rest);
            }
            current = next;
            fuel = fuel - 1;
        } else {
            if is_enemy_piece(piece, tgt) {
                moves_out.push(new_move(square, next, tgt));
            }
            proof {
                assert(moves_out@ =~= start + whole);
            }
            return;
        }
    }
    proof {
        assert(moves_out@ =~= start + whole);
    }
}

fn generate_slider_moves(
    board: &Board,
    square: i32,
    diagonal: bool,
    moves_out: &mut Vec<ChessMove>,
)
    requires
        on_sq(square as int),
        all_sound(*board, old(moves_out)@),
    ensures
        final(moves_out)@ == old(moves_out)@ + slider_moves(board.board@, square as int, diagonal, 4),
        all_sound(*board, final(moves_out)@),
{
    let ghost start = moves_out@;
    let mut k: usize = 0;
    while k < 4
        invariant
            k <= 4,
            on_sq(square as int),
            moves_out@ == start + slider_moves(board.board@, square as int, diagonal, k as int),
            all_sound(*board, moves_out@),
        decreases 4 - k,
    {
        let d = slide_dir_at(diagonal, k);
        generate_ray_moves(board, square, d, diagonal, moves_out);
        proof {
            assert(moves_out@ =~= start + slider_moves(board.board@, square as int, diagonal, k as int + 1));
        }
        k = k + 1;
    }
}

fn generate_bishop_moves(board: &Board, square: i32, moves_out: &mut Vec<ChessMove>)
    requires
        on_sq(square as int),
        all_sound(*board, old(moves_out)@),
    ensures
        final(moves_out)@ == old(moves_out)@ + slider_moves(board.board@, square as int, true, 4),
        all_sound(*board, final(moves_out)@),
{
    generate_slider_moves(board, square, true, moves_out)
}

fn generate_rook_moves(board: &Board, square: i32, moves_out: &mut Vec<ChessMove>)
    requires
        on_sq(square as int),
        all_sound(*board, old(moves_out)@),
    ensures
        final(moves_out)@ == old(moves_out)@ + slider_moves(board.board@, square as int, false, 4),
        all_sound(*board, final(moves_out)@),
{
    generate_slider_moves(board, square, false, moves_out)
}

fn generate_piece_moves(board: &Board, square: i32, moves_out: &mut Vec<ChessMove>)
    requires
        on_sq(square as int),
        own_piece(*board, board.board@[square as int]),
        all_sound(*board, old(moves_out)@),
    ensures
        final(moves_out)@ == old(moves_out)@ + piece_moves(*board, square as int),
        all_sound(*board, final(moves_out)@),
{
    let ghost start = moves_out@;
    let p = board.board[square as usize];
    match p {
        Piece::WP | Piece::BP => generate_pawn_moves(board, square, moves_out),
        Piece::WN | Piece::BN => generate_knight_moves(board, square, moves_out),
        Piece::WB | Piece::BB => generate_bishop_moves(board, square, moves_out),
        Piece::WR | Piece::BR => generate_rook_moves(board, square, moves_out),
        Piece::WQ | Piece::BQ => {
            generate_bishop_moves(board, square, moves_out);
            generate_rook_moves(board, square, moves_out);
            proof {
                assert(moves_out@ =~= start + piece_moves(*board, square as int));
            }
        },
        Piece::WK | Piece::BK => generate_king_moves(board, square, moves_out),
        Piece::Empty => {
            proof {
                assert(moves_out@ =~= start + piece_moves(*board, square as int));
            }
        },
    }
}

fn generate_castling_moves(board: &Board, moves_out: &mut Vec<ChessMove>)
    requires
        all_sound(*board, old(moves_out)@),
    ensures
        final(moves_out)@ == old(moves_out)@ + castling_moves(*board),
        all_sound(*board, final(moves_out)@),
{
    let ghost start = moves_out@;
    let ghost b = *board;
    let ghost s = board.board@;
    let white = board.white_to_move;
    let king_square = find_king_square(board, white);
    if king_square == -1 {
        proof {
            assert(moves_out@ =~= start + castling_moves(b));
        }
        return;
    }
    proof {
        lemma_first_from_range(s, king_of(white), 0);
    }
    let base: i32 = if white {
        56
    } else {
        0
    };
    let kingside = if white {
        board.can_white_castle_kingside
    } else {
        board.can_black_castle_kingside
    };
    let queenside = if white {
        board.can_white_castle_queenside
    } else {
        board.can_black_castle_queenside
    };
    proof {
        if valid_board(b) && (kingside || queenside) {
            lemma_first_from_unique(s, king_of(white), base + 4, 0);
        }
    }
    let safe = !is_square_attacked(board, king_square, !white);
    if kingside && board.board[(base + 5) as usize] == Piece::Empty && board.board[(base
        + 6) as usize] == Piece::Empty && safe && !is_square_attacked(board, base + 5, !white) {
        moves_out.push(
            ChessMove {
                from: king_square,
                to: base + 6,
                promoted_piece: Piece::Empty,
                captured_piece: Piece::Empty,
                is_en_passant: false,
                is_castle: true,
            },
        );
    }
    if queenside && board.board[(base + 3) as usize] == Piece::Empty && board.board[(base
        + 2) as usize] == Piece::Empty && board.board[(base + 1) as usize] == Piece::Empty && safe
        && !is_square_attacked(board, base + 3, !white) {
        moves_out.push(
            ChessMove {
                from: king_square,
                to: base + 2,
                promoted_piece: Piece::Empty,
                captured_piece: Piece::Empty,
                is_en_passant: false,
                is_castle: true,
            },
        );
    }
    proof {
        assert(moves_out@ =~= start + castling_moves(b));
    }
}

fn generate_pseudo_legal_moves(board: &Board) -> (r: Vec<ChessMove>)
    ensures
        r@ == pseudo_legal_moves(*board),
        all_sound(*board, r@),
{
    let mut moves: Vec<ChessMove> = Vec::new();
    let mut square: usize = 0;
    while square < 64
        invariant
            square <= 64,
            moves@ == piece_moves_upto(*board, square as int),
            all_sound(*board, moves@),
        decreases 64 - square,
    {
        let ghost before = moves@;
        let piece = board.board[square];
        if piece != Piece::Empty {
            if (board.white_to_move && is_white_piece(piece)) || (!board.white_to_move
                && is_black_piece(piece)) {
                generate_piece_moves(board, square as i32, &mut moves);
            }
        }
        proof {
            assert(moves@ =~= piece_moves_upto(*board, square as int + 1));
        }
        square = square + 1;
    }
    generate_castling_moves(board, &mut moves);
    moves
}

proof fn lemma_filter_step(s: Seq<ChessMove>, pred: spec_fn(ChessMove) -> bool, i: int)
    requires
        0 <= i < s.len(),
    ensures
        s.subrange(0, i + 1).filter(pred) == if pred(s[i]) {
            s.subrange(0, i).filter(pred).push(s[i])
        } else {
            s.subrange(0, i).filter(pred)
        },
{
    reveal(Seq::filter);
    assert(s.subrange(0, i + 1).drop_last() =~= s.subrange(0, i));
}

proof fn lemma_filter_subset(s: Seq<ChessMove>, pred: spec_fn(ChessMove) -> bool)
    ensures
        forall|m: ChessMove| s.filter(pred).contains(m) ==> s.contains(m) && pred(m),
    decreases s.len(),
{
    reveal(Seq::filter);
    if s.len() > 0 {
        lemma_filter_subset(s.drop_last(), pred);
        assert forall|m: ChessMove| s.filter(pred).contains(m) implies s.contains(m) && pred(m) by {
            let f = s.filter(pred);
            let j = choose|j: int| 0 <= j < f.len() && f[j] == m;
            if pred(s.last()) && j == f.len() - 1 {
                assert(s[s.len() - 1] == m);
            } else {
                let sub = s.drop_last().filter(pred);
                assert(f == if pred(s.last()) {
                    sub.push(s.last())
                } else {
                    sub
                });
                assert(j < sub.len());
                assert(sub[j] == m);
                assert(sub.contains(m));
                assert(s.drop_last().contains(m));
                let k = choose|k: int| 0 <= k < s.drop_last().len() && s.drop_last()[k] == m;
                assert(s[k] == m);
            }
        }
    }
}

/// Every legal move is pseudo-legal, and making it leaves the mover's king out
/// of check.
pub proof fn lemma_legal_moves_are_safe(b: Board)
    ensures
        forall|m: ChessMove| #[trigger]
            legal_moves(b).contains(m) ==> pseudo_legal_moves(b).contains(m) && !in_check(
                placement_after(b.board@, m),
                b.white_to_move,
            ),
{
    lemma_filter_subset(pseudo_legal_moves(b), king_safe_after(b));
}

/// The legal moves of the side to move, in generation order: pieces by square
/// from a8 to h1, then castling.
pub fn generate_legal_moves(board: &Board) -> (r: Vec<ChessMove>)
    ensures
        r@ == legal_moves(*board),
        all_sound(*board, r@),
{
    let pseudo = generate_pseudo_legal_moves(board);
    let ghost pred = king_safe_after(*board);
    let mut legal: Vec<ChessMove> = Vec::new();
    let mut i: usize = 0;
    while i < pseudo.len()
        invariant
            i <= pseudo@.len(),
            pseudo@ == pseudo_legal_moves(*board),
            all_sound(*board, pseudo@),
            pred == king_safe_after(*board),
            legal@ == pseudo@.subrange(0, i as int).filter(pred),
            all_sound(*board, legal@),
        decreases pseudo@.len() - i,
    {
        let mv = pseudo[i];
        let mut temp_board = *board;
        make_move(&mut temp_board, &mv);
        let side_that_just_moved = !temp_board.white_to_move;
        if !is_king_in_check(&temp_board, side_that_just_moved) {
            legal.push(mv);
        }
        proof {
            lemma_filter_step(pseudo@, pred, i as int);
        }
        i = i + 1;
    }
    proof {
        assert(pseudo@.subrange(0, pseudo@.len() as int) =~= pseudo@);
    }
    legal
}

/// The side is in check and the side to move has no legal move.
pub fn is_checkmate(board: &Board, white_to_move: bool) -> (r: bool)
    ensures
        r == (in_check(board.board@, white_to_move) && legal_moves(*board).len() == 0),
{
    if is_king_in_check(board, white_to_move) {
        let moves = generate_legal_moves(board);
        moves.len() == 0
    } else {
        false
    }
}

/// The side is not in check and the side to move has no legal move.
pub fn is_stalemate(board: &Board, white_to_move: bool) -> (r: bool)
    ensures
        r == (!in_check(board.board@, white_to_move) && legal_moves(*board).len() == 0),
{
    if !is_king_in_check(board, white_to_move) {
        let moves = generate_legal_moves(board);
        moves.len() == 0
    } else {
        false
    }
}

// ---------------------------------------------------------------------------
// Every generated move fits a valid board
// ---------------------------------------------------------------------------

proof fn lemma_concat_sound(b: Board, x: Seq<ChessMove>, y: Seq<ChessMove>)
    requires
        all_sound(b, x),
        all_sound(b, y),
    ensures
        all_sound(b, x + y),
{
    assert forall|i: int| 0 <= i < (x + y).len() implies sound_move(b, #[trigger] (x + y)[i]) by {
        if i < x.len() {
            assert((x + y)[i] == x[i]);
        } else {
            assert((x + y)[i] == y[i - x.len()]);
        }
    }
}

proof fn lemma_target_sound(b: Board, from: int, to: int)
    requires
        on_sq(from),
        on_sq(to),
        from != to,
    ensures
        all_sound(b, target_move(b.board@, from, to)),
{
}

proof fn lemma_knight_sound(b: Board, sq: int, k: int)
    requires
        on_sq(sq),
    ensures
        all_sound(b, knight_moves(b.board@, sq, k)),
    decreases k,
{
    if k > 0 {
        lemma_knight_sound(b, sq, k - 1);
        let t = sq + knight_offset(k - 1);
        if knight_jump(sq, t) {
            lemma_target_sound(b, sq, t);
            lemma_concat_sound(b, knight_moves(b.board@, sq, k - 1), target_move(b.board@, sq, t));
        } else {
            lemma_concat_sound(b, knight_moves(b.board@, sq, k - 1), seq![]);
        }
    }
}

proof fn lemma_king_sound(b: Board, sq: int, k: int)
    requires
        on_sq(sq),
        k <= 8,
    ensures
        all_sound(b, king_moves(b.board@, sq, k)),
    decreases k,
{
    if k > 0 {
        lemma_king_sound(b, sq, k - 1);
        let t = sq + king_offset(k - 1);
        if on_sq(t) && dist(col(t), col(sq)) <= 1 {
            lemma_target_sound(b, sq, t);
            lemma_concat_sound(b, king_moves(b.board@, sq, k - 1), target_move(b.board@, sq, t));
        } else {
            lemma_concat_sound(b, king_moves(b.board@, sq, k - 1), seq![]);
        }
    }
}

proof fn lemma_ray_sound(b: Board, from: int, cur: int, d: int, diagonal: bool, fuel: nat)
    requires
        on_sq(from),
        d == -9 || d == -8 || d == -7 || d == -1 || d == 1 || d == 7 || d == 8 || d == 9,
        d > 0 ==> cur >= from,
        d < 0 ==> cur <= from,
    ensures
        all_sound(b, ray_moves(b.board@, from, cur, d, diagonal, fuel)),
    decreases fuel,
{
    if fuel > 0 {
        let next = cur + d;
        if slide_ok(cur, next, d, diagonal) && b.board@[next] == Piece::Empty {
            lemma_ray_sound(b, from, next, d, diagonal, (fuel - 1) as nat);
            lemma_concat_sound(
                b,
                seq![simple_move(from, next, Piece::Empty)],
                ray_moves(b.board@, from, next, d, diagonal, (fuel - 1) as nat),
            );
        }
    }
}

proof fn lemma_slider_sound(b: Board, sq: int, diagonal: bool, k: int)
    requires
        on_sq(sq),
        k <= 4,
    ensures
        all_sound(b, slider_moves(b.board@, sq, diagonal, k)),
    decreases k,
{
    if k > 0 {
        lemma_slider_sound(b, sq, diagonal, k - 1);
        lemma_ray_sound(b, sq, sq, slide_dir(diagonal, k - 1), diagonal, 8);
        lemma_concat_sound(
            b,
            slider_moves(b.board@, sq, diagonal, k - 1),
            ray_moves(b.board@, sq, sq, slide_dir(diagonal, k - 1), diagonal, 8),
        );
    }
}

proof fn lemma_pawn_sound(b: Board, sq: int)
    requires
        on_sq(sq),
        b.board@[sq] == Piece::WP || b.board@[sq] == Piece::BP,
        own_piece(b, b.board@[sq]),
    ensures
        all_sound(b, pawn_moves(b, sq)),
{
    let s = b.board@;
    let pushes = pawn_pushes(s, sq);
    let left = pawn_captures(b, sq, -1);
    let right = pawn_captures(b, sq, 1);
    assert(all_sound(b, pushes));
    assert(all_sound(b, left));
    assert(all_sound(b, right));
    lemma_concat_sound(b, pushes, left);
    lemma_concat_sound(b, pushes + left, right);
}

proof fn lemma_piece_sound(b: Board, sq: int)
    requires
        on_sq(sq),
        own_piece(b, b.board@[sq]),
    ensures
        all_sound(b, piece_moves(b, sq)),
{
    let s = b.board@;
    let p = s[sq];
    if p == Piece::WP || p == Piece::BP {
        lemma_pawn_sound(b, sq);
    } else if p == Piece::WN || p == Piece::BN {
        lemma_knight_sound(b, sq, 8);
    } else if p == Piece::WB || p == Piece::BB {
        lemma_slider_sound(b, sq, true, 4);
    } else if p == Piece::WR || p == Piece::BR {
        lemma_slider_sound(b, sq, false, 4);
    } else if p == Piece::WQ || p == Piece::BQ {
        lemma_slider_sound(b, sq, true, 4);
        lemma_slider_sound(b, sq, false, 4);
        lemma_concat_sound(b, slider_moves(s, sq, true, 4), slider_moves(s, sq, false, 4));
    } else if p == Piece::WK || p == Piece::BK {
        lemma_king_sound(b, sq, 8);
    }
}

proof fn lemma_piece_moves_upto_sound(b: Board, n: int)
    requires
        n <= 64,
    ensures
        all_sound(b, piece_moves_upto(b, n)),
    decreases n,
{
    if n > 0 {
        lemma_piece_moves_upto_sound(b, n - 1);
        if own_piece(b, b.board@[n - 1]) {
            lemma_piece_sound(b, n - 1);
            lemma_concat_sound(b, piece_moves_upto(b, n - 1), piece_moves(b, n - 1));
        } else {
            lemma_concat_sound(b, piece_moves_upto(b, n - 1), seq![]);
        }
    }
}

proof fn lemma_castling_sound(b: Board)
    ensures
        all_sound(b, castling_moves(b)),
{
    let s = b.board@;
    let white = b.white_to_move;
    let base = if white {
        56int
    } else {
        0int
    };
    lemma_first_from_range(s, king_of(white), 0);
    let kingside = if white {
        b.can_white_castle_kingside
    } else {
        b.can_black_castle_kingside
    };
    let queenside = if white {
        b.can_white_castle_queenside
    } else {
        b.can_black_castle_queenside
    };
    if valid_board(b) && (kingside || queenside) {
        lemma_first_from_unique(s, king_of(white), base + 4, 0);
    }
    let ks = king_square(s, white);
    if ks != -1 {
        let safe = !attacked(s, ks, !white);
        let short = if kingside && s[base + 5] == Piece::Empty && s[base + 6] == Piece::Empty && safe
            && !attacked(s, base + 5, !white) {
            seq![castle_move(ks, base + 6)]
        } else {
            seq![]
        };
        let long = if queenside && s[base + 3] == Piece::Empty && s[base + 2] == Piece::Empty && s[base
            + 1] == Piece::Empty && safe && !attacked(s, base + 3, !white) {
            seq![castle_move(ks, base + 2)]
        } else {
            seq![]
        };
        assert(all_sound(b, short));
        assert(all_sound(b, long));
        lemma_concat_sound(b, short, long);
    }
}

/// Every pseudo-legal move lies on the board, and on a valid board describes
/// it truly (see `fits`).
pub proof fn lemma_pseudo_legal_moves_sound(b: Board)
    ensures
        all_sound(b, pseudo_legal_moves(b)),
{
    lemma_piece_moves_upto_sound(b, 64);
    lemma_castling_sound(b);
    lemma_concat_sound(b, piece_moves_upto(b, 64), castling_moves(b));
}

/// Making a legal move of a valid board and taking it back with the snapshot
/// made before it restores the board in every field, and so its Zobrist key.
pub proof fn lemma_legal_move_round_trip(
    b: Board,
    m: ChessMove,
    a: Board,
    r: Board,
    t: crate::board::ZobristTables,
)
    requires
        valid_board(b),
        legal_moves(b).contains(m),
        moved(b, m, a),
        unmoved(a, m, undo_for(b, m, crate::board::zobrist(b, t)), r),
    ensures
        r == b,
        crate::board::zobrist(r, t) == crate::board::zobrist(b, t),
{
    lemma_legal_moves_are_safe(b);
    lemma_pseudo_legal_moves_sound(b);
    let k = choose|k: int| 0 <= k < pseudo_legal_moves(b).len() && pseudo_legal_moves(b)[k] == m;
    assert(sound_move(b, pseudo_legal_moves(b)[k]));
    lemma_unmake_restores(b, m, a, r, t);
}

} // verus!
