use crate::board::{int_text, push_int, Piece};
use vstd::prelude::*;
use vstd::string::StringExecFns;

verus! {

/// A move as produced by the generator.
///
/// `promoted_piece == Piece::Empty` means no promotion; `captured_piece` is the
/// piece that stood on the destination (for en passant: the opposing pawn).
#[derive(Copy, Clone, Debug, PartialEq, Eq, Structural)]
pub struct ChessMove {
    pub from: i32,
    pub to: i32,
    pub promoted_piece: Piece,
    pub captured_piece: Piece,
    pub is_en_passant: bool,
    pub is_castle: bool,
}

/// Everything needed to take a move back: the move, the piece that moved and a
/// snapshot of every board field that `make_move` may change.
#[derive(Copy, Clone, Debug)]
pub struct UndoInfo {
    pub the_move: ChessMove,
    pub piece_moved: Piece,
    pub white_to_move_before: bool,
    pub can_white_castle_kingside_before: bool,
    pub can_white_castle_queenside_before: bool,
    pub can_black_castle_kingside_before: bool,
    pub can_black_castle_queenside_before: bool,
    pub en_passant_square_before: i32,
    pub half_move_capture_or_pawn_clock_before: i32,
    pub full_move_number_before: i32,
    pub zobrist_key_before: u64,
}

/// The name of a piece kind as it is written in code.
pub open spec fn piece_name(p: Piece) -> Seq<char> {
    match p {
        Piece::Empty => "Empty"@,
        Piece::WP => "WP"@,
        Piece::WN => "WN"@,
        Piece::WB => "WB"@,
        Piece::WR => "WR"@,
        Piece::WQ => "WQ"@,
        Piece::WK => "WK"@,
        Piece::BP => "BP"@,
        Piece::BN => "BN"@,
        Piece::BB => "BB"@,
        Piece::BR => "BR"@,
        Piece::BQ => "BQ"@,
        Piece::BK => "BK"@,
    }
}

pub open spec fn bool_text(b: bool) -> Seq<char> {
    if b {
        "true"@
    } else {
        "false"@
    }
}

/// A move written out field by field.
pub open spec fn move_text(m: ChessMove) -> Seq<char> {
    "Move { from: "@ + int_text(m.from as int) + ", to: "@ + int_text(m.to as int) + ", promoted: "@
        + piece_name(m.promoted_piece) + ", captured: "@ + piece_name(m.captured_piece)
        + ", en_passant: "@ + bool_text(m.is_en_passant) + ", castle: "@ + bool_text(m.is_castle)
        + " }"@
}

fn piece_name_str(p: Piece) -> (r: &'static str)
    ensures
        r@ == piece_name(p),
{
    match p {
        Piece::Empty => "Empty",
        Piece::WP => "WP",
        Piece::WN => "WN",
        Piece::WB => "WB",
        Piece::WR => "WR",
        Piece::WQ => "WQ",
        Piece::WK => "WK",
        Piece::BP => "BP",
        Piece::BN => "BN",
        Piece::BB => "BB",
        Piece::BR => "BR",
        Piece::BQ => "BQ",
        Piece::BK => "BK",
    }
}

fn bool_str(b: bool) -> (r: &'static str)
    ensures
        r@ == bool_text(b),
{
    if b {
        "true"
    } else {
        "false"
    }
}

impl ChessMove {
    /// The move written out field by field, for diagnostics.
    pub fn to_string(&self) -> (r: String)
        ensures
            r@ == move_text(*self),
    {
        let mut out = String::new();
        out.append("Move { from: ");
        push_int(&mut out, self.from);
        out.append(", to: ");
        push_int(&mut out, self.to);
        out.append(", promoted: ");
        out.append(piece_name_str(self.promoted_piece));
        out.append(", captured: ");
        out.append(piece_name_str(self.captured_piece));
        out.append(", en_passant: ");
        out.append(bool_str(self.is_en_passant));
        out.append(", castle: ");
        out.append(bool_str(self.is_castle));
        out.append(" }");
        proof {
            assert(out@ =~= move_text(*self));
        }
        out
    }
}

} // verus!
