use vstd::prelude::*;
use vstd::seq_lib::lemma_concat_associative;
use vstd::string::StringExecFns;

verus! {

pub type ZobristKey = u64;

/// The thirteen square contents. Their ordinals (see `Piece::ordinal`) index the
/// Zobrist and evaluation tables.
#[derive(Copy, Clone, Debug, PartialEq, Eq, Structural)]
pub enum Piece {
    Empty,
    WP,
    WN,
    WB,
    WR,
    WQ,
    WK,
    BP,
    BN,
    BB,
    BR,
    BQ,
    BK,
}

impl Piece {
    /// The stable ordinal of a piece, 0 for `Empty` up to 12 for `BK`.
    pub open spec fn ordinal(self) -> int {
        match self {
            Piece::Empty => 0,
            Piece::WP => 1,
            Piece::WN => 2,
            Piece::WB => 3,
            Piece::WR => 4,
            Piece::WQ => 5,
            Piece::WK => 6,
            Piece::BP => 7,
            Piece::BN => 8,
            Piece::BB => 9,
            Piece::BR => 10,
            Piece::BQ => 11,
            Piece::BK => 12,
        }
    }

    pub fn index(self) -> (r: usize)
        ensures
            r == self.ordinal(),
            r < 13,
    {
        match self {
            Piece::Empty => 0,
            Piece::WP => 1,
            Piece::WN => 2,
            Piece::WB => 3,
            Piece::WR => 4,
            Piece::WQ => 5,
            Piece::WK => 6,
            Piece::BP => 7,
            Piece::BN => 8,
            Piece::BB => 9,
            Piece::BR => 10,
            Piece::BQ => 11,
            Piece::BK => 12,
        }
    }
}

/// The letter of a piece in board diagrams and FEN: upper case for white,
/// lower case for black, `.` for an empty square.
pub open spec fn piece_char(p: Piece) -> char {
    match p {
        Piece::Empty => '.',
        Piece::WP => 'P',
        Piece::WN => 'N',
        Piece::WB => 'B',
        Piece::WR => 'R',
        Piece::WQ => 'Q',
        Piece::WK => 'K',
        Piece::BP => 'p',
        Piece::BN => 'n',
        Piece::BB => 'b',
        Piece::BR => 'r',
        Piece::BQ => 'q',
        Piece::BK => 'k',
    }
}

pub fn piece_to_char(piece: Piece) -> (r: char)
    ensures
        r == piece_char(piece),
{
    match piece {
        Piece::Empty => '.',
        Piece::WP => 'P',
        Piece::WN => 'N',
        Piece::WB => 'B',
        Piece::WR => 'R',
        Piece::WQ => 'Q',
        Piece::WK => 'K',
        Piece::BP => 'p',
        Piece::BN => 'n',
        Piece::BB => 'b',
        Piece::BR => 'r',
        Piece::BQ => 'q',
        Piece::BK => 'k',
    }
}

/// The file letter `a`..`h` of a column 0..7.
pub open spec fn file_char(col: int) -> char {
    (('a' as int) + col) as char
}

/// The rank digit `1`..`8` of a row 0..7 (row 0 is rank 8).
pub open spec fn rank_char(row: int) -> char {
    (('8' as int) - row) as char
}

/// The algebraic name of a square index, `a8` for 0 through `h1` for 63.
pub open spec fn algebraic(sq: int) -> Seq<char> {
    seq![file_char(sq % 8), rank_char(sq / 8)]
}

/// Relies on `String::push`: the character is appended at the end.
#[verifier::external_body]
pub(crate) fn push_char(s: &mut String, c: char)
    ensures
        final(s)@ == old(s)@.push(c),
{
    s.push(c)
}

pub fn square_to_algebraic(sq_index: usize) -> (r: String)
    requires
        sq_index < 64,
    ensures
        r@ == algebraic(sq_index as int),
{
    let row = sq_index / 8;
    let col = sq_index % 8;
    let file = (97u8 + col as u8) as char;
    let rank = (56u8 - row as u8) as char;
    let mut out = String::new();
    push_char(&mut out, file);
    push_char(&mut out, rank);
    proof {
        assert(out@ =~= algebraic(sq_index as int));
    }
    out
}

/// A position: the 64 squares (index 0 is a8, index 63 is h1), the side to
/// move, the four castling rights, the en-passant target (negative when there
/// is none) and the two move counters.
#[derive(Copy, Clone, Debug)]
pub struct Board {
    pub board: [Piece; 64],
    pub white_to_move: bool,
    pub can_white_castle_kingside: bool,
    pub can_white_castle_queenside: bool,
    pub can_black_castle_kingside: bool,
    pub can_black_castle_queenside: bool,
    pub en_passant_square: i32,
    pub half_move_capture_or_pawn_clock: i32,
    pub full_move_number: i32,
}

/// The random keys behind Zobrist hashing: one per (piece ordinal, square),
/// stored row-major as `piece[ordinal * 64 + square]`, one per castling right,
/// one per en-passant square and one for white to move.
#[derive(Debug)]
pub struct ZobristTables {
    pub piece: Vec<u64>,
    pub castling: Vec<u64>,
    pub en_passant: Vec<u64>,
    pub white_to_move: u64,
}

impl Clone for ZobristTables {
    fn clone(&self) -> (r: Self)
        ensures
            r.same_keys(*self),
    {
        let r = ZobristTables {
            piece: self.piece.clone(),
            castling: self.castling.clone(),
            en_passant: self.en_passant.clone(),
            white_to_move: self.white_to_move,
        };
        proof {
            assert(r.piece@ =~= self.piece@);
            assert(r.castling@ =~= self.castling@);
            assert(r.en_passant@ =~= self.en_passant@);
        }
        r
    }
}

impl ZobristTables {
    /// Both hold the same keys.
    pub open spec fn same_keys(&self, o: Self) -> bool {
        &&& self.piece@ == o.piece@
        &&& self.castling@ == o.castling@
        &&& self.en_passant@ == o.en_passant@
        &&& self.white_to_move == o.white_to_move
    }

    pub open spec fn wf(&self) -> bool {
        &&& self.piece@.len() == 13 * 64
        &&& self.castling@.len() == 4
        &&& self.en_passant@.len() == 64
    }

    /// Fresh tables filled with pseudorandom keys.
    pub fn new() -> (t: Self)
        ensures
            t.wf(),
    {
        let mut piece: Vec<u64> = Vec::new();
        let mut i: usize = 0;
        while i < 13 * 64
            invariant
                i <= 13 * 64,
                piece@.len() == i,
            decreases 13 * 64 - i,
        {
            piece.push(rand::random::<u64>());
            i = i + 1;
        }
        let mut castling: Vec<u64> = Vec::new();
        let mut j: usize = 0;
        while j < 4
            invariant
                j <= 4,
                castling@.len() == j,
            decreases 4 - j,
        {
            castling.push(rand::random::<u64>());
            j = j + 1;
        }
        let mut en_passant: Vec<u64> = Vec::new();
        let mut k: usize = 0;
        while k < 64
            invariant
                k <= 64,
                en_passant@.len() == k,
            decreases 64 - k,
        {
            en_passant.push(rand::random::<u64>());
            k = k + 1;
        }
        let white_to_move = rand::random::<u64>();
        ZobristTables { piece, castling, en_passant, white_to_move }
    }
}

/// Relies on rand's `random`: a pseudorandom value, of which nothing is promised.
pub assume_specification<T>[ rand::random::<T> ]() -> (r: T)
    where
        rand::distributions::Standard: rand::distributions::Distribution<T>,
;

/// The XOR of the piece-square keys of the non-empty squares among the first `n`.
pub open spec fn zobrist_pieces(b: Board, t: ZobristTables, n: int) -> u64
    decreases n,
{
    if n <= 0 {
        0
    } else {
        let p = b.board[n - 1];
        let prev = zobrist_pieces(b, t, n - 1);
        if p != Piece::Empty {
            prev ^ t.piece@[p.ordinal() * 64 + n - 1]
        } else {
            prev
        }
    }
}

/// The Zobrist key of a position: piece-square keys, then the keys of the held
/// castling rights, the en-passant key if the target is on the board, and the
/// side-to-move key when white is to move.
pub open spec fn zobrist(b: Board, t: ZobristTables) -> u64 {
    let k0 = zobrist_pieces(b, t, 64);
    let k1 = if b.can_white_castle_kingside { k0 ^ t.castling@[0] } else { k0 };
    let k2 = if b.can_white_castle_queenside { k1 ^ t.castling@[1] } else { k1 };
    let k3 = if b.can_black_castle_kingside { k2 ^ t.castling@[2] } else { k2 };
    let k4 = if b.can_black_castle_queenside { k3 ^ t.castling@[3] } else { k3 };
    let k5 = if 0 <= b.en_passant_square < 64 {
        k4 ^ t.en_passant@[b.en_passant_square as int]
    } else {
        k4
    };
    if b.white_to_move { k5 ^ t.white_to_move } else { k5 }
}

/// Two boards hold the same position: placement, side to move, castling
/// rights and en-passant target agree (the move counters may differ).
pub open spec fn same_position(a: Board, b: Board) -> bool {
    &&& a.board@ == b.board@
    &&& a.white_to_move == b.white_to_move
    &&& a.can_white_castle_kingside == b.can_white_castle_kingside
    &&& a.can_white_castle_queenside == b.can_white_castle_queenside
    &&& a.can_black_castle_kingside == b.can_black_castle_kingside
    &&& a.can_black_castle_queenside == b.can_black_castle_queenside
    &&& a.en_passant_square == b.en_passant_square
}

proof fn lemma_zobrist_pieces_same(a: Board, b: Board, t: ZobristTables, n: int)
    requires
        a.board@ == b.board@,
        n <= 64,
    ensures
        zobrist_pieces(a, t, n) == zobrist_pieces(b, t, n),
    decreases n,
{
    if n > 0 {
        lemma_zobrist_pieces_same(a, b, t, n - 1);
        assert(a.board@[n - 1] == b.board@[n - 1]);
    }
}

/// The Zobrist key depends only on the position fields and the tables: two
/// boards that hold the same position have the same key.
pub proof fn lemma_zobrist_depends_only_on_position(a: Board, b: Board, t: ZobristTables)
    requires
        same_position(a, b),
    ensures
        zobrist(a, t) == zobrist(b, t),
{
    lemma_zobrist_pieces_same(a, b, t, 64);
}

proof fn lemma_zobrist_pieces_same_keys(b: Board, t: ZobristTables, u: ZobristTables, n: int)
    requires
        t.same_keys(u),
    ensures
        zobrist_pieces(b, t, n) == zobrist_pieces(b, u, n),
    decreases n,
{
    if n > 0 {
        lemma_zobrist_pieces_same_keys(b, t, u, n - 1);
    }
}

/// Tables that hold the same keys give every board the same key.
pub proof fn lemma_zobrist_same_keys(b: Board, t: ZobristTables, u: ZobristTables)
    requires
        t.same_keys(u),
    ensures
        zobrist(b, t) == zobrist(b, u),
{
    lemma_zobrist_pieces_same_keys(b, t, u, 64);
}

impl Board {
    pub fn compute_zobrist_key(&self, tables: &ZobristTables) -> (r: ZobristKey)
        requires
            tables.wf(),
        ensures
            r == zobrist(*self, *tables),
    {
        let mut key: u64 = 0;
        let mut square: usize = 0;
        while square < 64
            invariant
                square <= 64,
                tables.wf(),
                key == zobrist_pieces(*self, *tables, square as int),
            decreases 64 - square,
        {
            let piece = self.board[square];
            if piece != Piece::Empty {
                let idx = piece.index() * 64 + square;
                key = key ^ tables.piece[idx];
            }
            square = square + 1;
        }
        if self.can_white_castle_kingside {
            key = key ^ tables.castling[0];
        }
        if self.can_white_castle_queenside {
            key = key ^ tables.castling[1];
        }
        if self.can_black_castle_kingside {
            key = key ^ tables.castling[2];
        }
        if self.can_black_castle_queenside {
            key = key ^ tables.castling[3];
        }
        if self.en_passant_square >= 0 && self.en_passant_square < 64 {
            let sq = self.en_passant_square as usize;
            key = key ^ tables.en_passant[sq];
        }
        if self.white_to_move {
            key = key ^ tables.white_to_move;
        }
        key
    }
}

// ---------------------------------------------------------------------------
// Text
// ---------------------------------------------------------------------------

pub open spec fn digit_char(d: nat) -> char {
    (('0' as int) + d) as char
}

/// The decimal digits of a natural number.
pub open spec fn nat_text(n: nat) -> Seq<char>
    decreases n,
{
    if n < 10 {
        seq![digit_char(n)]
    } else {
        nat_text(n / 10).push(digit_char(n % 10))
    }
}

/// An integer in decimal, with a leading `-` when negative.
pub open spec fn int_text(v: int) -> Seq<char> {
    if v < 0 {
        seq!['-'] + nat_text((-v) as nat)
    } else {
        nat_text(v as nat)
    }
}

pub(crate) fn push_nat(s: &mut String, n: u64)
    ensures
        final(s)@ == old(s)@ + nat_text(n as nat),
    decreases n,
{
    if n >= 10 {
        push_nat(s, n / 10);
    }
    let d = (n % 10) as u8;
    push_char(s, (48u8 + d) as char);
    proof {
        assert(s@ =~= old(s)@ + nat_text(n as nat));
    }
}

pub(crate) fn push_int(s: &mut String, v: i32)
    ensures
        final(s)@ == old(s)@ + int_text(v as int),
{
    if v < 0 {
        push_char(s, '-');
        let magnitude = (-(v as i64)) as u64;
        push_nat(s, magnitude);
        proof {
            assert(s@ =~= old(s)@ + int_text(v as int));
        }
    } else {
        push_nat(s, v as u64);
    }
}

/// The squares of one row of the diagram, each followed by a space.
pub open spec fn cells_text(b: Board, row: int, n: int) -> Seq<char>
    decreases n,
{
    if n <= 0 {
        seq![]
    } else {
        cells_text(b, row, n - 1) + seq![piece_char(b.board@[row * 8 + n - 1]), ' ']
    }
}

/// One row of the diagram: its rank number, the squares, and a border.
pub open spec fn rank_line(b: Board, row: int) -> Seq<char> {
    seq![rank_char(row)] + " | "@ + cells_text(b, row, 8) + "|\n"@
}

/// The first `n` rows of the diagram, rank 8 first.
pub open spec fn rank_lines(b: Board, n: int) -> Seq<char>
    decreases n,
{
    if n <= 0 {
        seq![]
    } else {
        rank_lines(b, n - 1) + rank_line(b, n - 1)
    }
}

/// The held castling rights as `KQkq` letters, or `-` when none is held.
pub open spec fn castling_text(b: Board) -> Seq<char> {
    let k = if b.can_white_castle_kingside {
        seq!['K']
    } else {
        seq![]
    };
    let q = if b.can_white_castle_queenside {
        seq!['Q']
    } else {
        seq![]
    };
    let bk = if b.can_black_castle_kingside {
        seq!['k']
    } else {
        seq![]
    };
    let bq = if b.can_black_castle_queenside {
        seq!['q']
    } else {
        seq![]
    };
    let all = k + q + bk + bq;
    if all.len() == 0 {
        seq!['-']
    } else {
        all
    }
}

/// The diagram and the state lines of a board.
pub open spec fn board_text(b: Board) -> Seq<char> {
    let border = "  +-----------------+\n"@;
    let side = if b.white_to_move {
        "White to move\n"@
    } else {
        "Black to move\n"@
    };
    let ep = if 0 <= b.en_passant_square < 64 {
        "En passant target: "@ + algebraic(b.en_passant_square as int) + "\n"@
    } else {
        "En passant target: -\n"@
    };
    border + rank_lines(b, 8) + border + "    a b c d e f g h\n\n"@ + side + "Castling rights: "@
        + castling_text(b) + "\n"@ + ep + "Halfmove clock: "@ + int_text(
        b.half_move_capture_or_pawn_clock as int,
    ) + "\n"@ + "Fullmove number: "@ + int_text(b.full_move_number as int) + "\n"@
}

fn push_rank_line(out: &mut String, board_obj: &Board, row: usize)
    requires
        row < 8,
    ensures
        final(out)@ == old(out)@ + rank_line(*board_obj, row as int),
{
    push_char(out, (56u8 - row as u8) as char);
    out.append(" | ");
    let ghost before = out@;
    let mut file: usize = 0;
    while file < 8
        invariant
            row < 8,
            file <= 8,
            before == old(out)@ + seq![rank_char(row as int)] + " | "@,
            out@ == before + cells_text(*board_obj, row as int, file as int),
        decreases 8 - file,
    {
        push_char(out, piece_to_char(board_obj.board[row * 8 + file]));
        push_char(out, ' ');
        proof {
            assert(out@ =~= before + cells_text(*board_obj, row as int, file + 1));
        }
        file = file + 1;
    }
    out.append("|\n");
    proof {
        let a = old(out)@;
        let b = seq![rank_char(row as int)];
        let c = " | "@;
        let d = cells_text(*board_obj, row as int, 8);
        let e = "|\n"@;
        lemma_concat_associative(a, b, c);
        lemma_concat_associative(a, b + c, d);
        lemma_concat_associative(a, b + c + d, e);
    }
}

fn push_castling_rights(out: &mut String, board_obj: &Board)
    ensures
        final(out)@ == old(out)@ + castling_text(*board_obj),
{
    let mut has_any_castling_right = false;
    if board_obj.can_white_castle_kingside {
        push_char(out, 'K');
        has_any_castling_right = true;
    }
    if board_obj.can_white_castle_queenside {
        push_char(out, 'Q');
        has_any_castling_right = true;
    }
    if board_obj.can_black_castle_kingside {
        push_char(out, 'k');
        has_any_castling_right = true;
    }
    if board_obj.can_black_castle_queenside {
        push_char(out, 'q');
        has_any_castling_right = true;
    }
    if !has_any_castling_right {
        push_char(out, '-');
    }
    proof {
        assert(out@ =~= old(out)@ + castling_text(*board_obj));
    }
}

pub fn board_to_string(board_obj: &Board) -> (r: String)
    ensures
        r@ == board_text(*board_obj),
{
    let b = *board_obj;
    let mut out = String::new();
    out.append("  +-----------------+\n");
    proof {
        assert(out@ =~= "  +-----------------+\n"@ + rank_lines(b, 0));
    }
    let mut row: usize = 0;
    while row < 8
        invariant
            row <= 8,
            b == *board_obj,
            out@ == "  +-----------------+\n"@ + rank_lines(b, row as int),
        decreases 8 - row,
    {
        push_rank_line(&mut out, board_obj, row);
        proof {
            assert(out@ =~= "  +-----------------+\n"@ + rank_lines(b, row + 1));
        }
        row = row + 1;
    }
    out.append("  +-----------------+\n");
    out.append("    a b c d e f g h\n\n");
    if board_obj.white_to_move {
        out.append("White to move\n");
    } else {
        out.append("Black to move\n");
    }
    out.append("Castling rights: ");
    push_castling_rights(&mut out, board_obj);
    out.append("\n");
    if board_obj.en_passant_square >= 0 && board_obj.en_passant_square < 64 {
        let sq_str = square_to_algebraic(board_obj.en_passant_square as usize);
        let ghost before = out@;
        out.append("En passant target: ");
        out.append(sq_str.as_str());
        out.append("\n");
        proof {
            let x = "En passant target: "@;
            let y = algebraic(b.en_passant_square as int);
            let z = "\n"@;
            lemma_concat_associative(before, x, y);
            lemma_concat_associative(before, x + y, z);
        }
    } else {
        out.append("En passant target: -\n");
    }
    out.append("Halfmove clock: ");
    push_int(&mut out, board_obj.half_move_capture_or_pawn_clock);
    out.append("\n");
    out.append("Fullmove number: ");
    push_int(&mut out, board_obj.full_move_number);
    out.append("\n");
    out
}

} // verus!
