use crate::board::{Board, Piece};
use crate::chessmove::ChessMove;
use crate::movegen::{all_sound, generate_legal_moves, legal_moves, make_move, moved};
use crate::params::PositionParams;
use vstd::prelude::*;
use vstd::string::StrSliceExecFns;

verus! {

// ---------------------------------------------------------------------------
// The initial position
// ---------------------------------------------------------------------------

/// The piece on square `i` in the initial position.
pub open spec fn start_piece(i: int) -> Piece {
    if i == 0 || i == 7 {
        Piece::BR
    } else if i == 1 || i == 6 {
        Piece::BN
    } else if i == 2 || i == 5 {
        Piece::BB
    } else if i == 3 {
        Piece::BQ
    } else if i == 4 {
        Piece::BK
    } else if 8 <= i < 16 {
        Piece::BP
    } else if 48 <= i < 56 {
        Piece::WP
    } else if i == 56 || i == 63 {
        Piece::WR
    } else if i == 57 || i == 62 {
        Piece::WN
    } else if i == 58 || i == 61 {
        Piece::WB
    } else if i == 59 {
        Piece::WQ
    } else if i == 60 {
        Piece::WK
    } else {
        Piece::Empty
    }
}

/// `b` is the initial position with white to move, all castling rights, no
/// en-passant target, and the counters at 0 and 1.
pub open spec fn is_start_position(b: Board) -> bool {
    &&& forall|i: int| 0 <= i < 64 ==> b.board@[i] == start_piece(i)
    &&& b.white_to_move
    &&& b.can_white_castle_kingside
    &&& b.can_white_castle_queenside
    &&& b.can_black_castle_kingside
    &&& b.can_black_castle_queenside
    &&& b.en_passant_square == -1
    &&& b.half_move_capture_or_pawn_clock == 0
    &&& b.full_move_number == 1
}

pub fn set_to_starting_position(board: &mut Board)
    ensures
        is_start_position(*final(board)),
{
    let mut i: usize = 0;
    while i < 64
        invariant
            i <= 64,
            forall|j: int| 0 <= j < i ==> board.board@[j] == start_piece(j),
        decreases 64 - i,
    {
        let p = if i == 0 || i == 7 {
            Piece::BR
        } else if i == 1 || i == 6 {
            Piece::BN
        } else if i == 2 || i == 5 {
            Piece::BB
        } else if i == 3 {
            Piece::BQ
        } else if i == 4 {
            Piece::BK
        } else if 8 <= i && i < 16 {
            Piece::BP
        } else if 48 <= i && i < 56 {
            Piece::WP
        } else if i == 56 || i == 63 {
            Piece::WR
        } else if i == 57 || i == 62 {
            Piece::WN
        } else if i == 58 || i == 61 {
            Piece::WB
        } else if i == 59 {
            Piece::WQ
        } else if i == 60 {
            Piece::WK
        } else {
            Piece::Empty
        };
        board.board.set(i, p);
        i = i + 1;
    }
    board.white_to_move = true;
    board.can_white_castle_kingside = true;
    board.can_white_castle_queenside = true;
    board.can_black_castle_kingside = true;
    board.can_black_castle_queenside = true;
    board.en_passant_square = -1;
    board.half_move_capture_or_pawn_clock = 0;
    board.full_move_number = 1;
}

// ---------------------------------------------------------------------------
// Text helpers
// ---------------------------------------------------------------------------

/// Whitespace that separates FEN fields.
pub open spec fn is_space(c: char) -> bool {
    c == ' ' || c == '\t' || c == '\n' || c == '\r' || c == '\x0b' || c == '\x0c'
}

/// The whitespace-separated words of `s[i..]`, given the word `cur` being read
/// and the words `acc` already complete.
pub open spec fn words_from(s: Seq<char>, i: int, cur: Seq<char>, acc: Seq<Seq<char>>) -> Seq<
    Seq<char>,
>
    decreases s.len() - i,
{
    if i >= s.len() {
        if cur.len() > 0 {
            acc.push(cur)
        } else {
            acc
        }
    } else if is_space(s[i]) {
        words_from(
            s,
            i + 1,
            seq![],
            if cur.len() > 0 {
                acc.push(cur)
            } else {
                acc
            },
        )
    } else {
        words_from(s, i + 1, cur.push(s[i]), acc)
    }
}

/// The whitespace-separated words of `s`.
pub open spec fn words(s: Seq<char>) -> Seq<Seq<char>> {
    words_from(s, 0, seq![], seq![])
}

/// The pieces of `s[i..]` between separators `sep`, empty pieces included.
pub open spec fn pieces_from(s: Seq<char>, sep: char, i: int, cur: Seq<char>, acc: Seq<Seq<char>>) -> Seq<
    Seq<char>,
>
    decreases s.len() - i,
{
    if i >= s.len() {
        acc.push(cur)
    } else if s[i] == sep {
        pieces_from(s, sep, i + 1, seq![], acc.push(cur))
    } else {
        pieces_from(s, sep, i + 1, cur.push(s[i]), acc)
    }
}

/// `s` split at every `sep`.
pub open spec fn split_on(s: Seq<char>, sep: char) -> Seq<Seq<char>> {
    pieces_from(s, sep, 0, seq![], seq![])
}

pub(crate) fn chars_of(s: &str) -> (r: Vec<char>)
    ensures
        r@ == s@,
{
    let n = s.unicode_len();
    let mut r: Vec<char> = Vec::new();
    let mut i: usize = 0;
    while i < n
        invariant
            i <= n,
            n == s@.len(),
            r@ == s@.subrange(0, i as int),
        decreases n - i,
    {
        r.push(s.get_char(i));
        proof {
            assert(r@ =~= s@.subrange(0, i + 1));
        }
        i = i + 1;
    }
    proof {
        assert(s@.subrange(0, n as int) =~= s@);
    }
    r
}

/// The character sequences held by a vector of words.
pub open spec fn texts(v: Seq<Vec<char>>) -> Seq<Seq<char>> {
    v.map_values(|w: Vec<char>| w@)
}

pub(crate) fn split_words(s: &Vec<char>) -> (r: Vec<Vec<char>>)
    ensures
        texts(r@) == words(s@),
{
    let mut acc: Vec<Vec<char>> = Vec::new();
    let mut cur: Vec<char> = Vec::new();
    let mut i: usize = 0;
    proof {
        assert(texts(acc@) =~= Seq::<Seq<char>>::empty());
        assert(cur@ =~= Seq::<char>::empty());
    }
    while i < s.len()
        invariant
            i <= s@.len(),
            words_from(s@, i as int, cur@, texts(acc@)) == words(s@),
        decreases s@.len() - i,
    {
        let c = s[i];
        if c == ' ' || c == '\t' || c == '\n' || c == '\r' || c == '\x0b' || c == '\x0c' {
            if cur.len() > 0 {
                let ghost before = texts(acc@);
                let ghost word = cur@;
                acc.push(cur);
                proof {
                    assert(texts(acc@) =~= before.push(word));
                }
            }
            cur = Vec::new();
        } else {
            cur.push(c);
        }
        i = i + 1;
    }
    if cur.len() > 0 {
        let ghost before = texts(acc@);
        let ghost word = cur@;
        acc.push(cur);
        proof {
            assert(texts(acc@) =~= before.push(word));
        }
    }
    acc
}

fn split_pieces(s: &Vec<char>, sep: char) -> (r: Vec<Vec<char>>)
    ensures
        texts(r@) == split_on(s@, sep),
{
    let mut acc: Vec<Vec<char>> = Vec::new();
    let mut cur: Vec<char> = Vec::new();
    let mut i: usize = 0;
    proof {
        assert(texts(acc@) =~= Seq::<Seq<char>>::empty());
        assert(cur@ =~= Seq::<char>::empty());
    }
    while i < s.len()
        invariant
            i <= s@.len(),
            pieces_from(s@, sep, i as int, cur@, texts(acc@)) == split_on(s@, sep),
        decreases s@.len() - i,
    {
        let c = s[i];
        if c == sep {
            let ghost before = texts(acc@);
            let ghost word = cur@;
            acc.push(cur);
            proof {
                assert(texts(acc@) =~= before.push(word));
            }
            cur = Vec::new();
        } else {
            cur.push(c);
        }
        i = i + 1;
    }
    let ghost before = texts(acc@);
    let ghost word = cur@;
    acc.push(cur);
    proof {
        assert(texts(acc@) =~= before.push(word));
    }
    acc
}

// ---------------------------------------------------------------------------
// Pieces, squares and numbers
// ---------------------------------------------------------------------------

/// The piece a FEN letter stands for.
pub open spec fn piece_of_char(c: char) -> Option<Piece> {
    if c == 'p' {
        Some(Piece::BP)
    } else if c == 'n' {
        Some(Piece::BN)
    } else if c == 'b' {
        Some(Piece::BB)
    } else if c == 'r' {
        Some(Piece::BR)
    } else if c == 'q' {
        Some(Piece::BQ)
    } else if c == 'k' {
        Some(Piece::BK)
    } else if c == 'P' {
        Some(Piece::WP)
    } else if c == 'N' {
        Some(Piece::WN)
    } else if c == 'B' {
        Some(Piece::WB)
    } else if c == 'R' {
        Some(Piece::WR)
    } else if c == 'Q' {
        Some(Piece::WQ)
    } else if c == 'K' {
        Some(Piece::WK)
    } else {
        None
    }
}

fn char_to_piece(ch: char) -> (r: Result<Piece, String>)
    ensures
        r matches Ok(p) ==> piece_of_char(ch) == Some(p),
        r is Err ==> piece_of_char(ch) is None,
{
    if ch == 'p' {
        Ok(Piece::BP)
    } else if ch == 'n' {
        Ok(Piece::BN)
    } else if ch == 'b' {
        Ok(Piece::BB)
    } else if ch == 'r' {
        Ok(Piece::BR)
    } else if ch == 'q' {
        Ok(Piece::BQ)
    } else if ch == 'k' {
        Ok(Piece::BK)
    } else if ch == 'P' {
        Ok(Piece::WP)
    } else if ch == 'N' {
        Ok(Piece::WN)
    } else if ch == 'B' {
        Ok(Piece::WB)
    } else if ch == 'R' {
        Ok(Piece::WR)
    } else if ch == 'Q' {
        Ok(Piece::WQ)
    } else if ch == 'K' {
        Ok(Piece::WK)
    } else {
        Err("Unknown piece character in FEN".to_owned())
    }
}

/// The square index named by two characters `a1`..`h8`.
pub open spec fn square_of_name(s: Seq<char>) -> Option<int> {
    if s.len() == 2 && 'a' <= s[0] <= 'h' && '1' <= s[1] <= '8' {
        Some((7 - (s[1] as int - '1' as int)) * 8 + (s[0] as int - 'a' as int))
    } else {
        None
    }
}

fn algebraic_to_square(s: &Vec<char>) -> (r: Result<usize, String>)
    ensures
        r matches Ok(i) ==> square_of_name(s@) == Some(i as int),
        r is Err ==> square_of_name(s@) is None,
{
    if s.len() != 2 {
        return Err("Algebraic square must have 2 chars".to_owned());
    }
    let file_char = s[0];
    let rank_char = s[1];
    if !('a' <= file_char && file_char <= 'h') {
        return Err("File must be a..h".to_owned());
    }
    if !('1' <= rank_char && rank_char <= '8') {
        return Err("Rank must be 1..8".to_owned());
    }
    let col = (file_char as u32 - 'a' as u32) as usize;
    let row = (rank_char as u32 - '1' as u32) as usize;
    let board_row = 7 - row;
    Ok(board_row * 8 + col)
}

pub open spec fn is_digit(c: char) -> bool {
    '0' <= c <= '9'
}

pub open spec fn digit_value(c: char) -> int {
    c as int - '0' as int
}

/// The value of a string of decimal digits.
pub open spec fn digits_value(s: Seq<char>) -> int
    decreases s.len(),
{
    if s.len() == 0 {
        0
    } else {
        digits_value(s.drop_last()) * 10 + digit_value(s.last())
    }
}

/// The text starts with a sign.
pub open spec fn has_sign(s: Seq<char>) -> bool {
    s.len() > 0 && (s[0] == '-' || s[0] == '+')
}

/// The text after an optional sign.
pub open spec fn int_body(s: Seq<char>) -> Seq<char> {
    if has_sign(s) {
        s.subrange(1, s.len() as int)
    } else {
        s
    }
}

pub open spec fn all_digits(t: Seq<char>) -> bool {
    forall|i: int| 0 <= i < t.len() ==> is_digit(#[trigger] t[i])
}

/// A decimal integer: an optional sign and at least one digit, within `i32`.
pub open spec fn int_of_text(s: Seq<char>) -> Option<i32> {
    let body = int_body(s);
    let v = if has_sign(s) && s[0] == '-' {
        -digits_value(body)
    } else {
        digits_value(body)
    };
    if body.len() == 0 || !all_digits(body) {
        None
    } else if i32::MIN <= v <= i32::MAX {
        Some(v as i32)
    } else {
        None
    }
}

pub(crate) proof fn lemma_digits_nonneg(t: Seq<char>)
    requires
        all_digits(t),
    ensures
        0 <= digits_value(t),
    decreases t.len(),
{
    if t.len() > 0 {
        lemma_digits_nonneg(t.drop_last());
    }
}

pub(crate) proof fn lemma_digits_grow(t: Seq<char>, i: int, j: int)
    requires
        0 <= i <= j <= t.len(),
        all_digits(t),
    ensures
        digits_value(t.subrange(0, i)) <= digits_value(t.subrange(0, j)),
    decreases j - i,
{
    if i < j {
        lemma_digits_grow(t, i, j - 1);
        assert(t.subrange(0, j).drop_last() =~= t.subrange(0, j - 1));
        lemma_digits_nonneg(t.subrange(0, j - 1));
    }
}

/// Reads a decimal integer as `str::parse::<i32>` does.
pub(crate) fn parse_int(s: &Vec<char>) -> (r: Option<i32>)
    ensures
        r == int_of_text(s@),
{
    let n = s.len();
    let ghost body = int_body(s@);
    let mut start: usize = 0;
    let mut negative = false;
    if n > 0 && (s[0] == '-' || s[0] == '+') {
        negative = s[0] == '-';
        start = 1;
    }
    if start == n {
        return None;
    }
    let mut value: i64 = 0;
    let mut i: usize = start;
    while i < n
        invariant
            start <= i <= n,
            n == s@.len(),
            start == (if has_sign(s@) {
                1int
            } else {
                0int
            }),
            negative == (has_sign(s@) && s@[0] == '-'),
            body == int_body(s@),
            body =~= s@.subrange(start as int, n as int),
            forall|k: int| start <= k < i ==> is_digit(#[trigger] s@[k]),
            value == digits_value(body.subrange(0, i - start)),
            0 <= value <= 2147483648,
        decreases n - i,
    {
        let c = s[i];
        if !('0' <= c && c <= '9') {
            proof {
                assert(body[i - start] == c);
                assert(!is_digit(body[i - start]));
                assert(!all_digits(body));
            }
            return None;
        }
        proof {
            assert(body.subrange(0, i + 1 - start).drop_last() =~= body.subrange(0, i - start));
        }
        let next = value * 10 + (c as u32 - '0' as u32) as i64;
        if next > 2147483648 {
            let mut j: usize = i + 1;
            while j < n
                invariant
                    i < j <= n,
                    n == s@.len(),
                    start <= i,
                    body == int_body(s@),
                    body =~= s@.subrange(start as int, n as int),
                    forall|k: int| start <= k < j ==> is_digit(#[trigger] s@[k]),
                decreases n - j,
            {
                if !('0' <= s[j] && s[j] <= '9') {
                    proof {
                        assert(body[j - start] == s@[j as int]);
                        assert(!all_digits(body));
                    }
                    return None;
                }
                j = j + 1;
            }
            proof {
                assert forall|k: int| 0 <= k < body.len() implies is_digit(#[trigger] body[k]) by {
                    assert(body[k] == s@[k + start]);
                }
                lemma_digits_grow(body, i + 1 - start, body.len() as int);
                assert(body.subrange(0, body.len() as int) =~= body);
            }
            return None;
        }
        value = next;
        i = i + 1;
    }
    proof {
        assert forall|k: int| 0 <= k < body.len() implies is_digit(#[trigger] body[k]) by {
            assert(body[k] == s@[k + start]);
        }
        assert(body.subrange(0, n - start) =~= body);
    }
    if negative {
        Some((-value) as i32)
    } else if value <= 2147483647 {
        Some(value as i32)
    } else {
        None
    }
}

// ---------------------------------------------------------------------------
// FEN
// ---------------------------------------------------------------------------

/// The squares of one FEN rank read from `r[i..]` after `acc`: digits stand for
/// runs of empty squares, letters for pieces; more than eight squares, or an
/// unknown letter, fail.
pub open spec fn rank_from(r: Seq<char>, i: int, acc: Seq<Piece>) -> Option<Seq<Piece>>
    decreases r.len() - i,
{
    if i >= r.len() || i < 0 {
        Some(acc)
    } else if is_digit(r[i]) {
        let n = digit_value(r[i]);
        if acc.len() + n > 8 {
            None
        } else {
            rank_from(r, i + 1, acc + Seq::new(n as nat, |j: int| Piece::Empty))
        }
    } else {
        match piece_of_char(r[i]) {
            Some(p) => if acc.len() + 1 > 8 {
                None
            } else {
                rank_from(r, i + 1, acc.push(p))
            },
            None => None,
        }
    }
}

/// The eight squares of a FEN rank.
pub open spec fn rank_squares(r: Seq<char>) -> Option<Seq<Piece>> {
    match rank_from(r, 0, seq![]) {
        Some(q) => if q.len() == 8 {
            Some(q)
        } else {
            None
        },
        None => None,
    }
}

/// The squares of the first `k` ranks, rank 8 first.
pub open spec fn ranks_squares(ranks: Seq<Seq<char>>, k: int) -> Option<Seq<Piece>>
    decreases k,
{
    if k <= 0 {
        Some(seq![])
    } else {
        match (ranks_squares(ranks, k - 1), rank_squares(ranks[k - 1])) {
            (Some(a), Some(b)) => Some(a + b),
            _ => None,
        }
    }
}

/// The placement field of a FEN: eight ranks separated by `/`.
pub open spec fn placement_of(field: Seq<char>) -> Option<Seq<Piece>> {
    let ranks = split_on(field, '/');
    if ranks.len() != 8 {
        None
    } else {
        ranks_squares(ranks, 8)
    }
}

pub open spec fn side_of(t: Seq<char>) -> Option<bool> {
    if t == seq!['w'] {
        Some(true)
    } else if t == seq!['b'] {
        Some(false)
    } else {
        None
    }
}

/// The en-passant field: `-` for none, else a square name.
pub open spec fn en_passant_of(t: Seq<char>) -> Option<int> {
    if t == seq!['-'] {
        Some(-1)
    } else {
        square_of_name(t)
    }
}

/// A FEN is well formed: at least six fields, a placement of eight ranks of
/// eight squares, a side `w` or `b`, an en-passant field, and two integers.
pub open spec fn fen_ok(s: Seq<char>) -> bool {
    let w = words(s);
    &&& w.len() >= 6
    &&& placement_of(w[0]) is Some
    &&& side_of(w[1]) is Some
    &&& en_passant_of(w[3]) is Some
    &&& int_of_text(w[4]) is Some
    &&& int_of_text(w[5]) is Some
}

/// `b` holds the position the well-formed FEN `s` describes.
pub open spec fn fen_board(s: Seq<char>, b: Board) -> bool {
    let w = words(s);
    &&& b.board@ == placement_of(w[0]).unwrap()
    &&& b.white_to_move == side_of(w[1]).unwrap()
    &&& b.can_white_castle_kingside == w[2].contains('K')
    &&& b.can_white_castle_queenside == w[2].contains('Q')
    &&& b.can_black_castle_kingside == w[2].contains('k')
    &&& b.can_black_castle_queenside == w[2].contains('q')
    &&& b.en_passant_square == en_passant_of(w[3]).unwrap()
    &&& b.half_move_capture_or_pawn_clock == int_of_text(w[4]).unwrap()
    &&& b.full_move_number == int_of_text(w[5]).unwrap()
}

proof fn lemma_rank_from_len(r: Seq<char>, i: int, acc: Seq<Piece>)
    requires
        acc.len() <= 8,
    ensures
        rank_from(r, i, acc) matches Some(q) ==> q.len() <= 8,
    decreases r.len() - i,
{
    if 0 <= i < r.len() {
        if is_digit(r[i]) {
            let n = digit_value(r[i]);
            if acc.len() + n <= 8 {
                lemma_rank_from_len(r, i + 1, acc + Seq::new(n as nat, |j: int| Piece::Empty));
            }
        } else if let Some(p) = piece_of_char(r[i]) {
            if acc.len() + 1 <= 8 {
                lemma_rank_from_len(r, i + 1, acc.push(p));
            }
        }
    }
}

/// Reads one FEN rank onto the end of `out`.
fn parse_rank(r: &Vec<char>, out: &mut Vec<Piece>) -> (res: Result<(), String>)
    ensures
        res is Ok <==> rank_squares(r@) is Some,
        res is Ok ==> final(out)@ == old(out)@ + rank_squares(r@).unwrap(),
{
    let mut acc: Vec<Piece> = Vec::new();
    let mut i: usize = 0;
    proof {
        assert(acc@ =~= Seq::<Piece>::empty());
    }
    while i < r.len()
        invariant
            i <= r@.len(),
            acc@.len() <= 8,
            rank_from(r@, 0, seq![]) == rank_from(r@, i as int, acc@),
        decreases r@.len() - i,
    {
        let c = r[i];
        if '0' <= c && c <= '9' {
            let n = (c as u32 - '0' as u32) as usize;
            if acc.len() + n > 8 {
                return Err("Invalid FEN: rank does not have 8 squares".to_owned());
            }
            let ghost before = acc@;
            let mut k: usize = 0;
            while k < n
                invariant
                    k <= n,
                    before.len() + n <= 8,
                    acc@ =~= before + Seq::new(k as nat, |j: int| Piece::Empty),
                decreases n - k,
            {
                acc.push(Piece::Empty);
                k = k + 1;
            }
        } else {
            let p = match char_to_piece(c) {
                Ok(p) => p,
                Err(e) => {
                    return Err(e);
                },
            };
            if acc.len() + 1 > 8 {
                return Err("Invalid FEN: rank does not have 8 squares".to_owned());
            }
            acc.push(p);
        }
        i = i + 1;
    }
    proof {
        lemma_rank_from_len(r@, 0, seq![]);
    }
    if acc.len() != 8 {
        return Err("Invalid FEN: rank does not have 8 squares".to_owned());
    }
    let ghost before = out@;
    let mut k: usize = 0;
    while k < 8
        invariant
            k <= 8,
            acc@.len() == 8,
            out@ =~= before + acc@.subrange(0, k as int),
        decreases 8 - k,
    {
        out.push(acc[k]);
        k = k + 1;
    }
    proof {
        assert(acc@.subrange(0, 8) =~= acc@);
    }
    Ok(())
}

fn has_char(t: &Vec<char>, c: char) -> (r: bool)
    ensures
        r == t@.contains(c),
{
    let mut i: usize = 0;
    while i < t.len()
        invariant
            i <= t@.len(),
            forall|j: int| 0 <= j < i ==> t@[j] != c,
        decreases t@.len() - i,
    {
        if t[i] == c {
            return true;
        }
        i = i + 1;
    }
    false
}

fn is_single(t: &Vec<char>, c: char) -> (r: bool)
    ensures
        r == (t@ == seq![c]),
{
    if t.len() == 1 && t[0] == c {
        assert(t@ =~= seq![c]);
        true
    } else {
        false
    }
}

/// Loads the position of a FEN into `board`; on an error the board is left
/// in an unspecified state.
pub fn parse_fen(board: &mut Board, fen: String) -> (r: Result<(), String>)
    ensures
        r is Ok <==> fen_ok(fen@),
        r is Ok ==> fen_board(fen@, *final(board)),
{
    let chars = chars_of(fen.as_str());
    let tokens = split_words(&chars);
    let ghost w = words(fen@);
    if tokens.len() < 6 {
        return Err("FEN must have at least 6 parts: [pieces] [side] [castling] [enpassant] [halfmove] [fullmove]".to_owned());
    }
    proof {
        assert(tokens@[0]@ == w[0]);
        assert(tokens@[1]@ == w[1]);
        assert(tokens@[2]@ == w[2]);
        assert(tokens@[3]@ == w[3]);
        assert(tokens@[4]@ == w[4]);
        assert(tokens@[5]@ == w[5]);
    }
    let ranks = split_pieces(&tokens[0], '/');
    let ghost rs = split_on(w[0], '/');
    if ranks.len() != 8 {
        return Err("Invalid FEN: expected 8 ranks in piece placement".to_owned());
    }
    let mut squares: Vec<Piece> = Vec::new();
    let mut row: usize = 0;
    proof {
        assert(squares@ =~= Seq::<Piece>::empty());
    }
    while row < 8
        invariant
            row <= 8,
            ranks@.len() == 8,
            texts(ranks@) == rs,
            w == words(fen@),
            w.len() >= 6,
            rs == split_on(w[0], '/'),
            ranks_squares(rs, row as int) == Some(squares@),
            squares@.len() == 8 * row,
        decreases 8 - row,
    {
        proof {
            assert(ranks@[row as int]@ == rs[row as int]);
        }
        match parse_rank(&ranks[row], &mut squares) {
            Ok(()) => {},
            Err(e) => {
                proof {
                    assert(rank_squares(rs[row as int]) is None);
                    assert(ranks_squares(rs, row as int + 1) is None);
                    lemma_ranks_fail(rs, row as int + 1, 8);
                    assert(placement_of(w[0]) is None);
                }
                return Err(e);
            },
        }
        row = row + 1;
    }
    let mut i: usize = 0;
    while i < 64
        invariant
            i <= 64,
            squares@.len() == 64,
            forall|j: int| 0 <= j < i ==> board.board@[j] == squares@[j],
        decreases 64 - i,
    {
        board.board.set(i, squares[i]);
        i = i + 1;
    }
    proof {
        assert(board.board@ =~= squares@);
    }
    if is_single(&tokens[1], 'w') {
        board.white_to_move = true;
    } else if is_single(&tokens[1], 'b') {
        board.white_to_move = false;
    } else {
        return Err("Invalid FEN side to move".to_owned());
    }
    board.can_white_castle_kingside = has_char(&tokens[2], 'K');
    board.can_white_castle_queenside = has_char(&tokens[2], 'Q');
    board.can_black_castle_kingside = has_char(&tokens[2], 'k');
    board.can_black_castle_queenside = has_char(&tokens[2], 'q');
    if is_single(&tokens[3], '-') {
        board.en_passant_square = -1;
    } else {
        match algebraic_to_square(&tokens[3]) {
            Ok(sq) => {
                board.en_passant_square = sq as i32;
            },
            Err(e) => {
                return Err(e);
            },
        }
    }
    match parse_int(&tokens[4]) {
        Some(v) => {
            board.half_move_capture_or_pawn_clock = v;
        },
        None => {
            return Err("Invalid halfmove clock".to_owned());
        },
    }
    match parse_int(&tokens[5]) {
        Some(v) => {
            board.full_move_number = v;
        },
        None => {
            return Err("Invalid fullmove number".to_owned());
        },
    }
    Ok(())
}

proof fn lemma_ranks_fail(rs: Seq<Seq<char>>, k: int, n: int)
    requires
        1 <= k <= n,
        ranks_squares(rs, k) is None,
    ensures
        ranks_squares(rs, n) is None,
    decreases n - k,
{
    if k < n {
        lemma_ranks_fail(rs, k, n - 1);
    }
}

// ---------------------------------------------------------------------------
// Positions with moves
// ---------------------------------------------------------------------------

/// The promotion piece a move text's fifth letter asks for, for the side to move.
pub open spec fn promotion_of(c: char, white: bool) -> Option<Piece> {
    if c == 'q' || c == 'Q' {
        Some(
            if white {
                Piece::WQ
            } else {
                Piece::BQ
            },
        )
    } else if c == 'r' || c == 'R' {
        Some(
            if white {
                Piece::WR
            } else {
                Piece::BR
            },
        )
    } else if c == 'n' || c == 'N' {
        Some(
            if white {
                Piece::WN
            } else {
                Piece::BN
            },
        )
    } else if c == 'b' || c == 'B' {
        Some(
            if white {
                Piece::WB
            } else {
                Piece::BB
            },
        )
    } else {
        None
    }
}

/// Origin, destination and promotion piece of a coordinate-notation move
/// text such as `e2e4` or `e7e8q`; letters after the fifth are ignored.
pub open spec fn move_request(t: Seq<char>, white: bool) -> Option<(int, int, Piece)> {
    if t.len() < 4 {
        None
    } else {
        match (square_of_name(t.subrange(0, 2)), square_of_name(t.subrange(2, 4))) {
            (Some(f), Some(to)) => if t.len() == 5 {
                match promotion_of(t[4], white) {
                    Some(p) => Some((f, to, p)),
                    None => None,
                }
            } else {
                Some((f, to, Piece::Empty))
            },
            _ => None,
        }
    }
}

/// The first move of `ms[i..]` with the given origin, destination and promotion.
pub open spec fn first_match(ms: Seq<ChessMove>, f: int, t: int, p: Piece, i: int) -> Option<
    ChessMove,
>
    decreases ms.len() - i,
{
    if i >= ms.len() || i < 0 {
        None
    } else if ms[i].from == f && ms[i].to == t && ms[i].promoted_piece == p {
        Some(ms[i])
    } else {
        first_match(ms, f, t, p, i + 1)
    }
}

/// The legal move of `b` that a move text names.
pub open spec fn replay_move(b: Board, t: Seq<char>) -> Option<ChessMove> {
    match move_request(t, b.white_to_move) {
        Some((f, to, p)) => first_match(legal_moves(b), f, to, p, 0),
        None => None,
    }
}

/// `bs` are the boards met playing the move texts `ms` one after the other.
pub open spec fn replay_chain(ms: Seq<Seq<char>>, bs: Seq<Board>) -> bool {
    &&& bs.len() == ms.len() + 1
    &&& forall|i: int|
        0 <= i < ms.len() ==> {
            &&& #[trigger] replay_move(bs[i], ms[i]) is Some
            &&& moved(bs[i], replay_move(bs[i], ms[i]).unwrap(), bs[i + 1])
        }
}

/// `b` is the position a `position` command starts from: its FEN, or the
/// initial position.
pub open spec fn loaded(params: PositionParams, b: Board) -> bool {
    if params.is_fen {
        fen_ok(params.position@) && fen_board(params.position@, b)
    } else {
        is_start_position(b)
    }
}

pub open spec fn move_texts(v: Seq<String>) -> Seq<Seq<char>> {
    v.map_values(|s: String| s@)
}

/// Sets up `board` from a position command: the start position, then each
/// move text played as the legal move it names. On an error the board is left
/// in an unspecified state.
pub fn set_board_position(board: &mut Board, params: &PositionParams) -> (r: Result<(), String>)
    ensures
        r is Ok <==> exists|bs: Seq<Board>|
            #![trigger replay_chain(move_texts(params.moves@), bs)]
            replay_chain(move_texts(params.moves@), bs) && loaded(*params, bs[0]),
        r is Ok ==> exists|bs: Seq<Board>|
            #![trigger replay_chain(move_texts(params.moves@), bs)]
            replay_chain(move_texts(params.moves@), bs) && loaded(*params, bs[0]) && bs.last()
                == *final(board),
        r is Err ==> (params.is_fen && !fen_ok(params.position@)) || exists|bs: Seq<Board>, k: int|
            #![trigger replay_chain(move_texts(params.moves@).subrange(0, k), bs)]
            0 <= k < params.moves@.len() && replay_chain(move_texts(params.moves@).subrange(0, k), bs)
                && loaded(*params, bs[0]) && replay_move(bs.last(), move_texts(params.moves@)[k]) is None,
{
    if params.is_fen {
        match parse_fen(board, params.position.clone()) {
            Ok(()) => {},
            Err(e) => {
                return Err(e);
            },
        }
    } else {
        set_to_starting_position(board);
    }
    let ghost ms = move_texts(params.moves@);
    let ghost mut bs: Seq<Board> = seq![*board];
    let mut i: usize = 0;
    proof {
        assert(ms.subrange(0, 0) =~= Seq::<Seq<char>>::empty());
    }
    while i < params.moves.len()
        invariant
            i <= params.moves@.len(),
            ms == move_texts(params.moves@),
            replay_chain(ms.subrange(0, i as int), bs),
            loaded(*params, bs[0]),
            bs.last() == *board,
        decreases params.moves@.len() - i,
    {
        let t = chars_of(params.moves[i].as_str());
        proof {
            assert(t@ == ms[i as int]);
        }
        let found = find_requested_move(board, &t);
        match found {
            Some(m) => {
                let ghost before = *board;
                make_move(board, &m);
                proof {
                    let bs2 = bs.push(*board);
                    assert forall|j: int| 0 <= j < i + 1 implies {
                        &&& #[trigger] replay_move(bs2[j], ms.subrange(0, i + 1)[j]) is Some
                        &&& moved(bs2[j], replay_move(bs2[j], ms.subrange(0, i + 1)[j]).unwrap(), bs2[j + 1])
                    } by {
                        if j < i {
                            assert(ms.subrange(0, i + 1)[j] == ms.subrange(0, i as int)[j]);
                            assert(replay_move(bs[j], ms.subrange(0, i as int)[j]) is Some);
                        } else {
                            assert(bs2[j] == before);
                        }
                    }
                    bs = bs2;
                }
            },
            None => {
                proof {
                    assert(replay_chain(ms.subrange(0, i as int), bs));
                    assert forall|full: Seq<Board>| #![trigger replay_chain(ms, full)] !(replay_chain(
                        ms,
                        full,
                    ) && loaded(*params, full[0])) by {
                        if replay_chain(ms, full) && loaded(*params, full[0]) {
                            lemma_loaded_unique(*params, full[0], bs[0]);
                            lemma_chains_agree(ms, full, bs, i as int, i as int);
                            assert(replay_move(full[i as int], ms[i as int]) is Some);
                        }
                    }
                }
                return Err("Illegal move encountered".to_owned());
            },
        }
        i = i + 1;
    }
    proof {
        assert(ms.subrange(0, ms.len() as int) =~= ms);
        assert(replay_chain(ms, bs));
    }
    Ok(())
}

proof fn lemma_moved_unique(b: Board, m: ChessMove, a1: Board, a2: Board)
    requires
        moved(b, m, a1),
        moved(b, m, a2),
    ensures
        a1 == a2,
{
    assert(a1.board@ =~= a2.board@);
    assert(a1.board == a2.board);
}

proof fn lemma_loaded_unique(params: PositionParams, b1: Board, b2: Board)
    requires
        loaded(params, b1),
        loaded(params, b2),
    ensures
        b1 == b2,
{
    broadcast use vstd::array::array_len_matches_n;

    assert(b1.board@.len() == 64 && b2.board@.len() == 64);
    if params.is_fen {
        assert(b1.board@ == b2.board@);
    } else {
        assert forall|i: int| 0 <= i < 64 implies b1.board@[i] == b2.board@[i] by {
            assert(b1.board@[i] == start_piece(i));
            assert(b2.board@[i] == start_piece(i));
        }
        assert(b1.board@ =~= b2.board@);
    }
    assert(b1.board == b2.board);
}

/// Two replays of the same move texts from the same board meet the same boards.
proof fn lemma_chains_agree(ms: Seq<Seq<char>>, full: Seq<Board>, part: Seq<Board>, k: int, j: int)
    requires
        replay_chain(ms, full),
        0 <= k <= ms.len(),
        replay_chain(ms.subrange(0, k), part),
        full[0] == part[0],
        0 <= j <= k,
    ensures
        full[j] == part[j],
    decreases j,
{
    if j > 0 {
        lemma_chains_agree(ms, full, part, k, j - 1);
        assert(ms.subrange(0, k)[j - 1] == ms[j - 1]);
        assert(replay_move(full[j - 1], ms[j - 1]) is Some);
        assert(replay_move(part[j - 1], ms.subrange(0, k)[j - 1]) is Some);
        lemma_moved_unique(full[j - 1], replay_move(full[j - 1], ms[j - 1]).unwrap(), full[j], part[j]);
    }
}

/// The legal move of `board` that the move text `t` names, if any.
fn find_requested_move(board: &Board, t: &Vec<char>) -> (r: Option<ChessMove>)
    ensures
        r == replay_move(*board, t@),
        r matches Some(m) ==> crate::movegen::move_on_board(m),
{
    if t.len() < 4 {
        return None;
    }
    let from_name = vec![t[0], t[1]];
    let to_name = vec![t[2], t[3]];
    proof {
        assert(from_name@ =~= t@.subrange(0, 2));
        assert(to_name@ =~= t@.subrange(2, 4));
    }
    let from_sq = match algebraic_to_square(&from_name) {
        Ok(sq) => sq as i32,
        Err(_) => {
            return None;
        },
    };
    let to_sq = match algebraic_to_square(&to_name) {
        Ok(sq) => sq as i32,
        Err(_) => {
            return None;
        },
    };
    let white = board.white_to_move;
    let mut promo_piece = Piece::Empty;
    if t.len() == 5 {
        let c = t[4];
        if c == 'q' || c == 'Q' {
            promo_piece = if white {
                Piece::WQ
            } else {
                Piece::BQ
            };
        } else if c == 'r' || c == 'R' {
            promo_piece = if white {
                Piece::WR
            } else {
                Piece::BR
            };
        } else if c == 'n' || c == 'N' {
            promo_piece = if white {
                Piece::WN
            } else {
                Piece::BN
            };
        } else if c == 'b' || c == 'B' {
            promo_piece = if white {
                Piece::WB
            } else {
                Piece::BB
            };
        } else {
            return None;
        }
    }
    proof {
        assert(move_request(t@, white) == Some((from_sq as int, to_sq as int, promo_piece)));
    }
    let legal = generate_legal_moves(board);
    let mut i: usize = 0;
    while i < legal.len()
        invariant
            i <= legal@.len(),
            white == board.white_to_move,
            move_request(t@, white) == Some((from_sq as int, to_sq as int, promo_piece)),
            legal@ == legal_moves(*board),
            all_sound(*board, legal@),
            first_match(legal@, from_sq as int, to_sq as int, promo_piece, 0) == first_match(
                legal@,
                from_sq as int,
                to_sq as int,
                promo_piece,
                i as int,
            ),
        decreases legal@.len() - i,
    {
        let m = legal[i];
        if m.from == from_sq && m.to == to_sq && m.promoted_piece == promo_piece {
            proof {
                assert(crate::movegen::sound_move(*board, legal@[i as int]));
            }
            return Some(m);
        }
        i = i + 1;
    }
    None
}

} // verus!
