use crate::board::{algebraic, push_char, zobrist, Board, Piece, ZobristKey, ZobristTables};
use crate::chessmove::{ChessMove, UndoInfo};
use crate::movegen::{
    col, col_of, generate_legal_moves, in_check, is_king_in_check, legal_moves, make_move,
    move_on_board, moved, on_sq, placement_after, row, row_of, undo_for, unmake_move, valid_board,
};
use std::collections::HashMap;
use std::sync::atomic::{AtomicBool, Ordering};
use std::time::{Duration, Instant};
use vstd::prelude::*;

verus! {

broadcast use vstd::std_specs::hash::group_hash_axioms;

/// Number of plies that have killer-move slots.
pub const MAX_DEPTH: usize = 64;

/// The score of a side that is checkmated, in tenths of a pawn (999,999 pawns).
pub const MATE_SCORE: i64 = 9_999_990;

/// A bound beyond every score, used as an open alpha-beta window.
pub const INFINITE_SCORE: i64 = 1_000_000_000;

/// The depth a search runs to when a `go` command gives none.
pub const DEFAULT_DEPTH: i32 = 5;

/// The depth a `go` command asks for: its own, or `DEFAULT_DEPTH` when it
/// gives none; `None` when that lies outside `1..=MAX_DEPTH`, where no search
/// can run.
pub fn requested_depth(depth: Option<i32>) -> (r: Option<i32>)
    ensures
        r == ({
            let d = match depth {
                Some(x) => x,
                None => DEFAULT_DEPTH,
            };
            if 1 <= d <= MAX_DEPTH {
                Some(d)
            } else {
                None::<i32>
            }
        }),
{
    let d = match depth {
        Some(x) => x,
        None => DEFAULT_DEPTH,
    };
    if 1 <= d && d <= MAX_DEPTH as i32 {
        Some(d)
    } else {
        None
    }
}

/// Every value the table holds is a score a search can return.
pub open spec fn table_scores_bounded(t: Map<ZobristKey, TranspositionTableEntry>) -> bool {
    forall|k: ZobristKey| #[trigger] t.contains_key(k) ==> -MATE_SCORE <= t[k].value <= MATE_SCORE
}

/// The kind of bound a transposition-table value is.
#[derive(Copy, Clone, Debug, PartialEq, Eq, Structural)]
pub enum NodeType {
    /// The exact value.
    PVNode,
    /// An upper bound: no move raised alpha.
    AllNode,
    /// A lower bound: a move reached beta.
    CutNode,
}

/// A stored search result. Scores are in tenths of a pawn.
#[derive(Copy, Clone, Debug)]
pub struct TranspositionTableEntry {
    pub key: ZobristKey,
    pub depth: i32,
    pub value: i64,
    pub node_type: NodeType,
    pub best_move: ChessMove,
}

/// Search results by Zobrist key; the latest store for a key wins.
pub struct TranspositionTable {
    table: HashMap<ZobristKey, TranspositionTableEntry>,
}

impl View for TranspositionTable {
    type V = Map<ZobristKey, TranspositionTableEntry>;

    closed spec fn view(&self) -> Self::V {
        self.table@
    }
}

impl Clone for TranspositionTable {
    fn clone(&self) -> (r: Self)
        ensures
            r@ == self@,
    {
        TranspositionTable { table: self.table.clone() }
    }
}

impl TranspositionTable {
    pub fn new() -> (t: Self)
        ensures
            t@ == Map::<ZobristKey, TranspositionTableEntry>::empty(),
    {
        TranspositionTable { table: HashMap::new() }
    }

    pub fn probe(&self, key: ZobristKey) -> (r: Option<TranspositionTableEntry>)
        ensures
            r == (if self@.contains_key(key) {
                Some(self@[key])
            } else {
                None::<TranspositionTableEntry>
            }),
    {
        match self.table.get(&key) {
            Some(e) => Some(*e),
            None => None,
        }
    }

    pub fn store(
        &mut self,
        key: ZobristKey,
        value: i64,
        node_type: NodeType,
        depth: i32,
        best_move: ChessMove,
    )
        ensures
            final(self)@ == old(self)@.insert(
                key,
                TranspositionTableEntry { key, depth, value, node_type, best_move },
            ),
    {
        let entry = TranspositionTableEntry { key, depth, value, node_type, best_move };
        self.table.insert(key, entry);
    }

    pub fn clear(&mut self)
        ensures
            final(self)@ == Map::<ZobristKey, TranspositionTableEntry>::empty(),
    {
        self.table.clear();
    }

    /// Every stored value is a score a search can return.
    pub open spec fn scores_bounded(&self) -> bool {
        forall|k: ZobristKey| #[trigger]
            self@.contains_key(k) ==> -MATE_SCORE <= self@[k].value <= MATE_SCORE
    }
}

/// Up to two quiet moves that recently caused a beta cutoff at one ply.
#[derive(Copy, Clone, Debug)]
pub struct KillerMoves {
    pub moves: [Option<ChessMove>; 2],
}

impl Default for KillerMoves {
    fn default() -> (k: Self)
        ensures
            k.moves@ == seq![None::<ChessMove>, None::<ChessMove>],
    {
        let k = KillerMoves { moves: [None, None] };
        proof {
            assert(k.moves@ =~= seq![None::<ChessMove>, None::<ChessMove>]);
        }
        k
    }
}

/// Two moves go between the same squares with the same promotion.
pub open spec fn same_squares(a: ChessMove, b: ChessMove) -> bool {
    a.from == b.from && a.to == b.to && a.promoted_piece == b.promoted_piece
}

pub open spec fn slot_matches(slot: Option<ChessMove>, m: ChessMove) -> bool {
    match slot {
        Some(k) => same_squares(k, m),
        None => false,
    }
}

/// `m` is one of the killers.
pub open spec fn is_killer(k: KillerMoves, m: ChessMove) -> bool {
    slot_matches(k.moves@[0], m) || slot_matches(k.moves@[1], m)
}

fn slot_is(slot: Option<ChessMove>, mv: &ChessMove) -> (r: bool)
    ensures
        r == slot_matches(slot, *mv),
{
    match slot {
        Some(k) => k.from == mv.from && k.to == mv.to && k.promoted_piece == mv.promoted_piece,
        None => false,
    }
}

fn is_killer_move(killers: &KillerMoves, mv: &ChessMove) -> (r: bool)
    ensures
        r == is_killer(*killers, *mv),
{
    slot_is(killers.moves[0], mv) || slot_is(killers.moves[1], mv)
}

/// Records a quiet move as the newest killer, pushing the older one down;
/// captures and moves already recorded change nothing.
fn store_killer_move(killers: &mut KillerMoves, mv: &ChessMove)
    ensures
        if mv.captured_piece != Piece::Empty || is_killer(*old(killers), *mv) {
            *final(killers) == *old(killers)
        } else {
            final(killers).moves@ == seq![Some(*mv), old(killers).moves@[0]]
        },
{
    if mv.captured_piece != Piece::Empty {
        return;
    }
    if is_killer_move(killers, mv) {
        return;
    }
    let first = killers.moves[0];
    killers.moves.set(1, first);
    killers.moves.set(0, Some(*mv));
    proof {
        assert(killers.moves@ =~= seq![Some(*mv), old(killers).moves@[0]]);
    }
}

// ---------------------------------------------------------------------------
// Evaluation
// ---------------------------------------------------------------------------

/// Material value of a piece in tenths of a pawn, positive for white.
pub open spec fn piece_score(p: Piece) -> int {
    match p {
        Piece::Empty => 0,
        Piece::WP => 10,
        Piece::WN => 32,
        Piece::WB => 33,
        Piece::WR => 50,
        Piece::WQ => 90,
        Piece::WK => 10000,
        Piece::BP => -10,
        Piece::BN => -32,
        Piece::BB => -33,
        Piece::BR => -50,
        Piece::BQ => -90,
        Piece::BK => -10000,
    }
}

/// White's material minus black's on the first `n` squares.
pub open spec fn material(s: Seq<Piece>, n: int) -> int
    decreases n,
{
    if n <= 0 {
        0
    } else {
        material(s, n - 1) + piece_score(s[n - 1])
    }
}

/// The static score of a position from white's side, in tenths of a pawn.
pub open spec fn evaluation(b: Board) -> int {
    material(b.board@, 64)
}

fn piece_value(p: Piece) -> (r: i64)
    ensures
        r == piece_score(p),
{
    match p {
        Piece::Empty => 0,
        Piece::WP => 10,
        Piece::WN => 32,
        Piece::WB => 33,
        Piece::WR => 50,
        Piece::WQ => 90,
        Piece::WK => 10000,
        Piece::BP => -10,
        Piece::BN => -32,
        Piece::BB => -33,
        Piece::BR => -50,
        Piece::BQ => -90,
        Piece::BK => -10000,
    }
}

proof fn lemma_material_bounded(s: Seq<Piece>, n: int)
    requires
        0 <= n,
    ensures
        -10000 * n <= material(s, n) <= 10000 * n,
    decreases n,
{
    if n > 0 {
        lemma_material_bounded(s, n - 1);
    }
}

// ---------------------------------------------------------------------------
// Time
// ---------------------------------------------------------------------------

#[verifier::external_type_specification]
#[verifier::external_body]
pub struct ExInstant(Instant);

/// Relies on `Instant::now`: the current reading of the monotonic clock.
#[verifier::external_body]
fn clock_now() -> Instant {
    Instant::now()
}

/// Relies on `Instant::elapsed`: the time since `start`.
#[verifier::external_body]
fn elapsed_since(start: &Instant) -> Duration {
    start.elapsed()
}

/// Relies on `Duration`'s `>=`: whether `d` is at least `limit`.
#[verifier::external_body]
fn duration_reached(d: &Duration, limit: &Duration) -> bool {
    *d >= *limit
}

// ---------------------------------------------------------------------------
// Search
// ---------------------------------------------------------------------------

/// Negamax alpha-beta search with a transposition table and killer moves.
pub struct Search {
    tt: TranspositionTable,
    killer_moves: Vec<KillerMoves>,
    zobrist: ZobristTables,
    search_start_time: Instant,
    move_time_limit: Option<Duration>,
}

impl Clone for Search {
    /// A copy of the search state for another worker: the same keys, table
    /// and killer moves; its clock restarts.
    fn clone(&self) -> (r: Self)
        ensures
            self.wf() ==> r.wf(),
            r.key_tables().same_keys(self.key_tables()),
            r.table() == self.table(),
            r.killers() == self.killers(),
    {
        let killer_moves = self.killer_moves.clone();
        proof {
            assert(killer_moves@ =~= self.killer_moves@);
        }
        Search {
            tt: self.tt.clone(),
            killer_moves,
            zobrist: self.zobrist.clone(),
            search_start_time: clock_now(),
            move_time_limit: self.move_time_limit,
        }
    }
}

/// The snapshot that takes `mv` back on `board`.
fn snapshot(board: &Board, mv: &ChessMove, key: u64) -> (u: UndoInfo)
    requires
        move_on_board(*mv),
    ensures
        u == undo_for(*board, *mv, key),
{
    UndoInfo {
        the_move: *mv,
        piece_moved: board.board[mv.from as usize],
        white_to_move_before: board.white_to_move,
        can_white_castle_kingside_before: board.can_white_castle_kingside,
        can_white_castle_queenside_before: board.can_white_castle_queenside,
        can_black_castle_kingside_before: board.can_black_castle_kingside,
        can_black_castle_queenside_before: board.can_black_castle_queenside,
        en_passant_square_before: board.en_passant_square,
        half_move_capture_or_pawn_clock_before: board.half_move_capture_or_pawn_clock,
        full_move_number_before: board.full_move_number,
        zobrist_key_before: key,
    }
}

/// A table entry for `key` at least `depth` plies deep, which may end a search early.
pub open spec fn usable_entry(t: Map<ZobristKey, TranspositionTableEntry>, key: ZobristKey, depth: int) -> bool {
    t.contains_key(key) && t[key].depth >= depth
}

/// The bound kind of a searched value against the window it was searched in.
pub open spec fn node_kind(value: int, alpha: int, beta: int) -> NodeType {
    if value <= alpha {
        NodeType::AllNode
    } else if value >= beta {
        NodeType::CutNode
    } else {
        NodeType::PVNode
    }
}

/// What a search of `b` to `depth` plies in the window (`alpha`, `beta`)
/// guarantees of its result `r` by itself, given the table `t0` before it and
/// `t1` after it, keyed by `tables`: a score within the mate bounds; at depth 0
/// the static score with the table untouched; and, when the table held no
/// entry for `b` at least `depth` deep, the mate or stalemate score for a side
/// without moves, the stored entry for `b`, and at depth 1 in the open window
/// on a valid board the best score over the legal moves.
pub open spec fn base_outcome(
    b: Board,
    depth: int,
    alpha: int,
    beta: int,
    r: int,
    t0: Map<ZobristKey, TranspositionTableEntry>,
    t1: Map<ZobristKey, TranspositionTableEntry>,
    tables: ZobristTables,
) -> bool
{
    let key = zobrist(b, tables);
    let fresh = depth > 0 && !usable_entry(t0, key, depth);
    let legal = legal_moves(b);
    &&& -MATE_SCORE <= r <= MATE_SCORE
    &&& depth == 0 ==> r == evaluation(b) && t1 == t0
    &&& fresh && legal.len() == 0 ==> r == (if in_check(b.board@, b.white_to_move) {
        -MATE_SCORE
    } else {
        0
    })
    &&& fresh && legal.len() > 0 ==> {
        &&& t1.contains_key(key)
        &&& t1[key].key == key
        &&& t1[key].depth == depth
        &&& t1[key].value == r
        &&& t1[key].node_type == node_kind(r, alpha, beta)
        &&& legal.contains(t1[key].best_move)
    }
    &&& fresh && depth == 1 && valid_board(b) && alpha == -INFINITE_SCORE && beta == INFINITE_SCORE
        && legal.len() > 0 ==> {
        &&& exists|m: ChessMove| legal.contains(m) && r == leaf_score(b, m)
        &&& forall|m: ChessMove| legal.contains(m) ==> r >= leaf_score(b, m)
    }
}

/// What a search of `b` to `depth` plies guarantees: `base_outcome`, and,
/// when the table held no entry for a valid `b` at least `depth` deep and `b`
/// has legal moves, a trace of the children searched (see `node_trace`).
pub open spec fn search_outcome(
    b: Board,
    depth: int,
    alpha: int,
    beta: int,
    r: int,
    t0: Map<ZobristKey, TranspositionTableEntry>,
    t1: Map<ZobristKey, TranspositionTableEntry>,
    tables: ZobristTables,
) -> bool {
    &&& base_outcome(b, depth, alpha, beta, r, t0, t1, tables)
    &&& (depth > 0 && !usable_entry(t0, zobrist(b, tables), depth) && legal_moves(b).len() > 0
        && valid_board(b)) ==> exists|
        cs: Seq<int>,
        ms: Seq<ChessMove>,
        ws: Seq<int>,
        ts: Seq<Map<ZobristKey, TranspositionTableEntry>>,
        cb: Seq<Board>,
    | #[trigger] node_trace(b, depth, alpha, beta, r, cs, ms, ws, ts, cb, tables)
}

/// How a node's result `r` comes from its children: the moves `ms` were
/// searched in turn, the position `cb[j]` after `ms[j]` one ply shallower in
/// the window (`-beta`, `-ws[j]`) with the table going from `ts[j]` to
/// `ts[j + 1]`, giving `cs[j]` as `base_outcome` describes; `ws` is alpha raised by each negated child
/// result; `r` is the best negated child result; and fewer moves than the
/// legal ones were searched only when alpha reached beta.
pub open spec fn node_trace(
    b: Board,
    depth: int,
    alpha: int,
    beta: int,
    r: int,
    cs: Seq<int>,
    ms: Seq<ChessMove>,
    ws: Seq<int>,
    ts: Seq<Map<ZobristKey, TranspositionTableEntry>>,
    cb: Seq<Board>,
    tables: ZobristTables,
) -> bool {
    let n = cs.len();
    &&& depth > 0
    &&& 1 <= n <= legal_moves(b).len()
    &&& ms.len() == n && ws.len() == n && ts.len() == n + 1 && cb.len() == n
    &&& ws[0] == alpha
    &&& forall|j: int| 0 < j < n ==> #[trigger] ws[j] == max_int(ws[j - 1], -cs[j - 1])
    &&& forall|j: int|
        0 <= j < n ==> {
            &&& legal_moves(b).contains(#[trigger] ms[j])
            &&& moved(b, ms[j], cb[j])
            &&& base_outcome(cb[j], depth - 1, -beta, -ws[j], cs[j], ts[j], ts[j + 1], tables)
        }
    &&& exists|j: int| 0 <= j < n && r == -cs[j]
    &&& forall|j: int| 0 <= j < n ==> r >= -#[trigger] cs[j]
    &&& n < legal_moves(b).len() ==> max_int(ws[n - 1], -cs[n - 1]) >= beta
}

pub open spec fn max_int(a: int, b: int) -> int {
    if a >= b {
        a
    } else {
        b
    }
}

/// The score one ply of negamax gives a move when the position after it is
/// only evaluated: the negated static score of that position.
pub open spec fn leaf_score(b: Board, m: ChessMove) -> int {
    -material(placement_after(b.board@, m), 64)
}

/// The alpha of the root window before root move `j`: the highest of the
/// first `j` scores, or minus infinity.
pub open spec fn running_alpha(scores: Seq<i64>, j: int) -> int
    decreases j,
{
    if j <= 0 {
        -INFINITE_SCORE
    } else {
        max_int(running_alpha(scores, j - 1), scores[j - 1] as int)
    }
}

proof fn lemma_running_alpha_prefix(s: Seq<i64>, t: Seq<i64>, j: int)
    requires
        0 <= j <= s.len(),
        j <= t.len(),
        forall|i: int| 0 <= i < j ==> s[i] == t[i],
    ensures
        running_alpha(s, j) == running_alpha(t, j),
    decreases j,
{
    if j > 0 {
        lemma_running_alpha_prefix(s, t, j - 1);
    }
}

/// The position after `m` on `b` was searched `depth` plies deep in the window
/// (-infinity, `-alpha`) and its result negated is `score`.
pub open spec fn child_searched(
    b: Board,
    m: ChessMove,
    depth: int,
    alpha: int,
    score: int,
    tables: ZobristTables,
) -> bool {
    exists|
        c: Board,
        t0: Map<ZobristKey, TranspositionTableEntry>,
        t1: Map<ZobristKey, TranspositionTableEntry>,
    | #![trigger moved(b, m, c), search_outcome(c, depth, -INFINITE_SCORE, -alpha, -score, t0, t1, tables)]
        moved(b, m, c) && search_outcome(c, depth, -INFINITE_SCORE, -alpha, -score, t0, t1, tables)
}

/// The index of the first highest score (0 for no scores).
pub open spec fn first_best(scores: Seq<i64>) -> int
    decreases scores.len(),
{
    if scores.len() <= 1 {
        0
    } else {
        let p = first_best(scores.drop_last());
        if scores.last() > scores[p] {
            scores.len() - 1
        } else {
            p
        }
    }
}

proof fn lemma_first_best(scores: Seq<i64>)
    ensures
        scores.len() > 0 ==> 0 <= first_best(scores) < scores.len(),
        forall|j: int| 0 <= j < scores.len() ==> #[trigger] scores[j] <= scores[first_best(scores)],
    decreases scores.len(),
{
    if scores.len() > 1 {
        lemma_first_best(scores.drop_last());
        assert forall|j: int| 0 <= j < scores.len() implies #[trigger] scores[j] <= scores[first_best(scores)] by {
            if j < scores.len() - 1 {
                assert(scores.drop_last()[j] == scores[j]);
            }
        }
    }
}

/// What the root search returns once the stop check before root move
/// `scores.len()` has said `stop`, or once every move is searched: the first
/// move of highest score among those searched (the first move when none was);
/// `None` means go on with the next move.
pub fn root_answer(stop: bool, moves: &Vec<ChessMove>, scores: &Vec<i64>) -> (r: Option<ChessMove>)
    requires
        0 < moves@.len(),
        scores@.len() <= moves@.len(),
    ensures
        r == (if stop || scores@.len() == moves@.len() {
            Some(moves@[first_best(scores@)])
        } else {
            None::<ChessMove>
        }),
{
    if !(stop || scores.len() == moves.len()) {
        return None;
    }
    let mut best: usize = 0;
    let mut j: usize = 1;
    proof {
        lemma_first_best(scores@);
        if scores@.len() > 0 {
            assert(scores@.subrange(0, 1).len() == 1);
        }
    }
    if scores.len() == 0 {
        return Some(moves[0]);
    }
    while j < scores.len()
        invariant
            1 <= j <= scores@.len(),
            scores@.len() <= moves@.len(),
            best == first_best(scores@.subrange(0, j as int)),
        decreases scores@.len() - j,
    {
        proof {
            lemma_first_best(scores@.subrange(0, j as int));
            assert(scores@.subrange(0, j + 1).drop_last() =~= scores@.subrange(0, j as int));
        }
        if scores[j] > scores[best] {
            best = j;
        }
        j = j + 1;
    }
    proof {
        assert(scores@.subrange(0, scores@.len() as int) =~= scores@);
        lemma_first_best(scores@);
    }
    Some(moves[best])
}

/// Swapping two entries keeps the moves a sequence holds.
proof fn lemma_swap_keeps(s: Seq<ChessMove>, i: int, p: int, legal: Seq<ChessMove>)
    requires
        0 <= i < s.len(),
        0 <= p < s.len(),
        forall|m: ChessMove| s.contains(m) <==> legal.contains(m),
    ensures
        forall|m: ChessMove|
            s.update(i, s[p]).update(p, s[i]).contains(m) <==> legal.contains(m),
{
    let t = s.update(i, s[p]).update(p, s[i]);
    assert forall|m: ChessMove| t.contains(m) <==> legal.contains(m) by {
        if t.contains(m) {
            let q = choose|q: int| 0 <= q < t.len() && t[q] == m;
            if q == p {
                assert(s[i] == m);
            } else if q == i {
                assert(s[p] == m);
            } else {
                assert(s[q] == m);
            }
            assert(s.contains(m));
        }
        if legal.contains(m) {
            assert(s.contains(m));
            let q = choose|q: int| 0 <= q < s.len() && s[q] == m;
            if q == i {
                assert(t[p] == m);
            } else if q == p {
                assert(t[i] == m);
            } else {
                assert(t[q] == m);
            }
        }
    }
}

impl Search {
    /// The search's own state is consistent: complete key tables, one killer
    /// slot per ply, and only returnable scores in the table.
    pub closed spec fn wf(&self) -> bool {
        &&& self.zobrist.wf()
        &&& self.killer_moves@.len() == MAX_DEPTH
        &&& self.tt.scores_bounded()
    }

    /// The Zobrist tables this search keys its table by.
    pub closed spec fn key_tables(&self) -> ZobristTables {
        self.zobrist
    }

    /// The transposition table's entries.
    pub closed spec fn table(&self) -> Map<ZobristKey, TranspositionTableEntry> {
        self.tt@
    }

    /// The killer-move slots, one per ply.
    pub closed spec fn killers(&self) -> Seq<KillerMoves> {
        self.killer_moves@
    }

    /// A fresh search: new random keys, an empty table and empty killer slots.
    pub fn new() -> (s: Self)
        ensures
            s.wf(),
            table_scores_bounded(s.table()),
            s.table() == Map::<ZobristKey, TranspositionTableEntry>::empty(),
            s.killers().len() == MAX_DEPTH,
            forall|i: int|
                0 <= i < MAX_DEPTH ==> (#[trigger] s.killers()[i]).moves@ == seq![
                    None::<ChessMove>,
                    None::<ChessMove>,
                ],
    {
        let mut killer_moves: Vec<KillerMoves> = Vec::new();
        let mut i: usize = 0;
        while i < MAX_DEPTH
            invariant
                i <= MAX_DEPTH,
                killer_moves@.len() == i,
                forall|j: int|
                    0 <= j < i ==> (#[trigger] killer_moves@[j]).moves@ == seq![
                        None::<ChessMove>,
                        None::<ChessMove>,
                    ],
            decreases MAX_DEPTH - i,
        {
            killer_moves.push(KillerMoves::default());
            i = i + 1;
        }
        Search {
            tt: TranspositionTable::new(),
            killer_moves,
            zobrist: ZobristTables::new(),
            search_start_time: clock_now(),
            move_time_limit: None,
        }
    }

    /// The Zobrist key of `board` under this search's tables.
    pub fn zobrist_key(&self, board: &Board) -> (r: ZobristKey)
        requires
            self.wf(),
        ensures
            r == zobrist(*board, self.key_tables()),
    {
        board.compute_zobrist_key(&self.zobrist)
    }

    /// The static score of `board` from white's side, in tenths of a pawn.
    pub fn evaluate(&self, board: &Board) -> (r: i64)
        ensures
            r == evaluation(*board),
            -640000 <= r <= 640000,
    {
        let mut score: i64 = 0;
        let mut sq: usize = 0;
        while sq < 64
            invariant
                sq <= 64,
                score == material(board.board@, sq as int),
            decreases 64 - sq,
        {
            proof {
                lemma_material_bounded(board.board@, sq as int);
            }
            let p = board.board[sq];
            score = score + piece_value(p);
            sq = sq + 1;
        }
        proof {
            lemma_material_bounded(board.board@, 64);
        }
        score
    }

    /// Negamax alpha-beta: the value of `board` for the side to move, searched
    /// `depth` plies deep within the window (`alpha`, `beta`).
    ///
    /// Each move is made on `board`, the position after it is searched on a
    /// copy, and the move is taken back, so a valid board is left as it was.
    /// At depth 0 the result is the static score, from white's side. With no
    /// table entry deep enough for the position: a side without legal moves
    /// scores `-MATE_SCORE` when in check and 0 otherwise; otherwise the result
    /// is stored for the position with its bound kind against the window, and
    /// at depth 1 in the open window it is the best score over the legal moves
    /// of the position after each.
    pub fn alpha_beta(&mut self, board: &mut Board, depth: i32, alpha: i64, beta: i64) -> (r: i64)
        requires
            old(self).wf(),
            0 <= depth < MAX_DEPTH,
            -INFINITE_SCORE <= alpha <= INFINITE_SCORE,
            -INFINITE_SCORE <= beta <= INFINITE_SCORE,
        ensures
            final(self).wf(),
            table_scores_bounded(final(self).table()),
            final(self).key_tables() == old(self).key_tables(),
            valid_board(*old(board)) ==> *final(board) == *old(board),
            depth == 0 ==> *final(self) == *old(self) && *final(board) == *old(board),
            search_outcome(
                *old(board),
                depth as int,
                alpha as int,
                beta as int,
                r as int,
                old(self).table(),
                final(self).table(),
                old(self).key_tables(),
            ),
        decreases depth,
    {
        let ghost b0 = *board;
        let ghost alpha0 = alpha;
        let ghost beta0 = beta;
        let mut alpha = alpha;
        let mut beta = beta;
        let original_alpha = alpha;
        if depth == 0 {
            return self.evaluate(board);
        }
        let key = board.compute_zobrist_key(&self.zobrist);
        let ghost fresh = !usable_entry(self.table(), key, depth as int);
        if let Some(tt_entry) = self.tt.probe(key) {
            if tt_entry.depth >= depth {
                match tt_entry.node_type {
                    NodeType::PVNode => {
                        return tt_entry.value;
                    },
                    NodeType::AllNode => {
                        if tt_entry.value < beta {
                            beta = tt_entry.value;
                        }
                    },
                    NodeType::CutNode => {
                        if tt_entry.value > alpha {
                            alpha = tt_entry.value;
                        }
                    },
                }
                if alpha >= beta {
                    return tt_entry.value;
                }
            }
        }
        let ghost tables = self.key_tables();
        let ghost legal = legal_moves(b0);
        let mut moves = generate_legal_moves(board);
        let km = self.killer_moves[depth as usize];
        let mut insert_pos: usize = 0;
        let mut i: usize = 0;
        proof {
            assert forall|m: ChessMove| moves@.contains(m) <==> legal.contains(m) by {}
        }
        while i < moves.len()
            invariant
                insert_pos <= i <= moves@.len(),
                moves@.len() == legal.len(),
                forall|j: int| 0 <= j < moves@.len() ==> move_on_board(#[trigger] moves@[j]),
                forall|m: ChessMove| moves@.contains(m) <==> legal.contains(m),
            decreases moves@.len() - i,
        {
            if is_killer_move(&km, &moves[i]) {
                let a = moves[i];
                let b = moves[insert_pos];
                proof {
                    lemma_swap_keeps(moves@, i as int, insert_pos as int, legal);
                }
                moves.set(i, b);
                moves.set(insert_pos, a);
                insert_pos = insert_pos + 1;
            }
            i = i + 1;
        }

        if moves.len() == 0 {
            if is_king_in_check(board, board.white_to_move) {
                return -MATE_SCORE;
            }
            return 0;
        }

        let mut best_score: i64 = -INFINITE_SCORE;
        let mut best_move = moves[0];
        proof {
            assert(legal.contains(moves@[0]));
        }
        let ghost tv = fresh && valid_board(b0);
        let ghost mut cs: Seq<int> = seq![];
        let ghost mut ms: Seq<ChessMove> = seq![];
        let ghost mut ws: Seq<int> = seq![];
        let ghost mut ts: Seq<Map<ZobristKey, TranspositionTableEntry>> = seq![self.table()];
        let ghost mut cb: Seq<Board> = seq![];
        let mut k: usize = 0;
        while k < moves.len()
            invariant
                moves@.len() == legal.len(),
                tv == (fresh && valid_board(b0)),
                tv ==> {
                    &&& cs.len() == k && ms.len() == k && ws.len() == k && cb.len() == k
                    &&& ts.len() == k + 1
                    &&& ts[0] == old(self).table()
                    &&& ts[k as int] == self.table()
                    &&& k == 0 ==> alpha == alpha0
                    &&& k > 0 ==> ws[0] == alpha0 && alpha == max_int(ws[k - 1], -cs[k - 1])
                    &&& forall|j: int| 0 < j < k ==> #[trigger] ws[j] == max_int(ws[j - 1], -cs[j - 1])
                    &&& forall|j: int|
                        0 <= j < k ==> {
                            &&& legal.contains(#[trigger] ms[j])
                            &&& moved(b0, ms[j], cb[j])
                            &&& base_outcome(cb[j], depth - 1, -beta0, -ws[j], cs[j], ts[j], ts[j + 1], tables)
                        }
                    &&& k > 0 ==> exists|j: int| 0 <= j < k && best_score == -cs[j]
                    &&& forall|j: int| 0 <= j < k ==> best_score >= -#[trigger] cs[j]
                },
                self.wf(),
                self.key_tables() == tables,
                tables.wf(),
                key == zobrist(b0, tables),
                0 < depth < MAX_DEPTH,
                k <= moves@.len(),
                moves@.len() > 0,
                forall|j: int| 0 <= j < moves@.len() ==> move_on_board(#[trigger] moves@[j]),
                forall|m: ChessMove| moves@.contains(m) <==> legal.contains(m),
                legal == legal_moves(b0),
                legal.contains(best_move),
                valid_board(b0) ==> *board == b0,
                -INFINITE_SCORE <= alpha <= INFINITE_SCORE,
                -INFINITE_SCORE <= beta <= INFINITE_SCORE,
                fresh ==> beta == beta0 && alpha >= alpha0,
                original_alpha == alpha0,
                k == 0 ==> best_score == -INFINITE_SCORE,
                k > 0 ==> -MATE_SCORE <= best_score <= MATE_SCORE,
                k > 0 ==> alpha >= best_score,
                (fresh && depth == 1 && valid_board(b0) && alpha0 == -INFINITE_SCORE && beta0
                    == INFINITE_SCORE) ==> {
                    &&& alpha <= MATE_SCORE
                    &&& forall|j: int| 0 <= j < k ==> best_score >= leaf_score(b0, #[trigger] moves@[j])
                    &&& k > 0 ==> exists|j: int| 0 <= j < k && best_score == leaf_score(b0, moves@[j])
                },
            ensures
                tv ==> {
                    let n = cs.len();
                    &&& 1 <= n <= legal.len()
                    &&& ms.len() == n && ws.len() == n && cb.len() == n && ts.len() == n + 1
                    &&& ts[0] == old(self).table()
                    &&& ts[n as int] == self.table()
                    &&& ws[0] == alpha0
                    &&& alpha == max_int(ws[n - 1], -cs[n - 1])
                    &&& forall|j: int| 0 < j < n ==> #[trigger] ws[j] == max_int(ws[j - 1], -cs[j - 1])
                    &&& forall|j: int|
                        0 <= j < n ==> {
                            &&& legal.contains(#[trigger] ms[j])
                            &&& moved(b0, ms[j], cb[j])
                            &&& base_outcome(cb[j], depth - 1, -beta0, -ws[j], cs[j], ts[j], ts[j + 1], tables)
                        }
                    &&& exists|j: int| 0 <= j < n && best_score == -cs[j]
                    &&& forall|j: int| 0 <= j < n ==> best_score >= -#[trigger] cs[j]
                    &&& n < legal.len() ==> alpha >= beta
                },
                self.wf(),
                self.key_tables() == tables,
                valid_board(b0) ==> *board == b0,
                -MATE_SCORE <= best_score <= MATE_SCORE,
                legal.contains(best_move),
                fresh ==> beta == beta0,
                (fresh && depth == 1 && valid_board(b0) && alpha0 == -INFINITE_SCORE && beta0
                    == INFINITE_SCORE) ==> {
                    &&& forall|j: int| 0 <= j < moves@.len() ==> best_score >= leaf_score(b0, #[trigger] moves@[j])
                    &&& exists|j: int| 0 <= j < moves@.len() && best_score == leaf_score(b0, moves@[j])
                },
            decreases moves@.len() - k,
        {
            let mv = moves[k];
            proof {
                assert(moves@.contains(mv));
            }
            let undo = snapshot(board, &mv, key);
            let ghost before = *board;
            make_move(board, &mv);
            let ghost after = *board;
            let mut child = *board;
            let ghost alpha_before = alpha;
            let ghost cs0 = cs;
            let ghost ms0 = ms;
            let ghost ws0 = ws;
            let ghost ts0 = ts;
            let ghost cb0 = cb;
            let child_score = self.alpha_beta(&mut child, depth - 1, -beta, -alpha);
            let score = -child_score;
            unmake_move(board, &mv, &undo);
            proof {
                if valid_board(b0) {
                    crate::movegen::lemma_legal_move_round_trip(b0, mv, after, *board, tables);
                }
            }
            let ghost old_best = best_score;
            if k == 0 || score > best_score {
                best_score = score;
                best_move = mv;
                if score > alpha {
                    alpha = score;
                }
            }
            proof {
                if tv {
                    cs = cs0.push(child_score as int);
                    ms = ms0.push(mv);
                    ws = ws0.push(alpha_before as int);
                    ts = ts0.push(self.table());
                    cb = cb0.push(after);
                    assert(alpha == max_int(ws[k as int], -cs[k as int]));
                    assert forall|j: int| 0 < j < k + 1 implies #[trigger] ws[j] == max_int(
                        ws[j - 1],
                        -cs[j - 1],
                    ) by {
                        if j < k {
                            assert(ws0[j] == max_int(ws0[j - 1], -cs0[j - 1]));
                        }
                    }
                    assert forall|j: int| 0 <= j < k + 1 implies {
                        &&& legal.contains(#[trigger] ms[j])
                        &&& moved(b0, ms[j], cb[j])
                        &&& base_outcome(cb[j], depth - 1, -beta0, -ws[j], cs[j], ts[j], ts[j + 1], tables)
                    } by {
                        if j < k {
                            assert(legal.contains(ms0[j]));
                            assert(base_outcome(cb0[j], depth - 1, -beta0, -ws0[j], cs0[j], ts0[j], ts0[j + 1], tables));
                        }
                    }
                    assert forall|j: int| 0 <= j < k + 1 implies best_score >= -#[trigger] cs[j] by {
                        if j < k {
                            assert(old_best >= -cs0[j]);
                        }
                    }
                    if best_score == score {
                        assert(best_score == -cs[k as int]);
                    } else {
                        let w = choose|j: int| 0 <= j < k && old_best == -cs0[j];
                        assert(best_score == -cs[w]);
                    }
                }
            }
            proof {
                if fresh && depth == 1 && valid_board(b0) && alpha0 == -INFINITE_SCORE && beta0
                    == INFINITE_SCORE {
                    assert(score == leaf_score(b0, mv));
                    assert forall|j: int| 0 <= j < k + 1 implies best_score >= leaf_score(
                        b0,
                        #[trigger] moves@[j],
                    ) by {}
                    if best_score == score {
                        assert(best_score == leaf_score(b0, moves@[k as int]));
                    } else {
                        let w = choose|j: int| 0 <= j < k && old_best == leaf_score(b0, moves@[j]);
                        assert(best_score == leaf_score(b0, moves@[w]));
                    }
                }
            }
            k = k + 1;
            if alpha >= beta {
                let mut slot = self.killer_moves[depth as usize];
                store_killer_move(&mut slot, &mv);
                self.killer_moves.set(depth as usize, slot);
                break;
            }
        }

        let node_type = if best_score <= original_alpha {
            NodeType::AllNode
        } else if best_score >= beta {
            NodeType::CutNode
        } else {
            NodeType::PVNode
        };
        self.tt.store(key, best_score, node_type, depth, best_move);
        proof {
            if tv {
                assert(node_trace(b0, depth as int, alpha0 as int, beta0 as int, best_score as int, cs, ms, ws, ts, cb, tables));
            }
            assert(tables == old(self).key_tables());
            assert(search_outcome(b0, depth as int, alpha0 as int, beta0 as int, best_score as int, old(self).table(), self.table(), tables));
            if fresh && depth == 1 && valid_board(b0) && alpha0 == -INFINITE_SCORE && beta0
                == INFINITE_SCORE {
                assert forall|m: ChessMove| legal.contains(m) implies best_score >= leaf_score(b0, m) by {
                    assert(moves@.contains(m));
                    let q = choose|q: int| 0 <= q < moves@.len() && moves@[q] == m;
                    assert(best_score >= leaf_score(b0, moves@[q]));
                }
                let w = choose|j: int| 0 <= j < moves@.len() && best_score == leaf_score(b0, moves@[j]);
                assert(legal.contains(moves@[w]));
            }
        }
        best_score
    }

    /// Searches the legal moves of `board` in order, each to `depth` plies, and
    /// returns the first of highest score. Before each root move it reads the
    /// stop flag and the clock and hands what they say to `root_step`, which
    /// does the rest: on a stop it answers with the best move searched so far
    /// (the first move when none was), and otherwise it searches the next
    /// move. A valid board is left as it was. At depth 1 the scores are those
    /// of the positions after each move.
    pub fn find_best_move(
        &mut self,
        board: &mut Board,
        depth: i32,
        stop_requested: &AtomicBool,
        move_time: Option<Duration>,
    ) -> (r: Option<ChessMove>)
        requires
            old(self).wf(),
            1 <= depth <= MAX_DEPTH,
        ensures
            final(self).wf(),
            table_scores_bounded(final(self).table()),
            final(self).key_tables() == old(self).key_tables(),
            valid_board(*old(board)) ==> *final(board) == *old(board),
            r is None <==> legal_moves(*old(board)).len() == 0,
            legal_moves(*old(board)).len() > 0 ==> exists|scores: Seq<i64>|
                #![trigger first_best(scores)]
                {
                    &&& scores.len() <= legal_moves(*old(board)).len()
                    &&& r == Some(legal_moves(*old(board))[first_best(scores)])
                    &&& forall|j: int| 0 <= j < scores.len() ==> -MATE_SCORE <= #[trigger] scores[j] <= MATE_SCORE
                    &&& (depth == 1 && valid_board(*old(board))) ==> forall|j: int|
                        0 <= j < scores.len() ==> #[trigger] scores[j] == leaf_score(
                            *old(board),
                            legal_moves(*old(board))[j],
                        )
                    &&& valid_board(*old(board)) ==> forall|j: int|
                        0 <= j < scores.len() ==> child_searched(
                            *old(board),
                            legal_moves(*old(board))[j],
                            depth - 1,
                            running_alpha(scores, j),
                            #[trigger] scores[j] as int,
                            old(self).key_tables(),
                        )
                },
    {
        self.search_start_time = clock_now();
        self.move_time_limit = move_time;

        let ghost b0 = *board;
        let ghost tables = self.key_tables();
        let moves = generate_legal_moves(board);
        if moves.len() == 0 {
            return None;
        }
        let mut scores: Vec<i64> = Vec::new();
        let mut alpha: i64 = -INFINITE_SCORE;
        loop
            invariant
                self.wf(),
                self.key_tables() == tables,
                tables == old(self).key_tables(),
                1 <= depth <= MAX_DEPTH,
                scores@.len() <= moves@.len(),
                moves@.len() > 0,
                b0 == *old(board),
                moves@ == legal_moves(b0),
                crate::movegen::all_sound(b0, moves@),
                valid_board(b0) ==> *board == b0,
                -INFINITE_SCORE <= alpha <= MATE_SCORE,
                forall|j: int| 0 <= j < scores@.len() ==> -MATE_SCORE <= #[trigger] scores@[j] <= MATE_SCORE,
                (depth == 1 && valid_board(b0)) ==> forall|j: int|
                    0 <= j < scores@.len() ==> #[trigger] scores@[j] == leaf_score(b0, moves@[j]),
                alpha == running_alpha(scores@, scores@.len() as int),
                valid_board(b0) ==> forall|j: int|
                    0 <= j < scores@.len() ==> child_searched(
                        b0,
                        moves@[j],
                        depth - 1,
                        running_alpha(scores@, j),
                        #[trigger] scores@[j] as int,
                        tables,
                    ),
            decreases moves@.len() - scores@.len(),
        {
            let mut stop = stop_requested.load(Ordering::Relaxed);
            if !stop {
                if let Some(limit) = self.move_time_limit {
                    let elapsed = elapsed_since(&self.search_start_time);
                    stop = duration_reached(&elapsed, &limit);
                }
            }
            let ghost scores0 = scores@;
            let ghost alpha0 = alpha;
            let ghost board0 = *board;
            let ghost t0 = self.table();
            proof {
                assert forall|j: int| 0 <= j < moves@.len() implies move_on_board(#[trigger] moves@[j]) by {
                    assert(crate::movegen::sound_move(b0, moves@[j]));
                }
                assert forall|m: ChessMove| #[trigger] moves@.contains(m) implies legal_moves(b0).contains(m) by {}
            }
            match self.root_step(board, depth, &moves, &mut scores, &mut alpha, stop) {
                Some(m) => {
                    proof {
                        lemma_first_best(scores@);
                    }
                    return Some(m);
                },
                None => {
                    proof {
                        let k = scores0.len() as int;
                        assert forall|j: int| 0 <= j < scores@.len() implies -MATE_SCORE
                            <= #[trigger] scores@[j] <= MATE_SCORE by {
                            if j < k {
                                assert(scores@[j] == scores0[j]);
                            }
                        }
                        lemma_running_alpha_prefix(scores0, scores@, k);
                        if valid_board(b0) {
                            let c = choose|c: Board|
                                moved(board0, moves@[k], c) && search_outcome(
                                    c,
                                    depth - 1,
                                    -INFINITE_SCORE,
                                    -alpha0,
                                    -scores@[k] as int,
                                    t0,
                                    self.table(),
                                    tables,
                                );
                            assert(moved(b0, moves@[k], c));
                            assert(child_searched(b0, moves@[k], depth - 1, running_alpha(scores@, k), scores@[k] as int, tables));
                            assert forall|j: int| 0 <= j < scores@.len() implies child_searched(
                                b0,
                                moves@[j],
                                depth - 1,
                                running_alpha(scores@, j),
                                #[trigger] scores@[j] as int,
                                tables,
                            ) by {
                                if j < k {
                                    assert(scores@[j] == scores0[j]);
                                    lemma_running_alpha_prefix(scores0, scores@, j);
                                }
                            }
                        }
                        if depth == 1 && valid_board(b0) {
                            let c = choose|c: Board|
                                moved(board0, moves@[k], c) && search_outcome(
                                    c,
                                    depth - 1,
                                    -INFINITE_SCORE,
                                    -alpha0,
                                    -scores@[k] as int,
                                    t0,
                                    self.table(),
                                    tables,
                                );
                            assert(scores@[k] == leaf_score(b0, moves@[k]));
                            assert forall|j: int| 0 <= j < scores@.len() implies #[trigger] scores@[j]
                                == leaf_score(b0, moves@[j]) by {
                                if j < k {
                                    assert(scores@[j] == scores0[j]);
                                }
                            }
                        }
                    }
                },
            }
        }
    }

    /// One step of the root search over `moves`, the legal moves of `board`,
    /// of which `scores` holds the scores of the first ones searched and
    /// `alpha` the highest so far. `stop` is what the stop check before the
    /// next root move said. When it says stop, or every move has a score, the
    /// answer is `root_answer`'s and nothing changes. Otherwise the next move
    /// is made, the position after it is searched one ply shallower in the
    /// window (-infinity, `-alpha`), the move is taken back, and the negated
    /// result is appended to `scores` and raises `alpha`.
    pub fn root_step(
        &mut self,
        board: &mut Board,
        depth: i32,
        moves: &Vec<ChessMove>,
        scores: &mut Vec<i64>,
        alpha: &mut i64,
        stop: bool,
    ) -> (r: Option<ChessMove>)
        requires
            old(self).wf(),
            1 <= depth <= MAX_DEPTH,
            forall|j: int| 0 <= j < moves@.len() ==> move_on_board(#[trigger] moves@[j]),
            moves@.len() > 0,
            old(scores)@.len() <= moves@.len(),
            -INFINITE_SCORE <= *old(alpha) <= MATE_SCORE,
        ensures
            final(self).wf(),
            table_scores_bounded(final(self).table()),
            final(self).key_tables() == old(self).key_tables(),
            valid_board(*old(board)) && (forall|m: ChessMove| #[trigger] moves@.contains(m) ==> legal_moves(
                *old(board),
            ).contains(m)) ==> *final(board) == *old(board),
            r == (if stop || old(scores)@.len() == moves@.len() {
                Some(moves@[first_best(old(scores)@)])
            } else {
                None::<ChessMove>
            }),
            r is Some ==> final(scores)@ == old(scores)@ && *final(alpha) == *old(alpha)
                && final(self).table() == old(self).table(),
            r is None ==> ({
                let k = old(scores)@.len() as int;
                let score = final(scores)@[k];
                &&& final(scores)@.len() == k + 1
                &&& final(scores)@.subrange(0, k) == old(scores)@
                &&& -MATE_SCORE <= score <= MATE_SCORE
                &&& *final(alpha) == max_int(*old(alpha) as int, score as int)
                &&& -INFINITE_SCORE <= *final(alpha) <= MATE_SCORE
                &&& valid_board(*old(board)) ==> exists|c: Board|
                    moved(*old(board), moves@[k], c) && search_outcome(
                        c,
                        depth - 1,
                        -INFINITE_SCORE,
                        -*old(alpha),
                        -score as int,
                        old(self).table(),
                        final(self).table(),
                        old(self).key_tables(),
                    )
            }),
    {
        if let Some(m) = root_answer(stop, moves, scores) {
            return Some(m);
        }
        let ghost b0 = *board;
        let ghost tables = self.key_tables();
        let k = scores.len();
        let mv = moves[k];
        let key = board.compute_zobrist_key(&self.zobrist);
        let undo = snapshot(board, &mv, key);
        make_move(board, &mv);
        let ghost after = *board;
        let mut child = *board;
        let child_score = self.alpha_beta(&mut child, depth - 1, -INFINITE_SCORE, -*alpha);
        let score = -child_score;
        unmake_move(board, &mv, &undo);
        proof {
            assert(moves@[k as int] == mv);
            assert(moves@.contains(mv));
            if valid_board(b0) && legal_moves(b0).contains(mv) {
                crate::movegen::lemma_legal_move_round_trip(b0, mv, after, *board, tables);
            }
        }
        let ghost s0 = scores@;
        scores.push(score);
        proof {
            assert(scores@.subrange(0, k as int) =~= s0);
        }
        if score > *alpha {
            *alpha = score;
        }
        None
    }
}

proof fn lemma_legal_member(b: Board, moves: Seq<ChessMove>, k: int)
    requires
        moves == legal_moves(b),
        0 <= k < moves.len(),
    ensures
        legal_moves(b).contains(moves[k]),
{
}

// ---------------------------------------------------------------------------
// Coordinate notation
// ---------------------------------------------------------------------------

/// The promotion letter of a piece kind, `?` for a piece no pawn becomes.
pub open spec fn promotion_char(p: Piece) -> char {
    match p {
        Piece::WQ | Piece::BQ => 'q',
        Piece::WR | Piece::BR => 'r',
        Piece::WN | Piece::BN => 'n',
        Piece::WB | Piece::BB => 'b',
        _ => '?',
    }
}

/// A move in coordinate notation: origin, destination, promotion letter.
pub open spec fn uci_text(m: ChessMove) -> Seq<char> {
    let squares = algebraic(m.from as int) + algebraic(m.to as int);
    if m.promoted_piece != Piece::Empty {
        squares.push(promotion_char(m.promoted_piece))
    } else {
        squares
    }
}

fn file_letter(sq: i32) -> (c: char)
    requires
        on_sq(sq as int),
    ensures
        c == crate::board::file_char(col(sq as int)),
{
    (97u8 + col_of(sq) as u8) as char
}

fn rank_digit(sq: i32) -> (c: char)
    requires
        on_sq(sq as int),
    ensures
        c == crate::board::rank_char(row(sq as int)),
{
    (56u8 - row_of(sq) as u8) as char
}

pub fn move_to_uci(mv: &ChessMove) -> (r: String)
    requires
        move_on_board(*mv),
    ensures
        r@ == uci_text(*mv),
{
    let mut s = String::new();
    push_char(&mut s, file_letter(mv.from));
    push_char(&mut s, rank_digit(mv.from));
    push_char(&mut s, file_letter(mv.to));
    push_char(&mut s, rank_digit(mv.to));
    if mv.promoted_piece != Piece::Empty {
        let c = match mv.promoted_piece {
            Piece::WQ | Piece::BQ => 'q',
            Piece::WR | Piece::BR => 'r',
            Piece::WN | Piece::BN => 'n',
            Piece::WB | Piece::BB => 'b',
            _ => '?',
        };
        push_char(&mut s, c);
    }
    proof {
        assert(s@ =~= uci_text(*mv));
    }
    s
}

} // verus!
