use crate::board::push_char;
use crate::params::{OptionParams, PositionParams};
use crate::position_utils::{
    all_digits, chars_of, digits_value, int_of_text, is_digit, lemma_digits_grow, move_texts,
    parse_int, split_words, texts, words,
};
use vstd::prelude::*;
use vstd::string::StrSliceExecFns;

verus! {

/// The index of the first word `moves` from `i` on, or the number of words.
pub open spec fn moves_index(t: Seq<Seq<char>>, i: int) -> int
    decreases t.len() - i,
{
    if i >= t.len() || i < 0 {
        t.len() as int
    } else if t[i] == "moves"@ {
        i
    } else {
        moves_index(t, i + 1)
    }
}

/// Words joined with single spaces.
pub open spec fn joined(ws: Seq<Seq<char>>) -> Seq<char>
    decreases ws.len(),
{
    if ws.len() == 0 {
        seq![]
    } else if ws.len() == 1 {
        ws[0]
    } else {
        joined(ws.drop_last()) + seq![' '] + ws.last()
    }
}

/// What the arguments of a `position` command ask for: whether a FEN is
/// given, the FEN (its words rejoined) or `startpos`, and the move texts after
/// the word `moves`.
pub open spec fn position_request(args: Seq<char>) -> (bool, Seq<char>, Seq<Seq<char>>) {
    let t = words(args);
    if t.len() == 0 {
        (false, seq![], seq![])
    } else if t[0] == "fen"@ {
        let i = moves_index(t, 1);
        (
            true,
            joined(t.subrange(1, i)),
            if i < t.len() {
                t.subrange(i + 1, t.len() as int)
            } else {
                seq![]
            },
        )
    } else {
        (
            false,
            "startpos"@,
            if 1 < t.len() && t[1] == "moves"@ {
                t.subrange(2, t.len() as int)
            } else {
                seq![]
            },
        )
    }
}

/// The name and value a `setoption` command's words from `i` on give, the
/// last of each winning.
pub open spec fn option_scan(t: Seq<Seq<char>>, i: int, name: Seq<char>, value: Seq<char>) -> (
    Seq<char>,
    Seq<char>,
)
    decreases t.len() + 1 - i,
{
    if i >= t.len() || i < 0 {
        (name, value)
    } else if t[i] == "name"@ {
        option_scan(
            t,
            i + 2,
            if i + 1 < t.len() {
                t[i + 1]
            } else {
                name
            },
            value,
        )
    } else if t[i] == "value"@ {
        option_scan(
            t,
            i + 2,
            name,
            if i + 1 < t.len() {
                t[i + 1]
            } else {
                value
            },
        )
    } else {
        option_scan(t, i + 1, name, value)
    }
}

fn same_text(t: &Vec<char>, w: &str) -> (r: bool)
    ensures
        r == (t@ == w@),
{
    let n = w.unicode_len();
    if t.len() != n {
        return false;
    }
    let mut i: usize = 0;
    while i < n
        invariant
            i <= n,
            n == w@.len(),
            t@.len() == n,
            forall|j: int| 0 <= j < i ==> t@[j] == w@[j],
        decreases n - i,
    {
        if t[i] != w.get_char(i) {
            return false;
        }
        i = i + 1;
    }
    proof {
        assert(t@ =~= w@);
    }
    true
}

fn string_of(v: &Vec<char>) -> (r: String)
    ensures
        r@ == v@,
{
    let mut s = String::new();
    let mut i: usize = 0;
    while i < v.len()
        invariant
            i <= v@.len(),
            s@ == v@.subrange(0, i as int),
        decreases v@.len() - i,
    {
        push_char(&mut s, v[i]);
        proof {
            assert(s@ =~= v@.subrange(0, i + 1));
        }
        i = i + 1;
    }
    proof {
        assert(v@.subrange(0, v@.len() as int) =~= v@);
    }
    s
}

/// The words `t[from..]` as strings.
fn strings_from(t: &Vec<Vec<char>>, from: usize) -> (r: Vec<String>)
    requires
        from <= t@.len(),
    ensures
        move_texts(r@) == texts(t@).subrange(from as int, t@.len() as int),
{
    let mut out: Vec<String> = Vec::new();
    let mut j: usize = from;
    proof {
        assert(move_texts(out@) =~= texts(t@).subrange(from as int, from as int));
    }
    while j < t.len()
        invariant
            from <= j <= t@.len(),
            move_texts(out@) == texts(t@).subrange(from as int, j as int),
        decreases t@.len() - j,
    {
        let ghost before = out@;
        let w = string_of(&t[j]);
        out.push(w);
        proof {
            assert(texts(t@)[j as int] == t@[j as int]@);
            assert(move_texts(out@) =~= move_texts(before).push(w@));
            assert(move_texts(out@) =~= texts(t@).subrange(from as int, j + 1));
        }
        j = j + 1;
    }
    out
}

/// Reads the arguments of a `position` command.
pub fn parse_position_command(args: &str) -> (r: PositionParams)
    ensures
        (r.is_fen, r.position@, move_texts(r.moves@)) == position_request(args@),
{
    let chars = chars_of(args);
    let tokens = split_words(&chars);
    let ghost t = words(args@);
    if tokens.len() == 0 {
        return PositionParams { is_fen: false, position: String::new(), moves: Vec::new() };
    }
    if same_text(&tokens[0], "fen") {
        let mut i: usize = 1;
        let mut fen_string = String::new();
        proof {
            assert(fen_string@ =~= joined(t.subrange(1, 1)));
        }
        while i < tokens.len() && !same_text(&tokens[i], "moves")
            invariant
                1 <= i <= tokens@.len(),
                t == texts(tokens@),
                moves_index(t, 1) == moves_index(t, i as int),
                fen_string@ == joined(t.subrange(1, i as int)),
            decreases tokens@.len() - i,
        {
            let ghost before = fen_string@;
            if i > 1 {
                push_char(&mut fen_string, ' ');
            }
            let mut k: usize = 0;
            let ghost mid = fen_string@;
            while k < tokens[i].len()
                invariant
                    i < tokens@.len(),
                    k <= tokens@[i as int]@.len(),
                    fen_string@ == mid + tokens@[i as int]@.subrange(0, k as int),
                decreases tokens@[i as int]@.len() - k,
            {
                push_char(&mut fen_string, tokens[i][k]);
                proof {
                    assert(fen_string@ =~= mid + tokens@[i as int]@.subrange(0, k + 1));
                }
                k = k + 1;
            }
            proof {
                assert(tokens@[i as int]@.subrange(0, tokens@[i as int]@.len() as int) =~= tokens@[i as int]@);
                assert(t[i as int] == tokens@[i as int]@);
                assert(t.subrange(1, i + 1).drop_last() =~= t.subrange(1, i as int));
                assert(fen_string@ =~= joined(t.subrange(1, i + 1)));
            }
            i = i + 1;
        }
        let moves = if i < tokens.len() {
            strings_from(&tokens, i + 1)
        } else {
            Vec::new()
        };
        proof {
            if i >= tokens@.len() {
                assert(move_texts(moves@) =~= Seq::<Seq<char>>::empty());
            }
        }
        PositionParams { is_fen: true, position: fen_string, moves }
    } else {
        let mut moves: Vec<String> = Vec::new();
        if 1 < tokens.len() && same_text(&tokens[1], "moves") {
            moves = strings_from(&tokens, 2);
        } else {
            proof {
                assert(move_texts(moves@) =~= Seq::<Seq<char>>::empty());
            }
        }
        let position = string_of(&chars_of("startpos"));
        PositionParams { is_fen: false, position, moves }
    }
}

/// Reads the arguments of a `setoption` command: the word after `name` and
/// the word after `value`.
pub fn parse_option_command(args: &str) -> (r: OptionParams)
    ensures
        (r.name@, r.value@) == option_scan(words(args@), 0, seq![], seq![]),
{
    let chars = chars_of(args);
    let tokens = split_words(&chars);
    let ghost t = words(args@);
    let mut name = String::new();
    let mut value = String::new();
    let mut i: usize = 0;
    while i < tokens.len()
        invariant
            i <= tokens@.len(),
            t == texts(tokens@),
            option_scan(t, 0, seq![], seq![]) == option_scan(t, i as int, name@, value@),
        decreases tokens@.len() - i,
    {
        let ghost i0 = i as int;
        let ghost n0 = name@;
        let ghost v0 = value@;
        proof {
            assert(t[i0] == tokens@[i0]@);
        }
        if same_text(&tokens[i], "name") {
            i = i + 1;
            if i < tokens.len() {
                proof {
                    assert(t[i as int] == tokens@[i as int]@);
                }
                name = string_of(&tokens[i]);
                i = i + 1;
            }
            proof {
                if i0 + 1 < t.len() {
                    assert(name@ == t[i0 + 1]);
                } else {
                    assert(option_scan(t, i0 + 2, n0, v0) == (n0, v0));
                    assert(option_scan(t, i as int, n0, v0) == (n0, v0));
                }
                assert(option_scan(t, i0, n0, v0) == option_scan(t, i as int, name@, value@));
            }
        } else if same_text(&tokens[i], "value") {
            i = i + 1;
            if i < tokens.len() {
                proof {
                    assert(t[i as int] == tokens@[i as int]@);
                }
                value = string_of(&tokens[i]);
                i = i + 1;
            }
            proof {
                if i0 + 1 < t.len() {
                    assert(value@ == t[i0 + 1]);
                } else {
                    assert(option_scan(t, i0 + 2, n0, v0) == (n0, v0));
                    assert(option_scan(t, i as int, n0, v0) == (n0, v0));
                }
                assert(option_scan(t, i0, n0, v0) == option_scan(t, i as int, name@, value@));
            }
        } else {
            i = i + 1;
        }
    }
    OptionParams { name, value }
}

// ---------------------------------------------------------------------------
// go
// ---------------------------------------------------------------------------

/// The arguments of a `go` command as plain values; times are in milliseconds.
#[derive(Copy, Clone, Debug)]
pub struct GoRequest {
    pub searchmoves: Option<i32>,
    pub ponder: Option<bool>,
    pub wtime: Option<u64>,
    pub btime: Option<u64>,
    pub winc: Option<u64>,
    pub binc: Option<u64>,
    pub movestogo: Option<i32>,
    pub depth: Option<i32>,
    pub nodes: Option<i32>,
    pub mate: Option<i32>,
    pub movetime: Option<u64>,
    pub infinite: bool,
}

pub open spec fn empty_request() -> GoRequest {
    GoRequest {
        searchmoves: None,
        ponder: None,
        wtime: None,
        btime: None,
        winc: None,
        binc: None,
        movestogo: None,
        depth: None,
        nodes: None,
        mate: None,
        movetime: None,
        infinite: false,
    }
}

/// The text after an optional `+`.
pub open spec fn unsigned_body(s: Seq<char>) -> Seq<char> {
    if s.len() > 0 && s[0] == '+' {
        s.subrange(1, s.len() as int)
    } else {
        s
    }
}

/// An unsigned decimal integer: an optional `+` and at least one digit, within `u64`.
pub open spec fn u64_of_text(s: Seq<char>) -> Option<u64> {
    let body = unsigned_body(s);
    if body.len() == 0 || !all_digits(body) {
        None
    } else if digits_value(body) <= u64::MAX {
        Some(digits_value(body) as u64)
    } else {
        None
    }
}

/// Reads an unsigned decimal integer as `str::parse::<u64>` does.
fn parse_u64(s: &Vec<char>) -> (r: Option<u64>)
    ensures
        r == u64_of_text(s@),
{
    let n = s.len();
    let ghost body = unsigned_body(s@);
    let mut start: usize = 0;
    if n > 0 && s[0] == '+' {
        start = 1;
    }
    if start == n {
        return None;
    }
    let mut value: u128 = 0;
    let mut i: usize = start;
    while i < n
        invariant
            start <= i <= n,
            n == s@.len(),
            start == (if s@.len() > 0 && s@[0] == '+' {
                1int
            } else {
                0int
            }),
            body == unsigned_body(s@),
            body =~= s@.subrange(start as int, n as int),
            forall|k: int| start <= k < i ==> is_digit(#[trigger] s@[k]),
            value == digits_value(body.subrange(0, i - start)),
            value <= 18446744073709551615,
        decreases n - i,
    {
        let c = s[i];
        if !('0' <= c && c <= '9') {
            proof {
                assert(body[i - start] == c);
                assert(!all_digits(body));
            }
            return None;
        }
        proof {
            assert(body.subrange(0, i + 1 - start).drop_last() =~= body.subrange(0, i - start));
        }
        let next = value * 10 + (c as u32 - '0' as u32) as u128;
        if next > 18446744073709551615 {
            let mut j: usize = i + 1;
            while j < n
                invariant
                    i < j <= n,
                    n == s@.len(),
                    start <= i,
                    body == unsigned_body(s@),
                    body =~= s@.subrange(start as int, n as int),
                    forall|k: int| start <= k < j ==> is_digit(#[trigger] s@[k]),
                decreases n - j,
            {
                if !('0' <= s[j] && s[j] <= '9') {
                    proof {
                        assert(body[j - start] == s@[j as int]);
                        assert(!all_digits(body));
                    }
                    return None;
                }
                j = j + 1;
            }
            proof {
                assert forall|k: int| 0 <= k < body.len() implies is_digit(#[trigger] body[k]) by {
                    assert(body[k] == s@[k + start]);
                }
                lemma_digits_grow(body, i + 1 - start, body.len() as int);
                assert(body.subrange(0, body.len() as int) =~= body);
            }
            return None;
        }
        value = next;
        i = i + 1;
    }
    proof {
        assert forall|k: int| 0 <= k < body.len() implies is_digit(#[trigger] body[k]) by {
            assert(body[k] == s@[k + start]);
        }
        assert(body.subrange(0, n - start) =~= body);
    }
    Some(value as u64)
}

/// `acc` with the time field that `key` names set from the text `v`, when
/// `v` is an unsigned integer.
pub open spec fn with_time(acc: GoRequest, key: Seq<char>, v: Seq<char>) -> GoRequest {
    match u64_of_text(v) {
        Some(ms) => if key == "wtime"@ {
            GoRequest { wtime: Some(ms), ..acc }
        } else if key == "btime"@ {
            GoRequest { btime: Some(ms), ..acc }
        } else if key == "winc"@ {
            GoRequest { winc: Some(ms), ..acc }
        } else if key == "binc"@ {
            GoRequest { binc: Some(ms), ..acc }
        } else {
            GoRequest { movetime: Some(ms), ..acc }
        },
        None => acc,
    }
}

/// `acc` with the count field that `key` names set from the text `v`, when
/// `v` is an integer.
pub open spec fn with_count(acc: GoRequest, key: Seq<char>, v: Seq<char>) -> GoRequest {
    match int_of_text(v) {
        Some(x) => if key == "movestogo"@ {
            GoRequest { movestogo: Some(x), ..acc }
        } else if key == "depth"@ {
            GoRequest { depth: Some(x), ..acc }
        } else if key == "nodes"@ {
            GoRequest { nodes: Some(x), ..acc }
        } else {
            GoRequest { mate: Some(x), ..acc }
        },
        None => acc,
    }
}

pub open spec fn is_time_key(w: Seq<char>) -> bool {
    w == "wtime"@ || w == "btime"@ || w == "winc"@ || w == "binc"@ || w == "movetime"@
}

pub open spec fn is_count_key(w: Seq<char>) -> bool {
    w == "movestogo"@ || w == "depth"@ || w == "nodes"@ || w == "mate"@
}

/// The request that the words of a `go` command from `i` on make of `acc`:
/// `infinite` sets the flag, a key takes the next word as its value (kept only
/// if it reads as a number), and other words are skipped.
pub open spec fn go_scan(t: Seq<Seq<char>>, i: int, acc: GoRequest) -> GoRequest
    decreases t.len() + 1 - i,
{
    if i >= t.len() || i < 0 {
        acc
    } else if t[i] == "infinite"@ {
        go_scan(t, i + 1, GoRequest { infinite: true, ..acc })
    } else if is_time_key(t[i]) {
        if i + 1 < t.len() {
            go_scan(t, i + 2, with_time(acc, t[i], t[i + 1]))
        } else {
            acc
        }
    } else if is_count_key(t[i]) {
        if i + 1 < t.len() {
            go_scan(t, i + 2, with_count(acc, t[i], t[i + 1]))
        } else {
            acc
        }
    } else {
        go_scan(t, i + 1, acc)
    }
}

/// Reads the arguments of a `go` command.
pub fn parse_go_command(args: &str) -> (r: GoRequest)
    ensures
        r == go_scan(words(args@), 0, empty_request()),
{
    let chars = chars_of(args);
    let tokens = split_words(&chars);
    let ghost t = words(args@);
    let mut req = GoRequest {
        searchmoves: None,
        ponder: None,
        wtime: None,
        btime: None,
        winc: None,
        binc: None,
        movestogo: None,
        depth: None,
        nodes: None,
        mate: None,
        movetime: None,
        infinite: false,
    };
    let mut i: usize = 0;
    while i < tokens.len()
        invariant
            i <= tokens@.len(),
            t == texts(tokens@),
            go_scan(t, 0, empty_request()) == go_scan(t, i as int, req),
        decreases tokens@.len() - i,
    {
        let ghost i0 = i as int;
        let ghost r0 = req;
        proof {
            assert(t[i0] == tokens@[i0]@);
        }
        let w = &tokens[i];
        if same_text(w, "infinite") {
            req.infinite = true;
            i = i + 1;
        } else if same_text(w, "wtime") || same_text(w, "btime") || same_text(w, "winc")
            || same_text(w, "binc") || same_text(w, "movetime") {
            i = i + 1;
            if i < tokens.len() {
                proof {
                    assert(t[i as int] == tokens@[i as int]@);
                }
                match parse_u64(&tokens[i]) {
                    Some(ms) => {
                        if same_text(w, "wtime") {
                            req.wtime = Some(ms);
                        } else if same_text(w, "btime") {
                            req.btime = Some(ms);
                        } else if same_text(w, "winc") {
                            req.winc = Some(ms);
                        } else if same_text(w, "binc") {
                            req.binc = Some(ms);
                        } else {
                            req.movetime = Some(ms);
                        }
                    },
                    None => {},
                }
                i = i + 1;
                proof {
                    assert(req == with_time(r0, t[i0], t[i0 + 1]));
                }
            } else {
                proof {
                    assert(go_scan(t, i as int, req) == req);
                }
            }
        } else if same_text(w, "movestogo") || same_text(w, "depth") || same_text(w, "nodes")
            || same_text(w, "mate") {
            i = i + 1;
            if i < tokens.len() {
                proof {
                    assert(t[i as int] == tokens@[i as int]@);
                }
                match parse_int(&tokens[i]) {
                    Some(x) => {
                        if same_text(w, "movestogo") {
                            req.movestogo = Some(x);
                        } else if same_text(w, "depth") {
                            req.depth = Some(x);
                        } else if same_text(w, "nodes") {
                            req.nodes = Some(x);
                        } else {
                            req.mate = Some(x);
                        }
                    },
                    None => {},
                }
                i = i + 1;
                proof {
                    assert(req == with_count(r0, t[i0], t[i0 + 1]));
                }
            } else {
                proof {
                    assert(go_scan(t, i as int, req) == req);
                }
            }
        } else {
            i = i + 1;
        }
    }
    req
}

} // verus!
