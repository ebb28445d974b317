//! The textual position encoding.
//!
//! A position is one line: the board as run-length-encoded rows — digits
//! 1..9 for runs of empty cells, a letter for one occupied cell, `/`
//! closing each row top to bottom, a fully empty row encoding as nothing —
//! followed by space-separated current-piece letter, next-piece letter and
//! decimal score. Parsing rebuilds the board and recomputes the hash from
//! it; `lemma_parse_serialize` proves the round trip exact.

use crate::grid::{board_ok, empty_grid, grid_view, new_empty_board, top_occupied};
use crate::pieces::{Cell, Color, BOARD_HEIGHT, BOARD_WIDTH};
use crate::pos::Position;
use crate::zobrist::{board_hash, hash_board, Zobrist};
use crate::EngineError;
use vstd::prelude::*;

verus! {

/// The letter of a color in the encoding; the empty cell has no letter.
pub open spec fn letter_of(c: Color) -> char {
    match c {
        Color::I => 'I',
        Color::O => 'O',
        Color::J => 'J',
        Color::L => 'L',
        Color::S => 'S',
        Color::T => 'T',
        Color::Z => 'Z',
        Color::Random => '?',
        Color::Empty => ' ',
    }
}

/// The color of an encoding letter; `None` for anything else.
pub open spec fn color_of_letter(ch: char) -> Option<Color> {
    if ch == 'I' {
        Option::Some(Color::I)
    } else if ch == 'O' {
        Option::Some(Color::O)
    } else if ch == 'J' {
        Option::Some(Color::J)
    } else if ch == 'L' {
        Option::Some(Color::L)
    } else if ch == 'S' {
        Option::Some(Color::S)
    } else if ch == 'T' {
        Option::Some(Color::T)
    } else if ch == 'Z' {
        Option::Some(Color::Z)
    } else if ch == '?' {
        Option::Some(Color::Random)
    } else {
        Option::None
    }
}

/// The digit character of `n` in 0..10.
pub open spec fn digit_char(n: int) -> char {
    if n == 0 {
        '0'
    } else if n == 1 {
        '1'
    } else if n == 2 {
        '2'
    } else if n == 3 {
        '3'
    } else if n == 4 {
        '4'
    } else if n == 5 {
        '5'
    } else if n == 6 {
        '6'
    } else if n == 7 {
        '7'
    } else if n == 8 {
        '8'
    } else {
        '9'
    }
}

/// The value of a digit character in 1..10, or -1.
pub open spec fn digit19_val(ch: char) -> int {
    if ch == '1' {
        1
    } else if ch == '2' {
        2
    } else if ch == '3' {
        3
    } else if ch == '4' {
        4
    } else if ch == '5' {
        5
    } else if ch == '6' {
        6
    } else if ch == '7' {
        7
    } else if ch == '8' {
        8
    } else if ch == '9' {
        9
    } else {
        -1
    }
}

/// The value of a digit character in 0..10, or -1.
pub open spec fn digit_val(ch: char) -> int {
    if ch == '0' {
        0
    } else {
        digit19_val(ch)
    }
}

/// A pending run of empty cells, flushed as one digit; runs of 0 and of a
/// whole row of 10 produce nothing.
pub open spec fn flushed(run: int) -> Seq<char> {
    if 1 <= run <= 9 {
        seq![digit_char(run)]
    } else {
        Seq::empty()
    }
}

/// The encoding of `row` from column `i` on, with `run` empty cells
/// pending.
pub open spec fn enc_cells(row: Seq<Color>, i: int, run: int) -> Seq<char>
    decreases BOARD_WIDTH - i,
{
    if i < 0 || i >= BOARD_WIDTH {
        flushed(run)
    } else if row[i] == Color::Empty {
        enc_cells(row, i + 1, run + 1)
    } else {
        flushed(run) + seq![letter_of(row[i])] + enc_cells(row, i + 1, 0)
    }
}

/// The encoding of one row.
pub open spec fn enc_row(row: Seq<Color>) -> Seq<char> {
    enc_cells(row, 0, 0)
}

/// The encoding of the rows of `g` from row `y` down, each closed by `/`.
pub open spec fn enc_board(g: Seq<Seq<Color>>, y: int) -> Seq<char>
    decreases BOARD_HEIGHT - y,
{
    if y < 0 || y >= BOARD_HEIGHT {
        Seq::empty()
    } else {
        enc_row(g[y]) + seq!['/'] + enc_board(g, y + 1)
    }
}

/// The decimal digits of `n >= 0`, most significant first.
pub open spec fn dec_digits(n: int) -> Seq<char>
    decreases n,
{
    if n < 10 {
        seq![digit_char(n)]
    } else {
        dec_digits(n / 10) + seq![digit_char(n % 10)]
    }
}

/// The decimal encoding of a score, with a sign for negative values.
pub open spec fn score_str(sc: int) -> Seq<char> {
    if sc < 0 {
        seq!['-'] + dec_digits(-sc)
    } else {
        dec_digits(sc)
    }
}

/// The full encoding of a position.
pub open spec fn ser_spec(g: Seq<Seq<Color>>, cur: Color, next: Color, sc: int) -> Seq<char> {
    enc_board(g, 0) + seq![' '] + seq![letter_of(cur)] + seq![' '] + seq![letter_of(next)] + seq![
        ' ',
    ] + score_str(sc)
}

impl Color {
    /// Returns this color's encoding letter; a space for the empty cell.
    pub fn letter(&self) -> (c: char)
        ensures
            c == letter_of(*self),
    {
        match self {
            Color::I => 'I',
            Color::O => 'O',
            Color::J => 'J',
            Color::L => 'L',
            Color::S => 'S',
            Color::T => 'T',
            Color::Z => 'Z',
            Color::Random => '?',
            Color::Empty => ' ',
        }
    }
}

/// Appends the letter of `c` to `s`.
fn push_letter(s: &mut String, c: Color)
    ensures
        final(s)@ == old(s)@ + seq![letter_of(c)],
{
    match c {
        Color::I => {
            proof {
                reveal_strlit("I");
                assert("I"@ =~= seq!['I']);
            }
            s.append("I");
        },
        Color::O => {
            proof {
                reveal_strlit("O");
                assert("O"@ =~= seq!['O']);
            }
            s.append("O");
        },
        Color::J => {
            proof {
                reveal_strlit("J");
                assert("J"@ =~= seq!['J']);
            }
            s.append("J");
        },
        Color::L => {
            proof {
                reveal_strlit("L");
                assert("L"@ =~= seq!['L']);
            }
            s.append("L");
        },
        Color::S => {
            proof {
                reveal_strlit("S");
                assert("S"@ =~= seq!['S']);
            }
            s.append("S");
        },
        Color::T => {
            proof {
                reveal_strlit("T");
                assert("T"@ =~= seq!['T']);
            }
            s.append("T");
        },
        Color::Z => {
            proof {
                reveal_strlit("Z");
                assert("Z"@ =~= seq!['Z']);
            }
            s.append("Z");
        },
        Color::Random => {
            proof {
                reveal_strlit("?");
                assert("?"@ =~= seq!['?']);
            }
            s.append("?");
        },
        Color::Empty => {
            proof {
                reveal_strlit(" ");
                assert(" "@ =~= seq![' ']);
            }
            s.append(" ");
        },
    }
}

/// Appends the digit character of `d` in 0..10 to `s`.
fn push_digit(s: &mut String, d: u8)
    requires
        d <= 9,
    ensures
        final(s)@ == old(s)@ + seq![digit_char(d as int)],
{
    match d {
        0 => {
            proof {
                reveal_strlit("0");
                assert("0"@ =~= seq!['0']);
            }
            s.append("0");
        },
        1 => {
            proof {
                reveal_strlit("1");
                assert("1"@ =~= seq!['1']);
            }
            s.append("1");
        },
        2 => {
            proof {
                reveal_strlit("2");
                assert("2"@ =~= seq!['2']);
            }
            s.append("2");
        },
        3 => {
            proof {
                reveal_strlit("3");
                assert("3"@ =~= seq!['3']);
            }
            s.append("3");
        },
        4 => {
            proof {
                reveal_strlit("4");
                assert("4"@ =~= seq!['4']);
            }
            s.append("4");
        },
        5 => {
            proof {
                reveal_strlit("5");
                assert("5"@ =~= seq!['5']);
            }
            s.append("5");
        },
        6 => {
            proof {
                reveal_strlit("6");
                assert("6"@ =~= seq!['6']);
            }
            s.append("6");
        },
        7 => {
            proof {
                reveal_strlit("7");
                assert("7"@ =~= seq!['7']);
            }
            s.append("7");
        },
        8 => {
            proof {
                reveal_strlit("8");
                assert("8"@ =~= seq!['8']);
            }
            s.append("8");
        },
        _ => {
            proof {
                reveal_strlit("9");
                assert("9"@ =~= seq!['9']);
            }
            s.append("9");
        },
    }
}

/// Appends the decimal digits of `n` to `s`.
fn push_dec(s: &mut String, n: u64)
    ensures
        final(s)@ == old(s)@ + dec_digits(n as int),
    decreases n,
{
    if n < 10 {
        push_digit(s, n as u8);
    } else {
        proof {
            vstd::arithmetic::div_mod::lemma_div_is_strictly_smaller(n as int, 10);
            vstd::arithmetic::div_mod::lemma_mod_division_less_than_divisor(n as int, 10);
        }
        push_dec(s, n / 10);
        push_digit(s, (n % 10) as u8);
        proof {
            assert(old(s)@ + dec_digits(n as int / 10) + seq![digit_char(n as int % 10)] =~= old(
                s,
            )@ + dec_digits(n as int));
        }
    }
}

impl Position {
    /// Encodes this position as one line of text.
    pub fn to_string(&self) -> (s: String)
        requires
            board_ok(self.bgrid()),
        ensures
            s@ == ser_spec(self.bgrid(), self.current_piece, self.next_piece, self.score as int),
    {
        let ghost g = self.bgrid();
        let mut s = String::new();
        let mut y: usize = 0;
        while y < BOARD_HEIGHT
            invariant
                y <= BOARD_HEIGHT,
                board_ok(g),
                g == self.bgrid(),
                s@ + enc_board(g, y as int) == enc_board(g, 0),
            decreases BOARD_HEIGHT - y,
        {
            proof {
                assert(enc_board(g, y as int) == enc_row(g[y as int]) + seq!['/'] + enc_board(
                    g,
                    y + 1,
                ));
            }
            let mut run: u8 = 0;
            let mut x: usize = 0;
            while x < BOARD_WIDTH
                invariant
                    x <= BOARD_WIDTH,
                    y < BOARD_HEIGHT,
                    board_ok(g),
                    g == self.bgrid(),
                    run <= x,
                    s@ + enc_cells(g[y as int], x as int, run as int) + seq!['/'] + enc_board(
                        g,
                        y + 1,
                    ) == enc_board(g, 0),
                decreases BOARD_WIDTH - x,
            {
                let c = crate::grid::get_cell(&self.board, y, x);
                if c.is_empty() {
                    run = run + 1;
                } else {
                    if run > 0 {
                        push_digit(&mut s, run);
                    }
                    push_letter(&mut s, c);
                    run = 0;
                    proof {
                        assert(s@ + enc_cells(g[y as int], x + 1, 0) + seq!['/'] + enc_board(
                            g,
                            y + 1,
                        ) =~= enc_board(g, 0));
                    }
                }
                x = x + 1;
            }
            if run > 0 && run < 10 {
                push_digit(&mut s, run);
            }
            proof {
                reveal_strlit("/");
                assert("/"@ =~= seq!['/']);
            }
            s.append("/");
            proof {
                assert(s@ + enc_board(g, y + 1) =~= enc_board(g, 0));
            }
            y = y + 1;
        }
        proof {
            reveal_strlit(" ");
            assert(" "@ =~= seq![' ']);
        }
        s.append(" ");
        push_letter(&mut s, self.current_piece);
        s.append(" ");
        push_letter(&mut s, self.next_piece);
        s.append(" ");
        let sc = self.score;
        if sc < 0 {
            proof {
                reveal_strlit("-");
                assert("-"@ =~= seq!['-']);
            }
            s.append("-");
            let mag: u64 = ((-(sc + 1)) as u64) + 1;
            push_dec(&mut s, mag);
        } else {
            push_dec(&mut s, sc as u64);
        }
        proof {
            assert(s@ =~= ser_spec(g, self.current_piece, self.next_piece, self.score as int));
        }
        s
    }
}

/// The board-token parser state machine, consuming `s`: digits advance
/// the column, a letter writes one cell, `/` closes a row, a space ends
/// the board and hands back the rest. Anything else, a sentinel letter,
/// or a cell write out of bounds is malformed.
pub open spec fn parse_board(s: Seq<char>, g: Seq<Seq<Color>>, x: int, y: int) -> Option<
    (Seq<Seq<Color>>, Seq<char>),
>
    decreases s.len(),
{
    if s.len() == 0 {
        Option::None
    } else {
        let ch = s[0];
        let rest = s.subrange(1, s.len() as int);
        if ch == ' ' {
            Option::Some((g, rest))
        } else if ch == '/' {
            parse_board(rest, g, 0, y + 1)
        } else if digit19_val(ch) > 0 {
            parse_board(rest, g, x + digit19_val(ch), y)
        } else {
            match color_of_letter(ch) {
                Option::Some(c) => if c == Color::Random {
                    Option::None
                } else if 0 <= y < BOARD_HEIGHT && 0 <= x < BOARD_WIDTH {
                    parse_board(rest, g.update(y, g[y].update(x, c)), x + 1, y)
                } else {
                    Option::None
                },
                Option::None => Option::None,
            }
        }
    }
}

/// What remains after the current token and the space that closes it.
pub open spec fn skip_tok(s: Seq<char>) -> Seq<char>
    decreases s.len(),
{
    if s.len() == 0 {
        s
    } else if s[0] == ' ' {
        s.subrange(1, s.len() as int)
    } else {
        skip_tok(s.subrange(1, s.len() as int))
    }
}

/// A piece token: its first character must be a piece letter or the
/// unresolved sentinel; the rest of the token is ignored.
pub open spec fn parse_piece(s: Seq<char>) -> Option<(Color, Seq<char>)> {
    if s.len() == 0 {
        Option::None
    } else {
        match color_of_letter(s[0]) {
            Option::Some(c) => Option::Some((c, skip_tok(s.subrange(1, s.len() as int)))),
            Option::None => Option::None,
        }
    }
}

/// The characters of the score token: everything before the next space.
pub open spec fn score_tok(s: Seq<char>) -> Seq<char>
    decreases s.len(),
{
    if s.len() == 0 {
        s
    } else if s[0] == ' ' {
        Seq::empty()
    } else {
        seq![s[0]] + score_tok(s.subrange(1, s.len() as int))
    }
}

/// The value of a digit string under a left fold; `None` on a non-digit.
pub open spec fn dv(ds: Seq<char>, acc: int) -> Option<int>
    decreases ds.len(),
{
    if ds.len() == 0 {
        Option::Some(acc)
    } else if digit_val(ds[0]) >= 0 {
        dv(ds.subrange(1, ds.len() as int), acc * 10 + digit_val(ds[0]))
    } else {
        Option::None
    }
}

/// The score token parsed as a decimal 64-bit integer with an optional
/// sign; `None` on an empty token, a stray character, or overflow.
pub open spec fn parse_score(s: Seq<char>) -> Option<int> {
    let t = score_tok(s);
    if t.len() == 0 {
        Option::None
    } else if t[0] == '-' {
        if t.len() == 1 {
            Option::None
        } else {
            match dv(t.subrange(1, t.len() as int), 0) {
                Option::Some(v) => if v <= 9223372036854775808 {
                    Option::Some(-v)
                } else {
                    Option::None
                },
                Option::None => Option::None,
            }
        }
    } else if t[0] == '+' {
        if t.len() == 1 {
            Option::None
        } else {
            match dv(t.subrange(1, t.len() as int), 0) {
                Option::Some(v) => if v <= i64::MAX {
                    Option::Some(v)
                } else {
                    Option::None
                },
                Option::None => Option::None,
            }
        }
    } else {
        match dv(t, 0) {
            Option::Some(v) => if v <= i64::MAX {
                Option::Some(v)
            } else {
                Option::None
            },
            Option::None => Option::None,
        }
    }
}

/// A whole position line: board token, two piece tokens, score token.
/// Extra trailing tokens are ignored.
pub open spec fn parse_spec(s: Seq<char>) -> Option<(Seq<Seq<Color>>, Color, Color, int)> {
    match parse_board(s, empty_grid(), 0, 0) {
        Option::Some(t1) => match parse_piece(t1.1) {
            Option::Some(t2) => match parse_piece(t2.1) {
                Option::Some(t3) => match parse_score(t3.1) {
                    Option::Some(v) => Option::Some((t1.0, t2.0, t3.0, v)),
                    Option::None => Option::None,
                },
                Option::None => Option::None,
            },
            Option::None => Option::None,
        },
        Option::None => Option::None,
    }
}

/// Column and row counters at or beyond the board edge parse alike: no
/// further cell write can succeed from either, and `/` and space treat
/// them the same.
proof fn lemma_parse_board_saturated(
    s: Seq<char>,
    g: Seq<Seq<Color>>,
    x1: int,
    y1: int,
    x2: int,
    y2: int,
)
    requires
        x1 == x2 || (x1 >= BOARD_WIDTH && x2 >= BOARD_WIDTH),
        y1 == y2 || (y1 >= BOARD_HEIGHT && y2 >= BOARD_HEIGHT),
    ensures
        parse_board(s, g, x1, y1) == parse_board(s, g, x2, y2),
    decreases s.len(),
{
    if s.len() > 0 {
        let ch = s[0];
        let rest = s.subrange(1, s.len() as int);
        if ch == ' ' {
        } else if ch == '/' {
            lemma_parse_board_saturated(rest, g, 0, y1 + 1, 0, y2 + 1);
        } else if digit19_val(ch) > 0 {
            lemma_parse_board_saturated(rest, g, x1 + digit19_val(ch), y1, x2 + digit19_val(ch), y2);
        } else {
            match color_of_letter(ch) {
                Option::Some(c) => {
                    if c != Color::Random && 0 <= y1 < BOARD_HEIGHT && 0 <= x1 < BOARD_WIDTH {
                        lemma_parse_board_saturated(
                            rest,
                            g.update(y1, g[y1].update(x1, c)),
                            x1 + 1,
                            y1,
                            x2 + 1,
                            y2,
                        );
                    }
                },
                Option::None => {},
            }
        }
    }
}

/// Returns the color of an encoding letter.
fn color_from_char(ch: char) -> (r: Option<Color>)
    ensures
        r == color_of_letter(ch),
{
    match ch {
        'I' => Option::Some(Color::I),
        'O' => Option::Some(Color::O),
        'J' => Option::Some(Color::J),
        'L' => Option::Some(Color::L),
        'S' => Option::Some(Color::S),
        'T' => Option::Some(Color::T),
        'Z' => Option::Some(Color::Z),
        '?' => Option::Some(Color::Random),
        _ => Option::None,
    }
}

/// Returns the value of a digit character, -1 for anything else.
fn digit_value(ch: char) -> (d: i32)
    ensures
        d == digit_val(ch),
{
    match ch {
        '0' => 0,
        '1' => 1,
        '2' => 2,
        '3' => 3,
        '4' => 4,
        '5' => 5,
        '6' => 6,
        '7' => 7,
        '8' => 8,
        '9' => 9,
        _ => -1,
    }
}

impl Position {
    /// Parses one encoded position line against the key table `z`. On
    /// success the decoded board, current and next piece and score are
    /// exactly what `parse_spec` reads out of the text; the hash is
    /// recomputed from the decoded board, the cached minimum occupied row
    /// from its rows, and the last-placed piece starts empty. Every
    /// malformed input is rejected, exactly when `parse_spec` rejects it.
    pub fn parse(z: &Zobrist, s: &str) -> (r: Result<Position, EngineError>)
        requires
            z.wf(),
        ensures
            r is Ok <==> parse_spec(s@) is Some,
            r matches Ok(p) ==> {
                let t = parse_spec(s@)->Some_0;
                &&& p.bgrid() == t.0
                &&& p.current_piece == t.1
                &&& p.next_piece == t.2
                &&& p.score == t.3
                &&& p.last_piece == Color::Empty
                &&& p.hash == board_hash(t.0, z.keys_seq())
                &&& p.min_y == top_occupied(t.0)
                &&& p.wf(z)
            },
            r matches Err(e) ==> e == EngineError::MalformedEncoding,
    {
        let ghost p0 = parse_board(s@, empty_grid(), 0, 0);
        let slen = s.unicode_len();
        let mut board = new_empty_board();
        let mut i: usize = 0;
        let mut x: usize = 0;
        let mut y: usize = 0;
        let mut board_done = false;
        proof {
            assert(s@.subrange(0, slen as int) =~= s@);
        }
        while !board_done && i < slen
            invariant
                i <= slen,
                slen == s@.len(),
                x <= BOARD_WIDTH,
                y <= BOARD_HEIGHT,
                grid_view(board@).len() == BOARD_HEIGHT,
                forall|t: int|
                    0 <= t < BOARD_HEIGHT ==> (#[trigger] grid_view(board@)[t]).len()
                        == BOARD_WIDTH,
                forall|t: int, u: int|
                    0 <= t < BOARD_HEIGHT && 0 <= u < BOARD_WIDTH ==> #[trigger] grid_view(
                        board@,
                    )[t][u] != Color::Random,
                p0 == parse_board(s@, empty_grid(), 0, 0),
                !board_done ==> p0 == parse_board(
                    s@.subrange(i as int, slen as int),
                    grid_view(board@),
                    x as int,
                    y as int,
                ),
                board_done ==> p0 == Option::Some(
                    (grid_view(board@), s@.subrange(i as int, slen as int)),
                ),
            decreases slen - i,
        {
            let ghost suf = s@.subrange(i as int, slen as int);
            let ch = s.get_char(i);
            proof {
                assert(suf[0] == s@[i as int]);
                assert(suf.subrange(1, suf.len() as int) =~= s@.subrange(i + 1, slen as int));
            }
            if ch == ' ' {
                board_done = true;
                i = i + 1;
            } else if ch == '/' {
                x = 0;
                if y < BOARD_HEIGHT {
                    y = y + 1;
                } else {
                    proof {
                        lemma_parse_board_saturated(
                            s@.subrange(i + 1, slen as int),
                            grid_view(board@),
                            0,
                            y + 1,
                            0,
                            y as int,
                        );
                    }
                }
                i = i + 1;
            } else {
                let d = digit_value(ch);
                if d > 0 {
                    let nx = x + (d as usize);
                    if nx > BOARD_WIDTH {
                        proof {
                            lemma_parse_board_saturated(
                                s@.subrange(i + 1, slen as int),
                                grid_view(board@),
                                x + d as int,
                                y as int,
                                BOARD_WIDTH as int,
                                y as int,
                            );
                        }
                        x = BOARD_WIDTH;
                    } else {
                        x = nx;
                    }
                    i = i + 1;
                } else {
                    let col = color_from_char(ch);
                    match col {
                        Option::Some(c) => {
                            if matches!(c, Color::Random) {
                                return Result::Err(EngineError::MalformedEncoding);
                            }
                            if y >= BOARD_HEIGHT || x >= BOARD_WIDTH {
                                return Result::Err(EngineError::MalformedEncoding);
                            }
                            crate::grid::set_cell(&mut board, y, x, c);
                            x = x + 1;
                            i = i + 1;
                        },
                        Option::None => {
                            return Result::Err(EngineError::MalformedEncoding);
                        },
                    }
                }
            }
        }
        if !board_done {
            proof {
                assert(s@.subrange(i as int, slen as int).len() == 0);
            }
            return Result::Err(EngineError::MalformedEncoding);
        }
        let ghost gfin = grid_view(board@);
        // Current piece token.
        let cur = match Self::read_piece_token(s, &mut i) {
            Option::Some(c) => c,
            Option::None => {
                return Result::Err(EngineError::MalformedEncoding);
            },
        };
        // Next piece token.
        let next = match Self::read_piece_token(s, &mut i) {
            Option::Some(c) => c,
            Option::None => {
                return Result::Err(EngineError::MalformedEncoding);
            },
        };
        // Score token.
        let score = match Self::read_score_token(s, i) {
            Option::Some(v) => v,
            Option::None => {
                return Result::Err(EngineError::MalformedEncoding);
            },
        };
        let hash = hash_board(&board, z);
        let min_y = crate::grid::compute_min_y(&board);
        Result::Ok(
            Position {
                last_piece: Color::Empty,
                current_piece: cur,
                next_piece: next,
                score,
                board,
                hash,
                min_y,
            },
        )
    }

    /// Reads one piece token at `*i` and advances past its closing space.
    fn read_piece_token(s: &str, i: &mut usize) -> (r: Option<Color>)
        requires
            *old(i) <= s@.len(),
        ensures
            r is Some <==> parse_piece(s@.subrange(*old(i) as int, s@.len() as int)) is Some,
            r matches Some(c) ==> {
                let t = parse_piece(s@.subrange(*old(i) as int, s@.len() as int))->Some_0;
                &&& c == t.0
                &&& *final(i) <= s@.len()
                &&& s@.subrange(*final(i) as int, s@.len() as int) == t.1
            },
    {
        let slen = s.unicode_len();
        let ghost i0 = *i;
        if *i >= slen {
            return Option::None;
        }
        let ch = s.get_char(*i);
        proof {
            assert(s@.subrange(i0 as int, slen as int)[0] == s@[i0 as int]);
        }
        let c = match color_from_char(ch) {
            Option::Some(c) => c,
            Option::None => {
                return Option::None;
            },
        };
        *i = *i + 1;
        proof {
            assert(s@.subrange(i0 as int, slen as int).subrange(
                1,
                s@.subrange(i0 as int, slen as int).len() as int,
            ) =~= s@.subrange(i0 + 1, slen as int));
        }
        // Skip the rest of the token and its closing space.
        while *i < slen && s.get_char(*i) != ' '
            invariant
                i0 < *i <= slen,
                slen == s@.len(),
                skip_tok(s@.subrange(i0 + 1, slen as int)) == skip_tok(
                    s@.subrange(*i as int, slen as int),
                ),
            decreases slen - *i,
        {
            proof {
                assert(s@.subrange(*i as int, slen as int)[0] == s@[*i as int]);
                assert(s@.subrange(*i as int, slen as int).subrange(
                    1,
                    s@.subrange(*i as int, slen as int).len() as int,
                ) =~= s@.subrange(*i + 1, slen as int));
            }
            *i = *i + 1;
        }
        if *i < slen {
            proof {
                assert(s@.subrange(*i as int, slen as int)[0] == s@[*i as int]);
                assert(skip_tok(s@.subrange(*i as int, slen as int)) =~= s@.subrange(
                    *i + 1,
                    slen as int,
                ));
            }
            *i = *i + 1;
        } else {
            proof {
                assert(s@.subrange(*i as int, slen as int).len() == 0);
                assert(skip_tok(s@.subrange(*i as int, slen as int)) =~= s@.subrange(
                    *i as int,
                    slen as int,
                ));
            }
        }
        Option::Some(c)
    }

    /// Reads the score token starting at `i`.
    fn read_score_token(s: &str, i: usize) -> (r: Option<i64>)
        requires
            i <= s@.len(),
        ensures
            ({
                let ps = parse_score(s@.subrange(i as int, s@.len() as int));
                &&& (r is Some <==> ps is Some)
                &&& (r matches Some(v) ==> ps == Option::Some(v as int))
            }),
    {
        let ghost t = score_tok(s@.subrange(i as int, s@.len() as int));
        let slen = s.unicode_len();
        // Find the token end.
        let mut j = i;
        while j < slen && s.get_char(j) != ' '
            invariant
                i <= j <= slen,
                slen == s@.len(),
                forall|m: int| i <= m < j ==> s@[m] != ' ',
            decreases slen - j,
        {
            j = j + 1;
        }
        proof {
            lemma_score_tok_prefix(s@.subrange(i as int, slen as int), j - i);
            assert(s@.subrange(i as int, slen as int).subrange(0, j - i) =~= s@.subrange(
                i as int,
                j as int,
            ));
            assert(t == s@.subrange(i as int, j as int));
        }
        if j == i {
            return Option::None;
        }
        let first = s.get_char(i);
        let mut di = i;
        let mut neg = false;
        if first == '-' {
            neg = true;
            di = i + 1;
        } else if first == '+' {
            di = i + 1;
        }
        if di == j {
            // A bare sign, or nothing at all.
            return Option::None;
        }
        let ghost dseq = s@.subrange(di as int, j as int);
        proof {
            if first == '-' || first == '+' {
                assert(t.subrange(1, t.len() as int) =~= dseq);
            } else {
                assert(t =~= dseq);
            }
        }
        // Accumulate the digits; past the overflow threshold only the fact
        // that the value is too large matters.
        let mut acc: u64 = 0;
        let ghost mut vacc: int = 0;
        let mut over = false;
        let mut m = di;
        while m < j
            invariant
                i < j,
                di <= m <= j,
                i <= di <= i + 1,
                j <= slen,
                slen == s@.len(),
                t == score_tok(s@.subrange(i as int, slen as int)),
                t == s@.subrange(i as int, j as int),
                neg == (s@[i as int] == '-'),
                (s@[i as int] == '-' || s@[i as int] == '+') ==> di == i + 1 && di < j && dseq
                    == t.subrange(1, t.len() as int),
                !(s@[i as int] == '-' || s@[i as int] == '+') ==> di == i && dseq == t,
                dseq == s@.subrange(di as int, j as int),
                !over ==> acc == vacc,
                over ==> vacc > 9223372036854775808,
                0 <= vacc,
                dv(dseq, 0) == dv(s@.subrange(m as int, j as int), vacc),
            decreases j - m,
        {
            let ch = s.get_char(m);
            let d = digit_value(ch);
            proof {
                assert(s@.subrange(m as int, j as int)[0] == s@[m as int]);
                assert(s@.subrange(m as int, j as int).subrange(
                    1,
                    s@.subrange(m as int, j as int).len() as int,
                ) =~= s@.subrange(m + 1, j as int));
            }
            if d < 0 {
                proof {
                    assert(dv(s@.subrange(m as int, j as int), vacc) is None);
                    assert(dv(dseq, 0) is None);
                    assert(t[0] == s@[i as int]);
                }
                return Option::None;
            }
            proof {
                vacc = vacc * 10 + digit_val(s@[m as int]);
            }
            if over {
            } else if acc > 1844674407370955160 {
                over = true;
            } else {
                acc = acc * 10 + (d as u64);
            }
            m = m + 1;
        }
        proof {
            assert(s@.subrange(j as int, j as int).len() == 0);
            assert(dv(dseq, 0) == Option::Some(vacc));
        }
        if over {
            return Option::None;
        }
        if neg {
            if acc > 9223372036854775808 {
                Option::None
            } else if acc == 9223372036854775808 {
                Option::Some(i64::MIN)
            } else {
                Option::Some(-(acc as i64))
            }
        } else {
            if acc > i64::MAX as u64 {
                Option::None
            } else {
                Option::Some(acc as i64)
            }
        }
    }
}

/// Appending a digit multiplies the folded value by ten and adds it.
proof fn lemma_dv_snoc(ds: Seq<char>, d: char, acc: int)
    requires
        digit_val(d) >= 0,
    ensures
        dv(ds.push(d), acc) == match dv(ds, acc) {
            Option::Some(v) => Option::Some(v * 10 + digit_val(d)),
            Option::None => Option::None,
        },
    decreases ds.len(),
{
    if ds.len() == 0 {
        assert(ds.push(d)[0] == d);
        assert(ds.push(d).subrange(1, 1) =~= Seq::<char>::empty());
        assert(dv(ds.push(d), acc) == dv(Seq::<char>::empty(), acc * 10 + digit_val(d)));
        assert(dv(Seq::<char>::empty(), acc * 10 + digit_val(d)) == Option::Some(
            acc * 10 + digit_val(d),
        ));
        assert(dv(ds, acc) == Option::Some(acc));
    } else {
        assert(ds.push(d)[0] == ds[0]);
        assert(ds.push(d).subrange(1, ds.len() as int + 1) =~= ds.subrange(
            1,
            ds.len() as int,
        ).push(d));
        if digit_val(ds[0]) >= 0 {
            lemma_dv_snoc(ds.subrange(1, ds.len() as int), d, acc * 10 + digit_val(ds[0]));
            assert(dv(ds.push(d), acc) == dv(
                ds.subrange(1, ds.len() as int).push(d),
                acc * 10 + digit_val(ds[0]),
            ));
            assert(dv(ds, acc) == dv(ds.subrange(1, ds.len() as int), acc * 10 + digit_val(ds[0])));
        } else {
            assert(dv(ds.push(d), acc) is None);
            assert(dv(ds, acc) is None);
        }
    }
}

/// The decimal digits of `n` fold back to `n`.
proof fn lemma_dv_dec(n: int)
    requires
        0 <= n,
    ensures
        dv(dec_digits(n), 0) == Option::Some(n),
        forall|m: int| 0 <= m < dec_digits(n).len() ==> digit_val(#[trigger] dec_digits(n)[m]) >= 0,
        dec_digits(n).len() >= 1,
    decreases n,
{
    if n < 10 {
        assert(dec_digits(n) =~= seq![digit_char(n)]);
        assert(digit_val(digit_char(n)) == n);
        assert(dec_digits(n).subrange(1, 1) =~= Seq::<char>::empty());
        assert(dv(dec_digits(n), 0) == dv(Seq::<char>::empty(), 0 * 10 + n));
        assert(dv(Seq::<char>::empty(), 0 * 10 + n) == Option::Some(n));
    } else {
        lemma_dv_dec(n / 10);
        assert(dec_digits(n) =~= dec_digits(n / 10).push(digit_char(n % 10)));
        vstd::arithmetic::div_mod::lemma_mod_division_less_than_divisor(n, 10);
        lemma_dv_snoc(dec_digits(n / 10), digit_char(n % 10), 0);
        vstd::arithmetic::div_mod::lemma_fundamental_div_mod(n, 10);
        assert(dv(dec_digits(n), 0) == Option::Some((n / 10) * 10 + (n % 10)));
        assert forall|m: int|
            0 <= m < dec_digits(n).len() implies digit_val(#[trigger] dec_digits(n)[m]) >= 0 by {
            if m < dec_digits(n).len() - 1 {
                assert(dec_digits(n)[m] == dec_digits(n / 10)[m]);
            } else {
                assert(dec_digits(n)[m] == digit_char(n % 10));
            }
        };
    }
}

/// The score encoding parses back to the score.
proof fn lemma_parse_score_str(sc: int)
    requires
        i64::MIN <= sc <= i64::MAX,
    ensures
        parse_score(score_str(sc)) == Option::Some(sc),
{
    if sc < 0 {
        lemma_dv_dec(-sc);
        let t0 = score_str(sc);
        assert(t0[0] == '-');
        assert forall|m: int| 0 <= m < t0.len() implies t0[m] != ' ' by {
            if m >= 1 {
                assert(t0[m] == dec_digits(-sc)[m - 1]);
                assert(digit_val(t0[m]) >= 0);
            }
        };
        lemma_score_tok_prefix(t0, t0.len() as int);
        assert(t0.subrange(0, t0.len() as int) =~= t0);
        assert(score_tok(t0) == t0);
        assert(t0.subrange(1, t0.len() as int) =~= dec_digits(-sc));
    } else {
        lemma_dv_dec(sc);
        let t0 = score_str(sc);
        assert forall|m: int| 0 <= m < t0.len() implies t0[m] != ' ' by {
            assert(digit_val(t0[m]) >= 0);
        };
        lemma_score_tok_prefix(t0, t0.len() as int);
        assert(t0.subrange(0, t0.len() as int) =~= t0);
        assert(score_tok(t0) == t0);
        assert(digit_val(t0[0]) >= 0);
        assert(t0[0] != '-' && t0[0] != '+');
    }
}

/// Parsing the encoding of one row writes exactly that row and hands the
/// parser on to `tail`, which must open with the row terminator or the
/// board terminator.
proof fn lemma_parse_enc_cells(
    row: Seq<Color>,
    i: int,
    run: int,
    tail: Seq<char>,
    gcur: Seq<Seq<Color>>,
    y: int,
)
    requires
        row.len() == BOARD_WIDTH,
        forall|t: int| 0 <= t < BOARD_WIDTH ==> #[trigger] row[t] != Color::Random,
        0 <= y < BOARD_HEIGHT,
        0 <= run <= i <= BOARD_WIDTH,
        forall|t: int| i - run <= t < i ==> #[trigger] row[t] == Color::Empty,
        forall|t: int| 0 <= t < i - run ==> #[trigger] gcur[y][t] == row[t],
        forall|t: int| i - run <= t < BOARD_WIDTH ==> #[trigger] gcur[y][t] == Color::Empty,
        gcur.len() == BOARD_HEIGHT,
        gcur[y].len() == BOARD_WIDTH,
        tail.len() > 0,
        tail[0] == '/' || tail[0] == ' ',
    ensures
        parse_board(enc_cells(row, i, run) + tail, gcur, i - run, y) == (if tail[0] == ' ' {
            Option::Some(
                (gcur.update(y, row), tail.subrange(1, tail.len() as int)),
            )
        } else {
            parse_board(tail.subrange(1, tail.len() as int), gcur.update(y, row), 0, y + 1)
        }),
    decreases BOARD_WIDTH - i,
{
    let gu = gcur.update(y, row);
    let s = enc_cells(row, i, run) + tail;
    if i >= BOARD_WIDTH {
        // End of row: at most one pending digit, and the row held by the
        // parser already equals `row`.
        assert(gcur[y] =~= row);
        assert(gu =~= gcur);
        assert(gu == gcur);
        if 1 <= run <= 9 {
            assert(s[0] == digit_char(run));
            assert(digit19_val(digit_char(run)) == run);
            assert(s.subrange(1, s.len() as int) =~= tail);
            assert(parse_board(s, gcur, i - run, y) == parse_board(tail, gcur, i, y));
        } else {
            assert(enc_cells(row, i, run) =~= Seq::<char>::empty());
            assert(s =~= tail);
            assert(parse_board(s, gcur, i - run, y) == parse_board(tail, gcur, i - run, y));
        }
        if tail[0] == ' ' {
            assert(parse_board(tail, gcur, i, y) == Option::Some(
                (gcur, tail.subrange(1, tail.len() as int)),
            ));
            assert(parse_board(tail, gcur, i - run, y) == Option::Some(
                (gcur, tail.subrange(1, tail.len() as int)),
            ));
        } else {
            assert(parse_board(tail, gcur, i, y) == parse_board(
                tail.subrange(1, tail.len() as int),
                gcur,
                0,
                y + 1,
            ));
            assert(parse_board(tail, gcur, i - run, y) == parse_board(
                tail.subrange(1, tail.len() as int),
                gcur,
                0,
                y + 1,
            ));
        }
    } else if row[i] == Color::Empty {
        assert(enc_cells(row, i, run) == enc_cells(row, i + 1, run + 1));
        lemma_parse_enc_cells(row, i + 1, run + 1, tail, gcur, y);
    } else {
        let c = row[i];
        let s1 = seq![letter_of(c)] + enc_cells(row, i + 1, 0) + tail;
        let gc2 = gcur.update(y, gcur[y].update(i, c));
        if 1 <= run <= 9 {
            assert(s[0] == digit_char(run));
            assert(digit19_val(digit_char(run)) == run);
            assert(s.subrange(1, s.len() as int) =~= s1);
            assert(parse_board(s, gcur, i - run, y) == parse_board(s1, gcur, i, y));
        } else {
            assert(run == 0);
            assert(s =~= s1);
            assert(parse_board(s, gcur, i - run, y) == parse_board(s1, gcur, i, y));
        }
        // The letter writes the cell at column i.
        assert(s1[0] == letter_of(c));
        assert(digit19_val(letter_of(c)) == -1);
        assert(color_of_letter(letter_of(c)) == Option::Some(c));
        assert(s1.subrange(1, s1.len() as int) =~= enc_cells(row, i + 1, 0) + tail);
        assert(parse_board(s1, gcur, i, y) == parse_board(
            enc_cells(row, i + 1, 0) + tail,
            gc2,
            i + 1,
            y,
        ));
        lemma_parse_enc_cells(row, i + 1, 0, tail, gc2, y);
        assert(gc2.update(y, row) =~= gu);
        assert(gc2.update(y, row) == gu);
    }
}

/// Parsing the encodings of rows `y` and down writes exactly those rows.
proof fn lemma_parse_enc_board(
    g: Seq<Seq<Color>>,
    y: int,
    gcur: Seq<Seq<Color>>,
    rest: Seq<char>,
)
    requires
        board_ok(g),
        0 <= y <= BOARD_HEIGHT,
        gcur.len() == BOARD_HEIGHT,
        forall|t: int| 0 <= t < BOARD_HEIGHT ==> (#[trigger] gcur[t]).len() == BOARD_WIDTH,
        forall|t: int| 0 <= t < y ==> #[trigger] gcur[t] == g[t],
        forall|t: int, u: int|
            y <= t < BOARD_HEIGHT && 0 <= u < BOARD_WIDTH ==> #[trigger] gcur[t][u] == Color::Empty,
    ensures
        parse_board(enc_board(g, y) + seq![' '] + rest, gcur, 0, y) == Option::Some((g, rest)),
    decreases BOARD_HEIGHT - y,
{
    if y >= BOARD_HEIGHT {
        let s = enc_board(g, y) + seq![' '] + rest;
        assert(s =~= seq![' '] + rest);
        assert(s[0] == ' ');
        assert(s.subrange(1, s.len() as int) =~= rest);
        assert(gcur =~= g);
    } else {
        let tail = seq!['/'] + enc_board(g, y + 1) + seq![' '] + rest;
        assert(enc_board(g, y) + seq![' '] + rest =~= enc_cells(g[y], 0, 0) + tail);
        lemma_parse_enc_cells(g[y], 0, 0, tail, gcur, y);
        let gu = gcur.update(y, g[y]);
        assert(tail[0] == '/');
        assert(tail.subrange(1, tail.len() as int) =~= enc_board(g, y + 1) + seq![' '] + rest);
        lemma_parse_enc_board(g, y + 1, gu, rest);
    }
}

/// Serialization round trip: parsing the encoding of a position yields
/// exactly its board, current and next piece and score; and because the
/// hash is a function of the board alone, the reparsed board hashes to
/// the original hash under the same key table.
pub proof fn lemma_parse_serialize(g: Seq<Seq<Color>>, cur: Color, next: Color, sc: int)
    requires
        board_ok(g),
        cur != Color::Empty,
        next != Color::Empty,
        i64::MIN <= sc <= i64::MAX,
    ensures
        parse_spec(ser_spec(g, cur, next, sc)) == Option::Some((g, cur, next, sc)),
{
    let r1 = seq![letter_of(cur)] + seq![' '] + seq![letter_of(next)] + seq![' '] + score_str(sc);
    assert(ser_spec(g, cur, next, sc) =~= enc_board(g, 0) + seq![' '] + r1);
    lemma_parse_enc_board(g, 0, empty_grid(), r1);
    assert(parse_board(ser_spec(g, cur, next, sc), empty_grid(), 0, 0) == Option::Some((g, r1)));
    // Current piece token.
    assert(r1[0] == letter_of(cur));
    assert(color_of_letter(letter_of(cur)) == Option::Some(cur));
    let r2 = seq![letter_of(next)] + seq![' '] + score_str(sc);
    assert(r1.subrange(1, r1.len() as int) =~= seq![' '] + r2);
    assert(skip_tok(seq![' '] + r2) =~= r2);
    assert(parse_piece(r1) == Option::Some((cur, skip_tok(r1.subrange(1, r1.len() as int)))));
    assert(skip_tok(r1.subrange(1, r1.len() as int)) == r2);
    // Next piece token.
    assert(r2[0] == letter_of(next));
    assert(color_of_letter(letter_of(next)) == Option::Some(next));
    assert(r2.subrange(1, r2.len() as int) =~= seq![' '] + score_str(sc));
    assert(skip_tok(seq![' '] + score_str(sc)) =~= score_str(sc));
    assert(parse_piece(r2) == Option::Some((next, score_str(sc))));
    // Score token.
    lemma_parse_score_str(sc);
}

/// Full round trip at the position level: re-parsing a well-formed
/// position's encoding preserves the board, the pieces in play and the
/// score exactly, and the reparsed board carries the same Zobrist hash.
pub proof fn lemma_round_trip(p: Position, z: &Zobrist)
    requires
        p.wf(z),
    ensures
        ({
            let t = parse_spec(ser_spec(p.bgrid(), p.current_piece, p.next_piece, p.score as int));
            &&& t is Some
            &&& t->Some_0.0 == p.bgrid()
            &&& t->Some_0.1 == p.current_piece
            &&& t->Some_0.2 == p.next_piece
            &&& t->Some_0.3 == p.score as int
            &&& board_hash(t->Some_0.0, z.keys_seq()) == p.hash
        }),
{
    lemma_parse_serialize(p.bgrid(), p.current_piece, p.next_piece, p.score as int);
}

/// The score token is the space-free prefix of its input.
proof fn lemma_score_tok_prefix(t: Seq<char>, k: int)
    requires
        0 <= k <= t.len(),
        forall|m: int| 0 <= m < k ==> t[m] != ' ',
        k == t.len() || t[k] == ' ',
    ensures
        score_tok(t) == t.subrange(0, k),
    decreases k,
{
    if t.len() == 0 {
        assert(score_tok(t) =~= t.subrange(0, k));
    } else if k == 0 {
        assert(score_tok(t) =~= t.subrange(0, 0));
    } else {
        lemma_score_tok_prefix(t.subrange(1, t.len() as int), k - 1);
        assert(t.subrange(1, t.len() as int).subrange(0, k - 1) =~= t.subrange(0, k).subrange(
            1,
            k,
        ));
        assert(score_tok(t) == seq![t[0]] + t.subrange(0, k).subrange(1, k));
        assert(seq![t[0]] + t.subrange(0, k).subrange(1, k) =~= t.subrange(0, k));
    }
}

} // verus!
