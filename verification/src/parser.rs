//! Parsing of the textual board and move-list formats, and the exact
//! grammar both are held to. A board is lines of color letters; a move list
//! is lines of `row,col` in decimal. Errors name the first offending input.

use vstd::prelude::*;

use crate::cells::{cols, rect, rows};
use crate::solver::scorable;
use crate::color::{color_of, Color};
use crate::grid::Grid;

verus! {

/// The position of the first `ch` at or after `pos`, or the length when
/// there is none.
pub open spec fn find_from(s: Seq<char>, ch: char, pos: int) -> int
    decreases s.len() - pos,
{
    if pos < 0 || pos >= s.len() {
        s.len() as int
    } else if s[pos] == ch {
        pos
    } else {
        find_from(s, ch, pos + 1)
    }
}

/// What `find_from` finds: the first occurrence, or the length.
pub proof fn lemma_find_from_range(s: Seq<char>, ch: char, pos: int)
    requires
        0 <= pos <= s.len(),
    ensures
        pos <= find_from(s, ch, pos) <= s.len(),
        find_from(s, ch, pos) < s.len() ==> s[find_from(s, ch, pos)] == ch,
        forall|i: int| pos <= i < find_from(s, ch, pos) ==> s[i] != ch,
    decreases s.len() - pos,
{
    if pos < s.len() && s[pos] != ch {
        lemma_find_from_range(s, ch, pos + 1);
    }
}

/// A scan that stopped at `e` found the first occurrence.
pub proof fn lemma_find_from_at(s: Seq<char>, ch: char, pos: int, e: int)
    requires
        0 <= pos <= e <= s.len(),
        forall|i: int| pos <= i < e ==> s[i] != ch,
        e == s.len() || s[e] == ch,
    ensures
        find_from(s, ch, pos) == e,
    decreases e - pos,
{
    if pos < e {
        lemma_find_from_at(s, ch, pos + 1, e);
    }
}

/// A decimal digit.
pub open spec fn is_digit(c: char) -> bool {
    '0' <= c && c <= '9'
}

/// The value of a decimal digit.
pub open spec fn digit_val(c: char) -> int {
    c as int - '0' as int
}

/// The value of the first `j` characters read as a decimal numeral.
pub open spec fn digits_val(s: Seq<char>, j: int) -> int
    decreases j,
{
    if j <= 0 {
        0
    } else {
        digits_val(s, j - 1) * 10 + digit_val(s[j - 1])
    }
}

/// A nonempty, all-digit numeral.
pub open spec fn all_digits(s: Seq<char>) -> bool {
    s.len() > 0 && forall|i: int| 0 <= i < s.len() ==> is_digit(#[trigger] s[i])
}

/// The digits of a numeral, behind its optional leading plus sign.
pub open spec fn digits_of(s: Seq<char>) -> Seq<char> {
    if s.len() > 0 && s[0] == '+' {
        s.drop_first()
    } else {
        s
    }
}

/// The line `l0`, its carriage return stripped when a line break followed.
pub open spec fn strip_cr(l0: Seq<char>, broke: bool) -> Seq<char> {
    if broke && l0.len() > 0 && l0[l0.len() - 1] == '\r' {
        l0.drop_last()
    } else {
        l0
    }
}

/// Numeral values are never negative.
pub proof fn lemma_digits_val_nonneg(s: Seq<char>, j: int)
    requires
        j <= s.len(),
        forall|i: int| 0 <= i < s.len() ==> is_digit(#[trigger] s[i]),
    ensures
        digits_val(s, j) >= 0,
    decreases j,
{
    if j > 0 {
        lemma_digits_val_nonneg(s, j - 1);
    }
}

/// Numeral values never shrink as the numeral extends.
pub proof fn lemma_digits_val_mono(s: Seq<char>, j1: int, j2: int)
    requires
        0 <= j1 <= j2 <= s.len(),
        forall|i: int| 0 <= i < s.len() ==> is_digit(#[trigger] s[i]),
    ensures
        0 <= digits_val(s, j1) <= digits_val(s, j2),
    decreases j2 - j1,
{
    lemma_digits_val_nonneg(s, j1);
    if j1 < j2 {
        lemma_digits_val_mono(s, j1, j2 - 1);
        lemma_digits_val_nonneg(s, j2 - 1);
    }
}

/// The digit character of a value below ten.
pub open spec fn dec_digit(d: int) -> char {
    if d == 0 {
        '0'
    } else if d == 1 {
        '1'
    } else if d == 2 {
        '2'
    } else if d == 3 {
        '3'
    } else if d == 4 {
        '4'
    } else if d == 5 {
        '5'
    } else if d == 6 {
        '6'
    } else if d == 7 {
        '7'
    } else if d == 8 {
        '8'
    } else {
        '9'
    }
}

/// The decimal numeral of a nonnegative integer.
pub open spec fn dec_spec(n: int) -> Seq<char>
    decreases n,
{
    if n < 10 {
        seq![dec_digit(n)]
    } else {
        dec_spec(n / 10).push(dec_digit(n % 10))
    }
}

/// The digit character of `d`, as a string.
fn digit_str(d: usize) -> (r: &'static str)
    requires
        d < 10,
    ensures
        r@ == seq![dec_digit(d as int)],
{
    proof {
        reveal_strlit("0");
        reveal_strlit("1");
        reveal_strlit("2");
        reveal_strlit("3");
        reveal_strlit("4");
        reveal_strlit("5");
        reveal_strlit("6");
        reveal_strlit("7");
        reveal_strlit("8");
        reveal_strlit("9");
    }
    match d {
        0 => "0",
        1 => "1",
        2 => "2",
        3 => "3",
        4 => "4",
        5 => "5",
        6 => "6",
        7 => "7",
        8 => "8",
        _ => "9",
    }
}

/// The decimal numeral of `n`.
fn dec_str(n: usize) -> (r: String)
    ensures
        r@ == dec_spec(n as int),
    decreases n,
{
    if n < 10 {
        String::from_str(digit_str(n))
    } else {
        let mut s = dec_str(n / 10);
        s.append(digit_str(n % 10));
        proof {
            assert(s@ =~= dec_spec(n as int / 10).push(dec_digit(n as int % 10)));
        }
        s
    }
}

/// What a whole string holds as a machine-sized decimal numeral — an
/// optional plus sign, then digits — if it holds one.
pub open spec fn numeral_of(s: Seq<char>) -> Option<int> {
    let d = digits_of(s);
    if all_digits(d) && digits_val(d, d.len() as int) <= usize::MAX {
        Some(digits_val(d, d.len() as int))
    } else {
        None
    }
}

/// One `row,col` line of a move list: exactly one comma, a decimal numeral
/// on each side, both fitting the machine word.
pub open spec fn parse_line_spec(l: Seq<char>) -> Result<(int, int), Seq<char>> {
    let c1 = find_from(l, ',', 0);
    if c1 >= l.len() || find_from(l, ',', c1 + 1) < l.len() {
        Result::Err("Invalid move format"@)
    } else {
        let a = l.subrange(0, c1);
        let b = l.subrange(c1 + 1, l.len() as int);
        match (numeral_of(a), numeral_of(b)) {
            (None, _) => Result::Err("Invalid row"@),
            (Some(_), None) => Result::Err("Invalid col"@),
            (Some(rv), Some(cv)) => Result::Ok((rv, cv)),
        }
    }
}

/// The move list encoded from position `pos` on: newline-separated lines,
/// each a `row,col` pair; the first bad line's message, if any.
pub open spec fn parse_moves_from(s: Seq<char>, pos: int) -> Result<
    Seq<(int, int)>,
    Seq<char>,
>
    decreases s.len() - pos + 1,
{
    if pos < 0 || pos >= s.len() {
        Result::Ok(Seq::empty())
    } else {
        let enl = find_from(s, '\n', pos);
        let e2 = if enl < pos {
            pos
        } else if enl > s.len() {
            s.len() as int
        } else {
            enl
        };
        let l = strip_cr(s.subrange(pos, e2), e2 < s.len());
        match parse_line_spec(l) {
            Result::Err(m) => Result::Err(m),
            Result::Ok(mv) => match parse_moves_from(s, e2 + 1) {
                Result::Err(m) => Result::Err(m),
                Result::Ok(ms) => Result::Ok(seq![mv] + ms),
            },
        }
    }
}

/// The whole move list, from the start of the text.
pub open spec fn parse_moves_spec(s: Seq<char>) -> Result<Seq<(int, int)>, Seq<char>> {
    parse_moves_from(s, 0)
}

/// The position of the first `ch` at or after `pos`.
fn find_char(s: &str, ch: char, pos: usize, n: usize) -> (e: usize)
    requires
        n == s@.len(),
        pos <= n,
    ensures
        e == find_from(s@, ch, pos as int),
        pos <= e <= n,
        e < n ==> s@[e as int] == ch,
        forall|i: int| pos <= i < e ==> s@[i] != ch,
{
    let mut e: usize = pos;
    while e < n
        invariant
            n == s@.len(),
            pos <= e <= n,
            forall|i: int| pos <= i < e ==> s@[i] != ch,
        decreases n - e,
    {
        if s.get_char(e) == ch {
            proof {
                lemma_find_from_at(s@, ch, pos as int, e as int);
            }
            return e;
        }
        e += 1;
    }
    proof {
        lemma_find_from_at(s@, ch, pos as int, n as int);
    }
    n
}

/// Read a whole string as a decimal numeral — an optional leading plus
/// sign, then digits — if that is what it is and the value fits the
/// machine word.
fn parse_usize(part: &str) -> (r: Option<usize>)
    ensures
        match r {
            Some(v) => numeral_of(part@) == Some(v as int),
            None => numeral_of(part@) is None,
        },
{
    let n = part.unicode_len();
    let ghost d = digits_of(part@);
    let mut start: usize = 0;
    if n > 0 && part.get_char(0) == '+' {
        start = 1;
        proof {
            assert(d =~= part@.subrange(1, n as int));
        }
    }
    proof {
        assert(d.len() == n - start);
        assert(forall|x: int| 0 <= x < d.len() ==> #[trigger] d[x] == part@[x + start]);
    }
    if n == start {
        return None;
    }
    let mut val: usize = 0;
    let mut j: usize = start;
    while j < n
        invariant
            n == part@.len(),
            d == digits_of(part@),
            start <= j <= n,
            start < n,
            d.len() == n - start,
            forall|x: int| 0 <= x < d.len() ==> #[trigger] d[x] == part@[x + start],
            forall|i: int| 0 <= i < j - start ==> is_digit(#[trigger] d[i]),
            val == digits_val(d, j - start),
        decreases n - j,
    {
        let c = part.get_char(j);
        let cu = c as u32;
        if cu < 48 || cu > 57 {
            proof {
                assert(!is_digit(d[j - start]));
            }
            return None;
        }
        let dv = (cu - 48) as usize;
        proof {
            assert(is_digit(d[j - start]));
            assert(dv == digit_val(d[j - start]));
        }
        if val > (usize::MAX - dv) / 10 {
            proof {
                assert(val * 10 + dv > usize::MAX) by (nonlinear_arith)
                    requires
                        val > (usize::MAX - dv) / 10,
                        0 <= dv <= 9,
                ;
                assert(digits_val(d, j - start + 1) > usize::MAX);
                if all_digits(d) {
                    lemma_digits_val_mono(d, j - start + 1, d.len() as int);
                }
            }
            return None;
        }
        proof {
            assert(val * 10 + dv <= usize::MAX) by (nonlinear_arith)
                requires
                    val <= (usize::MAX - dv) / 10,
                    0 <= dv <= 9,
            ;
        }
        val = val * 10 + dv;
        j += 1;
    }
    Some(val)
}

/// Parse a newline-separated list of `row,col` moves, reporting the first
/// offense: a line without exactly one comma, or a side that is not a
/// machine-sized decimal numeral.
pub fn parse_moves(input: &str) -> (r: Result<Vec<(usize, usize)>, String>)
    ensures
        match r {
            Ok(ms) => parse_moves_spec(input@) == Result::<Seq<(int, int)>, Seq<char>>::Ok(
                ms@.map_values(|m: (usize, usize)| (m.0 as int, m.1 as int)),
            ),
            Err(e) => parse_moves_spec(input@) == Result::<Seq<(int, int)>, Seq<char>>::Err(
                e@,
            ),
        },
{
    let ghost s = input@;
    let n = input.unicode_len();
    let mut moves: Vec<(usize, usize)> = Vec::new();
    let mut pos: usize = 0;
    while pos < n
        invariant
            s == input@,
            n == s.len(),
            pos <= n,
            parse_moves_spec(s) == (match parse_moves_from(s, pos as int) {
                Result::<Seq<(int, int)>, Seq<char>>::Ok(tail) => Result::<
                    Seq<(int, int)>,
                    Seq<char>,
                >::Ok(moves@.map_values(|m: (usize, usize)| (m.0 as int, m.1 as int)) + tail),
                Result::<Seq<(int, int)>, Seq<char>>::Err(m) => Result::<
                    Seq<(int, int)>,
                    Seq<char>,
                >::Err(m),
            }),
        decreases n - pos,
    {
        let e = find_char(input, '\n', pos, n);
        let line_end = if e < n && e > pos && input.get_char(e - 1) == '\r' {
            e - 1
        } else {
            e
        };
        let line = input.substring_char(pos, line_end);
        proof {
            lemma_find_from_range(s, '\n', pos as int);
            assert(line@ =~= strip_cr(s.subrange(pos as int, e as int), (e as int) < s.len()));
        }
        let ln = line.unicode_len();
        let c1 = find_char(line, ',', 0, ln);
        if c1 == ln {
            return Err(String::from_str("Invalid move format"));
        }
        let c2 = find_char(line, ',', c1 + 1, ln);
        if c2 < ln {
            return Err(String::from_str("Invalid move format"));
        }
        let a = line.substring_char(0, c1);
        let b = line.substring_char(c1 + 1, ln);
        proof {
            assert(a@ == line@.subrange(0, c1 as int));
            assert(b@ == line@.subrange(c1 as int + 1, line@.len() as int));
        }
        let rv = match parse_usize(a) {
            Some(v) => v,
            None => {
                return Err(String::from_str("Invalid row"));
            },
        };
        let cv = match parse_usize(b) {
            Some(v) => v,
            None => {
                return Err(String::from_str("Invalid col"));
            },
        };
        let ghost front = moves@.map_values(|m: (usize, usize)| (m.0 as int, m.1 as int));
        moves.push((rv, cv));
        proof {
            assert(parse_line_spec(line@) == Result::<(int, int), Seq<char>>::Ok(
                (rv as int, cv as int),
            ));
            assert(moves@.map_values(|m: (usize, usize)| (m.0 as int, m.1 as int)) =~= front
                .push((rv as int, cv as int)));
            if let Result::<Seq<(int, int)>, Seq<char>>::Ok(tail) = parse_moves_from(
                s,
                e as int + 1,
            ) {
                assert(front.push((rv as int, cv as int)) + tail =~= front + (seq![
                    (rv as int, cv as int),
                ] + tail));
            }
        }
        pos = if e < n {
            e + 1
        } else {
            n
        };
    }
    proof {
        assert(parse_moves_from(s, pos as int) == Result::<Seq<(int, int)>, Seq<char>>::Ok(
            Seq::<(int, int)>::empty(),
        ));
        assert(moves@.map_values(|m: (usize, usize)| (m.0 as int, m.1 as int))
            + Seq::<(int, int)>::empty() =~= moves@.map_values(
            |m: (usize, usize)| (m.0 as int, m.1 as int),
        ));
    }
    Ok(moves)
}

/// The position of the first character at or after `pos` that names no
/// color, or the length when every one does.
pub open spec fn inv_from(l: Seq<char>, pos: int) -> int
    decreases l.len() - pos,
{
    if pos < 0 || pos >= l.len() {
        l.len() as int
    } else if color_of(l[pos]) is None {
        pos
    } else {
        inv_from(l, pos + 1)
    }
}

/// A scan that stopped at `e` found the first invalid character.
pub proof fn lemma_inv_from_at(l: Seq<char>, pos: int, e: int)
    requires
        0 <= pos <= e <= l.len(),
        forall|i: int| pos <= i < e ==> color_of(l[i]) is Some,
        e == l.len() || color_of(l[e]) is None,
    ensures
        inv_from(l, pos) == e,
    decreases e - pos,
{
    if pos < e {
        lemma_inv_from_at(l, pos + 1, e);
    }
}

/// The report for a character that names no color, with its position.
pub open spec fn invalid_char_msg(r: int, c: int, ch: char) -> Seq<char> {
    "Invalid character at ("@ + dec_spec(r) + ", "@ + dec_spec(c) + "): "@ + seq![ch]
}

/// The colors named by one line of board text.
pub open spec fn row_of(l: Seq<char>) -> Seq<Option<Color>> {
    Seq::new(l.len(), |j: int| color_of(l[j]))
}

/// The rows encoded from position `pos` on, the first being row `row_idx`:
/// newline-separated lines of color letters; the report for the first
/// character that names no color, if any.
pub open spec fn parse_rows_from(s: Seq<char>, pos: int, row_idx: int) -> Result<
    Seq<Seq<Option<Color>>>,
    Seq<char>,
>
    decreases s.len() - pos + 1,
{
    if pos < 0 || pos >= s.len() {
        Result::Ok(Seq::empty())
    } else {
        let enl = find_from(s, '\n', pos);
        let e2 = if enl < pos {
            pos
        } else if enl > s.len() {
            s.len() as int
        } else {
            enl
        };
        let l = strip_cr(s.subrange(pos, e2), e2 < s.len());
        let b = inv_from(l, 0);
        if b < l.len() {
            Result::Err(invalid_char_msg(row_idx, b, l[b]))
        } else {
            match parse_rows_from(s, e2 + 1, row_idx + 1) {
                Result::Err(m) => Result::Err(m),
                Result::Ok(rest) => Result::Ok(seq![row_of(l)] + rest),
            }
        }
    }
}

/// The board encoded by the whole text: valid color letters, all lines of
/// one length, and few enough cells for the solver's score arithmetic. An
/// empty text encodes the empty, already-cleared board.
pub open spec fn parse_grid_spec(s: Seq<char>) -> Result<Seq<Seq<Option<Color>>>, Seq<char>> {
    match parse_rows_from(s, 0, 0) {
        Result::Err(m) => Result::Err(m),
        Result::Ok(rs) => if !rect(rs) {
            Result::Err("Non-rectangular grid"@)
        } else if rs.len() > 0 && rs.len() * rs[0].len() > usize::MAX / 20 {
            Result::Err("Grid too large"@)
        } else {
            Result::Ok(rs)
        },
    }
}

impl Grid {
    /// Parse a board from lines of color letters, rejecting the first
    /// character that names no color — with its position in the report —
    /// and any shape no board may have.
    #[verifier::loop_isolation(false)]
    #[verifier::rlimit(60)]
    pub fn try_from(value: &str) -> (r: Result<Grid, String>)
        ensures
            match r {
                Ok(g) => {
                    &&& parse_grid_spec(value@) == Result::<
                        Seq<Seq<Option<Color>>>,
                        Seq<char>,
                    >::Ok(g.cells())
                    &&& g.wf()
                    &&& scorable(g.cells())
                    &&& g.moves@ == Seq::<(usize, usize)>::empty()
                },
                Err(e) => parse_grid_spec(value@) == Result::<
                    Seq<Seq<Option<Color>>>,
                    Seq<char>,
                >::Err(e@),
            },
    {
        let ghost s = value@;
        let n = value.unicode_len();
        let mut rows_vec: Vec<Vec<Option<Color>>> = Vec::new();
        let mut pos: usize = 0;
        while pos < n
            invariant
                s == value@,
                n == s.len(),
                pos <= n,
                parse_rows_from(s, 0, 0) == (match parse_rows_from(
                    s,
                    pos as int,
                    rows_vec@.len() as int,
                ) {
                    Result::<Seq<Seq<Option<Color>>>, Seq<char>>::Ok(rest) => Result::<
                        Seq<Seq<Option<Color>>>,
                        Seq<char>,
                    >::Ok(Seq::new(rows_vec@.len(), |i: int| rows_vec@[i]@) + rest),
                    Result::<Seq<Seq<Option<Color>>>, Seq<char>>::Err(m) => Result::<
                        Seq<Seq<Option<Color>>>,
                        Seq<char>,
                    >::Err(m),
                }),
            decreases n - pos,
        {
            let e = find_char(value, '\n', pos, n);
            let line_end = if e < n && e > pos && value.get_char(e - 1) == '\r' {
                e - 1
            } else {
                e
            };
            let line = value.substring_char(pos, line_end);
            proof {
                lemma_find_from_range(s, '\n', pos as int);
                assert(line@ =~= strip_cr(
                    s.subrange(pos as int, e as int),
                    (e as int) < s.len(),
                ));
            }
            let ln = line.unicode_len();
            let mut row_vec: Vec<Option<Color>> = Vec::new();
            let mut j: usize = 0;
            while j < ln
                invariant
                    ln == line@.len(),
                    j <= ln,
                    forall|i: int| 0 <= i < j ==> color_of(line@[i]) is Some,
                    row_vec@.len() == j,
                    forall|i: int| 0 <= i < j ==> #[trigger] row_vec@[i] == color_of(line@[i]),
                decreases ln - j,
            {
                let c = line.get_char(j);
                match Color::from_char(c) {
                    Some(col) => {
                        row_vec.push(Some(col));
                    },
                    None => {
                        proof {
                            lemma_inv_from_at(line@, 0, j as int);
                        }
                        let mut msg = String::from_str("Invalid character at (");
                        let rd = dec_str(rows_vec.len());
                        msg.append(rd.as_str());
                        msg.append(", ");
                        let cd = dec_str(j);
                        msg.append(cd.as_str());
                        msg.append("): ");
                        let chs = line.substring_char(j, j + 1);
                        msg.append(chs);
                        proof {
                            assert(chs@ =~= seq![line@[j as int]]);
                            assert(msg@ =~= invalid_char_msg(
                                rows_vec@.len() as int,
                                j as int,
                                line@[j as int],
                            ));
                        }
                        return Err(msg);
                    },
                }
                j += 1;
            }
            proof {
                lemma_inv_from_at(line@, 0, ln as int);
                assert(row_vec@ =~= row_of(line@));
            }
            let ghost built = Seq::new(rows_vec@.len(), |i: int| rows_vec@[i]@);
            rows_vec.push(row_vec);
            proof {
                assert(Seq::new(rows_vec@.len(), |i: int| rows_vec@[i]@) =~= built.push(
                    row_of(line@),
                ));
                if let Result::<Seq<Seq<Option<Color>>>, Seq<char>>::Ok(rest) = parse_rows_from(
                    s,
                    e as int + 1,
                    rows_vec@.len() as int,
                ) {
                    assert(built.push(row_of(line@)) + rest =~= built + (seq![row_of(line@)]
                        + rest));
                }
            }
            pos = if e < n {
                e + 1
            } else {
                n
            };
        }
        proof {
            assert(parse_rows_from(s, pos as int, rows_vec@.len() as int) == Result::<
                Seq<Seq<Option<Color>>>,
                Seq<char>,
            >::Ok(Seq::<Seq<Option<Color>>>::empty()));
            assert(Seq::new(rows_vec@.len(), |i: int| rows_vec@[i]@)
                + Seq::<Seq<Option<Color>>>::empty() =~= Seq::new(
                rows_vec@.len(),
                |i: int| rows_vec@[i]@,
            ));
        }
        let ghost rs = Seq::new(rows_vec@.len(), |i: int| rows_vec@[i]@);
        if rows_vec.len() == 0 {
            let g = Grid::new(rows_vec);
            proof {
                assert(g.cells() =~= rs);
                assert(20 * (rows(rs) * cols(rs)) <= usize::MAX) by (nonlinear_arith)
                    requires
                        rows(rs) == 0,
                        cols(rs) == 0,
                ;
            }
            return Ok(g);
        }
        let cols0 = rows_vec[0].len();
        let mut ri: usize = 1;
        while ri < rows_vec.len()
            invariant
                rs == Seq::new(rows_vec@.len(), |i: int| rows_vec@[i]@),
                1 <= ri <= rows_vec@.len(),
                cols0 == rows_vec@[0]@.len(),
                forall|i: int| 0 <= i < ri ==> (#[trigger] rs[i]).len() == cols0,
            decreases rows_vec@.len() - ri,
        {
            if rows_vec[ri].len() != cols0 {
                proof {
                    assert(rs[ri as int].len() != cols(rs));
                    assert(!rect(rs));
                }
                return Err(String::from_str("Non-rectangular grid"));
            }
            ri += 1;
        }
        proof {
            assert(rect(rs));
        }
        let total = match rows_vec.len().checked_mul(cols0) {
            Some(t) => t,
            None => {
                proof {
                    assert(rs.len() * rs[0].len() > usize::MAX / 20);
                }
                return Err(String::from_str("Grid too large"));
            },
        };
        if total > usize::MAX / 20 {
            return Err(String::from_str("Grid too large"));
        }
        proof {
            assert(20 * (rows(rs) * cols(rs)) <= usize::MAX) by (nonlinear_arith)
                requires
                    0 <= rows(rs) * cols(rs) <= usize::MAX / 20,
            ;
        }
        let g = Grid::new(rows_vec);
        Ok(g)
    }
}

} // verus!
