//! The numeric tokens of a matrix written as text, one matrix row per line.
//!
//! A token is a maximal run of number characters (ASCII digits, `.` and `-`);
//! any other character separates tokens, and a line break also ends a row.
//! Lines without a token hold no row.
use vstd::prelude::*;
use crate::error::LatticeError;
use crate::text::{chars_of, string_of};

verus! {

/// Whether `c` can stand in a number token.
pub open spec fn is_number_char(c: char) -> bool {
    ('0' <= c && c <= '9') || c == '.' || c == '-'
}

/// `row` with `token` appended where the token is not empty.
pub open spec fn flush(row: Seq<Seq<char>>, token: Seq<char>) -> Seq<Seq<char>> {
    if token.len() > 0 {
        row.push(token)
    } else {
        row
    }
}

/// `rows` with `row` appended where the row is not empty.
pub open spec fn close_row(rows: Seq<Seq<Seq<char>>>, row: Seq<Seq<char>>) -> Seq<Seq<Seq<char>>> {
    if row.len() > 0 {
        rows.push(row)
    } else {
        rows
    }
}

/// A scan in progress: the finished rows, the tokens of the current line, and
/// the characters of the current token.
pub type ScanState = (Seq<Seq<Seq<char>>>, Seq<Seq<char>>, Seq<char>);

/// The scan after one more character.
pub open spec fn scan_step(st: ScanState, c: char) -> ScanState {
    if is_number_char(c) {
        (st.0, st.1, st.2.push(c))
    } else if c == '\n' {
        (close_row(st.0, flush(st.1, st.2)), Seq::empty(), Seq::empty())
    } else {
        (st.0, flush(st.1, st.2), Seq::empty())
    }
}

/// The scan after all characters of `s`.
pub open spec fn scan(s: Seq<char>) -> ScanState
    decreases s.len(),
{
    if s.len() == 0 {
        (Seq::empty(), Seq::empty(), Seq::empty())
    } else {
        scan_step(scan(s.drop_last()), s.last())
    }
}

/// The rows of number tokens of a text, in order, skipping lines without one.
pub open spec fn number_rows(s: Seq<char>) -> Seq<Seq<Seq<char>>> {
    let st = scan(s);
    close_row(st.0, flush(st.1, st.2))
}

/// Whether all rows hold as many tokens as the first.
pub open spec fn is_rectangular(rows: Seq<Seq<Seq<char>>>) -> bool {
    forall|i: int| 0 <= i < rows.len() ==> (#[trigger] rows[i]).len() == rows[0].len()
}

/// The token matrix of a text: a format error where it holds no row, or rows of
/// different lengths.
pub open spec fn matrix_tokens(s: Seq<char>) -> Result<Seq<Seq<Seq<char>>>, LatticeError> {
    let rows = number_rows(s);
    if rows.len() == 0 || !is_rectangular(rows) {
        Err(LatticeError::Format)
    } else {
        Ok(rows)
    }
}

/// The model of a result that holds a token matrix.
pub open spec fn tokens_view(r: Result<Vec<Vec<String>>, LatticeError>) -> Result<
    Seq<Seq<Seq<char>>>,
    LatticeError,
> {
    match r {
        Ok(v) => Ok(v.deep_view()),
        Err(e) => Err(e),
    }
}

fn flush_token(row: &mut Vec<String>, token: &mut Vec<char>)
    ensures
        final(row).deep_view() == flush(old(row).deep_view(), old(token)@),
        final(token)@ == Seq::<char>::empty(),
{
    if token.len() > 0 {
        let ghost prev = row.deep_view();
        let s = string_of(token);
        row.push(s);
        assert(row.deep_view() =~= prev.push(s@));
        *token = Vec::new();
    }
}

fn close_line(rows: &mut Vec<Vec<String>>, row: &mut Vec<String>)
    ensures
        final(rows).deep_view() == close_row(old(rows).deep_view(), old(row).deep_view()),
        final(row).deep_view() == Seq::<Seq<char>>::empty(),
{
    if row.len() > 0 {
        let ghost prev = rows.deep_view();
        let mut r: Vec<String> = Vec::new();
        core::mem::swap(row, &mut r);
        let ghost rv = r.deep_view();
        rows.push(r);
        assert(rows.deep_view() =~= prev.push(rv));
    }
    assert(row.deep_view() =~= Seq::<Seq<char>>::empty());
}

/// The rows of number tokens of a matrix text (see the module documentation).
pub fn number_token_rows(text: &str) -> (r: Vec<Vec<String>>)
    ensures
        r.deep_view() == number_rows(text@),
{
    let cs = chars_of(text);
    let mut rows: Vec<Vec<String>> = Vec::new();
    let mut row: Vec<String> = Vec::new();
    let mut token: Vec<char> = Vec::new();
    let mut i: usize = 0;
    assert(cs@.take(0) =~= Seq::<char>::empty());
    assert(rows.deep_view() =~= Seq::<Seq<Seq<char>>>::empty());
    assert(row.deep_view() =~= Seq::<Seq<char>>::empty());
    while i < cs.len()
        invariant
            0 <= i <= cs.len(),
            cs@ == text@,
            (rows.deep_view(), row.deep_view(), token@) == scan(cs@.take(i as int)),
        decreases cs.len() - i,
    {
        let c = cs[i];
        assert(cs@.take(i + 1).drop_last() == cs@.take(i as int));
        if ('0' <= c && c <= '9') || c == '.' || c == '-' {
            token.push(c);
        } else if c == '\n' {
            flush_token(&mut row, &mut token);
            close_line(&mut rows, &mut row);
        } else {
            flush_token(&mut row, &mut token);
        }
        i += 1;
    }
    assert(cs@.take(i as int) == cs@);
    flush_token(&mut row, &mut token);
    close_line(&mut rows, &mut row);
    rows
}

/// The token matrix of a matrix text, one row per line that holds a number
/// token. A text with no such line, or whose rows differ in length, is a
/// format error: it holds no matrix.
pub fn parse_matrix_text(text: &str) -> (r: Result<Vec<Vec<String>>, LatticeError>)
    ensures
        tokens_view(r) == matrix_tokens(text@),
{
    let rows = number_token_rows(text);
    if rows.len() == 0 {
        return Err(LatticeError::Format);
    }
    let cols = rows[0].len();
    let mut i: usize = 0;
    while i < rows.len()
        invariant
            0 <= i <= rows.len(),
            rows.len() > 0,
            rows.deep_view() == number_rows(text@),
            cols == rows.deep_view()[0].len(),
            forall|k: int| 0 <= k < i ==> (#[trigger] rows.deep_view()[k]).len() == cols,
        decreases rows.len() - i,
    {
        assert(rows[i as int].deep_view() == rows.deep_view()[i as int]);
        if rows[i].len() != cols {
            assert(!is_rectangular(rows.deep_view()));
            return Err(LatticeError::Format);
        }
        i += 1;
    }
    Ok(rows)
}

} // verus!
