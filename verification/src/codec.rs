//! The text codec: weight matrices as lines of space-separated decimal
//! values. Fixed-point scalars print as their raw signed units, so a
//! written matrix reads back bit for bit. The reader takes a list of
//! lines (as the surrounding program got them from a file), skips blank
//! lines, and reports malformed text instead of panicking.

use crate::error::VaiError;
use vstd::arithmetic::div_mod::{
    lemma_div_is_strictly_smaller, lemma_div_pos_is_pos, lemma_fundamental_div_mod,
    lemma_mod_division_less_than_divisor,
};
use vstd::prelude::*;

verus! {

/// The byte that separates values on a row.
pub const SPACE: u8 = 0x20;

/// The byte that opens a negative number.
pub const MINUS: u8 = 0x2d;

/// Whitespace inside a line: space, tab, or carriage return.
pub open spec fn spec_is_ws(b: u8) -> bool {
    b == 0x20 || b == 0x09 || b == 0x0d
}

/// The decimal digits of a nonnegative number, most significant first.
pub open spec fn spec_dec_digits(n: int) -> Seq<u8>
    recommends
        n >= 0,
    decreases n,
{
    if n <= 9 {
        seq![(0x30 + if n >= 0 {
            n
        } else {
            0
        }) as u8]
    } else {
        spec_dec_digits(n / 10) + seq![(0x30 + n % 10) as u8]
    }
}

/// The decimal text of a signed number: a minus sign before the digits
/// of the magnitude when negative.
pub open spec fn spec_i64_text(x: int) -> Seq<u8> {
    if x < 0 {
        seq![MINUS] + spec_dec_digits(-x)
    } else {
        spec_dec_digits(x)
    }
}

/// Whether every byte is a decimal digit.
pub open spec fn spec_all_digits(s: Seq<u8>) -> bool {
    forall|i: int| 0 <= i < s.len() ==> 0x30 <= #[trigger] s[i] <= 0x39
}

/// The number a digit string denotes.
pub open spec fn spec_digits_val(s: Seq<u8>) -> int
    decreases s.len(),
{
    if s.len() == 0 {
        0
    } else {
        spec_digits_val(s.drop_last()) * 10 + (s.last() - 0x30)
    }
}

/// What parsing a token as a signed 64-bit number yields: the denoted
/// value if the token is a digit string, optionally after a minus sign,
/// and the value fits; nothing otherwise.
pub open spec fn spec_parse_i64(s: Seq<u8>) -> Option<i64> {
    if s.len() >= 1 && s[0] == MINUS {
        let ds = s.drop_first();
        if ds.len() >= 1 && spec_all_digits(ds) && -spec_digits_val(ds) >= i64::MIN {
            Some((-spec_digits_val(ds)) as i64)
        } else {
            None
        }
    } else {
        if s.len() >= 1 && spec_all_digits(s) && spec_digits_val(s) <= i64::MAX {
            Some(spec_digits_val(s) as i64)
        } else {
            None
        }
    }
}

/// What parsing a whole line as an unsigned count yields.
pub open spec fn spec_parse_count(s: Seq<u8>) -> Option<int> {
    if s.len() >= 1 && spec_all_digits(s) && spec_digits_val(s) <= usize::MAX {
        Some(spec_digits_val(s))
    } else {
        None
    }
}

/// Digit strings denote nonnegative numbers.
pub proof fn lemma_digits_val_nonneg(s: Seq<u8>)
    requires
        spec_all_digits(s),
    ensures
        spec_digits_val(s) >= 0,
    decreases s.len(),
{
    if s.len() > 0 {
        assert(spec_all_digits(s.drop_last()));
        lemma_digits_val_nonneg(s.drop_last());
        let v = spec_digits_val(s.drop_last());
        assert(v * 10 >= 0) by (nonlinear_arith)
            requires
                v >= 0,
        ;
    }
}

/// An exact copy of a slice of scalars as a vector.
pub fn slice_to_vec(v: &[i64]) -> (out: Vec<i64>)
    ensures
        out@ == v@,
{
    let mut out: Vec<i64> = Vec::new();
    let mut i: usize = 0;
    while i < v.len()
        invariant
            i <= v@.len(),
            out@.len() == i,
            forall|j: int| 0 <= j < i ==> out@[j] == v@[j],
        decreases v@.len() - i,
    {
        out.push(v[i]);
        i = i + 1;
    }
    proof {
        assert(out@ =~= v@);
    }
    out
}

/// Appends the decimal digits of a nonnegative number.
pub fn push_u64_dec(n: u64, out: &mut Vec<u8>)
    ensures
        final(out)@ == old(out)@ + spec_dec_digits(n as int),
    decreases n,
{
    if n <= 9 {
        out.push(0x30u8 + (n as u8));
        proof {
            assert(out@ =~= old(out)@ + spec_dec_digits(n as int));
        }
    } else {
        push_u64_dec(n / 10, out);
        out.push(0x30u8 + ((n % 10) as u8));
        proof {
            assert(out@ =~= old(out)@ + spec_dec_digits(n as int));
        }
    }
}

/// Appends the decimal text of a signed number.
pub fn push_i64_text(x: i64, out: &mut Vec<u8>)
    ensures
        final(out)@ == old(out)@ + spec_i64_text(x as int),
{
    if x < 0 {
        out.push(MINUS);
        let m: u64 = (-(x as i128)) as u64;
        push_u64_dec(m, out);
        proof {
            assert(out@ =~= old(out)@ + spec_i64_text(x as int));
        }
    } else {
        push_u64_dec(x as u64, out);
    }
}

/// Parses a token as a signed 64-bit number, exactly as
/// [`spec_parse_i64`] describes.
pub fn parse_i64(s: &[u8]) -> (r: Option<i64>)
    ensures
        r == spec_parse_i64(s@),
{
    let n = s.len();
    let neg: bool = n >= 1 && s[0] == MINUS;
    let start: usize = if neg {
        1
    } else {
        0
    };
    if n == start {
        return None;
    }
    let ghost ds: Seq<u8> = if neg {
        s@.drop_first()
    } else {
        s@
    };
    proof {
        assert(ds =~= s@.skip(start as int));
    }
    let mut acc: u128 = 0;
    let mut big: bool = false;
    let mut i: usize = start;
    while i < n
        invariant
            n == s@.len(),
            start <= i <= n,
            start <= 1,
            neg == (n >= 1 && s@[0] == MINUS),
            start == if neg {
                1int
            } else {
                0int
            },
            ds == if neg {
                s@.drop_first()
            } else {
                s@
            },
            ds == s@.skip(start as int),
            ds.len() == n - start,
            spec_all_digits(ds.take(i - start)),
            !big ==> acc == spec_digits_val(ds.take(i - start)) && acc
                <= 0x8000_0000_0000_0000u128,
            big ==> spec_digits_val(ds.take(i - start)) > 0x8000_0000_0000_0000,
        decreases n - i,
    {
        let b = s[i];
        if b < 0x30 || b > 0x39 {
            proof {
                assert(ds[i - start] == b);
                assert(!(0x30 <= ds[i - start] <= 0x39));
                assert(!spec_all_digits(ds));
                if neg {
                    assert(s@[0] == MINUS);
                    assert(spec_parse_i64(s@) is None);
                } else {
                    assert(spec_parse_i64(s@) is None);
                }
            }
            return None;
        }
        let d: u128 = (b - 0x30) as u128;
        proof {
            let prev = ds.take(i - start);
            let next = ds.take(i + 1 - start);
            assert(next.drop_last() =~= prev);
            assert(next.last() == ds[i - start] == b);
            assert(spec_digits_val(next) == spec_digits_val(prev) * 10 + (b - 0x30));
            lemma_digits_val_nonneg(prev);
            if big {
                let v = spec_digits_val(prev);
                assert(v * 10 + (b - 0x30) > 0x8000_0000_0000_0000) by (nonlinear_arith)
                    requires
                        v > 0x8000_0000_0000_0000,
                        b >= 0x30,
                ;
            }
        }
        if !big {
            acc = acc * 10 + d;
            if acc > 0x8000_0000_0000_0000u128 {
                big = true;
            }
        }
        i = i + 1;
    }
    proof {
        assert(ds.take(n - start) =~= ds);
    }
    if big {
        return None;
    }
    if neg {
        proof {
            lemma_digits_val_nonneg(ds);
        }
        Some((-(acc as i128)) as i64)
    } else {
        if acc > 0x7fff_ffff_ffff_ffffu128 {
            return None;
        }
        Some(acc as i64)
    }
}

/// Parses a whole line as an unsigned count, exactly as
/// [`spec_parse_count`] describes.
pub fn parse_count(line: &Vec<u8>) -> (r: Option<usize>)
    ensures
        match r {
            Some(v) => spec_parse_count(line@) == Some(v as int),
            None => spec_parse_count(line@) is None,
        },
{
    let n = line.len();
    if n == 0 {
        return None;
    }
    let mut acc: u128 = 0;
    let mut big: bool = false;
    let mut i: usize = 0;
    while i < n
        invariant
            n == line@.len(),
            i <= n,
            spec_all_digits(line@.take(i as int)),
            !big ==> acc == spec_digits_val(line@.take(i as int)) && acc <= usize::MAX,
            big ==> spec_digits_val(line@.take(i as int)) > usize::MAX,
        decreases n - i,
    {
        let b = line[i];
        if b < 0x30 || b > 0x39 {
            proof {
                assert(!spec_all_digits(line@));
            }
            return None;
        }
        let d: u128 = (b - 0x30) as u128;
        proof {
            let prev = line@.take(i as int);
            let next = line@.take(i + 1);
            assert(next.drop_last() =~= prev);
            assert(next.last() == line@[i as int] == b);
            assert(spec_digits_val(next) == spec_digits_val(prev) * 10 + (b - 0x30));
            lemma_digits_val_nonneg(prev);
            if big {
                let v = spec_digits_val(prev);
                assert(v * 10 + (b - 0x30) > usize::MAX) by (nonlinear_arith)
                    requires
                        v > usize::MAX,
                        b >= 0x30,
                ;
            }
        }
        if !big {
            acc = acc * 10 + d;
            if acc > usize::MAX as u128 {
                big = true;
            }
        }
        i = i + 1;
    }
    proof {
        assert(line@.take(n as int) =~= line@);
    }
    if big {
        return None;
    }
    Some(acc as usize)
}


/// The length of the maximal leading run of non-whitespace bytes.
pub open spec fn spec_token_end(line: Seq<u8>) -> int
    decreases line.len(),
{
    if line.len() == 0 || spec_is_ws(line[0]) {
        0
    } else {
        1 + spec_token_end(line.drop_first())
    }
}

/// Bounds and characterization of [`spec_token_end`].
pub proof fn lemma_token_end(line: Seq<u8>)
    ensures
        0 <= spec_token_end(line) <= line.len(),
        forall|i: int| 0 <= i < spec_token_end(line) ==> !spec_is_ws(#[trigger] line[i]),
        spec_token_end(line) < line.len() ==> spec_is_ws(line[spec_token_end(line)]),
    decreases line.len(),
{
    if line.len() == 0 || spec_is_ws(line[0]) {
    } else {
        let rest = line.drop_first();
        lemma_token_end(rest);
        let k = spec_token_end(line);
        assert forall|i: int| 0 <= i < k implies !spec_is_ws(#[trigger] line[i]) by {
            if i > 0 {
                assert(rest[i - 1] == line[i]);
            }
        }
        if k < line.len() {
            assert(rest[k - 1] == line[k]);
        }
    }
}

/// Any index with only non-whitespace before it and whitespace (or the
/// end) at it is the token end.
pub proof fn lemma_token_end_is(line: Seq<u8>, k: int)
    requires
        0 <= k <= line.len(),
        forall|i: int| 0 <= i < k ==> !spec_is_ws(#[trigger] line[i]),
        k == line.len() || spec_is_ws(line[k]),
    ensures
        spec_token_end(line) == k,
    decreases line.len(),
{
    if k == 0 {
    } else {
        let rest = line.drop_first();
        assert(!spec_is_ws(line[0]));
        assert forall|i: int| 0 <= i < k - 1 implies !spec_is_ws(#[trigger] rest[i]) by {
            assert(rest[i] == line[i + 1]);
        }
        if k - 1 < rest.len() {
            assert(rest[k - 1] == line[k]);
        }
        lemma_token_end_is(rest, k - 1);
    }
}

/// The whitespace-separated tokens of a line, in order.
pub open spec fn spec_tokens(line: Seq<u8>) -> Seq<Seq<u8>>
    decreases line.len(),
    via spec_tokens_decreases
{
    if line.len() == 0 {
        Seq::empty()
    } else if spec_is_ws(line[0]) {
        spec_tokens(line.drop_first())
    } else {
        seq![line.take(spec_token_end(line))] + spec_tokens(line.skip(spec_token_end(line)))
    }
}

#[via_fn]
proof fn spec_tokens_decreases(line: Seq<u8>) {
    lemma_token_end(line);
}

/// Prepending one non-empty whitespace-free token (and anything
/// whitespace-led after it) contributes exactly that token.
pub proof fn lemma_tokens_prepend(t: Seq<u8>, rest: Seq<u8>)
    requires
        t.len() >= 1,
        forall|i: int| 0 <= i < t.len() ==> !spec_is_ws(#[trigger] t[i]),
        rest.len() == 0 || spec_is_ws(rest[0]),
    ensures
        spec_tokens(t + rest) == seq![t] + spec_tokens(rest),
{
    let s = t + rest;
    assert(s[0] == t[0]);
    assert forall|i: int| 0 <= i < t.len() implies !spec_is_ws(#[trigger] s[i]) by {
        assert(s[i] == t[i]);
    }
    if t.len() < s.len() {
        assert(s[t.len() as int] == rest[0]);
    }
    lemma_token_end_is(s, t.len() as int);
    assert(s.take(t.len() as int) =~= t);
    assert(s.skip(t.len() as int) =~= rest);
}

/// Whether a byte is whitespace inside a line.
fn byte_is_ws(b: u8) -> (r: bool)
    ensures
        r == spec_is_ws(b),
{
    b == 0x20 || b == 0x09 || b == 0x0d
}

/// Splits a line at whitespace into its tokens.
pub fn tokenize(line: &Vec<u8>) -> (toks: Vec<Vec<u8>>)
    ensures
        toks@.map_values(|t: Vec<u8>| t@) == spec_tokens(line@),
{
    let n = line.len();
    let mut toks: Vec<Vec<u8>> = Vec::new();
    let mut pos: usize = 0;
    proof {
        assert(line@.skip(0) =~= line@);
        assert(toks@.map_values(|t: Vec<u8>| t@) + spec_tokens(line@) =~= spec_tokens(line@));
    }
    while pos < n
        invariant
            n == line@.len(),
            pos <= n,
            toks@.map_values(|t: Vec<u8>| t@) + spec_tokens(line@.skip(pos as int)) =~= spec_tokens(
                line@,
            ),
        decreases n - pos,
    {
        let b = line[pos];
        if b == 0x20 || b == 0x09 || b == 0x0d {
            proof {
                let s = line@.skip(pos as int);
                assert(s[0] == line@[pos as int]);
                assert(s.drop_first() =~= line@.skip(pos as int + 1));
            }
            pos = pos + 1;
        } else {
            let mut j: usize = pos;
            let mut tok: Vec<u8> = Vec::new();
            proof {
                assert(tok@ =~= line@.subrange(pos as int, pos as int));
            }
            while j < n && !byte_is_ws(line[j])
                invariant
                    n == line@.len(),
                    pos <= j <= n,
                    tok@ =~= line@.subrange(pos as int, j as int),
                    forall|i: int| pos <= i < j ==> !spec_is_ws(#[trigger] line@[i]),
                decreases n - j,
            {
                tok.push(line[j]);
                proof {
                    assert(tok@ =~= line@.subrange(pos as int, j + 1));
                }
                j = j + 1;
            }
            proof {
                let s = line@.skip(pos as int);
                let k = j - pos;
                assert forall|i: int| 0 <= i < k implies !spec_is_ws(#[trigger] s[i]) by {
                    assert(s[i] == line@[pos + i]);
                }
                if k < s.len() {
                    assert(s[k as int] == line@[j as int]);
                }
                lemma_token_end_is(s, k as int);
                assert(s.take(k as int) =~= line@.subrange(pos as int, j as int));
                assert(s.skip(k as int) =~= line@.skip(j as int));
                assert(!spec_is_ws(s[0]));
                assert(spec_tokens(s) == seq![s.take(k as int)] + spec_tokens(s.skip(k as int)));
                assert(toks@.push(tok).map_values(|t: Vec<u8>| t@) =~= toks@.map_values(
                    |t: Vec<u8>| t@,
                ).push(tok@));
                assert((toks@.map_values(|t: Vec<u8>| t@).push(tok@)) + spec_tokens(
                    line@.skip(j as int),
                ) =~= spec_tokens(line@));
            }
            toks.push(tok);
            pos = j;
        }
    }
    proof {
        assert(line@.skip(n as int) =~= Seq::<u8>::empty());
        assert(toks@.map_values(|t: Vec<u8>| t@) =~= spec_tokens(line@));
    }
    toks
}


/// The text of each line of a list of lines.
pub open spec fn lines_view(lines: Seq<Vec<u8>>) -> Seq<Seq<u8>> {
    lines.map_values(|l: Vec<u8>| l@)
}

/// One row as text: each value's decimal text followed by one space.
pub open spec fn spec_row_text(row: Seq<i64>) -> Seq<u8>
    decreases row.len(),
{
    if row.len() == 0 {
        Seq::empty()
    } else {
        spec_i64_text(row[0] as int) + seq![SPACE] + spec_row_text(row.drop_first())
    }
}

/// A matrix as lines: one line per row, terminated by one blank line.
pub open spec fn spec_matrix_lines(m: Seq<Seq<i64>>) -> Seq<Seq<u8>> {
    m.map_values(|row: Seq<i64>| spec_row_text(row)) + seq![Seq::<u8>::empty()]
}

/// What parsing every token of a row yields: the values in order, or
/// nothing if any token fails.
pub open spec fn spec_parse_row(toks: Seq<Seq<u8>>) -> Option<Seq<i64>>
    decreases toks.len(),
{
    if toks.len() == 0 {
        Some(Seq::empty())
    } else {
        match (spec_parse_row(toks.drop_last()), spec_parse_i64(toks.last())) {
            (Some(rest), Some(v)) => Some(rest.push(v)),
            _ => None,
        }
    }
}

/// A row with one unparsable token parses to nothing.
pub proof fn lemma_parse_row_fails(toks: Seq<Seq<u8>>, i: int)
    requires
        0 <= i < toks.len(),
        spec_parse_i64(toks[i]) is None,
    ensures
        spec_parse_row(toks) is None,
    decreases toks.len(),
{
    if i == toks.len() - 1 {
    } else {
        assert(toks.drop_last()[i] == toks[i]);
        lemma_parse_row_fails(toks.drop_last(), i);
    }
}

/// What reading a matrix of a known shape from lines yields: blank lines
/// are skipped and never counted; a data row whose token count differs
/// from the expected column count, an unparsable token, or running out
/// of lines before enough data rows were found all yield nothing.
/// Returns the values and the position just after the last data row.
pub open spec fn spec_read_matrix(
    lines: Seq<Seq<u8>>,
    start: int,
    rows: int,
    cols: int,
) -> Option<(Seq<Seq<i64>>, int)>
    decreases lines.len() - start,
{
    if rows <= 0 {
        Some((Seq::empty(), start))
    } else if start < 0 || start >= lines.len() {
        None
    } else {
        let toks = spec_tokens(lines[start]);
        if toks.len() == 0 {
            spec_read_matrix(lines, start + 1, rows, cols)
        } else if toks.len() != cols {
            None
        } else {
            match (spec_parse_row(toks), spec_read_matrix(lines, start + 1, rows - 1, cols)) {
                (Some(row), Some((rest, p))) => Some((seq![row] + rest, p)),
                _ => None,
            }
        }
    }
}

/// Writes a matrix as lines of space-delimited decimal values, one row
/// per line, followed by one blank line, appended to `out`.
pub fn write_matrix(matrix: &crate::matrix::Matrix, out: &mut Vec<Vec<u8>>)
    requires
        matrix.wf(),
    ensures
        lines_view(final(out)@) == lines_view(old(out)@) + spec_matrix_lines(matrix@),
{
    let ghost base = out@;
    let mut r: usize = 0;
    proof {
        assert(matrix@.take(0).map_values(|row: Seq<i64>| spec_row_text(row)) =~= Seq::empty());
        assert(lines_view(out@) =~= lines_view(base) + matrix@.take(0).map_values(
            |row: Seq<i64>| spec_row_text(row),
        ));
    }
    while r < matrix.rows
        invariant
            matrix.wf(),
            r <= matrix.rows,
            lines_view(out@) == lines_view(base) + matrix@.take(r as int).map_values(
                |row: Seq<i64>| spec_row_text(row),
            ),
        decreases matrix.rows - r,
    {
        let line = row_line(matrix, r);
        proof {
            assert(matrix@.take(r + 1).map_values(|row: Seq<i64>| spec_row_text(row))
                =~= matrix@.take(r as int).map_values(|row: Seq<i64>| spec_row_text(row)).push(
                spec_row_text(matrix@[r as int]),
            ));
            assert(lines_view(out@.push(line)) =~= lines_view(out@).push(line@));
        }
        out.push(line);
        r = r + 1;
    }
    let blank: Vec<u8> = Vec::new();
    proof {
        assert(matrix@.take(matrix.rows as int) =~= matrix@);
        assert(lines_view(out@.push(blank)) =~= lines_view(out@).push(blank@));
        assert(blank@ =~= Seq::<u8>::empty());
        assert(lines_view(out@).push(Seq::<u8>::empty()) =~= lines_view(base) + spec_matrix_lines(
            matrix@,
        ));
    }
    out.push(blank);
}

/// Reads a matrix of a known shape from lines, starting at a position:
/// exactly as [`spec_read_matrix`] describes, with any failure reported
/// as a format error. On success returns the matrix and the position
/// just after its last data row.
pub fn read_matrix(lines: &Vec<Vec<u8>>, start: usize, rows: usize, cols: usize) -> (r: Result<
    (crate::matrix::Matrix, usize),
    VaiError,
>)
    requires
        rows * cols <= crate::matrix::MAX_PARAMS,
    ensures
        (match r {
            Ok(pair) => {
                &&& spec_read_matrix(lines_view(lines@), start as int, rows as int, cols as int)
                    == Some((pair.0@, pair.1 as int))
                &&& pair.0.wf()
                &&& pair.0.rows == rows
                &&& pair.0.cols == cols
            },
            Err(e) => {
                &&& spec_read_matrix(
                    lines_view(lines@),
                    start as int,
                    rows as int,
                    cols as int,
                ) is None
                &&& e == VaiError::FormatError
            },
        }),
{
    let ghost lv = lines_view(lines@);
    let ghost full = spec_read_matrix(lv, start as int, rows as int, cols as int);
    let n_lines = lines.len();
    let mut rows_vec: Vec<Vec<i64>> = Vec::new();
    let mut cur: usize = start;
    let mut done: usize = 0;
    proof {
        match full {
            Some(tp) => {
                assert(rows_vec@.map_values(|v: Vec<i64>| v@) =~= Seq::<Seq<i64>>::empty());
                assert(Seq::<Seq<i64>>::empty() + tp.0 =~= tp.0);
            },
            None => {},
        }
    }
    while done < rows
        invariant
            lv == lines_view(lines@),
            full == spec_read_matrix(lv, start as int, rows as int, cols as int),
            n_lines == lines@.len(),
            rows * cols <= crate::matrix::MAX_PARAMS,
            done <= rows,
            rows_vec@.len() == done,
            forall|q: int| 0 <= q < done ==> (#[trigger] rows_vec@[q])@.len() == cols,
            (match spec_read_matrix(lv, cur as int, rows - done, cols as int) {
                Some(tp) => full == Some(
                    (rows_vec@.map_values(|v: Vec<i64>| v@) + tp.0, tp.1),
                ),
                None => full is None,
            }),
        decreases rows - done, n_lines - cur,
    {
        if cur >= n_lines {
            return Err(VaiError::FormatError);
        }
        let toks = tokenize(&lines[cur]);
        proof {
            assert(lv[cur as int] == lines@[cur as int]@);
        }
        if toks.len() == 0 {
            proof {
                assert(spec_tokens(lv[cur as int]).len() == 0);
            }
            cur = cur + 1;
        } else if toks.len() != cols {
            return Err(VaiError::FormatError);
        } else {
            let ghost tv = toks@.map_values(|t: Vec<u8>| t@);
            let mut vals: Vec<i64> = Vec::new();
            let mut t: usize = 0;
            proof {
                assert(tv.take(0) =~= Seq::<Seq<u8>>::empty());
                assert(vals@ =~= Seq::<i64>::empty());
            }
            while t < toks.len()
                invariant
                    lv == lines_view(lines@),
                    full == spec_read_matrix(lv, start as int, rows as int, cols as int),
                    n_lines == lines@.len(),
                    cur < n_lines,
                    done < rows,
                    tv == spec_tokens(lv[cur as int]),
                    tv.len() == cols,
                    (match spec_read_matrix(lv, cur as int, rows - done, cols as int) {
                        Some(tp) => full is Some,
                        None => full is None,
                    }),
                    tv == toks@.map_values(|q: Vec<u8>| q@),
                    t <= toks@.len(),
                    vals@.len() == t,
                    spec_parse_row(tv.take(t as int)) == Some(vals@),
                decreases toks@.len() - t,
            {
                let parsed = parse_i64(toks[t].as_slice());
                proof {
                    assert(tv[t as int] == toks@[t as int]@);
                }
                match parsed {
                    Some(v) => {
                        proof {
                            assert(tv.take(t + 1).drop_last() =~= tv.take(t as int));
                            assert(tv.take(t + 1).last() == tv[t as int]);
                        }
                        vals.push(v);
                    },
                    None => {
                        proof {
                            lemma_parse_row_fails(tv, t as int);
                        }
                        return Err(VaiError::FormatError);
                    },
                }
                t = t + 1;
            }
            proof {
                assert(tv.take(toks@.len() as int) =~= tv);
                let tail = spec_read_matrix(lv, cur as int, rows - done, cols as int);
                let next_tail = spec_read_matrix(lv, cur + 1, rows - done - 1, cols as int);
                assert(tail == (match (spec_parse_row(tv), next_tail) {
                    (Some(row), Some((rest, p))) => Some((seq![row] + rest, p)),
                    _ => None,
                }));
                match next_tail {
                    Some(tp) => {
                        assert(rows_vec@.push(vals).map_values(|v: Vec<i64>| v@)
                            =~= rows_vec@.map_values(|v: Vec<i64>| v@).push(vals@));
                        assert(rows_vec@.map_values(|v: Vec<i64>| v@) + (seq![vals@] + tp.0)
                            =~= rows_vec@.map_values(|v: Vec<i64>| v@).push(vals@) + tp.0);
                    },
                    None => {},
                }
            }
            rows_vec.push(vals);
            cur = cur + 1;
            done = done + 1;
        }
    }
    let m = crate::matrix::matrix_from_rows(rows_vec, cols);
    proof {
        match full {
            Some(tp) => {
                assert(m@ + Seq::<Seq<i64>>::empty() =~= m@);
            },
            None => {
                assert(false);
            },
        }
    }
    Ok((m, cur))
}


/// The decimal digits of a nonnegative number are digits, at least one,
/// and denote the number itself.
pub proof fn lemma_dec_digits_props(n: int)
    requires
        n >= 0,
    ensures
        spec_dec_digits(n).len() >= 1,
        spec_all_digits(spec_dec_digits(n)),
        spec_digits_val(spec_dec_digits(n)) == n,
    decreases n,
{
    if n <= 9 {
        let s = spec_dec_digits(n);
        assert(s == seq![(0x30 + n) as u8]);
        assert(s.last() == (0x30 + n) as u8);
        assert(0x30 <= s.last() <= 0x39);
        assert(s.drop_last().len() == 0);
        assert(spec_digits_val(s.drop_last()) == 0);
        assert(spec_digits_val(s) == spec_digits_val(s.drop_last()) * 10 + (s.last() - 0x30));
        assert(spec_digits_val(s) == n);
    } else {
        lemma_div_pos_is_pos(n, 10);
        lemma_div_is_strictly_smaller_special(n);
        lemma_dec_digits_props(n / 10);
        lemma_fundamental_div_mod(n, 10);
        lemma_mod_division_less_than_divisor(n, 10);
        let s = spec_dec_digits(n);
        let hd = spec_dec_digits(n / 10);
        assert(s == hd + seq![(0x30 + n % 10) as u8]);
        assert(s.drop_last() =~= hd);
        assert(s.last() == (0x30 + n % 10) as u8);
        assert forall|i: int| 0 <= i < s.len() implies 0x30 <= #[trigger] s[i] <= 0x39 by {
            if i < hd.len() {
                assert(s[i] == hd[i]);
            }
        }
        assert(spec_digits_val(s) == (n / 10) * 10 + n % 10);
        assert(n == 10 * (n / 10) + n % 10);
        assert((n / 10) * 10 == 10 * (n / 10)) by (nonlinear_arith);
    }
}

/// For positive numbers of at least 10, division by 10 shrinks.
proof fn lemma_div_is_strictly_smaller_special(n: int)
    requires
        n >= 10,
    ensures
        0 <= n / 10 < n,
{
    lemma_div_pos_is_pos(n, 10);
    lemma_div_is_strictly_smaller(n, 10);
}

/// The decimal text of any scalar is non-empty, holds no whitespace,
/// and parses back to exactly that scalar.
pub proof fn lemma_i64_text_props(x: i64)
    ensures
        spec_i64_text(x as int).len() >= 1,
        forall|i: int|
            0 <= i < spec_i64_text(x as int).len() ==> !spec_is_ws(
                #[trigger] spec_i64_text(x as int)[i],
            ),
        spec_parse_i64(spec_i64_text(x as int)) == Some(x),
{
    let s = spec_i64_text(x as int);
    if x >= 0 {
        lemma_dec_digits_props(x as int);
        assert(s == spec_dec_digits(x as int));
        assert forall|i: int| 0 <= i < s.len() implies !spec_is_ws(#[trigger] s[i]) by {
            assert(0x30 <= s[i] <= 0x39);
        }
        assert(s[0] != MINUS);
    } else {
        lemma_dec_digits_props(-(x as int));
        let ds = spec_dec_digits(-(x as int));
        assert(s == seq![MINUS] + ds);
        assert(s[0] == MINUS);
        assert(s.drop_first() =~= ds);
        assert forall|i: int| 0 <= i < s.len() implies !spec_is_ws(#[trigger] s[i]) by {
            if i >= 1 {
                assert(s[i] == ds[i - 1]);
                assert(0x30 <= s[i] <= 0x39);
            }
        }
    }
}

/// Tokenizing the text of a row yields exactly the values' texts.
pub proof fn lemma_row_text_tokens(row: Seq<i64>)
    ensures
        spec_tokens(spec_row_text(row)) == row.map_values(|v: i64| spec_i64_text(v as int)),
    decreases row.len(),
{
    let f = |v: i64| spec_i64_text(v as int);
    if row.len() == 0 {
        assert(spec_row_text(row) =~= Seq::<u8>::empty());
        assert(spec_tokens(spec_row_text(row)) =~= row.map_values(f));
    } else {
        let t0 = spec_i64_text(row[0] as int);
        let rest_text = spec_row_text(row.drop_first());
        lemma_i64_text_props(row[0]);
        assert(spec_row_text(row) =~= t0 + (seq![SPACE] + rest_text));
        lemma_tokens_prepend(t0, seq![SPACE] + rest_text);
        assert((seq![SPACE] + rest_text)[0] == SPACE);
        assert((seq![SPACE] + rest_text).drop_first() =~= rest_text);
        assert(spec_tokens(seq![SPACE] + rest_text) == spec_tokens(rest_text));
        lemma_row_text_tokens(row.drop_first());
        assert(row.drop_first().map_values(f) =~= row.map_values(f).drop_first());
        assert(seq![t0] + row.map_values(f).drop_first() =~= row.map_values(f));
    }
}

/// Parsing the values' texts yields the values.
pub proof fn lemma_row_text_parse(row: Seq<i64>)
    ensures
        spec_parse_row(row.map_values(|v: i64| spec_i64_text(v as int))) == Some(row),
    decreases row.len(),
{
    let f = |v: i64| spec_i64_text(v as int);
    let toks = row.map_values(f);
    if row.len() == 0 {
        assert(Some(Seq::<i64>::empty()) =~= Some(row));
    } else {
        assert(toks.drop_last() =~= row.drop_last().map_values(f));
        lemma_row_text_parse(row.drop_last());
        lemma_i64_text_props(row.last());
        assert(toks.last() == f(row.last()));
        assert(row.drop_last().push(row.last()) =~= row);
    }
}

/// Lines that hold exactly the text of each row read back as those rows.
pub proof fn lemma_read_rows_written(L: Seq<Seq<u8>>, start: int, mv: Seq<Seq<i64>>, cols: int)
    requires
        cols >= 1,
        forall|r: int| 0 <= r < mv.len() ==> (#[trigger] mv[r]).len() == cols,
        0 <= start,
        start + mv.len() <= L.len(),
        forall|r: int| 0 <= r < mv.len() ==> L[start + r] == spec_row_text(#[trigger] mv[r]),
    ensures
        spec_read_matrix(L, start, mv.len() as int, cols) == Some((mv, start + mv.len())),
    decreases mv.len(),
{
    if mv.len() == 0 {
        assert(Some((Seq::<Seq<i64>>::empty(), start)) =~= Some((mv, start + mv.len())));
    } else {
        let f = |v: i64| spec_i64_text(v as int);
        assert(L[start] == spec_row_text(mv[0]));
        lemma_row_text_tokens(mv[0]);
        lemma_row_text_parse(mv[0]);
        let toks = spec_tokens(L[start]);
        assert(toks == mv[0].map_values(f));
        assert(toks.len() == cols);
        let rest = mv.drop_first();
        assert forall|r: int| 0 <= r < rest.len() implies L[start + 1 + r] == spec_row_text(
            #[trigger] rest[r],
        ) by {
            assert(rest[r] == mv[r + 1]);
        }
        assert forall|r: int| 0 <= r < rest.len() implies (#[trigger] rest[r]).len() == cols by {
            assert(rest[r] == mv[r + 1]);
        }
        lemma_read_rows_written(L, start + 1, rest, cols);
        assert(seq![mv[0]] + rest =~= mv);
    }
}

/// Round trip: a matrix with at least one column, written and read back
/// with the same expected shape, reproduces exactly its weights, and
/// reading stops right after its last data row.
pub proof fn lemma_matrix_round_trip(m: crate::matrix::Matrix)
    requires
        m.wf(),
        m.cols >= 1,
    ensures
        spec_read_matrix(spec_matrix_lines(m@), 0, m.rows as int, m.cols as int) == Some(
            (m@, m.rows as int),
        ),
{
    let L = spec_matrix_lines(m@);
    let g = |row: Seq<i64>| spec_row_text(row);
    assert forall|r: int| 0 <= r < m@.len() implies L[0 + r] == spec_row_text(#[trigger] m@[r]) by {
        assert(L[r] == m@.map_values(g)[r]);
    }
    lemma_read_rows_written(L, 0, m@, m.cols as int);
}

/// The token counts of the first non-blank line at or after a position;
/// zero when every remaining line is blank.
pub open spec fn spec_first_data_cols(L: Seq<Seq<u8>>, pos: int) -> int
    decreases L.len() - pos,
{
    if pos < 0 || pos >= L.len() {
        0
    } else if spec_tokens(L[pos]).len() == 0 {
        spec_first_data_cols(L, pos + 1)
    } else {
        spec_tokens(L[pos]).len() as int
    }
}

/// A matrix in the self-describing format: a line holding the row
/// count, then one line per row.
pub open spec fn spec_matrix_lines_dyn(m: Seq<Seq<i64>>, rows: int) -> Seq<Seq<u8>> {
    seq![spec_dec_digits(rows)] + m.map_values(|row: Seq<i64>| spec_row_text(row))
}

/// What reading a self-describing matrix yields: the leading line must
/// parse as a nonnegative count; the first data row fixes the column
/// count; the shape must fit the capacity limit. Returns the shape, the
/// values, and the position after the matrix.
pub open spec fn spec_read_matrix_dyn(L: Seq<Seq<u8>>, start: int) -> Option<
    (int, int, Seq<Seq<i64>>, int),
> {
    if start < 0 || start >= L.len() {
        None
    } else {
        match spec_parse_count(L[start]) {
            None => None,
            Some(n) => if n == 0 {
                Some((0, 0, Seq::empty(), start + 1))
            } else {
                let cols = spec_first_data_cols(L, start + 1);
                if n * cols > crate::matrix::MAX_PARAMS {
                    None
                } else {
                    match spec_read_matrix(L, start + 1, n, cols) {
                        Some((vals, p)) => Some((n, cols, vals, p)),
                        None => None,
                    }
                }
            },
        }
    }
}

/// Writes a matrix in the self-describing format: a line holding its
/// row count, then its rows, appended to `out`.
pub fn write_matrix_dyn(matrix: &crate::matrix::Matrix, out: &mut Vec<Vec<u8>>)
    requires
        matrix.wf(),
    ensures
        lines_view(final(out)@) == lines_view(old(out)@) + spec_matrix_lines_dyn(
            matrix@,
            matrix.rows as int,
        ),
{
    let ghost base = out@;
    let mut count_line: Vec<u8> = Vec::new();
    push_u64_dec(matrix.rows as u64, &mut count_line);
    proof {
        assert(count_line@ =~= spec_dec_digits(matrix.rows as int));
        assert(lines_view(out@.push(count_line)) =~= lines_view(out@).push(count_line@));
    }
    out.push(count_line);
    let mut r: usize = 0;
    proof {
        assert(matrix@.take(0).map_values(|row: Seq<i64>| spec_row_text(row)) =~= Seq::empty());
        assert(lines_view(out@) =~= lines_view(base).push(spec_dec_digits(matrix.rows as int))
            + matrix@.take(0).map_values(|row: Seq<i64>| spec_row_text(row)));
    }
    while r < matrix.rows
        invariant
            matrix.wf(),
            r <= matrix.rows,
            lines_view(out@) == lines_view(base).push(spec_dec_digits(matrix.rows as int))
                + matrix@.take(r as int).map_values(|row: Seq<i64>| spec_row_text(row)),
        decreases matrix.rows - r,
    {
        let line = row_line(matrix, r);
        proof {
            assert(matrix@.take(r + 1).map_values(|row: Seq<i64>| spec_row_text(row))
                =~= matrix@.take(r as int).map_values(|row: Seq<i64>| spec_row_text(row)).push(
                spec_row_text(matrix@[r as int]),
            ));
            assert(lines_view(out@.push(line)) =~= lines_view(out@).push(line@));
        }
        out.push(line);
        r = r + 1;
    }
    proof {
        assert(matrix@.take(matrix.rows as int) =~= matrix@);
        assert(lines_view(out@) =~= lines_view(base) + spec_matrix_lines_dyn(
            matrix@,
            matrix.rows as int,
        ));
    }
}

/// One row of a matrix as a line of text.
fn row_line(matrix: &crate::matrix::Matrix, r: usize) -> (line: Vec<u8>)
    requires
        matrix.wf(),
        r < matrix.rows,
    ensures
        line@ == spec_row_text(matrix@[r as int]),
{
    let ghost rowv = matrix@[r as int];
    let mut line: Vec<u8> = Vec::new();
    proof {
        assert(rowv.skip(0) =~= rowv);
        assert(line@ =~= Seq::<u8>::empty());
    }
    let mut c: usize = 0;
    while c < matrix.cols
        invariant
            matrix.wf(),
            r < matrix.rows,
            c <= matrix.cols,
            rowv == matrix@[r as int],
            spec_row_text(rowv) == line@ + spec_row_text(rowv.skip(c as int)),
        decreases matrix.cols - c,
    {
        let w = matrix.get(r, c);
        push_i64_text(w, &mut line);
        line.push(SPACE);
        proof {
            let rest = rowv.skip(c as int);
            assert(rest[0] == rowv[c as int]);
            assert(rest.drop_first() =~= rowv.skip(c as int + 1));
            assert(spec_row_text(rest) == spec_i64_text(rest[0] as int) + seq![SPACE]
                + spec_row_text(rest.drop_first()));
            assert(line@ =~= (line@.subrange(0, line@.len() - spec_i64_text(w as int).len() - 1)
                + spec_i64_text(w as int)) + seq![SPACE]);
            assert(spec_row_text(rowv) == line@ + spec_row_text(rowv.skip(c as int + 1)));
        }
        c = c + 1;
    }
    proof {
        assert(rowv.skip(matrix.cols as int) =~= Seq::<i64>::empty());
        assert(line@ == spec_row_text(rowv) + Seq::<u8>::empty());
        assert(line@ =~= spec_row_text(rowv));
    }
    line
}

/// Reads a matrix in the self-describing format, starting at a
/// position: exactly as [`spec_read_matrix_dyn`] describes. On success
/// returns the matrix and the position just after it.
pub fn read_matrix_dyn(lines: &Vec<Vec<u8>>, start: usize) -> (r: Result<
    (crate::matrix::Matrix, usize),
    VaiError,
>)
    ensures
        (match r {
            Ok(pair) => {
                &&& spec_read_matrix_dyn(lines_view(lines@), start as int) == Some(
                    (pair.0.rows as int, pair.0.cols as int, pair.0@, pair.1 as int),
                )
                &&& pair.0.wf()
            },
            Err(e) => {
                &&& spec_read_matrix_dyn(lines_view(lines@), start as int) is None
                &&& e == VaiError::FormatError
            },
        }),
{
    let ghost lv = lines_view(lines@);
    let n_lines = lines.len();
    if start >= n_lines {
        return Err(VaiError::FormatError);
    }
    proof {
        assert(lv[start as int] == lines@[start as int]@);
    }
    let n = match parse_count(&lines[start]) {
        Some(n) => n,
        None => {
            return Err(VaiError::FormatError);
        },
    };
    if n == 0 {
        let m = crate::matrix::Matrix { rows: 0, cols: 0, data: Vec::new() };
        proof {
            assert(m@ =~= Seq::<Seq<i64>>::empty());
        }
        return Ok((m, start + 1));
    }
    let mut p: usize = start + 1;
    let mut cols: usize = 0;
    let mut found: bool = false;
    proof {
        assert(spec_first_data_cols(lv, start + 1) == spec_first_data_cols(lv, p as int));
    }
    while !found && p < n_lines
        invariant
            lv == lines_view(lines@),
            n_lines == lines@.len(),
            start + 1 <= p,
            spec_first_data_cols(lv, start + 1) == if found {
                cols as int
            } else {
                spec_first_data_cols(lv, p as int)
            },
            found ==> cols > 0,
        decreases n_lines - p, (if found {
            0int
        } else {
            1int
        }),
    {
        proof {
            assert(lv[p as int] == lines@[p as int]@);
        }
        let toks = tokenize(&lines[p]);
        if toks.len() == 0 {
            p = p + 1;
        } else {
            cols = toks.len();
            found = true;
        }
    }
    proof {
        if !found {
            assert(p >= n_lines);
            assert(spec_first_data_cols(lv, p as int) == 0);
            assert(cols == spec_first_data_cols(lv, start + 1) || cols as int
                != spec_first_data_cols(lv, start + 1));
        }
        assert(spec_first_data_cols(lv, start + 1) == if found {
            cols as int
        } else {
            0int
        });
    }
    if !found {
        // every remaining line is blank, so no data row can be found
        proof {
            lemma_read_zero_cols(lv, start + 1, n as int);
            assert((n as int) * 0 == 0) by (nonlinear_arith);
        }
        return Err(VaiError::FormatError);
    }
    if n > crate::matrix::MAX_PARAMS / cols {
        proof {
            assert((n as int) * (cols as int) > crate::matrix::MAX_PARAMS) by (nonlinear_arith)
                requires
                    n > (crate::matrix::MAX_PARAMS as int) / (cols as int),
                    cols >= 1,
                    crate::matrix::MAX_PARAMS == 0x4000_0000usize,
            ;
        }
        return Err(VaiError::FormatError);
    }
    proof {
        vstd::arithmetic::div_mod::lemma_fundamental_div_mod(
            crate::matrix::MAX_PARAMS as int,
            cols as int,
        );
        lemma_mod_division_less_than_divisor(crate::matrix::MAX_PARAMS as int, cols as int);
        assert((n as int) * (cols as int) <= crate::matrix::MAX_PARAMS) by (nonlinear_arith)
            requires
                n <= (crate::matrix::MAX_PARAMS as int) / (cols as int),
                cols >= 1,
                crate::matrix::MAX_PARAMS as int == (cols as int) * ((crate::matrix::MAX_PARAMS
                    as int) / (cols as int)) + ((crate::matrix::MAX_PARAMS as int) % (
                cols as int)),
                0 <= ((crate::matrix::MAX_PARAMS as int) % (cols as int)),
                ((crate::matrix::MAX_PARAMS as int) % (cols as int)) < cols as int,
        ;
    }
    match read_matrix(lines, start + 1, n, cols) {
        Ok(pair) => Ok(pair),
        Err(e) => Err(e),
    }
}

/// With no columns expected, no data row can ever match, so reading at
/// least one row always fails.
proof fn lemma_read_zero_cols(L: Seq<Seq<u8>>, pos: int, n: int)
    requires
        n >= 1,
    ensures
        spec_read_matrix(L, pos, n, 0) is None,
    decreases L.len() - pos,
{
    if pos < 0 || pos >= L.len() {
    } else if spec_tokens(L[pos]).len() == 0 {
        lemma_read_zero_cols(L, pos + 1, n);
    }
}

/// Round trip for the self-describing format: a written matrix reads
/// back with its exact shape and weights (a matrix with rows needs at
/// least one column, else its rows would serialize as blank lines).
pub proof fn lemma_matrix_round_trip_dyn(m: crate::matrix::Matrix)
    requires
        m.wf(),
        m.rows >= 1 ==> m.cols >= 1,
    ensures
        spec_read_matrix_dyn(spec_matrix_lines_dyn(m@, m.rows as int), 0) == Some(
            (
                m.rows as int,
                if m.rows == 0 {
                    0int
                } else {
                    m.cols as int
                },
                m@,
                1 + m.rows,
            ),
        ),
{
    let L = spec_matrix_lines_dyn(m@, m.rows as int);
    let g = |row: Seq<i64>| spec_row_text(row);
    lemma_dec_digits_props(m.rows as int);
    assert(L[0] == spec_dec_digits(m.rows as int));
    assert(spec_parse_count(L[0]) == Some(m.rows as int));
    if m.rows == 0 {
        assert(m@ =~= Seq::<Seq<i64>>::empty());
    } else {
        assert(L[1] == m@.map_values(g)[0]);
        lemma_row_text_tokens(m@[0]);
        assert(spec_tokens(L[1]).len() == m.cols);
        assert(spec_first_data_cols(L, 1) == m.cols);
        assert forall|r: int| 0 <= r < m@.len() implies L[1 + r] == spec_row_text(
            #[trigger] m@[r],
        ) by {
            assert(L[1 + r] == m@.map_values(g)[r]);
        }
        lemma_read_rows_written(L, 1, m@, m.cols as int);
    }
}


/// A chain of matrices in the fixed format: each matrix's lines in
/// order, shapes implicit.
pub open spec fn spec_net_lines_fixed(mats: Seq<crate::matrix::Matrix>) -> Seq<Seq<u8>>
    decreases mats.len(),
{
    if mats.len() == 0 {
        Seq::empty()
    } else {
        spec_matrix_lines(mats[0]@) + spec_net_lines_fixed(mats.drop_first())
    }
}

/// A chain of matrices in the self-describing format: each matrix's
/// lines in order, each led by its own row count.
pub open spec fn spec_net_lines_dyn(mats: Seq<crate::matrix::Matrix>) -> Seq<Seq<u8>>
    decreases mats.len(),
{
    if mats.len() == 0 {
        Seq::empty()
    } else {
        spec_matrix_lines_dyn(mats[0]@, mats[0].rows as int) + spec_net_lines_dyn(
            mats.drop_first(),
        )
    }
}

/// What reading a sequence of matrices of known shapes yields: each in
/// turn from where the previous one stopped.
pub open spec fn spec_read_seq(L: Seq<Seq<u8>>, start: int, shapes: Seq<(int, int)>) -> Option<
    (Seq<Seq<Seq<i64>>>, int),
>
    decreases shapes.len(),
{
    if shapes.len() == 0 {
        Some((Seq::empty(), start))
    } else {
        match spec_read_matrix(L, start, shapes[0].0, shapes[0].1) {
            Some((m, p)) => match spec_read_seq(L, p, shapes.drop_first()) {
                Some((rest, q)) => Some((seq![m] + rest, q)),
                None => None,
            },
            None => None,
        }
    }
}

/// What reading a sequence of self-describing matrices yields: each in
/// turn, with its own embedded shape.
pub open spec fn spec_read_seq_dyn(L: Seq<Seq<u8>>, start: int, n: int) -> Option<
    (Seq<(int, int, Seq<Seq<i64>>)>, int),
>
    decreases n,
{
    if n <= 0 {
        Some((Seq::empty(), start))
    } else {
        match spec_read_matrix_dyn(L, start) {
            Some((r, c, vals, p)) => match spec_read_seq_dyn(L, p, n - 1) {
                Some((rest, q)) => Some((seq![(r, c, vals)] + rest, q)),
                None => None,
            },
            None => None,
        }
    }
}


/// The shapes of a chain of matrices, in order.
pub open spec fn shapes_of(mats: Seq<crate::matrix::Matrix>) -> Seq<(int, int)> {
    mats.map_values(|m: crate::matrix::Matrix| (m.rows as int, m.cols as int))
}

/// The weights of a chain of matrices, in order.
pub open spec fn views_of(mats: Seq<crate::matrix::Matrix>) -> Seq<Seq<Seq<i64>>> {
    mats.map_values(|m: crate::matrix::Matrix| m@)
}

/// Leading blank lines are skipped whenever at least one row is wanted.
proof fn lemma_read_skips_blanks(L: Seq<Seq<u8>>, start: int, b: int, rows: int, cols: int)
    requires
        rows >= 1,
        0 <= start,
        0 <= b,
        start + b <= L.len(),
        forall|t: int| 0 <= t < b ==> spec_tokens(#[trigger] L[start + t]).len() == 0,
    ensures
        spec_read_matrix(L, start, rows, cols) == spec_read_matrix(L, start + b, rows, cols),
    decreases b,
{
    if b > 0 {
        assert(spec_tokens(L[start + 0]).len() == 0);
        assert forall|t: int| 0 <= t < b - 1 implies spec_tokens(
            #[trigger] L[start + 1 + t],
        ).len() == 0 by {
            assert(L[start + 1 + t] == L[start + (t + 1)]);
        }
        lemma_read_skips_blanks(L, start + 1, b - 1, rows, cols);
    }
}

/// Reading a written chain of fixed-format matrices from lines that may
/// lead with blank lines yields exactly the chain's weights.
pub proof fn lemma_read_seq_of_written(L: Seq<Seq<u8>>, start: int, b: int, mats: Seq<
    crate::matrix::Matrix,
>)
    requires
        0 <= start,
        0 <= b,
        start + b <= L.len(),
        forall|t: int| 0 <= t < b ==> spec_tokens(#[trigger] L[start + t]).len() == 0,
        L.skip(start + b) == spec_net_lines_fixed(mats),
        forall|k: int| 0 <= k < mats.len() ==> (#[trigger] mats[k]).wf() && mats[k].cols >= 1,
    ensures
        (match spec_read_seq(L, start, shapes_of(mats)) {
            Some(tp) => tp.0 == views_of(mats),
            None => false,
        }),
    decreases mats.len(),
{
    let shapes = shapes_of(mats);
    if mats.len() == 0 {
        assert(views_of(mats) =~= Seq::<Seq<Seq<i64>>>::empty());
    } else {
        let m0 = mats[0];
        let rest = mats.drop_first();
        let g = |row: Seq<i64>| spec_row_text(row);
        let mlines = spec_matrix_lines(m0@);
        assert(mlines.len() == m0.rows + 1);
        assert(L.skip(start + b) == mlines + spec_net_lines_fixed(rest));
        assert(shapes[0] == (m0.rows as int, m0.cols as int));
        assert(shapes.drop_first() =~= shapes_of(rest));
        assert forall|k: int| 0 <= k < rest.len() implies (#[trigger] rest[k]).wf()
            && rest[k].cols >= 1 by {
            assert(rest[k] == mats[k + 1]);
        }
        if m0.rows == 0 {
            // the matrix contributes only its blank terminator line
            assert(spec_read_matrix(L, start, 0, m0.cols as int) == Some(
                (Seq::<Seq<i64>>::empty(), start),
            ));
            assert(m0@ =~= Seq::<Seq<i64>>::empty());
            assert(L.skip(start + b)[0] == mlines[0]);
            assert(mlines[0] =~= Seq::<u8>::empty());
            assert(L[start + b] == L.skip(start + b)[0]);
            assert(spec_tokens(L[start + b]).len() == 0);
            assert forall|t: int| 0 <= t < b + 1 implies spec_tokens(
                #[trigger] L[start + t],
            ).len() == 0 by {}
            assert(L.skip(start + (b + 1)) =~= L.skip(start + b).drop_first());
            assert(L.skip(start + b).drop_first() =~= spec_net_lines_fixed(rest)) by {
                assert(mlines =~= seq![Seq::<u8>::empty()]);
            }
            lemma_read_seq_of_written(L, start, b + 1, rest);
            match spec_read_seq(L, start, shapes_of(rest)) {
                Some(tp) => {
                    assert(spec_read_seq(L, start, shapes) == Some((seq![m0@] + tp.0, tp.1)));
                    assert(seq![m0@] + views_of(rest) =~= views_of(mats));
                },
                None => {
                    assert(false);
                },
            }
        } else {
            lemma_read_skips_blanks(L, start, b, m0.rows as int, m0.cols as int);
            assert forall|r: int| 0 <= r < m0@.len() implies L[start + b + r] == spec_row_text(
                #[trigger] m0@[r],
            ) by {
                assert(L[start + b + r] == L.skip(start + b)[r]);
                assert(L.skip(start + b)[r] == mlines[r]);
                assert(mlines[r] == m0@.map_values(g)[r]);
            }
            lemma_read_rows_written(L, start + b, m0@, m0.cols as int);
            let after = start + b + m0.rows;
            assert(spec_read_matrix(L, start, m0.rows as int, m0.cols as int) == Some(
                (m0@, after),
            ));
            // the blank terminator of this matrix leads the rest
            assert(L.skip(after) =~= L.skip(start + b).skip(m0.rows as int));
            assert(L.skip(start + b).skip(m0.rows as int) =~= seq![Seq::<u8>::empty()]
                + spec_net_lines_fixed(rest)) by {
                assert forall|t: int|
                    0 <= t < L.skip(start + b).len() - m0.rows implies L.skip(start + b).skip(
                    m0.rows as int,
                )[t] == (seq![Seq::<u8>::empty()] + spec_net_lines_fixed(rest))[t] by {
                    assert(L.skip(start + b).skip(m0.rows as int)[t] == L.skip(start + b)[m0.rows
                        + t]);
                    if t == 0 {
                        assert(L.skip(start + b)[m0.rows as int] == mlines[m0.rows as int]);
                        assert(mlines[m0.rows as int] == Seq::<u8>::empty());
                    } else {
                        assert(L.skip(start + b)[m0.rows + t] == spec_net_lines_fixed(rest)[t - 1]);
                    }
                }
            }
            assert(L[after] == L.skip(after)[0]);
            assert(spec_tokens(L[after]).len() == 0);
            assert(L.skip(after + 1) =~= L.skip(after).drop_first());
            assert(L.skip(after).drop_first() =~= spec_net_lines_fixed(rest));
            assert(after + 1 <= L.len()) by {
                assert(L.skip(after).len() >= 1);
            }
            lemma_read_seq_of_written(L, after, 1, rest);
            match spec_read_seq(L, after, shapes_of(rest)) {
                Some(tp) => {
                    assert(spec_read_seq(L, start, shapes) == Some((seq![m0@] + tp.0, tp.1)));
                    assert(seq![m0@] + views_of(rest) =~= views_of(mats));
                },
                None => {
                    assert(false);
                },
            }
        }
    }
}

/// Reading a written chain of self-describing matrices yields exactly
/// the chain's shapes and weights, consuming all its lines.
pub proof fn lemma_read_seq_dyn_of_written(L: Seq<Seq<u8>>, start: int, mats: Seq<
    crate::matrix::Matrix,
>)
    requires
        0 <= start <= L.len(),
        L.skip(start) == spec_net_lines_dyn(mats),
        forall|k: int|
            0 <= k < mats.len() ==> (#[trigger] mats[k]).wf() && mats[k].rows >= 1
                && mats[k].cols >= 1,
    ensures
        spec_read_seq_dyn(L, start, mats.len() as int) == Some(
            (crate::vaid::items_of(mats), L.len() as int),
        ),
    decreases mats.len(),
{
    if mats.len() == 0 {
        assert(L.skip(start).len() == 0);
        assert(crate::vaid::items_of(mats) =~= Seq::<(int, int, Seq<Seq<i64>>)>::empty());
    } else {
        let m0 = mats[0];
        let rest = mats.drop_first();
        let g = |row: Seq<i64>| spec_row_text(row);
        let mlines = spec_matrix_lines_dyn(m0@, m0.rows as int);
        assert(mlines.len() == 1 + m0.rows);
        assert(L.skip(start) == mlines + spec_net_lines_dyn(rest));
        assert forall|k: int| 0 <= k < rest.len() implies (#[trigger] rest[k]).wf() && rest[k].rows
            >= 1 && rest[k].cols >= 1 by {
            assert(rest[k] == mats[k + 1]);
        }
        // the count line
        lemma_dec_digits_props(m0.rows as int);
        assert(L[start] == L.skip(start)[0]);
        assert(L.skip(start)[0] == mlines[0]);
        assert(mlines[0] == spec_dec_digits(m0.rows as int));
        assert(spec_parse_count(L[start]) == Some(m0.rows as int));
        // the first data row fixes the column count
        assert(L[start + 1] == L.skip(start)[1]);
        assert(L.skip(start)[1] == mlines[1]);
        assert(mlines[1] == m0@.map_values(g)[0]);
        lemma_row_text_tokens(m0@[0]);
        assert(spec_tokens(L[start + 1]).len() == m0.cols);
        assert(spec_first_data_cols(L, start + 1) == m0.cols);
        // the rows themselves
        assert forall|r: int| 0 <= r < m0@.len() implies L[start + 1 + r] == spec_row_text(
            #[trigger] m0@[r],
        ) by {
            assert(L[start + 1 + r] == L.skip(start)[1 + r]);
            assert(L.skip(start)[1 + r] == mlines[1 + r]);
            assert(mlines[1 + r] == m0@.map_values(g)[r]);
        }
        lemma_read_rows_written(L, start + 1, m0@, m0.cols as int);
        let after = start + 1 + m0.rows;
        assert((m0.rows as int) * (m0.cols as int) <= crate::matrix::MAX_PARAMS);
        assert(spec_read_matrix_dyn(L, start) == Some(
            (m0.rows as int, m0.cols as int, m0@, after),
        ));
        // the rest follows directly: the dynamic format leaves no gap
        assert(L.skip(after) =~= L.skip(start).skip(mlines.len() as int));
        assert(L.skip(start).skip(mlines.len() as int) =~= spec_net_lines_dyn(rest)) by {
            assert forall|t: int|
                0 <= t < L.skip(start).len() - mlines.len() implies L.skip(start).skip(
                mlines.len() as int,
            )[t] == spec_net_lines_dyn(rest)[t] by {
                assert(L.skip(start).skip(mlines.len() as int)[t] == L.skip(start)[mlines.len()
                    + t]);
                assert(L.skip(start)[mlines.len() + t] == spec_net_lines_dyn(rest)[t]);
            }
        }
        lemma_read_seq_dyn_of_written(L, after, rest);
        assert(seq![(m0.rows as int, m0.cols as int, m0@)] + crate::vaid::items_of(rest)
            =~= crate::vaid::items_of(mats));
    }
}

} // verus!
