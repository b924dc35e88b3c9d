//! Drawing a board as text, one line for every row.

use crate::cell::{flagged_of, revealed_of, warn_of};
use vstd::prelude::*;

verus! {

/// `String::push` of the standard library appends one character.
pub assume_specification[ String::push ](s: &mut String, ch: char)
    ensures
        final(s)@ == old(s)@.push(ch),
;

/// The character for a warning from 1 to 8: its digit.
pub open spec fn digit_of(v: u8) -> char {
    ((48 + v) as u8) as char
}

/// How a cell looks when the layout is drawn: blank for zero, a digit
/// for a warning up to 8, a dash for a mine.
pub open spec fn warn_glyph(b: u8) -> char {
    if warn_of(b) == 0 {
        ' '
    } else if warn_of(b) <= 8 {
        digit_of(warn_of(b))
    } else {
        '-'
    }
}

/// How a cell looks when the game is drawn: a revealed cell as blank,
/// digit, or `+` for a mine; a flagged one as `@`; any other as a dot.
pub open spec fn stat_glyph(b: u8) -> char {
    if revealed_of(b) {
        if warn_of(b) == 0 {
            ' '
        } else if warn_of(b) <= 8 {
            digit_of(warn_of(b))
        } else {
            '+'
        }
    } else if flagged_of(b) {
        '@'
    } else {
        '·'
    }
}

/// The first `n` cells drawn with `glyphs`: a space and the glyph for
/// every cell, and a line feed after every `w` cells.
pub open spec fn grid_text(glyphs: Seq<char>, w: int, n: int) -> Seq<char>
    decreases n,
{
    if n <= 0 {
        Seq::empty()
    } else {
        let line = grid_text(glyphs, w, n - 1).push(' ').push(glyphs[n - 1]);
        if n % w == 0 {
            line.push('\n')
        } else {
            line
        }
    }
}

/// The glyph of every cell when the layout is drawn.
pub open spec fn warn_glyphs(cells: Seq<u8>) -> Seq<char> {
    Seq::new(cells.len(), |j: int| warn_glyph(cells[j]))
}

/// The glyph of every cell when the game is drawn.
pub open spec fn stat_glyphs(cells: Seq<u8>) -> Seq<char> {
    Seq::new(cells.len(), |j: int| stat_glyph(cells[j]))
}

/// The digit for a warning from 1 to 8.
pub(crate) fn digit(v: u8) -> (c: char)
    requires
        1 <= v <= 8,
    ensures
        c == digit_of(v),
{
    (48 + v) as char
}

/// The character for a digit from 0 to 9.
pub open spec fn numeral(d: int) -> char {
    ((48 + d) as u8) as char
}

/// A number from 0 to 255 written in decimal, without leading zeros.
pub open spec fn decimal(v: u8) -> Seq<char> {
    if v >= 100 {
        seq![numeral(v as int / 100), numeral(v as int / 10 % 10), numeral(v as int % 10)]
    } else if v >= 10 {
        seq![numeral(v as int / 10), numeral(v as int % 10)]
    } else {
        seq![numeral(v as int)]
    }
}

/// A byte written in binary, all eight digits, the highest first.
pub open spec fn binary(v: u8) -> Seq<char> {
    Seq::new(8, |n: int| numeral((v as int / pow2(7 - n)) % 2))
}

/// Two to the power `n`, for `n` from 0 to 7.
pub open spec fn pow2(n: int) -> int {
    if n <= 0 {
        1
    } else if n == 1 {
        2
    } else if n == 2 {
        4
    } else if n == 3 {
        8
    } else if n == 4 {
        16
    } else if n == 5 {
        32
    } else if n == 6 {
        64
    } else {
        128
    }
}

/// Writes `v` in decimal behind what `buf` holds.
pub fn push_decimal(buf: &mut String, v: u8)
    ensures
        final(buf)@ == old(buf)@ + decimal(v),
{
    if v >= 100 {
        buf.push((48 + v / 100) as char);
    }
    if v >= 10 {
        buf.push((48 + v / 10 % 10) as char);
    }
    buf.push((48 + v % 10) as char);
    assert(buf@ =~= old(buf)@ + decimal(v));
}

/// Writes `v` in binary, all eight digits, behind what `buf` holds.
pub fn push_binary(buf: &mut String, v: u8)
    ensures
        final(buf)@ == old(buf)@ + binary(v),
{
    let mut n: u8 = 0;
    let mut div: u8 = 128;
    while n < 8
        invariant
            n <= 8,
            n < 8 ==> div == pow2(7 - n),
            buf@ == old(buf)@ + binary(v).take(n as int),
        decreases 8 - n,
    {
        buf.push((48 + v / div % 2) as char);
        assert(buf@ =~= old(buf)@ + binary(v).take(n + 1));
        div = div / 2;
        n += 1;
    }
    assert(binary(v).take(8) =~= binary(v));
}

} // verus!
