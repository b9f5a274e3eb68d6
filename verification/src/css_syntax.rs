//! The syntax of style sheets.
//!
//! Each construct of the grammar is a specification function that reads a
//! sequence of characters from a position and gives what it read and where
//! it stopped, and an executable function that computes the same. Choices
//! are ordered and repetitions are greedy: a construct that has been read
//! is not read again in another way when what follows it fails.

use vstd::prelude::*;
use crate::css::{Color, Unit, Value, ValueModel};
use crate::html::at;
use crate::text::string_of;

verus! {

/// Whether `c` is a decimal digit.
pub open spec fn is_digit(c: char) -> bool {
    '0' <= c <= '9'
}

/// Whether `c` is a hexadecimal digit.
pub open spec fn is_hex_digit(c: char) -> bool {
    is_digit(c) || ('a' <= c <= 'f') || ('A' <= c <= 'F')
}

/// Whether `c` is an ASCII letter.
pub open spec fn is_letter(c: char) -> bool {
    ('a' <= c <= 'z') || ('A' <= c <= 'Z')
}

/// Whether `c` may stand in an identifier behind its first character.
pub open spec fn is_identifier_char(c: char) -> bool {
    is_letter(c) || is_digit(c) || c == '-' || c == '_'
}

/// Whether `c` is a blank: a space, a carriage return, a line feed or a tab.
pub open spec fn is_blank(c: char) -> bool {
    c == ' ' || c == '\r' || c == '\n' || c == '\t'
}

/// The first position from `pos` on that holds no identifier character.
pub open spec fn skip_identifier(s: Seq<char>, pos: int) -> int
    decreases s.len() - pos,
{
    if 0 <= pos < s.len() && is_identifier_char(s[pos]) {
        skip_identifier(s, pos + 1)
    } else {
        pos
    }
}

/// The first position from `pos` on that holds no digit.
pub open spec fn skip_digits(s: Seq<char>, pos: int) -> int
    decreases s.len() - pos,
{
    if 0 <= pos < s.len() && is_digit(s[pos]) {
        skip_digits(s, pos + 1)
    } else {
        pos
    }
}

/// Skipping goes forward, stays within the text, and passes over
/// nothing but what it skips.
pub proof fn lemma_skips(s: Seq<char>, pos: int)
    requires
        0 <= pos <= s.len(),
    ensures
        pos <= skip_identifier(s, pos) <= s.len(),
        pos <= skip_digits(s, pos) <= s.len(),
        forall|i: int| pos <= i < skip_digits(s, pos) ==> is_digit(#[trigger] s[i]),
    decreases s.len() - pos,
{
    if pos < s.len() {
        lemma_skips(s, pos + 1);
    }
}

/// An identifier at `pos`: a letter and the identifier characters behind it.
pub open spec fn identifier_at(s: Seq<char>, pos: int) -> Option<(Seq<char>, int)> {
    if 0 <= pos < s.len() && is_letter(s[pos]) {
        let end = skip_identifier(s, pos + 1);
        Some((s.subrange(pos, end), end))
    } else {
        None
    }
}

/// The first position from `pos` on that holds `*/`.
pub open spec fn comment_close(s: Seq<char>, pos: int) -> Option<int>
    decreases s.len() - pos,
{
    if pos < 0 || pos + 2 > s.len() {
        None
    } else if s[pos] == '*' && s[pos + 1] == '/' {
        Some(pos)
    } else {
        comment_close(s, pos + 1)
    }
}

/// Where `*/` is found, it lies within the text, not before `pos`.
pub proof fn lemma_comment_close(s: Seq<char>, pos: int)
    requires
        0 <= pos,
    ensures
        comment_close(s, pos) matches Some(c) ==> pos <= c && c + 2 <= s.len(),
    decreases s.len() - pos,
{
    if pos + 2 <= s.len() {
        lemma_comment_close(s, pos + 1);
    }
}

/// A comment at `pos`, from `/*` up to the next `*/`: where it ends.
pub open spec fn comment_at(s: Seq<char>, pos: int) -> Option<int> {
    if at(s, pos, '/') && at(s, pos + 1, '*') {
        match comment_close(s, pos + 2) {
            Some(c) => Some(c + 2),
            None => None,
        }
    } else {
        None
    }
}

/// The first position from `pos` on that starts neither a blank nor a
/// comment.
pub open spec fn blank_end(s: Seq<char>, pos: int) -> int
    decreases s.len() - pos,
{
    if 0 <= pos < s.len() && is_blank(s[pos]) {
        blank_end(s, pos + 1)
    } else {
        match comment_at(s, pos) {
            Some(end) => {
                proof {
                    lemma_comment_close(s, pos + 2);
                }
                blank_end(s, end)
            },
            None => pos,
        }
    }
}

/// Blanks and comments are skipped forwards, within the text.
pub proof fn lemma_blank_end(s: Seq<char>, pos: int)
    requires
        0 <= pos <= s.len(),
    ensures
        pos <= blank_end(s, pos) <= s.len(),
    decreases s.len() - pos,
{
    if pos < s.len() && is_blank(s[pos]) {
        lemma_blank_end(s, pos + 1);
    } else {
        match comment_at(s, pos) {
            Some(end) => {
                lemma_comment_close(s, pos + 2);
                lemma_blank_end(s, end);
            },
            None => {},
        }
    }
}

/// The number that the digit `c` stands for.
pub open spec fn digit_value(c: char) -> int {
    c as int - '0' as int
}

/// The number that the decimal digits `d` stand for; zero for none.
pub open spec fn digits_value(d: Seq<char>) -> int
    decreases d.len(),
{
    if d.len() == 0 {
        0
    } else {
        digits_value(d.drop_last()) * 10 + digit_value(d.last())
    }
}

/// The number that the hexadecimal digit `c` stands for.
pub open spec fn hex_digit_value(c: char) -> int {
    if is_digit(c) {
        c as int - '0' as int
    } else if 'a' <= c <= 'f' {
        c as int - 'a' as int + 10
    } else {
        c as int - 'A' as int + 10
    }
}

/// A colour channel in decimal at `pos`: one or more digits that stand
/// for a number up to 255.
pub open spec fn dec_value_at(s: Seq<char>, pos: int) -> Option<(u8, int)> {
    let end = skip_digits(s, pos);
    if 0 <= pos < end && digits_value(s.subrange(pos, end)) <= 255 {
        Some((digits_value(s.subrange(pos, end)) as u8, end))
    } else {
        None
    }
}

/// One hexadecimal digit at `pos`.
pub open spec fn hex_value_one_at(s: Seq<char>, pos: int) -> Option<(u8, int)> {
    if 0 <= pos < s.len() && is_hex_digit(s[pos]) {
        Some((hex_digit_value(s[pos]) as u8, pos + 1))
    } else {
        None
    }
}

/// Two hexadecimal digits at `pos`.
pub open spec fn hex_value_two_at(s: Seq<char>, pos: int) -> Option<(u8, int)> {
    if 0 <= pos && pos + 1 < s.len() && is_hex_digit(s[pos]) && is_hex_digit(s[pos + 1]) {
        Some(((hex_digit_value(s[pos]) * 16 + hex_digit_value(s[pos + 1])) as u8, pos + 2))
    } else {
        None
    }
}

/// `#` and three hexadecimal digits at `pos`, each standing for a channel
/// with that digit twice; opaque.
pub open spec fn color_hex_value_three_at(s: Seq<char>, pos: int) -> Option<(Color, int)> {
    if at(s, pos, '#') && hex_value_one_at(s, pos + 1) is Some && hex_value_one_at(s, pos + 2) is Some
        && hex_value_one_at(s, pos + 3) is Some {
        let r = hex_digit_value(s[pos + 1]);
        let g = hex_digit_value(s[pos + 2]);
        let b = hex_digit_value(s[pos + 3]);
        Some(
            (
                Color { r: (r + r * 16) as u8, g: (g + g * 16) as u8, b: (b + b * 16) as u8, a: 255 },
                pos + 4,
            ),
        )
    } else {
        None
    }
}

/// `#` and six hexadecimal digits at `pos`, two for each channel; opaque.
pub open spec fn color_hex_value_six_at(s: Seq<char>, pos: int) -> Option<(Color, int)> {
    match (hex_value_two_at(s, pos + 1), hex_value_two_at(s, pos + 3), hex_value_two_at(s, pos + 5)) {
        (Some((r, _)), Some((g, _)), Some((b, _))) => if at(s, pos, '#') {
            Some((Color { r, g, b, a: 255 }, pos + 7))
        } else {
            None
        },
        _ => None,
    }
}

/// `rgb(`, three channels in decimal with commas between them, and `)`.
pub open spec fn color_rgb_value_at(s: Seq<char>, pos: int) -> Option<(Color, int)> {
    if at(s, pos, 'r') && at(s, pos + 1, 'g') && at(s, pos + 2, 'b') && at(s, pos + 3, '(') {
        match dec_value_at(s, pos + 4) {
            Some((r, p1)) => match (if at(s, p1, ',') {
                dec_value_at(s, p1 + 1)
            } else {
                None
            }) {
                Some((g, p2)) => match (if at(s, p2, ',') {
                    dec_value_at(s, p2 + 1)
                } else {
                    None
                }) {
                    Some((b, p3)) => if at(s, p3, ')') {
                        Some((Color { r, g, b, a: 255 }, p3 + 1))
                    } else {
                        None
                    },
                    None => None,
                },
                None => None,
            },
            None => None,
        }
    } else {
        None
    }
}

/// `rgba(`, four channels in decimal with commas between them, and `)`.
pub open spec fn color_rgba_value_at(s: Seq<char>, pos: int) -> Option<(Color, int)> {
    if at(s, pos, 'r') && at(s, pos + 1, 'g') && at(s, pos + 2, 'b') && at(s, pos + 3, 'a') && at(
        s,
        pos + 4,
        '(',
    ) {
        match dec_value_at(s, pos + 5) {
            Some((r, p1)) => match (if at(s, p1, ',') {
                dec_value_at(s, p1 + 1)
            } else {
                None
            }) {
                Some((g, p2)) => match (if at(s, p2, ',') {
                    dec_value_at(s, p2 + 1)
                } else {
                    None
                }) {
                    Some((b, p3)) => match (if at(s, p3, ',') {
                        dec_value_at(s, p3 + 1)
                    } else {
                        None
                    }) {
                        Some((a, p4)) => if at(s, p4, ')') {
                            Some((Color { r, g, b, a }, p4 + 1))
                        } else {
                            None
                        },
                        None => None,
                    },
                    None => None,
                },
                None => None,
            },
            None => None,
        }
    } else {
        None
    }
}

/// A colour at `pos`: the first that can be read of `rgb(..)`,
/// `rgba(..)`, `#` with six digits and `#` with three.
pub open spec fn color_at(s: Seq<char>, pos: int) -> Option<(Color, int)> {
    if color_rgb_value_at(s, pos) is Some {
        color_rgb_value_at(s, pos)
    } else if color_rgba_value_at(s, pos) is Some {
        color_rgba_value_at(s, pos)
    } else if color_hex_value_six_at(s, pos) is Some {
        color_hex_value_six_at(s, pos)
    } else {
        color_hex_value_three_at(s, pos)
    }
}

/// The thousandths that the digits `frac` behind a decimal point stand
/// for: the first three digits count, the rest is cut off.
pub open spec fn thousandths(frac: Seq<char>) -> int {
    (if frac.len() > 0 {
        digit_value(frac[0]) * 100
    } else {
        0
    }) + (if frac.len() > 1 {
        digit_value(frac[1]) * 10
    } else {
        0
    }) + (if frac.len() > 2 {
        digit_value(frac[2])
    } else {
        0
    })
}

/// A decimal number at `pos`, in thousandths: an optional `-`, then
/// digits with an optional `.` and digits behind them, or `.` and digits.
pub open spec fn number_at(s: Seq<char>, pos: int) -> Option<(int, int)> {
    let negative = at(s, pos, '-');
    let start = if negative {
        pos + 1
    } else {
        pos
    };
    let whole_end = skip_digits(s, start);
    let frac_end = skip_digits(s, whole_end + 1);
    let fraction = at(s, whole_end, '.') && frac_end > whole_end + 1;
    if 0 <= pos && (whole_end > start || fraction) {
        let whole = digits_value(s.subrange(start, whole_end));
        let part = if fraction {
            thousandths(s.subrange(whole_end + 1, frac_end))
        } else {
            0
        };
        let amount = whole * 1000 + part;
        Some(
            (
                if negative {
                    -amount
                } else {
                    amount
                },
                if fraction {
                    frac_end
                } else {
                    whole_end
                },
            ),
        )
    } else {
        None
    }
}

/// A length at `pos`: `0` with or without `px`, else a decimal number
/// that fits in `i64` as thousandths, and `px`. A `0` is read as the
/// length zero whatever follows it.
pub open spec fn length_at(s: Seq<char>, pos: int) -> Option<(i64, int)> {
    if at(s, pos, '0') {
        if at(s, pos + 1, 'p') && at(s, pos + 2, 'x') {
            Some((0i64, pos + 3))
        } else {
            Some((0i64, pos + 1))
        }
    } else {
        match number_at(s, pos) {
            Some((amount, end)) => if at(s, end, 'p') && at(s, end + 1, 'x') && i64::MIN <= amount
                <= i64::MAX {
                Some((amount as i64, end + 2))
            } else {
                None
            },
            None => None,
        }
    }
}

/// A value at `pos`: the first that can be read of a colour, a length
/// and a keyword.
pub open spec fn value_at(s: Seq<char>, pos: int) -> Option<(ValueModel, int)> {
    match color_at(s, pos) {
        Some((c, end)) => Some((ValueModel::ColorValue(c), end)),
        None => match length_at(s, pos) {
            Some((n, end)) => Some((ValueModel::Length(n, Unit::Px), end)),
            None => match identifier_at(s, pos) {
                Some((word, end)) => Some((ValueModel::Keyword(word), end)),
                None => None,
            },
        },
    }
}

/// Whether `s` holds `c` at `pos`.
fn holds(s: &Vec<char>, pos: usize, c: char) -> (r: bool)
    ensures
        r == at(s@, pos as int, c),
        r ==> pos < s.len(),
{
    pos < s.len() && s[pos] == c
}

/// Whether `s` holds `a` and then `b` at `pos`.
fn holds_two(s: &Vec<char>, pos: usize, a: char, b: char) -> (r: bool)
    ensures
        r == (at(s@, pos as int, a) && at(s@, pos + 1, b)),
        r ==> pos + 1 < s.len(),
{
    pos < s.len() && s.len() - pos >= 2 && s[pos] == a && s[pos + 1] == b
}

/// Whether `c` is a decimal digit.
fn digit(c: char) -> (r: bool)
    ensures
        r == is_digit(c),
{
    '0' <= c && c <= '9'
}

/// Whether `c` is an ASCII letter.
fn letter(c: char) -> (r: bool)
    ensures
        r == is_letter(c),
{
    ('a' <= c && c <= 'z') || ('A' <= c && c <= 'Z')
}

/// The number that `c` stands for as a hexadecimal digit.
fn hex_digit(c: char) -> (r: Option<u8>)
    ensures
        match r {
            Some(v) => is_hex_digit(c) && v == hex_digit_value(c) && v < 16,
            None => !is_hex_digit(c),
        },
{
    if '0' <= c && c <= '9' {
        Some((c as u32 - '0' as u32) as u8)
    } else if 'a' <= c && c <= 'f' {
        Some((c as u32 - 'a' as u32 + 10) as u8)
    } else if 'A' <= c && c <= 'F' {
        Some((c as u32 - 'A' as u32 + 10) as u8)
    } else {
        None
    }
}

/// Skips digits from `pos` on.
fn read_digits(s: &Vec<char>, pos: usize) -> (end: usize)
    requires
        pos <= s.len(),
    ensures
        end == skip_digits(s@, pos as int),
        pos <= end <= s.len(),
{
    let mut end = pos;
    while end < s.len() && digit(s[end])
        invariant
            pos <= end <= s.len(),
            skip_digits(s@, end as int) == skip_digits(s@, pos as int),
        decreases s.len() - end,
    {
        end += 1;
    }
    end
}

/// Reads an identifier at `pos`.
pub fn read_identifier(s: &Vec<char>, pos: usize) -> (r: Option<(String, usize)>)
    requires
        pos <= s.len(),
    ensures
        match r {
            Some((word, end)) => identifier_at(s@, pos as int) == Some((word@, end as int)) && pos
                < end <= s.len(),
            None => identifier_at(s@, pos as int) is None,
        },
{
    if pos < s.len() && letter(s[pos]) {
        let mut end = pos + 1;
        while end < s.len() && (letter(s[end]) || digit(s[end]) || s[end] == '-' || s[end] == '_')
            invariant
                pos < end <= s.len(),
                skip_identifier(s@, end as int) == skip_identifier(s@, pos + 1),
            decreases s.len() - end,
        {
            end += 1;
        }
        Some((string_of(s, pos, end), end))
    } else {
        None
    }
}

/// Reads a comment at `pos`: where it ends.
pub fn read_comment(s: &Vec<char>, pos: usize) -> (r: Option<usize>)
    requires
        pos <= s.len(),
    ensures
        match r {
            Some(end) => comment_at(s@, pos as int) == Some(end as int) && pos + 4 <= end <= s.len(),
            None => comment_at(s@, pos as int) is None,
        },
{
    if !holds_two(s, pos, '/', '*') {
        return None;
    }
    let mut p = pos + 2;
    proof {
        lemma_comment_close(s@, pos + 2);
    }
    while p < s.len() && s.len() - p >= 2
        invariant
            pos + 2 <= p <= s.len(),
            at(s@, pos as int, '/') && at(s@, pos + 1, '*'),
            comment_close(s@, p as int) == comment_close(s@, pos + 2),
        decreases s.len() - p,
    {
        if s[p] == '*' && s[p + 1] == '/' {
            return Some(p + 2);
        }
        p += 1;
    }
    proof {
        if p < s.len() {
            assert(comment_close(s@, p + 1) is None);
        }
    }
    None
}

/// Skips blanks and comments from `pos` on.
pub fn read_blanks(s: &Vec<char>, pos: usize) -> (end: usize)
    requires
        pos <= s.len(),
    ensures
        end == blank_end(s@, pos as int),
        pos <= end <= s.len(),
{
    let mut end = pos;
    loop
        invariant
            pos <= end <= s.len(),
            blank_end(s@, end as int) == blank_end(s@, pos as int),
        decreases s.len() - end,
    {
        if end < s.len() && (s[end] == ' ' || s[end] == '\r' || s[end] == '\n' || s[end] == '\t') {
            end += 1;
        } else {
            match read_comment(s, end) {
                Some(after) => {
                    end = after;
                },
                None => {
                    return end;
                },
            }
        }
    }
}

/// The digits `d` with one more digit stand for ten times as much and
/// the digit.
proof fn lemma_digits_push(s: Seq<char>, from: int, to: int)
    requires
        0 <= from <= to < s.len(),
    ensures
        digits_value(s.subrange(from, to + 1)) == digits_value(s.subrange(from, to)) * 10
            + digit_value(s[to]),
{
    assert(s.subrange(from, to + 1).drop_last() =~= s.subrange(from, to));
}

/// Digits stand for a number that is not negative.
proof fn lemma_digits_value(d: Seq<char>)
    requires
        forall|i: int| 0 <= i < d.len() ==> is_digit(#[trigger] d[i]),
    ensures
        digits_value(d) >= 0,
    decreases d.len(),
{
    if d.len() > 0 {
        lemma_digits_value(d.drop_last());
    }
}

/// Reads a colour channel in decimal at `pos`.
pub fn read_dec_value(s: &Vec<char>, pos: usize) -> (r: Option<(u8, usize)>)
    requires
        pos <= s.len(),
    ensures
        match r {
            Some((v, end)) => dec_value_at(s@, pos as int) == Some((v, end as int)) && pos < end
                <= s.len(),
            None => dec_value_at(s@, pos as int) is None,
        },
{
    let end = read_digits(s, pos);
    if end == pos {
        return None;
    }
    let mut total: u32 = 0;
    let mut i = pos;
    proof {
        lemma_skips(s@, pos as int);
    }
    while i < end
        invariant
            pos <= i <= end <= s.len(),
            forall|k: int| pos <= k < end ==> is_digit(#[trigger] s@[k]),
            total <= 256,
            total < 256 ==> total == digits_value(s@.subrange(pos as int, i as int)),
            total == 256 ==> digits_value(s@.subrange(pos as int, i as int)) >= 256,
        decreases end - i,
    {
        proof {
            lemma_digits_push(s@, pos as int, i as int);
            lemma_digits_value(s@.subrange(pos as int, i as int));
        }
        let d = s[i] as u32 - '0' as u32;
        total = total * 10 + d;
        if total > 256 {
            total = 256;
        }
        i += 1;
    }
    if total < 256 {
        Some((total as u8, end))
    } else {
        None
    }
}

/// Reads one hexadecimal digit at `pos`.
pub fn read_hex_value_one(s: &Vec<char>, pos: usize) -> (r: Option<(u8, usize)>)
    ensures
        match r {
            Some((v, end)) => hex_value_one_at(s@, pos as int) == Some((v, end as int)) && end == pos
                + 1 && end <= s.len() && v == hex_digit_value(s@[pos as int]),
            None => hex_value_one_at(s@, pos as int) is None,
        },
{
    if pos < s.len() {
        match hex_digit(s[pos]) {
            Some(v) => Some((v, pos + 1)),
            None => None,
        }
    } else {
        None
    }
}

/// Reads two hexadecimal digits at `pos`.
pub fn read_hex_value_two(s: &Vec<char>, pos: usize) -> (r: Option<(u8, usize)>)
    ensures
        match r {
            Some((v, end)) => hex_value_two_at(s@, pos as int) == Some((v, end as int)) && end == pos
                + 2 && end <= s.len(),
            None => hex_value_two_at(s@, pos as int) is None,
        },
{
    if pos < s.len() && s.len() - pos >= 2 {
        match (hex_digit(s[pos]), hex_digit(s[pos + 1])) {
            (Some(a), Some(b)) => Some((a * 16 + b, pos + 2)),
            _ => None,
        }
    } else {
        None
    }
}

/// Reads `#` and three hexadecimal digits at `pos`.
pub fn read_color_hex_value_three(s: &Vec<char>, pos: usize) -> (r: Option<(Color, usize)>)
    ensures
        match r {
            Some((c, end)) => color_hex_value_three_at(s@, pos as int) == Some((c, end as int))
                && pos < end <= s.len(),
            None => color_hex_value_three_at(s@, pos as int) is None,
        },
{
    if !holds(s, pos, '#') {
        return None;
    }
    let r = match read_hex_value_one(s, pos + 1) {
        Some((v, _)) => v,
        None => {
            return None;
        },
    };
    let g = match read_hex_value_one(s, pos + 2) {
        Some((v, _)) => v,
        None => {
            return None;
        },
    };
    let b = match read_hex_value_one(s, pos + 3) {
        Some((v, _)) => v,
        None => {
            return None;
        },
    };
    Some((Color { r: r + r * 16, g: g + g * 16, b: b + b * 16, a: 255 }, pos + 4))
}

/// Reads `#` and six hexadecimal digits at `pos`.
pub fn read_color_hex_value_six(s: &Vec<char>, pos: usize) -> (r: Option<(Color, usize)>)
    ensures
        match r {
            Some((c, end)) => color_hex_value_six_at(s@, pos as int) == Some((c, end as int)) && pos
                < end <= s.len(),
            None => color_hex_value_six_at(s@, pos as int) is None,
        },
{
    if !holds(s, pos, '#') {
        return None;
    }
    let r = match read_hex_value_two(s, pos + 1) {
        Some((v, _)) => v,
        None => {
            return None;
        },
    };
    let g = match read_hex_value_two(s, pos + 3) {
        Some((v, _)) => v,
        None => {
            return None;
        },
    };
    let b = match read_hex_value_two(s, pos + 5) {
        Some((v, _)) => v,
        None => {
            return None;
        },
    };
    Some((Color { r, g, b, a: 255 }, pos + 7))
}

/// Reads the character `c` and then a colour channel in decimal.
fn next_channel(s: &Vec<char>, pos: usize, c: char) -> (r: Option<(u8, usize)>)
    requires
        pos <= s.len(),
    ensures
        ({
            let read = if at(s@, pos as int, c) {
                dec_value_at(s@, pos + 1)
            } else {
                None
            };
            match r {
                Some((v, end)) => read == Some((v, end as int)) && pos < end <= s.len(),
                None => read is None,
            }
        }),
{
    if holds(s, pos, c) {
        read_dec_value(s, pos + 1)
    } else {
        None
    }
}

/// Reads `rgb(..)` at `pos`.
pub fn read_color_rgb_value(s: &Vec<char>, pos: usize) -> (r: Option<(Color, usize)>)
    requires
        pos <= s.len(),
    ensures
        match r {
            Some((c, end)) => color_rgb_value_at(s@, pos as int) == Some((c, end as int)) && pos < end
                <= s.len(),
            None => color_rgb_value_at(s@, pos as int) is None,
        },
{
    if !(holds_two(s, pos, 'r', 'g') && holds_two(s, pos + 2, 'b', '(')) {
        return None;
    }
    let (r, p1) = match read_dec_value(s, pos + 4) {
        Some(x) => x,
        None => {
            return None;
        },
    };
    let (g, p2) = match next_channel(s, p1, ',') {
        Some(x) => x,
        None => {
            return None;
        },
    };
    let (b, p3) = match next_channel(s, p2, ',') {
        Some(x) => x,
        None => {
            return None;
        },
    };
    if !holds(s, p3, ')') {
        return None;
    }
    Some((Color { r, g, b, a: 255 }, p3 + 1))
}

/// Reads `rgba(..)` at `pos`.
pub fn read_color_rgba_value(s: &Vec<char>, pos: usize) -> (r: Option<(Color, usize)>)
    requires
        pos <= s.len(),
    ensures
        match r {
            Some((c, end)) => color_rgba_value_at(s@, pos as int) == Some((c, end as int)) && pos
                < end <= s.len(),
            None => color_rgba_value_at(s@, pos as int) is None,
        },
{
    if !(holds_two(s, pos, 'r', 'g') && holds_two(s, pos + 2, 'b', 'a') && holds(s, pos + 4, '(')) {
        return None;
    }
    let (r, p1) = match read_dec_value(s, pos + 5) {
        Some(x) => x,
        None => {
            return None;
        },
    };
    let (g, p2) = match next_channel(s, p1, ',') {
        Some(x) => x,
        None => {
            return None;
        },
    };
    let (b, p3) = match next_channel(s, p2, ',') {
        Some(x) => x,
        None => {
            return None;
        },
    };
    let (a, p4) = match next_channel(s, p3, ',') {
        Some(x) => x,
        None => {
            return None;
        },
    };
    if !holds(s, p4, ')') {
        return None;
    }
    Some((Color { r, g, b, a }, p4 + 1))
}

/// Reads a colour at `pos`.
pub fn read_color(s: &Vec<char>, pos: usize) -> (r: Option<(Color, usize)>)
    requires
        pos <= s.len(),
    ensures
        match r {
            Some((c, end)) => color_at(s@, pos as int) == Some((c, end as int)) && pos < end
                <= s.len(),
            None => color_at(s@, pos as int) is None,
        },
{
    match read_color_rgb_value(s, pos) {
        Some(c) => Some(c),
        None => match read_color_rgba_value(s, pos) {
            Some(c) => Some(c),
            None => match read_color_hex_value_six(s, pos) {
                Some(c) => Some(c),
                None => read_color_hex_value_three(s, pos),
            },
        },
    }
}

/// The largest number of whole pixels that a length can hold.
pub const MAX_WHOLE: u64 = 9_223_372_036_854_775;

/// Reads a decimal number at `pos`, in thousandths; `None` also where
/// the number does not fit in `i64`.
pub fn read_number(s: &Vec<char>, pos: usize) -> (r: Option<(i64, usize)>)
    requires
        pos <= s.len(),
    ensures
        match r {
            Some((amount, end)) => number_at(s@, pos as int) == Some((amount as int, end as int))
                && pos < end <= s.len(),
            None => match number_at(s@, pos as int) {
                Some((amount, _)) => !(i64::MIN <= amount <= i64::MAX),
                None => true,
            },
        },
{
    let negative = holds(s, pos, '-');
    let start = if negative {
        pos + 1
    } else {
        pos
    };
    let whole_end = read_digits(s, start);
    let fraction_start: usize = if whole_end < s.len() {
        whole_end + 1
    } else {
        whole_end
    };
    let frac_end = if holds(s, whole_end, '.') {
        read_digits(s, fraction_start)
    } else {
        whole_end
    };
    let fraction = holds(s, whole_end, '.') && frac_end > whole_end + 1;
    if !(whole_end > start || fraction) {
        return None;
    }
    proof {
        lemma_skips(s@, start as int);
        if fraction {
            lemma_skips(s@, whole_end + 1);
        }
    }
    // The whole pixels, as far as they can matter.
    let mut whole: u64 = 0;
    let mut i = start;
    while i < whole_end
        invariant
            start <= i <= whole_end <= s.len(),
            forall|k: int| start <= k < whole_end ==> is_digit(#[trigger] s@[k]),
            whole <= MAX_WHOLE + 1,
            whole <= MAX_WHOLE ==> whole == digits_value(s@.subrange(start as int, i as int)),
            whole > MAX_WHOLE ==> digits_value(s@.subrange(start as int, i as int)) > MAX_WHOLE,
        decreases whole_end - i,
    {
        proof {
            lemma_digits_push(s@, start as int, i as int);
            lemma_digits_value(s@.subrange(start as int, i as int));
        }
        let d = (s[i] as u32 - '0' as u32) as u64;
        whole = whole * 10 + d;
        if whole > MAX_WHOLE {
            whole = MAX_WHOLE + 1;
        }
        i += 1;
    }
    let mut part: u64 = 0;
    if fraction {
        let ghost frac = s@.subrange(whole_end + 1, frac_end as int);
        part = part + (s[whole_end + 1] as u32 - '0' as u32) as u64 * 100;
        assert(frac[0] == s@[whole_end + 1]);
        if frac_end - whole_end > 2 {
            assert(frac[1] == s@[whole_end + 2]);
            part = part + (s[whole_end + 2] as u32 - '0' as u32) as u64 * 10;
        }
        if frac_end - whole_end > 3 {
            assert(frac[2] == s@[whole_end + 3]);
            part = part + (s[whole_end + 3] as u32 - '0' as u32) as u64;
        }
    }
    let end = if fraction {
        frac_end
    } else {
        whole_end
    };
    if whole > MAX_WHOLE {
        return None;
    }
    let amount: i128 = whole as i128 * 1000 + part as i128;
    let signed: i128 = if negative {
        -amount
    } else {
        amount
    };
    if signed < i64::MIN as i128 || signed > i64::MAX as i128 {
        None
    } else {
        Some((signed as i64, end))
    }
}

/// Reads a length at `pos`.
pub fn read_length(s: &Vec<char>, pos: usize) -> (r: Option<(i64, usize)>)
    requires
        pos <= s.len(),
    ensures
        match r {
            Some((n, end)) => length_at(s@, pos as int) == Some((n, end as int)) && pos < end
                <= s.len(),
            None => length_at(s@, pos as int) is None,
        },
{
    if holds(s, pos, '0') {
        if holds_two(s, pos + 1, 'p', 'x') {
            Some((0, pos + 3))
        } else {
            Some((0, pos + 1))
        }
    } else {
        match read_number(s, pos) {
            Some((amount, end)) => {
                if holds_two(s, end, 'p', 'x') {
                    Some((amount, end + 2))
                } else {
                    None
                }
            },
            None => None,
        }
    }
}

/// Reads a value at `pos`.
pub fn read_value(s: &Vec<char>, pos: usize) -> (r: Option<(Value, usize)>)
    requires
        pos <= s.len(),
    ensures
        match r {
            Some((v, end)) => value_at(s@, pos as int) == Some((v@, end as int)) && pos < end
                <= s.len(),
            None => value_at(s@, pos as int) is None,
        },
{
    match read_color(s, pos) {
        Some((c, end)) => Some((Value::ColorValue(c), end)),
        None => match read_length(s, pos) {
            Some((n, end)) => Some((Value::Length(n, Unit::Px), end)),
            None => match read_identifier(s, pos) {
                Some((word, end)) => Some((Value::Keyword(word), end)),
                None => None,
            },
        },
    }
}

/// A value that is read ends behind where it starts, within the text.
pub proof fn lemma_value_advances(s: Seq<char>, pos: int)
    requires
        0 <= pos <= s.len(),
    ensures
        value_at(s, pos) matches Some((_, end)) ==> pos < end <= s.len(),
{
    lemma_skips(s, pos);
    if pos < s.len() {
        lemma_skips(s, pos + 1);
    }
    if pos + 4 <= s.len() {
        lemma_skips(s, pos + 4);
        match dec_value_at(s, pos + 4) {
            Some((r, p1)) => {
                if p1 < s.len() {
                    lemma_skips(s, p1 + 1);
                    match dec_value_at(s, p1 + 1) {
                        Some((g, p2)) => {
                            if p2 < s.len() {
                                lemma_skips(s, p2 + 1);
                            }
                        },
                        None => {},
                    }
                }
            },
            None => {},
        }
    }
    if pos + 5 <= s.len() {
        lemma_skips(s, pos + 5);
        match dec_value_at(s, pos + 5) {
            Some((r, p1)) => {
                if p1 < s.len() {
                    lemma_skips(s, p1 + 1);
                    match dec_value_at(s, p1 + 1) {
                        Some((g, p2)) => {
                            if p2 < s.len() {
                                lemma_skips(s, p2 + 1);
                                match dec_value_at(s, p2 + 1) {
                                    Some((b, p3)) => {
                                        if p3 < s.len() {
                                            lemma_skips(s, p3 + 1);
                                        }
                                    },
                                    None => {},
                                }
                            }
                        },
                        None => {},
                    }
                }
            },
            None => {},
        }
    }
    let start = if at(s, pos, '-') {
        pos + 1
    } else {
        pos
    };
    if start <= s.len() {
        lemma_skips(s, start);
        let whole_end = skip_digits(s, start);
        if whole_end < s.len() {
            lemma_skips(s, whole_end + 1);
        }
    }
}

} // verus!
