//! The mathematical model of the tokenizer.
//!
//! Every consuming routine of the lexer has a spec-level counterpart here,
//! a pure function of the preprocessed input bytes and a byte offset. The
//! executable lexer is proved to return exactly what these functions
//! denote. The model works on bytes: ASCII dispatch bytes can never occur
//! inside a multi-byte UTF-8 sequence (continuation bytes are `0x80` and
//! above), so scanning and copying byte by byte emits the same tokens as
//! scanning code point by code point, while staying total on arbitrary
//! byte input.

use vstd::prelude::*;
use crate::linecol::{line_of, col_of};
use crate::tokens::{TokenS, NumS, NodeS};

verus! {

// --- byte classes -------------------------------------------------------
pub open spec fn is_digit(b: u8) -> bool {
    0x30 <= b && b <= 0x39
}

pub open spec fn is_hex_digit(b: u8) -> bool {
    is_digit(b) || (0x41 <= b && b <= 0x46) || (0x61 <= b && b <= 0x66)
}

pub open spec fn is_letter(b: u8) -> bool {
    (0x41 <= b && b <= 0x5A) || (0x61 <= b && b <= 0x7A)
}

/// Letters, digits, `-`, `_`, and everything non-ASCII.
pub open spec fn is_name_byte(b: u8) -> bool {
    is_letter(b) || is_digit(b) || b == 0x2Du8 || b == 0x5Fu8 || b >= 0x80
}

/// Space, tab or LF (the only whitespace left after preprocessing).
pub open spec fn is_ws(b: u8) -> bool {
    b == 0x20u8 || b == 0x09u8 || b == 0x0Au8
}

pub open spec fn hex_digit_val(b: u8) -> int {
    if is_digit(b) {
        b - 0x30
    } else if 0x41 <= b && b <= 0x46 {
        b - 0x41 + 10
    } else {
        b - 0x61 + 10
    }
}

/// The value of a big-endian sequence of hex digit bytes.
pub open spec fn hex_value(ds: Seq<u8>) -> int
    decreases ds.len(),
{
    if ds.len() == 0 {
        0
    } else {
        hex_value(ds.drop_last()) * 16 + hex_digit_val(ds.last())
    }
}

/// The value of a big-endian sequence of decimal digit bytes.
pub open spec fn dec_value(ds: Seq<u8>) -> int
    decreases ds.len(),
{
    if ds.len() == 0 {
        0
    } else {
        dec_value(ds.drop_last()) * 10 + (ds.last() - 0x30)
    }
}

/// Clamp a mathematical integer into the `i64` range.
pub open spec fn sat_i64(m: int) -> i64 {
    if m < i64::MIN {
        i64::MIN
    } else if m > i64::MAX {
        i64::MAX
    } else {
        m as i64
    }
}

/// The UTF-8 encoding of a scalar value.
pub open spec fn utf8_bytes(cp: int) -> Seq<u8> {
    if cp < 0x80 {
        seq![cp as u8]
    } else if cp < 0x800 {
        seq![(0xC0 + cp / 0x40) as u8, (0x80 + cp % 0x40) as u8]
    } else if cp < 0x10000 {
        seq![
            (0xE0 + cp / 0x1000) as u8,
            (0x80 + (cp / 0x40) % 0x40) as u8,
            (0x80 + cp % 0x40) as u8,
        ]
    } else {
        seq![
            (0xF0 + cp / 0x40000) as u8,
            (0x80 + (cp / 0x1000) % 0x40) as u8,
            (0x80 + (cp / 0x40) % 0x40) as u8,
            (0x80 + cp % 0x40) as u8,
        ]
    }
}

/// Zero, surrogates and values beyond U+10FFFF all decode to U+FFFD.
pub open spec fn sanitize_cp(cp: int) -> int {
    if cp == 0 || (0xD800 <= cp && cp <= 0xDFFF) || cp > 0x10FFFF {
        0xFFFD
    } else {
        cp
    }
}

/// A backslash at `pos` that does not escape a newline starts an escape.
pub open spec fn is_valid_escape(s: Seq<u8>, pos: int) -> bool {
    0 <= pos < s.len() && s[pos] == 0x5Cu8 && !(pos + 1 < s.len() && s[pos + 1] == 0x0Au8)
}

/// Whether an identifier starts at `pos`.
pub open spec fn sp_is_ident_start(s: Seq<u8>, pos: int) -> bool {
    0 <= pos < s.len() && {
        let b = s[pos];
        if is_letter(b) || b == 0x5Fu8 {
            true
        } else if b == 0x2Du8 {
            pos + 1 < s.len() && {
                let b1 = s[pos + 1];
                is_letter(b1) || b1 == 0x5Fu8 || b1 >= 0x80 || is_valid_escape(s, pos + 1)
            }
        } else if b == 0x5Cu8 {
            is_valid_escape(s, pos)
        } else {
            b >= 0x80
        }
    }
}

// --- runs ---------------------------------------------------------------
/// Up to `max` hex digit bytes starting at `pos`, and the offset after them.
pub open spec fn sp_hex_run(s: Seq<u8>, pos: int, max: int) -> (Seq<u8>, int)
    decreases max,
{
    if max <= 0 || !(0 <= pos < s.len()) || !is_hex_digit(s[pos]) {
        (Seq::empty(), pos)
    } else {
        let (ds, p) = sp_hex_run(s, pos + 1, max - 1);
        (seq![s[pos]] + ds, p)
    }
}

/// The offset after the run of decimal digits starting at `pos`.
pub open spec fn sp_digit_run(s: Seq<u8>, pos: int) -> int
    decreases s.len() - pos,
{
    if 0 <= pos < s.len() && is_digit(s[pos]) {
        sp_digit_run(s, pos + 1)
    } else {
        pos
    }
}

/// The offset after up to `max` question marks starting at `pos`.
pub open spec fn sp_question_run(s: Seq<u8>, pos: int, max: int) -> int
    decreases max,
{
    if max > 0 && 0 <= pos < s.len() && s[pos] == 0x3Fu8 {
        sp_question_run(s, pos + 1, max - 1)
    } else {
        pos
    }
}

/// The offset after the run of whitespace starting at `pos`.
pub open spec fn sp_ws_end(s: Seq<u8>, pos: int) -> int
    decreases s.len() - pos,
{
    if 0 <= pos < s.len() && is_ws(s[pos]) {
        sp_ws_end(s, pos + 1)
    } else {
        pos
    }
}

// --- comments -----------------------------------------------------------
/// Scan from inside a comment to just after the closing `*/`, or to the end.
pub open spec fn sp_comment_body(s: Seq<u8>, pos: int) -> int
    decreases s.len() - pos,
{
    if !(0 <= pos < s.len()) {
        s.len() as int
    } else if s[pos] == 0x2Au8 && pos + 1 < s.len() && s[pos + 1] == 0x2Fu8 {
        pos + 2
    } else {
        sp_comment_body(s, pos + 1)
    }
}

/// Skip any run of back-to-back comments starting at `pos`.
pub open spec fn sp_skip_comments(s: Seq<u8>, pos: int) -> int
    decreases s.len() - pos,
{
    if 0 <= pos && pos + 1 < s.len() && s[pos] == 0x2Fu8 && s[pos + 1] == 0x2Au8 {
        let p = sp_comment_body(s, pos + 2);
        if pos < p <= s.len() {
            sp_skip_comments(s, p)
        } else {
            p
        }
    } else {
        pos
    }
}

// --- escapes and names --------------------------------------------------
/// The bytes contributed by an escape whose backslash is already consumed,
/// and the offset after it. A non-hex byte contributes only itself: for a
/// multi-byte code point the caller's loop copies the continuation bytes,
/// which are name bytes.
pub open spec fn sp_escape(s: Seq<u8>, pos: int) -> (Seq<u8>, int) {
    if !(0 <= pos < s.len()) {
        (utf8_bytes(0xFFFD), pos)
    } else if is_hex_digit(s[pos]) {
        let (ds, p1) = sp_hex_run(s, pos + 1, 5);
        let cp = hex_value(seq![s[pos]] + ds);
        let p2 = if 0 <= p1 < s.len() && (s[p1] == 0x20u8 || s[p1] == 0x09u8 || s[p1]
            == 0x0Au8) {
            p1 + 1
        } else {
            p1
        };
        (utf8_bytes(sanitize_cp(cp)), p2)
    } else {
        (seq![s[pos]], pos + 1)
    }
}

/// The bytes of the name starting at `pos`, and the offset after it.
pub open spec fn sp_name(s: Seq<u8>, pos: int) -> (Seq<u8>, int)
    decreases s.len() - pos,
{
    if !(0 <= pos < s.len()) {
        (Seq::empty(), pos)
    } else {
        let b = s[pos];
        if is_name_byte(b) {
            let (rest, p) = sp_name(s, pos + 1);
            (seq![b] + rest, p)
        } else if is_valid_escape(s, pos) {
            let (eb, p1) = sp_escape(s, pos + 1);
            if pos < p1 <= s.len() {
                let (rest, p2) = sp_name(s, p1);
                (eb + rest, p2)
            } else {
                (eb, p1)
            }
        } else {
            (Seq::empty(), pos)
        }
    }
}

// --- strings ------------------------------------------------------------
/// The body of a quoted string, from just after the opening quote `q`.
/// `None` means the string is bad: it was cut off by an unescaped
/// newline, which is not consumed, or by the end of the input.
pub open spec fn sp_string_body(s: Seq<u8>, pos: int, q: u8) -> (Option<Seq<u8>>, int)
    decreases s.len() - pos,
{
    if !(0 <= pos < s.len()) {
        (None, pos)
    } else {
        let b = s[pos];
        if b == q {
            (Some(Seq::empty()), pos + 1)
        } else if b == 0x0Au8 {
            (None, pos)
        } else if b == 0x5Cu8 {
            if pos + 1 >= s.len() {
                (None, pos + 1)
            } else if s[pos + 1] == 0x0Au8 {
                sp_string_body(s, pos + 2, q)
            } else {
                let (eb, p1) = sp_escape(s, pos + 1);
                if pos < p1 <= s.len() {
                    let (r, p2) = sp_string_body(s, p1, q);
                    (
                        match r {
                            Some(t) => Some(eb + t),
                            None => None,
                        },
                        p2,
                    )
                } else {
                    (Some(eb), p1)
                }
            }
        } else {
            let (r, p2) = sp_string_body(s, pos + 1, q);
            (
                match r {
                    Some(t) => Some(seq![b] + t),
                    None => None,
                },
                p2,
            )
        }
    }
}

/// A quoted string token read from the opening quote at `pos`.
pub open spec fn sp_quoted_string(s: Seq<u8>, pos: int, q: u8) -> (Option<Seq<u8>>, int) {
    sp_string_body(s, pos + 1, q)
}

// --- numbers ------------------------------------------------------------
/// After a `+` or `-` or `.` at `pos`, does a number follow?
pub open spec fn starts_number_after_sign(s: Seq<u8>, pos: int) -> bool {
    (pos + 1 < s.len() && is_digit(s[pos + 1])) || (pos + 2 < s.len() && s[pos + 1] == 0x2Eu8
        && is_digit(s[pos + 2]))
}

/// The signed saturated integer value of an integer literal.
pub open spec fn int_value_of(repr: Seq<u8>) -> i64 {
    if repr.len() > 0 && repr[0] == 0x2Du8 {
        sat_i64(-dec_value(repr.skip(1)))
    } else if repr.len() > 0 && repr[0] == 0x2Bu8 {
        sat_i64(dec_value(repr.skip(1)))
    } else {
        sat_i64(dec_value(repr))
    }
}

/// A numeric token (`Number`, `Percentage` or `Dimension`) starting at `pos`.
pub open spec fn sp_numeric(s: Seq<u8>, pos: int) -> (TokenS, int) {
    let p0 = if 0 <= pos < s.len() && (s[pos] == 0x2Bu8 || s[pos] == 0x2Du8) {
        pos + 1
    } else {
        pos
    };
    let p1 = sp_digit_run(s, p0);
    let frac = p1 + 1 < s.len() && s[p1] == 0x2Eu8 && is_digit(s[p1 + 1]);
    let p2 = if frac {
        sp_digit_run(s, p1 + 2)
    } else {
        p1
    };
    let ex = (p2 + 1 < s.len() && (s[p2] == 0x65u8 || s[p2] == 0x45u8) && is_digit(s[p2 + 1])) || (
    p2 + 2 < s.len() && (s[p2] == 0x65u8 || s[p2] == 0x45u8) && (s[p2 + 1] == 0x2Bu8 || s[p2 + 1]
        == 0x2Du8) && is_digit(s[p2 + 2]));
    let p3 = if ex {
        sp_digit_run(s, p2 + 2)
    } else {
        p2
    };
    let repr = s.subrange(pos, p3);
    let num = NumS {
        representation: repr,
        int_value: if frac || ex {
            None
        } else {
            Some(int_value_of(repr))
        },
    };
    if 0 <= p3 < s.len() && s[p3] == 0x25u8 {
        (TokenS::Percentage(num), p3 + 1)
    } else if sp_is_ident_start(s, p3) {
        let (unit, p4) = sp_name(s, p3);
        (TokenS::Dimension(num, unit), p4)
    } else {
        (TokenS::Number(num), p3)
    }
}

// --- unicode ranges -----------------------------------------------------
pub open spec fn pow16(n: int) -> int
    decreases n,
{
    if n <= 0 {
        1
    } else {
        16 * pow16(n - 1)
    }
}

/// A unicode-range token, from just after the `u+` prefix.
pub open spec fn sp_unicode_range(s: Seq<u8>, pos: int) -> (TokenS, int) {
    let (ds, p1) = sp_hex_run(s, pos, 6);
    let p2 = sp_question_run(s, p1, 6 - ds.len());
    if p2 > p1 {
        let q = p2 - p1;
        (
            TokenS::UnicodeRange(
                (hex_value(ds) * pow16(q)) as u32,
                (hex_value(ds) * pow16(q) + pow16(q) - 1) as u32,
            ),
            p2,
        )
    } else {
        let start = hex_value(ds) as u32;
        if 0 <= p1 < s.len() && s[p1] == 0x2Du8 {
            let (ds2, p3) = sp_hex_run(s, p1 + 1, 6);
            if ds2.len() > 0 {
                (TokenS::UnicodeRange(start, hex_value(ds2) as u32), p3)
            } else {
                (TokenS::UnicodeRange(start, start), p3)
            }
        } else {
            (TokenS::UnicodeRange(start, start), p1)
        }
    }
}

// --- urls ---------------------------------------------------------------
/// Bad-url recovery: consume up to and including the next `)`. A byte
/// after a backslash is skipped (clamped at the end of the input).
pub open spec fn sp_bad_url(s: Seq<u8>, pos: int) -> int
    decreases s.len() - pos,
{
    if !(0 <= pos < s.len()) {
        pos
    } else if s[pos] == 0x29u8 {
        pos + 1
    } else if s[pos] == 0x5Cu8 {
        if pos + 2 <= s.len() {
            sp_bad_url(s, pos + 2)
        } else {
            s.len() as int
        }
    } else {
        sp_bad_url(s, pos + 1)
    }
}

/// After a quoted url body: only whitespace then `)` may follow.
pub open spec fn sp_url_end(s: Seq<u8>, pos: int, content: Seq<u8>) -> (TokenS, int)
    decreases s.len() - pos,
{
    if !(0 <= pos < s.len()) {
        (TokenS::URL(content), pos)
    } else if is_ws(s[pos]) {
        sp_url_end(s, pos + 1, content)
    } else if s[pos] == 0x29u8 {
        (TokenS::URL(content), pos + 1)
    } else {
        (TokenS::BadURL, sp_bad_url(s, pos + 1))
    }
}

/// Prefix bytes onto the content of a URL token; other tokens pass through.
pub open spec fn prepend_url(pre: Seq<u8>, t: TokenS) -> TokenS {
    match t {
        TokenS::URL(c) => TokenS::URL(pre + c),
        _ => t,
    }
}

/// An unquoted url body starting at `pos`.
pub open spec fn sp_unquoted_url(s: Seq<u8>, pos: int) -> (TokenS, int)
    decreases s.len() - pos,
{
    if !(0 <= pos < s.len()) {
        (TokenS::URL(Seq::empty()), pos)
    } else {
        let b = s[pos];
        if b == 0x20u8 || b == 0x09u8 || b == 0x0Au8 {
            sp_url_end(s, pos + 1, Seq::empty())
        } else if b == 0x29u8 {
            (TokenS::URL(Seq::empty()), pos + 1)
        } else if b <= 0x08u8 || b == 0x0Bu8 || (0x0Eu8 <= b && b <= 0x1Fu8) || b == 0x7Fu8 || b
            == 0x22u8 || b == 0x27u8 || b == 0x28u8 {
            (TokenS::BadURL, sp_bad_url(s, pos + 1))
        } else if b == 0x5Cu8 {
            if pos + 1 < s.len() && s[pos + 1] == 0x0Au8 {
                (TokenS::BadURL, sp_bad_url(s, pos + 1))
            } else {
                let (eb, p1) = sp_escape(s, pos + 1);
                if pos < p1 <= s.len() {
                    let (t, p2) = sp_unquoted_url(s, p1);
                    (prepend_url(eb, t), p2)
                } else {
                    (TokenS::URL(eb), p1)
                }
            }
        } else {
            let (t, p2) = sp_unquoted_url(s, pos + 1);
            (prepend_url(seq![b], t), p2)
        }
    }
}

/// A url token, from just after `url(`: skip whitespace, then dispatch on
/// a quote, a closing paren, or an unquoted body.
pub open spec fn sp_url_lead(s: Seq<u8>, pos: int) -> (TokenS, int)
    decreases s.len() - pos,
{
    if !(0 <= pos < s.len()) {
        (TokenS::URL(Seq::empty()), pos)
    } else {
        let b = s[pos];
        if is_ws(b) {
            sp_url_lead(s, pos + 1)
        } else if b == 0x22u8 || b == 0x27u8 {
            let (o, p1) = sp_quoted_string(s, pos, b);
            match o {
                Some(v) => sp_url_end(s, p1, v),
                None => (TokenS::BadURL, sp_bad_url(s, p1)),
            }
        } else if b == 0x29u8 {
            (TokenS::URL(Seq::empty()), pos + 1)
        } else {
            sp_unquoted_url(s, pos)
        }
    }
}

// --- identifiers and dispatch -------------------------------------------
/// The name `url`, ASCII case-insensitively.
pub open spec fn is_url_kw(n: Seq<u8>) -> bool {
    n.len() == 3 && (n[0] == 0x75u8 || n[0] == 0x55u8) && (n[1] == 0x72u8 || n[1] == 0x52u8) && (
    n[2] == 0x6Cu8 || n[2] == 0x4Cu8)
}

/// An identifier-like token: `Ident`, `Function` or a url token.
pub open spec fn sp_ident_like(s: Seq<u8>, pos: int) -> (TokenS, int) {
    let (name, p) = sp_name(s, pos);
    if 0 <= p < s.len() && s[p] == 0x28u8 {
        if is_url_kw(name) {
            sp_url_lead(s, p + 1)
        } else {
            (TokenS::Function(name), p + 1)
        }
    } else {
        (TokenS::Ident(name), p)
    }
}

/// Wrap the result of a quoted string read into a token.
pub open spec fn string_token(r: (Option<Seq<u8>>, int)) -> (TokenS, int) {
    match r.0 {
        Some(v) => (TokenS::String(v), r.1),
        None => (TokenS::BadString, r.1),
    }
}

/// The top-level dispatch: the token starting at `pos` (not at the end of
/// the input, comments already skipped) and the offset after it.
pub open spec fn sp_next_token(s: Seq<u8>, pos: int) -> (TokenS, int) {
    if !(0 <= pos < s.len()) {
        (TokenS::WhiteSpace, pos)
    } else {
        let b = s[pos];
        if is_ws(b) {
            (TokenS::WhiteSpace, sp_ws_end(s, pos))
        } else if b == 0x22u8 {
            string_token(sp_quoted_string(s, pos, 0x22u8))
        } else if b == 0x23u8 {
            if sp_is_ident_start(s, pos + 1) {
                let (n, p) = sp_name(s, pos + 1);
                (TokenS::IDHash(n), p)
            } else if pos + 1 < s.len() && (is_letter(s[pos + 1]) || is_digit(s[pos + 1]) || s[pos
                + 1] == 0x2Du8 || s[pos + 1] == 0x5Fu8 || is_valid_escape(s, pos + 1)) {
                let (n, p) = sp_name(s, pos + 1);
                (TokenS::Hash(n), p)
            } else {
                (TokenS::Delim('#'), pos + 1)
            }
        } else if b == 0x24u8 {
            if pos + 1 < s.len() && s[pos + 1] == 0x3Du8 {
                (TokenS::SuffixMatch, pos + 2)
            } else {
                (TokenS::Delim('$'), pos + 1)
            }
        } else if b == 0x27u8 {
            string_token(sp_quoted_string(s, pos, 0x27u8))
        } else if b == 0x28u8 {
            (TokenS::LeftParen, pos + 1)
        } else if b == 0x29u8 {
            (TokenS::RightParen, pos + 1)
        } else if b == 0x2Au8 {
            if pos + 1 < s.len() && s[pos + 1] == 0x3Du8 {
                (TokenS::SubstringMatch, pos + 2)
            } else {
                (TokenS::Delim('*'), pos + 1)
            }
        } else if b == 0x2Bu8 {
            if starts_number_after_sign(s, pos) {
                sp_numeric(s, pos)
            } else {
                (TokenS::Delim('+'), pos + 1)
            }
        } else if b == 0x2Cu8 {
            (TokenS::Comma, pos + 1)
        } else if b == 0x2Du8 {
            if starts_number_after_sign(s, pos) {
                sp_numeric(s, pos)
            } else if sp_is_ident_start(s, pos) {
                sp_ident_like(s, pos)
            } else if pos + 2 < s.len() && s[pos + 1] == 0x2Du8 && s[pos + 2] == 0x3Eu8 {
                (TokenS::CDC, pos + 3)
            } else {
                (TokenS::Delim('-'), pos + 1)
            }
        } else if b == 0x2Eu8 {
            if pos + 1 < s.len() && is_digit(s[pos + 1]) {
                sp_numeric(s, pos)
            } else {
                (TokenS::Delim('.'), pos + 1)
            }
        } else if b == 0x3Au8 {
            (TokenS::Colon, pos + 1)
        } else if b == 0x3Bu8 {
            (TokenS::Semicolon, pos + 1)
        } else if b == 0x3Cu8 {
            if pos + 3 < s.len() && s[pos + 1] == 0x21u8 && s[pos + 2] == 0x2Du8 && s[pos + 3]
                == 0x2Du8 {
                (TokenS::CDO, pos + 4)
            } else {
                (TokenS::Delim('<'), pos + 1)
            }
        } else if b == 0x40u8 {
            if sp_is_ident_start(s, pos + 1) {
                let (n, p) = sp_name(s, pos + 1);
                (TokenS::AtKeyword(n), p)
            } else {
                (TokenS::Delim('@'), pos + 1)
            }
        } else if b == 0x5Bu8 {
            (TokenS::LeftBracket, pos + 1)
        } else if b == 0x5Cu8 {
            if is_valid_escape(s, pos) {
                sp_ident_like(s, pos)
            } else {
                (TokenS::Delim('\\'), pos + 1)
            }
        } else if b == 0x5Du8 {
            (TokenS::RightBracket, pos + 1)
        } else if b == 0x5Eu8 {
            if pos + 1 < s.len() && s[pos + 1] == 0x3Du8 {
                (TokenS::PrefixMatch, pos + 2)
            } else {
                (TokenS::Delim('^'), pos + 1)
            }
        } else if b == 0x7Bu8 {
            (TokenS::LeftCurlyBracket, pos + 1)
        } else if b == 0x7Du8 {
            (TokenS::RightCurlyBracket, pos + 1)
        } else if is_digit(b) {
            sp_numeric(s, pos)
        } else if b == 0x75u8 || b == 0x55u8 {
            if pos + 2 < s.len() && s[pos + 1] == 0x2Bu8 && (is_hex_digit(s[pos + 2]) || s[pos + 2]
                == 0x3Fu8) {
                sp_unicode_range(s, pos + 2)
            } else {
                sp_ident_like(s, pos)
            }
        } else if is_letter(b) || b == 0x5Fu8 {
            sp_ident_like(s, pos)
        } else if b == 0x7Cu8 {
            if pos + 1 < s.len() && s[pos + 1] == 0x3Du8 {
                (TokenS::DashMatch, pos + 2)
            } else if pos + 1 < s.len() && s[pos + 1] == 0x7Cu8 {
                (TokenS::Column, pos + 2)
            } else {
                (TokenS::Delim('|'), pos + 1)
            }
        } else if b == 0x7Eu8 {
            if pos + 1 < s.len() && s[pos + 1] == 0x3Du8 {
                (TokenS::IncludeMatch, pos + 2)
            } else {
                (TokenS::Delim('~'), pos + 1)
            }
        } else if b >= 0x80 {
            sp_ident_like(s, pos)
        } else {
            (TokenS::Delim(b as char), pos + 1)
        }
    }
}

/// One step of the tokenizer: skip comments, then either report the end of
/// the input or emit the next token with the location of its first byte.
pub struct StepS {
    pub node: Option<NodeS>,
    pub end: int,
}

pub open spec fn sp_next_node(s: Seq<u8>, pos: int) -> StepS {
    let p = sp_skip_comments(s, pos);
    if !(0 <= p < s.len()) {
        StepS { node: None, end: p }
    } else {
        let (t, p2) = sp_next_token(s, p);
        StepS {
            node: Some(NodeS { token: t, line: line_of(s, p), column: col_of(s, p) }),
            end: p2,
        }
    }
}

} // verus!
