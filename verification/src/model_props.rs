//! Bounds and progress facts about the tokenizer model.
//!
//! Every consuming function of the model moves the offset forward and
//! never past the end of the input; at the top level, a token always
//! consumes at least one byte. These facts justify the termination of the
//! token stream and are what every loop in the executable lexer leans on.

use vstd::prelude::*;
use crate::model::{
    is_digit, is_hex_digit, is_letter, is_name_byte, is_ws, is_valid_escape, is_url_kw,
    sp_is_ident_start, sp_hex_run, sp_digit_run, sp_question_run, sp_ws_end, sp_comment_body,
    sp_skip_comments, sp_escape, sp_name, sp_string_body, sp_quoted_string, sp_bad_url,
    sp_url_end, sp_unquoted_url, sp_url_lead, sp_numeric, starts_number_after_sign,
    sp_unicode_range, sp_ident_like, sp_next_token, sp_next_node, hex_value, hex_digit_val,
    dec_value, pow16, prepend_url,
};

verus! {

pub proof fn lemma_hex_run(s: Seq<u8>, pos: int, max: int)
    requires
        0 <= pos <= s.len(),
    ensures
        pos <= sp_hex_run(s, pos, max).1 <= s.len(),
        sp_hex_run(s, pos, max).0.len() == sp_hex_run(s, pos, max).1 - pos,
        max >= 0 ==> sp_hex_run(s, pos, max).0.len() <= max,
        forall|i: int|
            0 <= i < sp_hex_run(s, pos, max).0.len() ==> is_hex_digit(
                #[trigger] sp_hex_run(s, pos, max).0[i],
            ),
    decreases max,
{
    if !(max <= 0 || !(0 <= pos < s.len()) || !is_hex_digit(s[pos])) {
        lemma_hex_run(s, pos + 1, max - 1);
    }
}

pub proof fn lemma_hex_value_push(ds: Seq<u8>, d: u8)
    ensures
        hex_value(ds.push(d)) == hex_value(ds) * 16 + hex_digit_val(d),
{
    assert(ds.push(d).drop_last() =~= ds);
}

pub proof fn lemma_dec_value_push(ds: Seq<u8>, d: u8)
    ensures
        dec_value(ds.push(d)) == dec_value(ds) * 10 + (d - 0x30),
{
    assert(ds.push(d).drop_last() =~= ds);
}

pub proof fn lemma_pow16_pos(n: int)
    ensures
        pow16(n) >= 1,
    decreases n,
{
    if n > 0 {
        lemma_pow16_pos(n - 1);
    }
}

/// A sequence of hex digit bytes denotes a value below sixteen to its length.
pub proof fn lemma_hex_value_bound(ds: Seq<u8>)
    requires
        forall|i: int| 0 <= i < ds.len() ==> is_hex_digit(#[trigger] ds[i]),
    ensures
        0 <= hex_value(ds) < pow16(ds.len() as int),
    decreases ds.len(),
{
    if ds.len() == 0 {
    } else {
        assert(forall|i: int|
            0 <= i < ds.drop_last().len() ==> is_hex_digit(#[trigger] ds.drop_last()[i]));
        lemma_hex_value_bound(ds.drop_last());
        assert(is_hex_digit(ds.last()));
        assert(0 <= hex_digit_val(ds.last()) < 16);
    }
}

pub proof fn lemma_digit_run(s: Seq<u8>, pos: int)
    requires
        0 <= pos <= s.len(),
    ensures
        pos <= sp_digit_run(s, pos) <= s.len(),
    decreases s.len() - pos,
{
    if 0 <= pos < s.len() && is_digit(s[pos]) {
        lemma_digit_run(s, pos + 1);
    }
}

pub proof fn lemma_question_run(s: Seq<u8>, pos: int, max: int)
    requires
        0 <= pos <= s.len(),
    ensures
        pos <= sp_question_run(s, pos, max) <= s.len(),
    decreases max,
{
    if max > 0 && 0 <= pos < s.len() && s[pos] == 0x3Fu8 {
        lemma_question_run(s, pos + 1, max - 1);
    }
}

pub proof fn lemma_ws_end(s: Seq<u8>, pos: int)
    requires
        0 <= pos <= s.len(),
    ensures
        pos <= sp_ws_end(s, pos) <= s.len(),
    decreases s.len() - pos,
{
    if 0 <= pos < s.len() && is_ws(s[pos]) {
        lemma_ws_end(s, pos + 1);
    }
}

pub proof fn lemma_comment_body(s: Seq<u8>, pos: int)
    requires
        0 <= pos <= s.len(),
    ensures
        pos <= sp_comment_body(s, pos) <= s.len(),
    decreases s.len() - pos,
{
    if 0 <= pos < s.len() && !(s[pos] == 0x2Au8 && pos + 1 < s.len() && s[pos + 1] == 0x2Fu8) {
        lemma_comment_body(s, pos + 1);
    }
}

pub proof fn lemma_skip_comments(s: Seq<u8>, pos: int)
    requires
        0 <= pos <= s.len(),
    ensures
        pos <= sp_skip_comments(s, pos) <= s.len(),
    decreases s.len() - pos,
{
    if 0 <= pos && pos + 1 < s.len() && s[pos] == 0x2Fu8 && s[pos + 1] == 0x2Au8 {
        lemma_comment_body(s, pos + 2);
        let p = sp_comment_body(s, pos + 2);
        lemma_skip_comments(s, p);
    }
}

pub proof fn lemma_escape(s: Seq<u8>, pos: int)
    requires
        0 <= pos <= s.len(),
    ensures
        pos <= sp_escape(s, pos).1 <= s.len(),
        pos < s.len() ==> sp_escape(s, pos).1 > pos,
{
    if 0 <= pos < s.len() && is_hex_digit(s[pos]) {
        lemma_hex_run(s, pos + 1, 5);
    }
}

pub proof fn lemma_name(s: Seq<u8>, pos: int)
    requires
        0 <= pos <= s.len(),
    ensures
        pos <= sp_name(s, pos).1 <= s.len(),
        pos < s.len() && (is_name_byte(s[pos]) || is_valid_escape(s, pos)) ==> sp_name(s, pos).1
            > pos,
    decreases s.len() - pos,
{
    if 0 <= pos < s.len() {
        let b = s[pos];
        if is_name_byte(b) {
            lemma_name(s, pos + 1);
        } else if is_valid_escape(s, pos) {
            lemma_escape(s, pos + 1);
            let (eb, p1) = sp_escape(s, pos + 1);
            if pos < p1 <= s.len() {
                lemma_name(s, p1);
            }
        }
    }
}

pub proof fn lemma_string_body(s: Seq<u8>, pos: int, q: u8)
    requires
        0 <= pos <= s.len(),
    ensures
        pos <= sp_string_body(s, pos, q).1 <= s.len(),
    decreases s.len() - pos,
{
    if 0 <= pos < s.len() {
        let b = s[pos];
        if b == q || b == 0x0Au8 {
        } else if b == 0x5Cu8 {
            if pos + 1 >= s.len() {
            } else if s[pos + 1] == 0x0Au8 {
                lemma_string_body(s, pos + 2, q);
            } else {
                lemma_escape(s, pos + 1);
                let (eb, p1) = sp_escape(s, pos + 1);
                if pos < p1 <= s.len() {
                    lemma_string_body(s, p1, q);
                }
            }
        } else {
            lemma_string_body(s, pos + 1, q);
        }
    }
}

pub proof fn lemma_bad_url(s: Seq<u8>, pos: int)
    requires
        0 <= pos <= s.len(),
    ensures
        pos <= sp_bad_url(s, pos) <= s.len(),
    decreases s.len() - pos,
{
    if 0 <= pos < s.len() {
        if s[pos] == 0x29u8 {
        } else if s[pos] == 0x5Cu8 {
            if pos + 2 <= s.len() {
                lemma_bad_url(s, pos + 2);
            }
        } else {
            lemma_bad_url(s, pos + 1);
        }
    }
}

pub proof fn lemma_url_end(s: Seq<u8>, pos: int, content: Seq<u8>)
    requires
        0 <= pos <= s.len(),
    ensures
        pos <= sp_url_end(s, pos, content).1 <= s.len(),
    decreases s.len() - pos,
{
    if 0 <= pos < s.len() {
        if is_ws(s[pos]) {
            lemma_url_end(s, pos + 1, content);
        } else if s[pos] == 0x29u8 {
        } else {
            lemma_bad_url(s, pos + 1);
        }
    }
}

/// The content carried into `sp_url_end` only rides along: the stop
/// position ignores it, and the token is the empty-content token with the
/// content prefixed.
pub proof fn lemma_url_end_content(s: Seq<u8>, pos: int, c: Seq<u8>)
    ensures
        sp_url_end(s, pos, c).1 == sp_url_end(s, pos, Seq::<u8>::empty()).1,
        sp_url_end(s, pos, c).0 == prepend_url(c, sp_url_end(s, pos, Seq::<u8>::empty()).0),
    decreases s.len() - pos,
{
    if 0 <= pos < s.len() && is_ws(s[pos]) {
        lemma_url_end_content(s, pos + 1, c);
    }
    assert(c + Seq::<u8>::empty() =~= c);
}

pub proof fn lemma_pow16_add(a: int, b: int)
    requires
        a >= 0,
        b >= 0,
    ensures
        pow16(a + b) == pow16(a) * pow16(b),
    decreases a,
{
    if a > 0 {
        lemma_pow16_add(a - 1, b);
        assert(pow16(a + b) == 16 * (pow16(a - 1) * pow16(b))) by {
            assert(pow16(a + b) == 16 * pow16(a - 1 + b));
        }
        assert(16 * (pow16(a - 1) * pow16(b)) == (16 * pow16(a - 1)) * pow16(b)) by (
        nonlinear_arith);
    }
}

pub proof fn lemma_unquoted_url(s: Seq<u8>, pos: int)
    requires
        0 <= pos <= s.len(),
    ensures
        pos <= sp_unquoted_url(s, pos).1 <= s.len(),
    decreases s.len() - pos,
{
    if 0 <= pos < s.len() {
        let b = s[pos];
        if b == 0x20u8 || b == 0x09u8 || b == 0x0Au8 {
            lemma_url_end(s, pos + 1, Seq::empty());
        } else if b == 0x29u8 {
        } else if b <= 0x08u8 || b == 0x0Bu8 || (0x0Eu8 <= b && b <= 0x1Fu8) || b == 0x7Fu8 || b
            == 0x22u8 || b == 0x27u8 || b == 0x28u8 {
            lemma_bad_url(s, pos + 1);
        } else if b == 0x5Cu8 {
            if pos + 1 < s.len() && s[pos + 1] == 0x0Au8 {
                lemma_bad_url(s, pos + 1);
            } else {
                lemma_escape(s, pos + 1);
                let (eb, p1) = sp_escape(s, pos + 1);
                if pos < p1 <= s.len() {
                    lemma_unquoted_url(s, p1);
                }
            }
        } else {
            lemma_unquoted_url(s, pos + 1);
        }
    }
}

pub proof fn lemma_url_lead(s: Seq<u8>, pos: int)
    requires
        0 <= pos <= s.len(),
    ensures
        pos <= sp_url_lead(s, pos).1 <= s.len(),
    decreases s.len() - pos,
{
    if 0 <= pos < s.len() {
        let b = s[pos];
        if is_ws(b) {
            lemma_url_lead(s, pos + 1);
        } else if b == 0x22u8 || b == 0x27u8 {
            lemma_string_body(s, pos + 1, b);
            let (o, p1) = sp_quoted_string(s, pos, b);
            match o {
                Some(v) => lemma_url_end(s, p1, v),
                None => lemma_bad_url(s, p1),
            }
        } else if b == 0x29u8 {
        } else {
            lemma_unquoted_url(s, pos);
        }
    }
}

pub proof fn lemma_numeric(s: Seq<u8>, pos: int)
    requires
        0 <= pos <= s.len(),
    ensures
        pos <= sp_numeric(s, pos).1 <= s.len(),
        pos < s.len() && (is_digit(s[pos]) || ((s[pos] == 0x2Bu8 || s[pos] == 0x2Du8)
            && starts_number_after_sign(s, pos)) || (s[pos] == 0x2Eu8 && pos + 1 < s.len()
            && is_digit(s[pos + 1]))) ==> sp_numeric(s, pos).1 > pos,
{
    let p0 = if 0 <= pos < s.len() && (s[pos] == 0x2Bu8 || s[pos] == 0x2Du8) {
        pos + 1
    } else {
        pos
    };
    lemma_digit_run(s, p0);
    if 0 <= p0 < s.len() && is_digit(s[p0]) {
        lemma_digit_run(s, p0 + 1);
        assert(sp_digit_run(s, p0) == sp_digit_run(s, p0 + 1));
    }
    let p1 = sp_digit_run(s, p0);
    let frac = p1 + 1 < s.len() && s[p1] == 0x2Eu8 && is_digit(s[p1 + 1]);
    if frac {
        lemma_digit_run(s, p1 + 2);
    }
    let p2 = if frac {
        sp_digit_run(s, p1 + 2)
    } else {
        p1
    };
    let ex = (p2 + 1 < s.len() && (s[p2] == 0x65u8 || s[p2] == 0x45u8) && is_digit(s[p2 + 1])) || (
    p2 + 2 < s.len() && (s[p2] == 0x65u8 || s[p2] == 0x45u8) && (s[p2 + 1] == 0x2Bu8 || s[p2 + 1]
        == 0x2Du8) && is_digit(s[p2 + 2]));
    if ex {
        lemma_digit_run(s, p2 + 2);
    }
    let p3 = if ex {
        sp_digit_run(s, p2 + 2)
    } else {
        p2
    };
    if !(0 <= p3 < s.len() && s[p3] == 0x25u8) && sp_is_ident_start(s, p3) {
        lemma_name(s, p3);
    }
}

pub proof fn lemma_unicode_range(s: Seq<u8>, pos: int)
    requires
        0 <= pos <= s.len(),
    ensures
        pos <= sp_unicode_range(s, pos).1 <= s.len(),
{
    lemma_hex_run(s, pos, 6);
    let (ds, p1) = sp_hex_run(s, pos, 6);
    lemma_question_run(s, p1, 6 - ds.len() as int);
    let p2 = sp_question_run(s, p1, 6 - ds.len() as int);
    if !(p2 > p1) && 0 <= p1 < s.len() && s[p1] == 0x2Du8 {
        lemma_hex_run(s, p1 + 1, 6);
    }
}

pub proof fn lemma_ident_like(s: Seq<u8>, pos: int)
    requires
        0 <= pos <= s.len(),
    ensures
        pos <= sp_ident_like(s, pos).1 <= s.len(),
        pos < s.len() && (is_name_byte(s[pos]) || is_valid_escape(s, pos)) ==> sp_ident_like(
            s,
            pos,
        ).1 > pos,
{
    lemma_name(s, pos);
    let (name, p) = sp_name(s, pos);
    if 0 <= p < s.len() && s[p] == 0x28u8 {
        if is_url_kw(name) {
            lemma_url_lead(s, p + 1);
        }
    }
}

/// A token is never empty: the dispatch always consumes at least one byte
/// and never runs past the end of the input.
pub proof fn lemma_next_token(s: Seq<u8>, pos: int)
    requires
        0 <= pos < s.len(),
    ensures
        pos < sp_next_token(s, pos).1 <= s.len(),
{
    let b = s[pos];
    if is_ws(b) {
        lemma_ws_end(s, pos + 1);
        assert(sp_ws_end(s, pos) == sp_ws_end(s, pos + 1));
    } else if b == 0x22u8 || b == 0x27u8 {
        lemma_string_body(s, pos + 1, b);
    } else if b == 0x23u8 {
        if sp_is_ident_start(s, pos + 1) {
            lemma_name(s, pos + 1);
        } else if pos + 1 < s.len() && (is_letter(s[pos + 1]) || is_digit(s[pos + 1]) || s[pos + 1]
            == 0x2Du8 || s[pos + 1] == 0x5Fu8 || is_valid_escape(s, pos + 1)) {
            lemma_name(s, pos + 1);
        }
    } else if b == 0x2Bu8 || b == 0x2Eu8 || is_digit(b) {
        lemma_numeric(s, pos);
    } else if b == 0x2Du8 {
        if starts_number_after_sign(s, pos) {
            lemma_numeric(s, pos);
        } else if sp_is_ident_start(s, pos) {
            lemma_ident_like(s, pos);
        }
    } else if b == 0x40u8 {
        if sp_is_ident_start(s, pos + 1) {
            lemma_name(s, pos + 1);
        }
    } else if b == 0x5Cu8 {
        if is_valid_escape(s, pos) {
            lemma_ident_like(s, pos);
        }
    } else if b == 0x75u8 || b == 0x55u8 {
        if pos + 2 < s.len() && s[pos + 1] == 0x2Bu8 && (is_hex_digit(s[pos + 2]) || s[pos + 2]
            == 0x3Fu8) {
            lemma_unicode_range(s, pos + 2);
        } else {
            lemma_ident_like(s, pos);
        }
    } else if is_letter(b) || b == 0x5Fu8 || b >= 0x80 {
        lemma_ident_like(s, pos);
    }
}

/// One tokenizer step either reports the end of the input (with the offset
/// at the end, after trailing comments) or moves strictly forward.
pub proof fn lemma_next_node(s: Seq<u8>, pos: int)
    requires
        0 <= pos <= s.len(),
    ensures
        pos <= sp_next_node(s, pos).end <= s.len(),
        sp_next_node(s, pos).node is Some ==> sp_next_node(s, pos).end > pos,
        sp_next_node(s, pos).node is None ==> sp_next_node(s, pos).end == s.len(),
{
    lemma_skip_comments(s, pos);
    let p = sp_skip_comments(s, pos);
    if 0 <= p < s.len() {
        lemma_next_token(s, p);
    }
}

} // verus!
