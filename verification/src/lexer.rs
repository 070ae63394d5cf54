//! The executable tokenizer.
//!
//! A `Tokenizer` borrows a preprocessed byte buffer and carries a byte
//! position plus a running line counter. Every consuming routine is proved
//! to land exactly where its model counterpart in [`crate::model`] says,
//! and to emit exactly the token the model denotes. The line counter is
//! re-derived from the bytes that were passed over, so a location is
//! always `line_of`/`col_of` of the token's first byte.

use vstd::prelude::*;
use crate::linecol::{line_of, lls_of, scan_line_state, lemma_lls_bound, lemma_location_valid};
use crate::model::{is_digit, is_hex_digit, is_letter, is_name_byte, is_ws, is_valid_escape,
    sp_is_ident_start, sp_hex_run, sp_digit_run, sp_question_run, sp_ws_end, sp_comment_body,
    sp_skip_comments, sp_escape, sp_name, sp_string_body, sp_quoted_string, sp_bad_url,
    sp_url_end, sp_unquoted_url, sp_url_lead, sp_numeric, starts_number_after_sign,
    sp_unicode_range, sp_ident_like, sp_next_token, sp_next_node, string_token, prepend_url,
    is_url_kw, hex_value, hex_digit_val, dec_value, pow16, utf8_bytes, sanitize_cp, int_value_of};
use crate::model_props::{lemma_hex_run, lemma_hex_value_push, lemma_dec_value_push,
    lemma_pow16_pos, lemma_hex_value_bound, lemma_digit_run, lemma_question_run, lemma_ws_end,
    lemma_comment_body, lemma_skip_comments, lemma_escape, lemma_name, lemma_string_body,
    lemma_bad_url, lemma_unquoted_url, lemma_next_token, lemma_next_node,
    lemma_url_end_content, lemma_pow16_add};
use crate::preprocess::{preprocess, preprocess_spec, lemma_preprocess_len};
use crate::tokens::{NumericValue, SourceLocation, Token, TokenS, Node, NodeS, node_view,
    nodes_view, lemma_nodes_view_push};
use crate::streams::sp_stream;

verus! {

/// A restartable lexer over a shared, already preprocessed byte buffer.
pub struct Tokenizer<'a> {
    pub input: &'a [u8],
    pub length: usize,
    pub position: usize,
    pub line: usize,
    pub last_line_start: usize,
}

impl<'a> Tokenizer<'a> {
    /// The input bytes, as a sequence.
    pub open spec fn src(self) -> Seq<u8> {
        self.input@
    }

    /// The current byte offset.
    pub open spec fn pos(self) -> int {
        self.position as int
    }

    /// Structural invariant: the cached length is the input's length and
    /// the position stays inside the buffer.
    pub open spec fn inv(self) -> bool {
        self.length == self.input@.len() && self.position <= self.length && self.length
            < usize::MAX
    }

    /// Full well-formedness: on top of `inv`, the line counters agree
    /// with the line/column functions of the input at the position.
    pub open spec fn wf(self) -> bool {
        self.inv() && self.line as int == line_of(self.input@, self.position as int)
            && self.last_line_start as int == lls_of(self.input@, self.position as int)
    }

    /// The consuming routines move the position but never touch the text
    /// or the line bookkeeping.
    pub open spec fn keeps_text(self, other: Tokenizer<'a>) -> bool {
        self.input == other.input && self.length == other.length && self.line == other.line
            && self.last_line_start == other.last_line_start
    }

    /// A tokenizer at the start of `input`, which must already be
    /// preprocessed.
    pub fn new(input: &'a [u8]) -> (t: Tokenizer<'a>)
        requires
            input@.len() < usize::MAX,
        ensures
            t.wf(),
            t.src() == input@,
            t.pos() == 0,
    {
        Tokenizer { length: input.len(), input, position: 0, line: 1, last_line_start: 0 }
    }

    /// A tokenizer placed at byte offset `start` of `input`, with the line
    /// counters derived from the bytes before `start`.
    pub fn from_offset(input: &'a [u8], start: usize) -> (t: Tokenizer<'a>)
        requires
            start <= input@.len() < usize::MAX,
        ensures
            t.wf(),
            t.src() == input@,
            t.pos() == start as int,
    {
        let (line, lls) = scan_line_state(input, 1, 0, 0, start);
        Tokenizer { length: input.len(), input, position: start, line, last_line_start: lls }
    }

    /// Produce the next node, or nothing at the end of the input.
    pub fn next(&mut self) -> (r: Option<Node>)
        requires
            old(self).wf(),
        ensures
            final(self).wf(),
            final(self).src() == old(self).src(),
            final(self).pos() == sp_next_node(old(self).src(), old(self).pos()).end,
            match (r, sp_next_node(old(self).src(), old(self).pos()).node) {
                (Some(node), Some(m)) => node_view(node) == m,
                (None, None) => true,
                _ => false,
            },
            r is Some ==> final(self).pos() > old(self).pos(),
            r matches Some(node) ==> node.1.line >= 1 && node.1.column >= 1,
    {
        next_token(self)
    }
}

// --- byte class tests ---------------------------------------------------
fn byte_is_digit(b: u8) -> (r: bool)
    ensures
        r == is_digit(b),
{
    0x30u8 <= b && b <= 0x39u8
}

fn byte_is_hex(b: u8) -> (r: bool)
    ensures
        r == is_hex_digit(b),
{
    (0x30u8 <= b && b <= 0x39u8) || (0x41u8 <= b && b <= 0x46u8) || (0x61u8 <= b && b <= 0x66u8)
}

fn byte_is_letter(b: u8) -> (r: bool)
    ensures
        r == is_letter(b),
{
    (0x41u8 <= b && b <= 0x5Au8) || (0x61u8 <= b && b <= 0x7Au8)
}

fn byte_is_name(b: u8) -> (r: bool)
    ensures
        r == is_name_byte(b),
{
    byte_is_letter(b) || byte_is_digit(b) || b == 0x2Du8 || b == 0x5Fu8 || b >= 0x80
}

fn byte_is_ws(b: u8) -> (r: bool)
    ensures
        r == is_ws(b),
{
    b == 0x20u8 || b == 0x09u8 || b == 0x0Au8
}

fn hex_val_u8(b: u8) -> (r: u8)
    requires
        is_hex_digit(b),
    ensures
        r as int == hex_digit_val(b),
{
    if 0x30u8 <= b && b <= 0x39u8 {
        b - 0x30
    } else if 0x41u8 <= b && b <= 0x46u8 {
        b - 0x41 + 10
    } else {
        b - 0x61 + 10
    }
}

// --- comments -----------------------------------------------------------
/// Skip every comment starting at the current position. Unterminated
/// comments are consumed to the end of the input silently.
#[verifier::loop_isolation(false)]
pub fn consume_comments(t: &mut Tokenizer)
    requires
        old(t).inv(),
    ensures
        final(t).inv(),
        old(t).keeps_text(*final(t)),
        final(t).pos() == sp_skip_comments(old(t).src(), old(t).pos()),
        final(t).pos() >= old(t).pos(),
{
    let ghost s = t.input@;
    let ghost p0 = t.position as int;
    proof {
        lemma_skip_comments(s, p0);
    }
    while t.length - t.position > 1 && t.input[t.position] == 0x2Fu8 && t.input[t.position + 1]
        == 0x2Au8
        invariant
            t.inv(),
            old(t).keeps_text(*t),
            p0 <= t.pos() <= s.len(),
            sp_skip_comments(s, p0) == sp_skip_comments(s, t.pos()),
        decreases t.length - t.position,
    {
        let ghost pc = t.position as int;
        t.position = t.position + 2;
        while t.position < t.length && !(t.input[t.position] == 0x2Au8 && t.length - t.position
            > 1 && t.input[t.position + 1] == 0x2Fu8)
            invariant
                t.inv(),
                old(t).keeps_text(*t),
                pc + 2 <= t.pos() <= s.len(),
                sp_comment_body(s, pc + 2) == sp_comment_body(s, t.pos()),
            decreases t.length - t.position,
        {
            t.position = t.position + 1;
        }
        if t.position < t.length {
            t.position = t.position + 2;
            proof {
                assert(sp_comment_body(s, pc + 2) == t.pos());
            }
        } else {
            proof {
                assert(sp_comment_body(s, pc + 2) == t.pos());
            }
        }
        proof {
            lemma_comment_body(s, pc + 2);
            lemma_skip_comments(s, t.pos());
        }
    }
}

// --- identifier start ---------------------------------------------------
/// Whether an identifier starts at the current position.
pub fn is_ident_start(t: &Tokenizer) -> (r: bool)
    requires
        t.inv(),
    ensures
        r == sp_is_ident_start(t.src(), t.pos()),
{
    if t.position >= t.length {
        return false;
    }
    let b = t.input[t.position];
    if byte_is_letter(b) || b == 0x5Fu8 {
        true
    } else if b == 0x2Du8 {
        if t.length - t.position > 1 {
            let b1 = t.input[t.position + 1];
            byte_is_letter(b1) || b1 == 0x5Fu8 || b1 >= 0x80 || (b1 == 0x5Cu8 && !(t.length
                - t.position > 2 && t.input[t.position + 2] == 0x0Au8))
        } else {
            false
        }
    } else if b == 0x5Cu8 {
        !(t.length - t.position > 1 && t.input[t.position + 1] == 0x0Au8)
    } else {
        b >= 0x80
    }
}

// --- hex runs and escapes -----------------------------------------------
/// Accumulate up to `max` further hex digits onto an already read value.
#[verifier::loop_isolation(false)]
fn read_hex_run(t: &mut Tokenizer, max: usize, val0: u32, Ghost(ds0): Ghost<Seq<u8>>) -> (val:
    u32)
    requires
        old(t).inv(),
        ds0.len() + max <= 6,
        forall|i: int| 0 <= i < ds0.len() ==> is_hex_digit(#[trigger] ds0[i]),
        val0 as int == hex_value(ds0),
    ensures
        final(t).inv(),
        old(t).keeps_text(*final(t)),
        final(t).pos() == sp_hex_run(old(t).src(), old(t).pos(), max as int).1,
        val as int == hex_value(ds0 + sp_hex_run(old(t).src(), old(t).pos(), max as int).0),
        (val as int) < pow16((ds0.len() + max) as int),
{
    let ghost s = t.input@;
    let ghost p0 = t.position as int;
    let mut val = val0;
    let mut k: usize = 0;
    let ghost mut ds = ds0;
    let ghost mut col = Seq::<u8>::empty();
    proof {
        assert(ds0 + col =~= ds0);
        assert(sp_hex_run(s, p0, max as int).0 == col + sp_hex_run(s, p0, (max - k) as int).0);
    }
    while k < max && t.position < t.length && byte_is_hex(t.input[t.position])
        invariant
            t.inv(),
            old(t).keeps_text(*t),
            k <= max,
            ds0.len() + max <= 6,
            p0 <= t.pos() <= s.len(),
            ds == ds0 + col,
            ds.len() == ds0.len() + k,
            forall|i: int| 0 <= i < ds.len() ==> is_hex_digit(#[trigger] ds[i]),
            val as int == hex_value(ds),
            sp_hex_run(s, p0, max as int).0 == col + sp_hex_run(s, t.pos(), (max - k) as int).0,
            sp_hex_run(s, p0, max as int).1 == sp_hex_run(s, t.pos(), (max - k) as int).1,
        decreases max - k,
    {
        let b = t.input[t.position];
        let d = hex_val_u8(b);
        proof {
            lemma_hex_value_bound(ds);
            lemma_pow16_mono(ds.len() as int, 5);
            lemma_pow16_vals();
            lemma_hex_value_push(ds, b);
        }
        val = val * 16 + d as u32;
        proof {
            ds = ds.push(b);
            col = col.push(b);
            assert(sp_hex_run(s, t.pos(), (max - k) as int).0 == seq![b] + sp_hex_run(
                s,
                t.pos() + 1,
                (max - k - 1) as int,
            ).0);
            assert(col.drop_last() + (seq![b] + sp_hex_run(s, t.pos() + 1, (max - k - 1) as int).0)
                =~= col + sp_hex_run(s, t.pos() + 1, (max - k - 1) as int).0);
            assert(ds0 + col.drop_last() =~= (ds0 + col).drop_last());
            assert(ds =~= ds0 + col);
        }
        t.position = t.position + 1;
        k = k + 1;
    }
    proof {
        assert(sp_hex_run(s, t.pos(), (max - k) as int).0 =~= Seq::<u8>::empty());
        assert(col + Seq::<u8>::empty() =~= col);
        lemma_hex_value_bound(ds);
        lemma_pow16_mono(ds.len() as int, (ds0.len() + max) as int);
    }
    val
}

proof fn lemma_pow16_vals()
    ensures
        pow16(0) == 1,
        pow16(1) == 16,
        pow16(2) == 0x100,
        pow16(3) == 0x1000,
        pow16(4) == 0x10000,
        pow16(5) == 0x100000,
        pow16(6) == 0x1000000,
{
    assert(pow16(0) == 1);
    assert(pow16(1) == 16);
    assert(pow16(2) == 0x100);
    assert(pow16(3) == 0x1000);
    assert(pow16(4) == 0x10000);
    assert(pow16(5) == 0x100000);
    assert(pow16(6) == 0x1000000);
}

proof fn lemma_pow16_mono(a: int, b: int)
    requires
        a <= b,
    ensures
        pow16(a) <= pow16(b),
    decreases b,
{
    if a < b && b > 0 {
        lemma_pow16_mono(a, b - 1);
        lemma_pow16_pos(b - 1);
    }
}

/// Append the UTF-8 encoding of a scalar value.
fn push_utf8(out: &mut Vec<u8>, cp: u32)
    requires
        cp <= 0x10FFFF,
    ensures
        final(out)@ == old(out)@ + utf8_bytes(cp as int),
{
    if cp < 0x80 {
        out.push(cp as u8);
        proof {
            assert(out@ =~= old(out)@ + utf8_bytes(cp as int));
        }
    } else if cp < 0x800 {
        out.push((0xC0 + cp / 0x40) as u8);
        out.push((0x80 + cp % 0x40) as u8);
        proof {
            assert(out@ =~= old(out)@ + utf8_bytes(cp as int));
        }
    } else if cp < 0x10000 {
        out.push((0xE0 + cp / 0x1000) as u8);
        out.push((0x80 + (cp / 0x40) % 0x40) as u8);
        out.push((0x80 + cp % 0x40) as u8);
        proof {
            assert(out@ =~= old(out)@ + utf8_bytes(cp as int));
        }
    } else {
        out.push((0xF0 + cp / 0x40000) as u8);
        out.push((0x80 + (cp / 0x1000) % 0x40) as u8);
        out.push((0x80 + (cp / 0x40) % 0x40) as u8);
        out.push((0x80 + cp % 0x40) as u8);
        proof {
            assert(out@ =~= old(out)@ + utf8_bytes(cp as int));
        }
    }
}

/// Read an escape whose backslash is already consumed and append its
/// bytes. At the end of the input this contributes U+FFFD.
pub fn consume_escape(t: &mut Tokenizer, out: &mut Vec<u8>)
    requires
        old(t).inv(),
    ensures
        final(t).inv(),
        old(t).keeps_text(*final(t)),
        final(t).pos() == sp_escape(old(t).src(), old(t).pos()).1,
        final(out)@ == old(out)@ + sp_escape(old(t).src(), old(t).pos()).0,
{
    let ghost s = t.input@;
    let ghost p0 = t.position as int;
    if t.position >= t.length {
        out.push(0xEFu8);
        out.push(0xBFu8);
        out.push(0xBDu8);
        proof {
            assert(utf8_bytes(0xFFFD) =~= seq![0xEFu8, 0xBFu8, 0xBDu8]);
            assert(out@ =~= old(out)@ + utf8_bytes(0xFFFD));
        }
        return;
    }
    let b = t.input[t.position];
    if byte_is_hex(b) {
        t.position = t.position + 1;
        let first = hex_val_u8(b);
        proof {
            assert(seq![b].drop_last() =~= Seq::<u8>::empty());
            assert(hex_value(Seq::<u8>::empty()) == 0);
            assert(seq![b].last() == b);
            assert(hex_value(seq![b]) == hex_digit_val(b));
        }
        let ghost first_ds: Seq<u8> = seq![b];
        let val = read_hex_run(t, 5, first as u32, Ghost(first_ds));
        proof {
            assert(seq![b] + sp_hex_run(s, p0 + 1, 5).0 =~= seq![s[p0]] + sp_hex_run(
                s,
                p0 + 1,
                5,
            ).0);
            lemma_pow16_vals();
        }
        if t.position < t.length {
            let c = t.input[t.position];
            if c == 0x20u8 || c == 0x09u8 || c == 0x0Au8 {
                t.position = t.position + 1;
            }
        }
        let cp = if val == 0 || (0xD800 <= val && val <= 0xDFFF) || val > 0x10FFFF {
            0xFFFDu32
        } else {
            val
        };
        proof {
            assert(cp as int == sanitize_cp(hex_value(seq![s[p0]] + sp_hex_run(s, p0 + 1, 5).0)));
        }
        push_utf8(out, cp);
    } else {
        out.push(b);
        t.position = t.position + 1;
        proof {
            assert(out@ =~= old(out)@ + seq![b]);
        }
    }
}

/// Read the name starting at the current position.
#[verifier::loop_isolation(false)]
pub fn consume_name(t: &mut Tokenizer) -> (value: Vec<u8>)
    requires
        old(t).inv(),
    ensures
        final(t).inv(),
        old(t).keeps_text(*final(t)),
        value@ == sp_name(old(t).src(), old(t).pos()).0,
        final(t).pos() == sp_name(old(t).src(), old(t).pos()).1,
        final(t).pos() >= old(t).pos(),
{
    let ghost s = t.input@;
    let ghost p0 = t.position as int;
    proof {
        lemma_name(s, p0);
    }
    let mut value: Vec<u8> = Vec::new();
    let mut done = false;
    proof {
        assert(value@ + sp_name(s, p0).0 =~= sp_name(s, p0).0);
    }
    while !done
        invariant
            t.inv(),
            old(t).keeps_text(*t),
            p0 <= t.pos() <= s.len(),
            done ==> value@ == sp_name(s, p0).0 && t.pos() == sp_name(s, p0).1,
            !done ==> sp_name(s, p0).0 == value@ + sp_name(s, t.pos()).0 && sp_name(s, p0).1
                == sp_name(s, t.pos()).1,
        decreases (if done { 0int } else { 1int }), s.len() - t.pos(),
    {
        if t.position >= t.length {
            proof {
                assert(t.pos() >= s.len());
                assert(sp_name(s, t.pos()).0 == Seq::<u8>::empty());
                assert(value@ + sp_name(s, t.pos()).0 =~= value@);
            }
            done = true;
        } else {
            let b = t.input[t.position];
            if byte_is_name(b) {
                let ghost pre = value@;
                value.push(b);
                t.position = t.position + 1;
                proof {
                    assert(pre + (seq![b] + sp_name(s, t.pos()).0) =~= value@ + sp_name(
                        s,
                        t.pos(),
                    ).0);
                }
            } else if b == 0x5Cu8 && !(t.length - t.position > 1 && t.input[t.position + 1]
                == 0x0Au8) {
                proof {
                    assert(is_valid_escape(s, t.pos()));
                    lemma_escape(s, t.pos() + 1);
                }
                let ghost pe = t.pos();
                let ghost pre = value@;
                t.position = t.position + 1;
                consume_escape(t, &mut value);
                proof {
                    let (eb, p1) = sp_escape(s, pe + 1);
                    assert(pe < p1 <= s.len());
                    assert(sp_name(s, pe).0 == eb + sp_name(s, p1).0);
                    assert(pre + (eb + sp_name(s, t.pos()).0) =~= value@ + sp_name(s, t.pos()).0);
                    lemma_name(s, t.pos());
                }
            } else {
                proof {
                    assert(sp_name(s, t.pos()).0 =~= Seq::<u8>::empty());
                    assert(value@ + sp_name(s, t.pos()).0 =~= value@);
                }
                done = true;
            }
        }
    }
    value
}


// --- strings ------------------------------------------------------------
/// Read a quoted string from the opening quote. `None` means the string
/// is bad: it was cut off by an unescaped newline, which stays
/// unconsumed, or by the end of the input.
#[verifier::loop_isolation(false)]
pub fn consume_quoted_string(t: &mut Tokenizer, single_quote: bool) -> (r: Option<Vec<u8>>)
    requires
        old(t).inv(),
        old(t).pos() < old(t).src().len(),
    ensures
        final(t).inv(),
        old(t).keeps_text(*final(t)),
        ({
            let (o, e) = sp_quoted_string(
                old(t).src(),
                old(t).pos(),
                if single_quote {
                    0x27u8
                } else {
                    0x22u8
                },
            );
            final(t).pos() == e && match (r, o) {
                (Some(v), Some(m)) => v@ == m,
                (None, None) => true,
                _ => false,
            }
        }),
{
    let q: u8 = if single_quote {
        0x27
    } else {
        0x22
    };
    let ghost s = t.input@;
    let ghost p0 = t.position as int;
    t.position = t.position + 1;
    proof {
        lemma_string_body(s, p0 + 1, q);
    }
    let mut string: Vec<u8> = Vec::new();
    let mut done = false;
    proof {
        assert(forall|m: Seq<u8>| string@ + m =~= m);
    }
    while !done
        invariant
            t.inv(),
            old(t).keeps_text(*t),
            p0 + 1 <= t.pos() <= s.len(),
            done ==> sp_string_body(s, p0 + 1, q) == (Some(string@), t.pos()),
            !done ==> sp_string_body(s, p0 + 1, q).1 == sp_string_body(s, t.pos(), q).1
                && sp_string_body(s, p0 + 1, q).0 == (match sp_string_body(s, t.pos(), q).0 {
                Some(m) => Some(string@ + m),
                None => None,
            }),
        decreases (if done { 0int } else { 1int }), s.len() - t.pos(),
    {
        if t.position >= t.length {
            return None;
        } else {
            let b = t.input[t.position];
            if b == q {
                t.position = t.position + 1;
                proof {
                    assert(string@ + Seq::<u8>::empty() =~= string@);
                }
                done = true;
            } else if b == 0x0Au8 {
                return None;
            } else if b == 0x5Cu8 {
                if t.length - t.position == 1 {
                    t.position = t.position + 1;
                    return None;
                } else if t.input[t.position + 1] == 0x0Au8 {
                    t.position = t.position + 2;
                } else {
                    let ghost pe = t.pos();
                    let ghost pre = string@;
                    proof {
                        lemma_escape(s, pe + 1);
                    }
                    t.position = t.position + 1;
                    consume_escape(t, &mut string);
                    proof {
                        let (eb, p1) = sp_escape(s, pe + 1);
                        assert(pe < p1 <= s.len());
                        assert(forall|m: Seq<u8>| pre + (eb + m) =~= (pre + eb) + m);
                        lemma_string_body(s, t.pos(), q);
                    }
                }
            } else {
                let ghost pre = string@;
                string.push(b);
                t.position = t.position + 1;
                proof {
                    assert(forall|m: Seq<u8>| pre + (seq![b] + m) =~= (pre.push(b)) + m);
                }
            }
        }
    }
    Some(string)
}

/// Read a string token: a quoted string, or `BadString` on an unescaped
/// newline.
pub fn consume_string(t: &mut Tokenizer, single_quote: bool) -> (r: Token)
    requires
        old(t).inv(),
        old(t).pos() < old(t).src().len(),
    ensures
        final(t).inv(),
        old(t).keeps_text(*final(t)),
        (r@, final(t).pos()) == string_token(
            sp_quoted_string(
                old(t).src(),
                old(t).pos(),
                if single_quote {
                    0x27u8
                } else {
                    0x22u8
                },
            ),
        ),
{
    match consume_quoted_string(t, single_quote) {
        Some(value) => Token::String(value),
        None => Token::BadString,
    }
}

// --- urls ---------------------------------------------------------------
/// Bad-url recovery: consume up to and including the next `)`, blindly
/// skipping the byte after any backslash.
#[verifier::loop_isolation(false)]
fn consume_bad_url(t: &mut Tokenizer) -> (r: Token)
    requires
        old(t).inv(),
    ensures
        final(t).inv(),
        old(t).keeps_text(*final(t)),
        final(t).pos() == sp_bad_url(old(t).src(), old(t).pos()),
        r@ == TokenS::BadURL,
{
    let ghost s = t.input@;
    let ghost p0 = t.position as int;
    let mut done = false;
    while !done
        invariant
            t.inv(),
            old(t).keeps_text(*t),
            p0 <= t.pos() <= s.len(),
            done ==> t.pos() == sp_bad_url(s, p0),
            !done ==> sp_bad_url(s, p0) == sp_bad_url(s, t.pos()),
        decreases (if done { 0int } else { 1int }), s.len() - t.pos(),
    {
        if t.position >= t.length {
            done = true;
        } else {
            let b = t.input[t.position];
            if b == 0x29u8 {
                t.position = t.position + 1;
                done = true;
            } else if b == 0x5Cu8 {
                if t.length - t.position >= 2 {
                    t.position = t.position + 2;
                } else {
                    t.position = t.length;
                }
            } else {
                t.position = t.position + 1;
            }
        }
    }
    Token::BadURL
}

/// After a quoted url body only whitespace and `)` may follow; anything
/// else switches to bad-url recovery.
#[verifier::loop_isolation(false)]
fn consume_url_end(t: &mut Tokenizer, string: Vec<u8>) -> (r: Token)
    requires
        old(t).inv(),
    ensures
        final(t).inv(),
        old(t).keeps_text(*final(t)),
        (r@, final(t).pos()) == sp_url_end(old(t).src(), old(t).pos(), string@),
{
    let ghost s = t.input@;
    let ghost p0 = t.position as int;
    let mut done = false;
    let mut bad = false;
    while !done
        invariant
            t.inv(),
            old(t).keeps_text(*t),
            p0 <= t.pos() <= s.len(),
            !done ==> !bad,
            done && !bad ==> sp_url_end(s, p0, string@) == (
                TokenS::URL(string@),
                t.pos(),
            ),
            done && bad ==> sp_url_end(s, p0, string@) == (
                TokenS::BadURL,
                t.pos(),
            ),
            !done ==> sp_url_end(s, p0, string@) == sp_url_end(s, t.pos(), string@),
        decreases (if done { 0int } else { 1int }), s.len() - t.pos(),
    {
        if t.position >= t.length {
            done = true;
        } else {
            let b = t.input[t.position];
            if byte_is_ws(b) {
                t.position = t.position + 1;
            } else if b == 0x29u8 {
                t.position = t.position + 1;
                done = true;
            } else {
                let ghost pb = t.pos();
                t.position = t.position + 1;
                let _ = consume_bad_url(t);
                proof {
                    lemma_bad_url(s, pb + 1);
                    assert(!is_ws(s[pb]) && s[pb] != 0x29u8);
                    assert(sp_url_end(s, pb, string@) == (
                        TokenS::BadURL,
                        sp_bad_url(s, pb + 1),
                    ));
                    assert(sp_url_end(s, p0, string@) == (
                        TokenS::BadURL,
                        t.pos(),
                    ));
                }
                bad = true;
                done = true;
            }
        }
    }
    if bad {
        Token::BadURL
    } else {
        Token::URL(string)
    }
}

/// Read an unquoted url body starting at the current position.
#[verifier::loop_isolation(false)]
fn consume_unquoted_url(t: &mut Tokenizer) -> (r: Token)
    requires
        old(t).inv(),
    ensures
        final(t).inv(),
        old(t).keeps_text(*final(t)),
        (r@, final(t).pos()) == sp_unquoted_url(old(t).src(), old(t).pos()),
{
    let ghost s = t.input@;
    let ghost p0 = t.position as int;
    let mut string: Vec<u8> = Vec::new();
    proof {
        lemma_unquoted_url(s, p0);
        assert(forall|c: Seq<u8>| Seq::<u8>::empty() + c =~= c);
        assert(prepend_url(string@, sp_unquoted_url(s, p0).0) == sp_unquoted_url(s, p0).0);
    }
    loop
        invariant
            t.inv(),
            old(t).keeps_text(*t),
            p0 <= t.pos() <= s.len(),
            sp_unquoted_url(s, p0).0 == prepend_url(string@, sp_unquoted_url(s, t.pos()).0),
            sp_unquoted_url(s, p0).1 == sp_unquoted_url(s, t.pos()).1,
        decreases s.len() - t.pos(),
    {
        if t.position >= t.length {
            proof {
                assert(string@ + Seq::<u8>::empty() =~= string@);
            }
            return Token::URL(string);
        }
        let b = t.input[t.position];
        if b == 0x20u8 || b == 0x09u8 || b == 0x0Au8 {
            t.position = t.position + 1;
            proof {
                lemma_url_end_content(s, t.pos(), string@);
            }
            return consume_url_end(t, string);
        } else if b == 0x29u8 {
            t.position = t.position + 1;
            proof {
                assert(string@ + Seq::<u8>::empty() =~= string@);
            }
            return Token::URL(string);
        } else if b <= 0x08u8 || b == 0x0Bu8 || (0x0Eu8 <= b && b <= 0x1Fu8) || b == 0x7Fu8 || b
            == 0x22u8 || b == 0x27u8 || b == 0x28u8 {
            t.position = t.position + 1;
            return consume_bad_url(t);
        } else if b == 0x5Cu8 {
            if t.length - t.position > 1 && t.input[t.position + 1] == 0x0Au8 {
                t.position = t.position + 1;
                return consume_bad_url(t);
            } else {
                let ghost pe = t.pos();
                let ghost pre = string@;
                proof {
                    lemma_escape(s, pe + 1);
                }
                t.position = t.position + 1;
                consume_escape(t, &mut string);
                proof {
                    let (eb, p1) = sp_escape(s, pe + 1);
                    assert(pe < p1 <= s.len());
                    assert(forall|c: Seq<u8>| pre + (eb + c) =~= (pre + eb) + c);
                    assert(sp_unquoted_url(s, pe).0 == prepend_url(
                        eb,
                        sp_unquoted_url(s, t.pos()).0,
                    ));
                    lemma_unquoted_url(s, t.pos());
                }
            }
        } else {
            let ghost pre = string@;
            string.push(b);
            t.position = t.position + 1;
            proof {
                assert(forall|c: Seq<u8>| pre + (seq![b] + c) =~= (pre.push(b)) + c);
            }
        }
    }
}

/// Read a url token; assumes the opening `url` name and parenthesis are
/// already consumed.
#[verifier::loop_isolation(false)]
pub fn consume_url(t: &mut Tokenizer) -> (r: Token)
    requires
        old(t).inv(),
    ensures
        final(t).inv(),
        old(t).keeps_text(*final(t)),
        (r@, final(t).pos()) == sp_url_lead(old(t).src(), old(t).pos()),
{
    let ghost s = t.input@;
    let ghost p0 = t.position as int;
    loop
        invariant
            t.inv(),
            old(t).keeps_text(*t),
            p0 <= t.pos() <= s.len(),
            sp_url_lead(s, p0) == sp_url_lead(s, t.pos()),
        decreases s.len() - t.pos(),
    {
        if t.position >= t.length {
            return Token::URL(Vec::new());
        }
        let b = t.input[t.position];
        if byte_is_ws(b) {
            t.position = t.position + 1;
        } else if b == 0x22u8 || b == 0x27u8 {
            let quoted = consume_quoted_string(t, b == 0x27u8);
            if let Some(value) = quoted {
                return consume_url_end(t, value);
            }
            return consume_bad_url(t);
        } else if b == 0x29u8 {
            t.position = t.position + 1;
            return Token::URL(Vec::new());
        } else {
            return consume_unquoted_url(t);
        }
    }
}


// --- numbers ------------------------------------------------------------
/// Whether a number follows the sign or dot at the current position.
fn number_follows_sign(t: &Tokenizer) -> (r: bool)
    requires
        t.inv(),
    ensures
        r == starts_number_after_sign(t.src(), t.pos()),
{
    (t.length - t.position > 1 && byte_is_digit(t.input[t.position + 1])) || (t.length
        - t.position > 2 && t.input[t.position + 1] == 0x2Eu8 && byte_is_digit(
        t.input[t.position + 2],
    ))
}

/// Read a numeric token: `Number`, `Percentage` or `Dimension`. The
/// integer value of an integer literal is saturated at the `i64` bounds.
#[verifier::loop_isolation(false)]
#[verifier::rlimit(30)]
pub fn consume_numeric(t: &mut Tokenizer) -> (r: Token)
    requires
        old(t).inv(),
        old(t).pos() < old(t).src().len(),
    ensures
        final(t).inv(),
        old(t).keeps_text(*final(t)),
        (r@, final(t).pos()) == sp_numeric(old(t).src(), old(t).pos()),
{
    let ghost s = t.input@;
    let ghost p0 = t.position as int;
    let mut repr: Vec<u8> = Vec::new();
    let b0 = t.input[t.position];
    let neg = b0 == 0x2Du8;
    let signed = b0 == 0x2Bu8 || b0 == 0x2Du8;
    if signed {
        repr.push(b0);
        t.position = t.position + 1;
    }
    let ghost pd = t.pos();
    proof {
        assert(repr@ =~= s.subrange(p0, pd));
        lemma_digit_run(s, pd);
        assert(s.subrange(pd, pd) =~= Seq::<u8>::empty());
    }
    let mut mag: u64 = 0;
    while t.position < t.length && byte_is_digit(t.input[t.position])
        invariant
            t.inv(),
            old(t).keeps_text(*t),
            pd <= t.pos() <= s.len(),
            repr@ == s.subrange(p0, t.pos()),
            sp_digit_run(s, pd) == sp_digit_run(s, t.pos()),
            (mag as int == dec_value(s.subrange(pd, t.pos()))) || (mag == u64::MAX && dec_value(
                s.subrange(pd, t.pos()),
            ) > 0x8000000000000000),
        decreases s.len() - t.pos(),
    {
        let c = t.input[t.position];
        let d = c - 0x30;
        let ghost pref = s.subrange(pd, t.pos());
        proof {
            lemma_dec_value_push(pref, c);
            assert(s.subrange(pd, t.pos() + 1) =~= pref.push(c));
            assert(s.subrange(p0, t.pos() + 1) =~= s.subrange(p0, t.pos()).push(c));
        }
        if mag > (u64::MAX - 9) / 10 {
            proof {
                assert(dec_value(pref.push(c)) > 0x8000000000000000);
            }
            mag = u64::MAX;
        } else {
            mag = mag * 10 + d as u64;
        }
        repr.push(c);
        t.position = t.position + 1;
    }
    let ghost p1 = t.pos();
    let mut is_integer = true;
    if t.length - t.position > 1 && t.input[t.position] == 0x2Eu8 && byte_is_digit(
        t.input[t.position + 1],
    ) {
        is_integer = false;
        let c0 = t.input[t.position];
        let c1 = t.input[t.position + 1];
        repr.push(c0);
        repr.push(c1);
        t.position = t.position + 2;
        proof {
            lemma_digit_run(s, p1 + 2);
            assert(repr@ =~= s.subrange(p0, t.pos()));
        }
        while t.position < t.length && byte_is_digit(t.input[t.position])
            invariant
                t.inv(),
                old(t).keeps_text(*t),
                p1 + 2 <= t.pos() <= s.len(),
                repr@ == s.subrange(p0, t.pos()),
                sp_digit_run(s, p1 + 2) == sp_digit_run(s, t.pos()),
            decreases s.len() - t.pos(),
        {
            let c = t.input[t.position];
            proof {
                assert(s.subrange(p0, t.pos() + 1) =~= s.subrange(p0, t.pos()).push(c));
            }
            repr.push(c);
            t.position = t.position + 1;
        }
    }
    let ghost p2 = t.pos();
    let exp1 = t.length - t.position > 1 && (t.input[t.position] == 0x65u8 || t.input[t.position]
        == 0x45u8) && byte_is_digit(t.input[t.position + 1]);
    let exp2 = t.length - t.position > 2 && (t.input[t.position] == 0x65u8 || t.input[t.position]
        == 0x45u8) && (t.input[t.position + 1] == 0x2Bu8 || t.input[t.position + 1] == 0x2Du8)
        && byte_is_digit(t.input[t.position + 2]);
    if exp1 || exp2 {
        is_integer = false;
        let c0 = t.input[t.position];
        let c1 = t.input[t.position + 1];
        repr.push(c0);
        repr.push(c1);
        t.position = t.position + 2;
        proof {
            lemma_digit_run(s, p2 + 2);
            assert(repr@ =~= s.subrange(p0, t.pos()));
        }
        while t.position < t.length && byte_is_digit(t.input[t.position])
            invariant
                t.inv(),
                old(t).keeps_text(*t),
                p2 + 2 <= t.pos() <= s.len(),
                repr@ == s.subrange(p0, t.pos()),
                sp_digit_run(s, p2 + 2) == sp_digit_run(s, t.pos()),
            decreases s.len() - t.pos(),
        {
            let c = t.input[t.position];
            proof {
                assert(s.subrange(p0, t.pos() + 1) =~= s.subrange(p0, t.pos()).push(c));
            }
            repr.push(c);
            t.position = t.position + 1;
        }
    }
    let ghost p3 = t.pos();
    let int_value: Option<i64> = if is_integer {
        let v: i64 = if mag >= 0x8000000000000000u64 {
            if neg {
                i64::MIN
            } else {
                i64::MAX
            }
        } else {
            let m = mag as i64;
            if neg {
                -m
            } else {
                m
            }
        };
        proof {
            assert(p3 == p1);
            if signed {
                assert(repr@.skip(1) =~= s.subrange(pd, p1));
            } else {
                assert(repr@ =~= s.subrange(pd, p1));
            }
            assert(v == int_value_of(repr@));
        }
        Some(v)
    } else {
        None
    };
    let num = NumericValue { representation: repr, int_value };
    if t.position < t.length && t.input[t.position] == 0x25u8 {
        t.position = t.position + 1;
        Token::Percentage(num)
    } else if is_ident_start(t) {
        proof {
            lemma_name(s, p3);
        }
        let unit = consume_name(t);
        Token::Dimension(num, unit)
    } else {
        Token::Number(num)
    }
}

// --- unicode ranges -----------------------------------------------------
fn pow16_u32(n: usize) -> (r: u32)
    requires
        n <= 6,
    ensures
        r as int == pow16(n as int),
{
    proof {
        lemma_pow16_vals();
    }
    if n == 0 {
        1
    } else if n == 1 {
        16
    } else if n == 2 {
        0x100
    } else if n == 3 {
        0x1000
    } else if n == 4 {
        0x10000
    } else if n == 5 {
        0x100000
    } else {
        0x1000000
    }
}

/// Read a unicode-range token; assumes the leading `u+` is consumed.
#[verifier::loop_isolation(false)]
pub fn consume_unicode_range(t: &mut Tokenizer) -> (r: Token)
    requires
        old(t).inv(),
    ensures
        final(t).inv(),
        old(t).keeps_text(*final(t)),
        (r@, final(t).pos()) == sp_unicode_range(old(t).src(), old(t).pos()),
{
    let ghost s = t.input@;
    let ghost p0 = t.position as int;
    let hex_start = t.position;
    let ghost none: Seq<u8> = Seq::empty();
    proof {
        assert(hex_value(Seq::<u8>::empty()) == 0);
        lemma_hex_run(s, p0, 6);
    }
    let val = read_hex_run(t, 6, 0, Ghost(none));
    let ghost ds = sp_hex_run(s, p0, 6).0;
    proof {
        assert(none + ds =~= ds);
    }
    let hex_count = t.position - hex_start;
    let ghost p1 = t.pos();
    proof {
        lemma_question_run(s, p1, 6 - hex_count as int);
    }
    let mut q: usize = 0;
    while q < 6 - hex_count && t.position < t.length && t.input[t.position] == 0x3Fu8
        invariant
            t.inv(),
            old(t).keeps_text(*t),
            hex_count == ds.len(),
            hex_count <= 6,
            q + hex_count <= 6,
            t.pos() == p1 + q,
            p1 + q <= s.len(),
            sp_question_run(s, p1, 6 - hex_count as int) == sp_question_run(
                s,
                t.pos(),
                6 - hex_count - q as int,
            ),
        decreases 6 - hex_count - q,
    {
        q = q + 1;
        t.position = t.position + 1;
    }
    proof {
        assert(sp_question_run(s, p1, 6 - hex_count as int) == t.pos());
    }
    if q > 0 {
        let p = pow16_u32(q);
        proof {
            lemma_hex_value_bound(ds);
            lemma_pow16_add(ds.len() as int, q as int);
            lemma_pow16_vals();
            lemma_pow16_mono((ds.len() + q) as int, 6);
            lemma_pow16_pos(q as int);
            assert(hex_value(ds) * pow16(q as int) + pow16(q as int) - 1 < 0x1000000)
                by (nonlinear_arith)
                requires
                    0 <= hex_value(ds) < pow16(ds.len() as int),
                    pow16(ds.len() as int) * pow16(q as int) == pow16((ds.len() + q) as int),
                    pow16((ds.len() + q) as int) <= 0x1000000,
                    pow16(q as int) >= 1,
            ;
        }
        let start = val * p;
        let end = val * p + (p - 1);
        Token::UnicodeRange(start, end)
    } else {
        proof {
            lemma_hex_value_bound(ds);
            lemma_pow16_vals();
            lemma_pow16_mono(ds.len() as int, 6);
        }
        if t.position < t.length && t.input[t.position] == 0x2Du8 {
            t.position = t.position + 1;
            let ghost pm = t.pos();
            let second_start = t.position;
            proof {
                lemma_hex_run(s, pm, 6);
            }
            let val2 = read_hex_run(t, 6, 0, Ghost(none));
            let ghost ds2 = sp_hex_run(s, pm, 6).0;
            proof {
                assert(none + ds2 =~= ds2);
            }
            if t.position > second_start {
                Token::UnicodeRange(val, val2)
            } else {
                Token::UnicodeRange(val, val)
            }
        } else {
            Token::UnicodeRange(val, val)
        }
    }
}

// --- identifiers and dispatch -------------------------------------------
/// Read an identifier-like token: `Ident`, `Function`, or a url token
/// when the name is `url` followed by a parenthesis.
pub fn consume_ident_like(t: &mut Tokenizer) -> (r: Token)
    requires
        old(t).inv(),
    ensures
        final(t).inv(),
        old(t).keeps_text(*final(t)),
        (r@, final(t).pos()) == sp_ident_like(old(t).src(), old(t).pos()),
{
    let ghost s = t.input@;
    let ghost p0 = t.position as int;
    let value = consume_name(t);
    if t.position < t.length && t.input[t.position] == 0x28u8 {
        t.position = t.position + 1;
        let is_url = value.len() == 3 && (value[0] == 0x75u8 || value[0] == 0x55u8) && (value[1]
            == 0x72u8 || value[1] == 0x52u8) && (value[2] == 0x6Cu8 || value[2] == 0x4Cu8);
        proof {
            assert(is_url == is_url_kw(value@));
        }
        if is_url {
            consume_url(t)
        } else {
            Token::Function(value)
        }
    } else {
        Token::Ident(value)
    }
}

/// Read one token at the current position (not at the end of the input,
/// comments already skipped).
#[verifier::loop_isolation(false)]
#[verifier::rlimit(30)]
fn dispatch_token(t: &mut Tokenizer) -> (r: Token)
    requires
        old(t).inv(),
        old(t).pos() < old(t).src().len(),
    ensures
        final(t).inv(),
        old(t).keeps_text(*final(t)),
        (r@, final(t).pos()) == sp_next_token(old(t).src(), old(t).pos()),
{
    let ghost s = t.input@;
    let ghost p0 = t.position as int;
    let b = t.input[t.position];
    if byte_is_ws(b) {
        proof {
            lemma_ws_end(s, p0);
        }
        while t.position < t.length && byte_is_ws(t.input[t.position])
            invariant
                t.inv(),
                old(t).keeps_text(*t),
                p0 <= t.pos() <= s.len(),
                sp_ws_end(s, p0) == sp_ws_end(s, t.pos()),
            decreases s.len() - t.pos(),
        {
            t.position = t.position + 1;
        }
        Token::WhiteSpace
    } else if b == 0x22u8 {
        consume_string(t, false)
    } else if b == 0x23u8 {
        t.position = t.position + 1;
        if is_ident_start(t) {
            Token::IDHash(consume_name(t))
        } else {
            let follows = if t.position < t.length {
                let b1 = t.input[t.position];
                byte_is_letter(b1) || byte_is_digit(b1) || b1 == 0x2Du8 || b1 == 0x5Fu8 || (b1
                    == 0x5Cu8 && !(t.length - t.position > 1 && t.input[t.position + 1]
                    == 0x0Au8))
            } else {
                false
            };
            if follows {
                Token::Hash(consume_name(t))
            } else {
                Token::Delim('#')
            }
        }
    } else if b == 0x24u8 {
        if t.length - t.position > 1 && t.input[t.position + 1] == 0x3Du8 {
            t.position = t.position + 2;
            Token::SuffixMatch
        } else {
            t.position = t.position + 1;
            Token::Delim('$')
        }
    } else if b == 0x27u8 {
        consume_string(t, true)
    } else if b == 0x28u8 {
        t.position = t.position + 1;
        Token::LeftParen
    } else if b == 0x29u8 {
        t.position = t.position + 1;
        Token::RightParen
    } else if b == 0x2Au8 {
        if t.length - t.position > 1 && t.input[t.position + 1] == 0x3Du8 {
            t.position = t.position + 2;
            Token::SubstringMatch
        } else {
            t.position = t.position + 1;
            Token::Delim('*')
        }
    } else if b == 0x2Bu8 {
        if number_follows_sign(t) {
            consume_numeric(t)
        } else {
            t.position = t.position + 1;
            Token::Delim('+')
        }
    } else if b == 0x2Cu8 {
        t.position = t.position + 1;
        Token::Comma
    } else if b == 0x2Du8 {
        if number_follows_sign(t) {
            consume_numeric(t)
        } else if is_ident_start(t) {
            consume_ident_like(t)
        } else if t.length - t.position > 2 && t.input[t.position + 1] == 0x2Du8
            && t.input[t.position + 2] == 0x3Eu8 {
            t.position = t.position + 3;
            Token::CDC
        } else {
            t.position = t.position + 1;
            Token::Delim('-')
        }
    } else if b == 0x2Eu8 {
        if t.length - t.position > 1 && byte_is_digit(t.input[t.position + 1]) {
            consume_numeric(t)
        } else {
            t.position = t.position + 1;
            Token::Delim('.')
        }
    } else if b == 0x3Au8 {
        t.position = t.position + 1;
        Token::Colon
    } else if b == 0x3Bu8 {
        t.position = t.position + 1;
        Token::Semicolon
    } else if b == 0x3Cu8 {
        if t.length - t.position > 3 && t.input[t.position + 1] == 0x21u8 && t.input[t.position
            + 2] == 0x2Du8 && t.input[t.position + 3] == 0x2Du8 {
            t.position = t.position + 4;
            Token::CDO
        } else {
            t.position = t.position + 1;
            Token::Delim('<')
        }
    } else if b == 0x40u8 {
        t.position = t.position + 1;
        if is_ident_start(t) {
            Token::AtKeyword(consume_name(t))
        } else {
            Token::Delim('@')
        }
    } else if b == 0x5Bu8 {
        t.position = t.position + 1;
        Token::LeftBracket
    } else if b == 0x5Cu8 {
        if !(t.length - t.position > 1 && t.input[t.position + 1] == 0x0Au8) {
            consume_ident_like(t)
        } else {
            t.position = t.position + 1;
            Token::Delim('\\')
        }
    } else if b == 0x5Du8 {
        t.position = t.position + 1;
        Token::RightBracket
    } else if b == 0x5Eu8 {
        if t.length - t.position > 1 && t.input[t.position + 1] == 0x3Du8 {
            t.position = t.position + 2;
            Token::PrefixMatch
        } else {
            t.position = t.position + 1;
            Token::Delim('^')
        }
    } else if b == 0x7Bu8 {
        t.position = t.position + 1;
        Token::LeftCurlyBracket
    } else if b == 0x7Du8 {
        t.position = t.position + 1;
        Token::RightCurlyBracket
    } else if byte_is_digit(b) {
        consume_numeric(t)
    } else if b == 0x75u8 || b == 0x55u8 {
        if t.length - t.position > 2 && t.input[t.position + 1] == 0x2Bu8 && (byte_is_hex(
            t.input[t.position + 2],
        ) || t.input[t.position + 2] == 0x3Fu8) {
            t.position = t.position + 2;
            consume_unicode_range(t)
        } else {
            consume_ident_like(t)
        }
    } else if byte_is_letter(b) || b == 0x5Fu8 {
        consume_ident_like(t)
    } else if b == 0x7Cu8 {
        if t.length - t.position > 1 && t.input[t.position + 1] == 0x3Du8 {
            t.position = t.position + 2;
            Token::DashMatch
        } else if t.length - t.position > 1 && t.input[t.position + 1] == 0x7Cu8 {
            t.position = t.position + 2;
            Token::Column
        } else {
            t.position = t.position + 1;
            Token::Delim('|')
        }
    } else if b == 0x7Eu8 {
        if t.length - t.position > 1 && t.input[t.position + 1] == 0x3Du8 {
            t.position = t.position + 2;
            Token::IncludeMatch
        } else {
            t.position = t.position + 1;
            Token::Delim('~')
        }
    } else if b >= 0x80 {
        consume_ident_like(t)
    } else {
        t.position = t.position + 1;
        Token::Delim(b as char)
    }
}

/// One step of the tokenizer: skip comments, then either report the end
/// of the input or emit the next token with its starting location.
#[verifier::loop_isolation(false)]
pub fn next_token(t: &mut Tokenizer) -> (r: Option<Node>)
    requires
        old(t).wf(),
    ensures
        final(t).wf(),
        final(t).src() == old(t).src(),
        final(t).pos() == sp_next_node(old(t).src(), old(t).pos()).end,
        match (r, sp_next_node(old(t).src(), old(t).pos()).node) {
            (Some(node), Some(m)) => node_view(node) == m,
            (None, None) => true,
            _ => false,
        },
        r is Some ==> final(t).pos() > old(t).pos(),
        r matches Some(node) ==> node.1.line >= 1 && node.1.column >= 1,
{
    let ghost s = t.input@;
    let ghost p0 = t.position as int;
    let start0 = t.position;
    consume_comments(t);
    let (ln, ls) = scan_line_state(t.input, t.line, t.last_line_start, start0, t.position);
    t.line = ln;
    t.last_line_start = ls;
    if t.position >= t.length {
        return None;
    }
    let ghost pt = t.pos();
    proof {
        lemma_lls_bound(s, pt);
        lemma_location_valid(s, pt);
        lemma_next_token(s, pt);
    }
    let loc = SourceLocation { line: t.line, column: t.position - t.last_line_start + 1 };
    let tokstart = t.position;
    let token = dispatch_token(t);
    let (ln2, ls2) = scan_line_state(t.input, t.line, t.last_line_start, tokstart, t.position);
    t.line = ln2;
    t.last_line_start = ls2;
    Some((token, loc))
}

/// Tokenize a raw byte text: preprocess it, then collect every node the
/// tokenizer emits, in order.
#[verifier::loop_isolation(false)]
pub fn tokenize(input: &[u8]) -> (r: Vec<Node>)
    requires
        input@.len() * 3 < usize::MAX,
    ensures
        nodes_view(r@) == sp_stream(preprocess_spec(input@), 0),
{
    let pre = preprocess(input);
    proof {
        lemma_preprocess_len(input@);
    }
    let ghost s = pre@;
    let mut t = Tokenizer::new(pre.as_slice());
    let mut out: Vec<Node> = Vec::new();
    let mut more = true;
    proof {
        assert(nodes_view(out@) + sp_stream(s, 0) =~= sp_stream(s, 0));
    }
    while more
        invariant
            t.wf(),
            t.src() == s,
            0 <= t.pos() <= s.len(),
            more ==> nodes_view(out@) + sp_stream(s, t.pos()) == sp_stream(s, 0),
            !more ==> nodes_view(out@) == sp_stream(s, 0),
        decreases (if more { 1int } else { 0int }), s.len() - t.pos(),
    {
        let ghost pb = t.pos();
        let ghost pre_out = out@;
        let step = t.next();
        proof {
            lemma_next_node(s, pb);
        }
        if let Some(n) = step {
            out.push(n);
            proof {
                let st = sp_next_node(s, pb);
                assert(sp_stream(s, pb) == seq![st.node.unwrap()] + sp_stream(s, st.end));
                lemma_nodes_view_push(pre_out, n);
                assert(nodes_view(pre_out) + (seq![node_view(n)] + sp_stream(s, t.pos()))
                    =~= nodes_view(pre_out).push(node_view(n)) + sp_stream(s, t.pos()));
            }
        } else {
            more = false;
            proof {
                assert(sp_stream(s, pb) =~= Seq::<NodeS>::empty());
                assert(nodes_view(out@) + Seq::<NodeS>::empty() =~= nodes_view(out@));
            }
        }
    }
    out
}

} // verus!
