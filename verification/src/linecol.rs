//! Line and column bookkeeping.
//!
//! The location of any byte offset is a pure function of the input: the
//! line is one plus the number of LF bytes before the offset, and the
//! column is the distance to the start of the current line plus one.
//! The tokenizer keeps a running line counter; these definitions are what
//! that counter must agree with.

use vstd::prelude::*;

verus! {

/// Number of LF bytes strictly before `pos`.
pub open spec fn count_nl(s: Seq<u8>, pos: int) -> int
    decreases pos,
{
    if pos <= 0 {
        0
    } else {
        count_nl(s, pos - 1) + if pos - 1 < s.len() && s[pos - 1] == 0x0Au8 {
            1int
        } else {
            0int
        }
    }
}

/// The 1-based line number of the byte at `pos`.
pub open spec fn line_of(s: Seq<u8>, pos: int) -> int {
    1 + count_nl(s, pos)
}

/// The offset of the first byte of the line containing `pos`:
/// one past the last LF before `pos`, or zero.
pub open spec fn lls_of(s: Seq<u8>, pos: int) -> int
    decreases pos,
{
    if pos <= 0 {
        0
    } else if pos - 1 < s.len() && s[pos - 1] == 0x0Au8 {
        pos
    } else {
        lls_of(s, pos - 1)
    }
}

/// The 1-based column of the byte at `pos`, measured in bytes.
pub open spec fn col_of(s: Seq<u8>, pos: int) -> int {
    pos - lls_of(s, pos) + 1
}

/// There are at most `pos` newlines before `pos`.
pub proof fn lemma_count_nl_bound(s: Seq<u8>, pos: int)
    requires
        0 <= pos,
    ensures
        0 <= count_nl(s, pos) <= pos,
    decreases pos,
{
    if pos > 0 {
        lemma_count_nl_bound(s, pos - 1);
    }
}

/// A line starts at or before any of its bytes.
pub proof fn lemma_lls_bound(s: Seq<u8>, pos: int)
    requires
        0 <= pos,
    ensures
        0 <= lls_of(s, pos) <= pos,
    decreases pos,
{
    if pos > 0 && !(pos - 1 < s.len() && s[pos - 1] == 0x0Au8) {
        lemma_lls_bound(s, pos - 1);
    }
}

/// Every location is valid: line and column are at least one.
pub proof fn lemma_location_valid(s: Seq<u8>, pos: int)
    requires
        0 <= pos,
    ensures
        line_of(s, pos) >= 1,
        col_of(s, pos) >= 1,
{
    lemma_count_nl_bound(s, pos);
    lemma_lls_bound(s, pos);
}

/// Carry a line/column state forward from offset `from` to offset `to`.
pub fn scan_line_state(input: &[u8], line: usize, lls: usize, from: usize, to: usize) -> (r: (
    usize,
    usize,
))
    requires
        from <= to <= input@.len() < usize::MAX,
        line == line_of(input@, from as int),
        lls == lls_of(input@, from as int),
    ensures
        r.0 == line_of(input@, to as int),
        r.1 == lls_of(input@, to as int),
{
    let mut line = line;
    let mut lls = lls;
    let mut j = from;
    while j < to
        invariant
            from <= j <= to <= input@.len() < usize::MAX,
            line == line_of(input@, j as int),
            lls == lls_of(input@, j as int),
        decreases to - j,
    {
        if input[j] == 0x0Au8 {
            proof {
                lemma_count_nl_bound(input@, j as int);
            }
            line = line + 1;
            lls = j + 1;
        }
        j = j + 1;
    }
    (line, lls)
}

} // verus!
