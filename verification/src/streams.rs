//! Token streams, windowed lexing, and resynchronization, at the spec level.
//!
//! `sp_stream` is the full token sequence from an offset. `sp_window` is
//! what a tokenizer collects while its position is below a window bound,
//! together with the position it stops at; decomposition says a window is
//! a prefix of the stream and the rest of the stream continues at the
//! stop position. That is the whole reason chunked lexing can be glued
//! back together. `sp_resync_loop` is the model of `next_token_start`.

use vstd::prelude::*;
use crate::model::{sp_next_node, sp_skip_comments};
use crate::model_props::{lemma_next_node, lemma_skip_comments};
use crate::tokens::NodeS;

verus! {

/// All nodes the tokenizer emits from `pos` to the end of the input.
pub open spec fn sp_stream(s: Seq<u8>, pos: int) -> Seq<NodeS>
    decreases s.len() - pos,
{
    let st = sp_next_node(s, pos);
    match st.node {
        None => Seq::empty(),
        Some(n) => if pos < st.end && st.end <= s.len() {
            seq![n] + sp_stream(s, st.end)
        } else {
            seq![n]
        },
    }
}

/// The nodes collected while the position is below `upper`, and the
/// position reached. A node that straddles `upper` is collected whole.
pub open spec fn sp_window(s: Seq<u8>, pos: int, upper: int) -> (Seq<NodeS>, int)
    decreases s.len() - pos,
{
    if !(pos < upper) {
        (Seq::empty(), pos)
    } else {
        let st = sp_next_node(s, pos);
        match st.node {
            None => (Seq::empty(), st.end),
            Some(n) => if pos < st.end && st.end <= s.len() {
                let (t, e) = sp_window(s, st.end, upper);
                (seq![n] + t, e)
            } else {
                (seq![n], st.end)
            },
        }
    }
}

/// Emit tokens from `pos` until the position reaches `start` or the end.
pub open spec fn sp_resync_loop(s: Seq<u8>, pos: int, start: int) -> int
    decreases s.len() - pos,
{
    if pos >= start {
        pos
    } else {
        let st = sp_next_node(s, pos);
        match st.node {
            None => st.end,
            Some(n) => if pos < st.end && st.end <= s.len() {
                sp_resync_loop(s, st.end, start)
            } else {
                st.end
            },
        }
    }
}

/// Where resynchronization begins lexing: a fixed lookback before `start`,
/// clamped to the input.
pub open spec fn resync_start(s: Seq<u8>, start: int) -> int {
    if start < 10 {
        0
    } else if start - 10 < s.len() {
        start - 10
    } else {
        s.len() as int
    }
}

/// The first token boundary at or after `start` that lexing from the
/// lookback position reaches.
pub open spec fn sp_next_token_start(s: Seq<u8>, start: int) -> int {
    sp_resync_loop(s, resync_start(s, start), start)
}

/// At the end of the input the stream is empty.
pub proof fn lemma_stream_end(s: Seq<u8>)
    ensures
        sp_stream(s, s.len() as int) == Seq::<NodeS>::empty(),
{
    lemma_skip_comments(s, s.len() as int);
}

/// A window is a prefix of the stream, and the remainder of the stream
/// picks up exactly at the window's stop position.
pub proof fn lemma_window_decompose(s: Seq<u8>, pos: int, upper: int)
    requires
        0 <= pos <= s.len(),
    ensures
        pos <= sp_window(s, pos, upper).1 <= s.len(),
        sp_stream(s, pos) == sp_window(s, pos, upper).0 + sp_stream(s, sp_window(s, pos, upper).1),
    decreases s.len() - pos,
{
    let (t, e) = sp_window(s, pos, upper);
    if !(pos < upper) {
        assert(sp_stream(s, pos) =~= t + sp_stream(s, pos));
    } else {
        lemma_next_node(s, pos);
        let st = sp_next_node(s, pos);
        match st.node {
            None => {
                lemma_stream_end(s);
                assert(sp_stream(s, pos) =~= t + sp_stream(s, e));
            },
            Some(n) => {
                lemma_window_decompose(s, st.end, upper);
                let (t2, e2) = sp_window(s, st.end, upper);
                assert(sp_stream(s, pos) == seq![n] + sp_stream(s, st.end));
                assert(sp_stream(s, pos) =~= (seq![n] + t2) + sp_stream(s, e2));
            },
        }
    }
}

/// A window whose bound covers the whole input collects the whole stream,
/// and nothing remains after its stop position.
pub proof fn lemma_window_full(s: Seq<u8>, pos: int, upper: int)
    requires
        0 <= pos <= s.len(),
        upper >= s.len(),
    ensures
        sp_window(s, pos, upper).0 == sp_stream(s, pos),
        sp_stream(s, sp_window(s, pos, upper).1) == Seq::<NodeS>::empty(),
    decreases s.len() - pos,
{
    lemma_window_decompose(s, pos, upper);
    let (t, e) = sp_window(s, pos, upper);
    if !(pos < upper) {
        lemma_stream_end(s);
    } else {
        lemma_next_node(s, pos);
        let st = sp_next_node(s, pos);
        match st.node {
            None => {
                lemma_stream_end(s);
            },
            Some(n) => {
                lemma_window_full(s, st.end, upper);
            },
        }
    }
    assert(t =~= t + sp_stream(s, e));
}

/// Resynchronization stays within the input, and does not stop before
/// `start` unless the input ends first.
pub proof fn lemma_resync_loop(s: Seq<u8>, pos: int, start: int)
    requires
        0 <= pos <= s.len(),
    ensures
        pos <= sp_resync_loop(s, pos, start) <= s.len(),
        start <= s.len() ==> sp_resync_loop(s, pos, start) >= start,
    decreases s.len() - pos,
{
    if pos >= start {
    } else {
        lemma_next_node(s, pos);
        let st = sp_next_node(s, pos);
        match st.node {
            None => {},
            Some(n) => {
                lemma_resync_loop(s, st.end, start);
            },
        }
    }
}

/// Offset zero is always a token boundary: resynchronizing to the start
/// of the input stays at the start.
pub proof fn lemma_resync_zero(s: Seq<u8>)
    ensures
        sp_next_token_start(s, 0) == 0,
{
}


/// Past the end of the input, resynchronization stops at the end.
pub proof fn lemma_resync_loop_past_end(s: Seq<u8>, pos: int, start: int)
    requires
        0 <= pos <= s.len() <= start,
    ensures
        sp_resync_loop(s, pos, start) == s.len(),
    decreases s.len() - pos,
{
    if pos >= start {
    } else {
        lemma_next_node(s, pos);
        let st = sp_next_node(s, pos);
        match st.node {
            None => {},
            Some(n) => {
                lemma_resync_loop_past_end(s, st.end, start);
            },
        }
    }
}

/// A start offset at or past the end resynchronizes to the end.
pub proof fn lemma_resync_clamp(s: Seq<u8>, start: int)
    requires
        start >= s.len(),
    ensures
        sp_next_token_start(s, start) == s.len(),
{
    lemma_resync_loop_past_end(s, resync_start(s, start), start);
}

} // verus!
