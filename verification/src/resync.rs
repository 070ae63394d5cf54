//! Resynchronization: finding a token boundary near an arbitrary offset.
//!
//! Lexing restarts a fixed number of bytes before the requested offset and
//! emits tokens until it reaches or passes it; the position it lands on is
//! a boundary the sequential tokenizer itself would stop at. CSS tokens
//! are short, so a small lookback almost always suffices; when it does not
//! (a long string or comment spans the offset), the answer is still a
//! boundary of the restarted run, and the speculative fold detects the
//! disagreement and recomputes.

use vstd::prelude::*;
use crate::lexer::Tokenizer;
use crate::model::sp_next_node;
use crate::model_props::lemma_next_node;
use crate::streams::{sp_next_token_start, sp_resync_loop, resync_start, lemma_resync_loop,
    lemma_resync_zero};

verus! {

/// How many bytes before the requested offset lexing restarts.
pub const LOOKBACK: usize = 10;

/// The first token boundary at or after `start` that lexing from the
/// lookback position reaches; `input` must already be preprocessed. The
/// result never precedes `start` unless the input ends first, and never
/// passes the end of the input.
#[verifier::loop_isolation(false)]
pub fn next_token_start(input: &[u8], start: usize) -> (r: usize)
    requires
        input@.len() < usize::MAX,
    ensures
        r as int == sp_next_token_start(input@, start as int),
        start <= input@.len() ==> start <= r,
        r as int <= input@.len(),
{
    let len = input.len();
    let init = if start < LOOKBACK {
        0
    } else if start - LOOKBACK < len {
        start - LOOKBACK
    } else {
        len
    };
    proof {
        assert(init as int == resync_start(input@, start as int));
        lemma_resync_loop(input@, init as int, start as int);
    }
    let mut t = Tokenizer::from_offset(input, init);
    let mut done = false;
    while !done
        invariant
            t.wf(),
            t.src() == input@,
            0 <= t.pos() <= input@.len(),
            !done ==> sp_resync_loop(input@, init as int, start as int) == sp_resync_loop(
                input@,
                t.pos(),
                start as int,
            ),
            done ==> t.pos() == sp_resync_loop(input@, init as int, start as int),
        decreases (if done { 0int } else { 1int }), input@.len() - t.pos(),
    {
        if t.position >= start {
            done = true;
        } else {
            let ghost pb = t.pos();
            let step = t.next();
            proof {
                lemma_next_node(input@, pb);
            }
            if step.is_none() {
                done = true;
            }
        }
    }
    t.position
}

} // verus!
