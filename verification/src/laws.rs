//! Crate-level laws that tie the public contracts together.
//!
//! The contracts of `tokenize`, `spec_tokenize`, `next_token_start`,
//! `speculate` and `specfold` each pin their result to a pure function of
//! the input; the laws here spell out the consequences a caller relies
//! on. Others live next to their subject: preprocessing idempotence in
//! [`crate::preprocess`], progress and location validity in the contract
//! of [`crate::lexer::Tokenizer::next`], and the resynchronization bounds
//! in the contract of [`crate::resync::next_token_start`].

use vstd::prelude::*;
use crate::linecol::lemma_location_valid;
use crate::model::{sp_next_node, sp_skip_comments};
use crate::model_props::{lemma_next_node, lemma_skip_comments};
use crate::preprocess::preprocess_spec;
use crate::streams::sp_stream;
use crate::tokens::{Node, nodes_view};

verus! {

/// Determinism: any two node vectors that meet the contract of
/// `tokenize` on the same input hold the same nodes pointwise, source
/// locations included. The token stream is a function of the input bytes
/// alone.
pub proof fn lemma_tokenize_deterministic(input: Seq<u8>, a: Seq<Node>, b: Seq<Node>)
    requires
        nodes_view(a) == sp_stream(preprocess_spec(input), 0),
        nodes_view(b) == sp_stream(preprocess_spec(input), 0),
    ensures
        nodes_view(a) == nodes_view(b),
        a.len() == b.len(),
{
    assert(nodes_view(a).len() == a.len());
    assert(nodes_view(b).len() == b.len());
}

/// Parallel equivalence: a node vector from `spec_tokenize`, with any
/// number of windows, holds the same nodes as one from `tokenize` on the
/// same input, source locations included. Both contracts pin the result
/// to the sequential stream of the preprocessed input.
pub proof fn lemma_parallel_equivalence(input: Seq<u8>, seq_run: Seq<Node>, par_run: Seq<Node>)
    requires
        nodes_view(seq_run) == sp_stream(preprocess_spec(input), 0),
        nodes_view(par_run) == sp_stream(preprocess_spec(input), 0),
    ensures
        nodes_view(par_run) == nodes_view(seq_run),
        par_run.len() == seq_run.len(),
{
    assert(nodes_view(seq_run).len() == seq_run.len());
    assert(nodes_view(par_run).len() == par_run.len());
}


/// Location validity: every node of the token stream carries a line and
/// a column of at least one; its column counts bytes from the start of
/// its line, as `col_of` defines.
pub proof fn lemma_stream_locations_valid(s: Seq<u8>, pos: int)
    requires
        0 <= pos <= s.len(),
    ensures
        forall|k: int|
            0 <= k < sp_stream(s, pos).len() ==> (#[trigger] sp_stream(s, pos)[k]).line >= 1
                && sp_stream(s, pos)[k].column >= 1,
    decreases s.len() - pos,
{
    lemma_next_node(s, pos);
    lemma_skip_comments(s, pos);
    let st = sp_next_node(s, pos);
    match st.node {
        None => {},
        Some(n) => {
            lemma_location_valid(s, sp_skip_comments(s, pos));
            lemma_stream_locations_valid(s, st.end);
            assert forall|k: int| 0 <= k < sp_stream(s, pos).len() implies (
            #[trigger] sp_stream(s, pos)[k]).line >= 1 && sp_stream(s, pos)[k].column
                >= 1 by {
                if k == 0 {
                    assert(sp_stream(s, pos)[0] == n);
                } else {
                    assert(sp_stream(s, pos)[k] == sp_stream(s, st.end)[k - 1]);
                }
            }
        },
    }
}

} // verus!
