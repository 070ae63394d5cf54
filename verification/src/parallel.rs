//! Chunked tokenization through the speculative fold discipline.
//!
//! The preprocessed input is cut into equal byte windows. The predictor
//! guesses each window's first token boundary with `next_token_start`;
//! the loop body lexes a window from a given start to the window's upper
//! bound and hands back the position it stopped at. Where the guess
//! disagrees with the previous window's true stop position the window is
//! recomputed from that position, exactly as a speculative fold replays a
//! mispredicted iteration, and the wrong tokens are discarded. The
//! contract states the punchline: the concatenated windows are the
//! sequential token stream, locations included.

use vstd::prelude::*;
use crate::lexer::Tokenizer;
use crate::model::sp_next_node;
use crate::model_props::lemma_next_node;
use crate::preprocess::{preprocess, preprocess_spec, lemma_preprocess_len};
use crate::resync::next_token_start;
use crate::speculate::SpecStats;
use crate::streams::{sp_stream, sp_window, sp_next_token_start, lemma_window_decompose,
    lemma_window_full, lemma_resync_zero, lemma_resync_clamp};
use crate::tokens::{Node, NodeS, nodes_view, node_view, lemma_nodes_view_push,
    lemma_nodes_view_concat};

verus! {

/// The window width used to cut a text of `len` bytes into `n` chunks.
pub open spec fn window_size(len: int, n: int) -> int {
    (len + n - 1) / n
}

/// The upper position bound of window `i`.
pub open spec fn window_upper(len: int, i: int, w: int) -> int {
    if (i + 1) * w < len {
        (i + 1) * w
    } else {
        len
    }
}

/// The position where window `i` of the chained run stops; window `-1`
/// stops at the start of the input.
pub open spec fn chain_end(s: Seq<u8>, i: int, w: int) -> int
    decreases i + 1,
{
    if i < 0 {
        0
    } else {
        sp_window(s, chain_end(s, i - 1, w), window_upper(s.len() as int, i, w)).1
    }
}

/// Collect the nodes emitted from `start` while the position is below
/// `upper`, and report the position reached.
#[verifier::loop_isolation(false)]
fn lex_window(input: &[u8], start: usize, upper: usize) -> (r: (Vec<Node>, usize))
    requires
        start <= input@.len() < usize::MAX,
        upper <= input@.len(),
    ensures
        nodes_view(r.0@) == sp_window(input@, start as int, upper as int).0,
        r.1 as int == sp_window(input@, start as int, upper as int).1,
{
    let ghost s = input@;
    let ghost p0 = start as int;
    let mut t = Tokenizer::from_offset(input, start);
    let mut out: Vec<Node> = Vec::new();
    let mut done = false;
    proof {
        assert(nodes_view(out@) =~= Seq::<NodeS>::empty());
    }
    while !done
        invariant
            t.wf(),
            t.src() == s,
            0 <= t.pos() <= s.len(),
            !done ==> sp_window(s, p0, upper as int).0 == nodes_view(out@) + sp_window(
                s,
                t.pos(),
                upper as int,
            ).0,
            !done ==> sp_window(s, p0, upper as int).1 == sp_window(s, t.pos(), upper as int).1,
            done ==> sp_window(s, p0, upper as int) == (nodes_view(out@), t.pos()),
        decreases (if done { 0int } else { 1int }), s.len() - t.pos(),
    {
        if t.position >= upper {
            proof {
                assert(nodes_view(out@) + Seq::<NodeS>::empty() =~= nodes_view(out@));
            }
            done = true;
        } else {
            let ghost pb = t.pos();
            let ghost pre_out = out@;
            let step = t.next();
            proof {
                lemma_next_node(s, pb);
            }
            if let Some(n) = step {
                out.push(n);
                proof {
                    let st = sp_next_node(s, pb);
                    lemma_nodes_view_push(pre_out, n);
                    assert(sp_window(s, pb, upper as int).0 == seq![node_view(n)] + sp_window(
                        s,
                        t.pos(),
                        upper as int,
                    ).0);
                    assert(nodes_view(pre_out) + (seq![node_view(n)] + sp_window(
                        s,
                        t.pos(),
                        upper as int,
                    ).0) =~= nodes_view(out@) + sp_window(s, t.pos(), upper as int).0);
                }
            } else {
                proof {
                    assert(nodes_view(out@) + Seq::<NodeS>::empty() =~= nodes_view(out@));
                }
                done = true;
            }
        }
    }
    (out, t.position)
}

/// Tokenize `input` in `num_iters` chunks through the speculative fold
/// discipline. The node vector equals the sequential token stream of the
/// preprocessed input, and the statistics record exactly the windows
/// whose predicted boundary differed from the previous window's true
/// stop position.
#[verifier::loop_isolation(false)]
pub fn spec_tokenize(input: &[u8], num_iters: usize) -> (res: (SpecStats, Vec<Node>))
    requires
        num_iters >= 1,
        input@.len() * 3 < usize::MAX,
    ensures
        nodes_view(res.1@) == sp_stream(preprocess_spec(input@), 0),
        res.0.iters == num_iters,
        res.0.mispredictions@.len() == num_iters,
        res.0.mispredictions@[0] == false,
        forall|j: int|
            1 <= j < num_iters ==> (#[trigger] res.0.mispredictions@[j]) == (sp_next_token_start(
                preprocess_spec(input@),
                j * window_size(preprocess_spec(input@).len() as int, num_iters as int),
            ) != chain_end(
                preprocess_spec(input@),
                j - 1,
                window_size(preprocess_spec(input@).len() as int, num_iters as int),
            )),
{
    let pre = preprocess(input);
    proof {
        lemma_preprocess_len(input@);
    }
    let ghost s = pre@;
    let len = pre.len();
    let w = len / num_iters + (if len % num_iters == 0 {
        0usize
    } else {
        1usize
    });
    proof {
        assert(w as int == window_size(s.len() as int, num_iters as int)) by (nonlinear_arith)
            requires
                num_iters >= 1,
                len == s.len(),
                w as int == len as int / num_iters as int + (if len as int % num_iters as int
                    == 0 {
                    0int
                } else {
                    1int
                }),
        ;
        assert(s.len() <= num_iters as int * (w as int)) by (nonlinear_arith)
            requires
                num_iters >= 1,
                len == s.len(),
                w as int == len as int / num_iters as int + (if len as int % num_iters as int
                    == 0 {
                    0int
                } else {
                    1int
                }),
        ;
    }
    let mut mis: Vec<bool> = Vec::new();
    let mut out: Vec<Node> = Vec::new();
    let mut prev: usize = 0;
    let mut u: usize = 0;
    let mut i: usize = 0;
    proof {
        lemma_resync_zero(s);
        assert(nodes_view(out@) + sp_stream(s, 0) =~= sp_stream(s, 0));
    }
    while i < num_iters
        invariant
            i <= num_iters,
            mis@.len() == i,
            prev as int == chain_end(s, i as int - 1, w as int),
            0 <= prev as int <= s.len(),
            u as int == (if (i as int) * (w as int) < s.len() {
                (i as int) * (w as int)
            } else {
                s.len() as int
            }),
            s.len() - u as int <= (num_iters - i) * (w as int),
            nodes_view(out@) + sp_stream(s, prev as int) == sp_stream(s, 0),
            i > 0 ==> mis@[0] == false,
            forall|j: int|
                1 <= j < i ==> (#[trigger] mis@[j]) == (sp_next_token_start(s, j * (w as int))
                    != chain_end(s, j - 1, w as int)),
            i == num_iters ==> sp_stream(s, prev as int) == Seq::<NodeS>::empty(),
        decreases num_iters - i,
    {
        let ghost ii = i as int;
        let pred = next_token_start(pre.as_slice(), u);
        proof {
            if !(ii * (w as int) < s.len()) {
                lemma_resync_clamp(s, ii * (w as int));
                lemma_resync_clamp(s, s.len() as int);
            }
            assert(pred as int == sp_next_token_start(s, ii * (w as int)));
        }
        let mispredicted = i > 0 && pred != prev;
        mis.push(mispredicted);
        let start = if i == 0 {
            pred
        } else if mispredicted {
            prev
        } else {
            pred
        };
        proof {
            assert(start == prev);
        }
        let upper = if len - u < w {
            len
        } else {
            u + w
        };
        proof {
            assert((ii + 1) * (w as int) == ii * (w as int) + (w as int)) by (nonlinear_arith);
            assert(upper as int == window_upper(s.len() as int, ii, w as int));
            assert((num_iters - (i + 1)) as int * (w as int) == (num_iters - i) as int * (
            w as int) - (w as int)) by (nonlinear_arith);
        }
        let (toks, endpos) = lex_window(pre.as_slice(), start, upper);
        proof {
            lemma_window_decompose(s, start as int, upper as int);
            assert(chain_end(s, ii, w as int) == endpos as int);
            lemma_nodes_view_concat(out@, toks@);
            assert((nodes_view(out@) + nodes_view(toks@)) + sp_stream(s, endpos as int)
                =~= nodes_view(out@) + (nodes_view(toks@) + sp_stream(s, endpos as int)));
            if i + 1 == num_iters {
                assert(upper as int == s.len());
                lemma_window_full(s, start as int, upper as int);
            }
        }
        let mut toks_m = toks;
        out.append(&mut toks_m);
        prev = endpos;
        u = upper;
        i = i + 1;
    }
    proof {
        assert(nodes_view(out@) + Seq::<NodeS>::empty() =~= nodes_view(out@));
    }
    (SpecStats { iters: num_iters, mispredictions: mis }, out)
}

} // verus!
