//! The speculative execution primitives.
//!
//! `speculate` lets a consumer run on a predicted producer value: if the
//! prediction matches the produced value the speculative result is the
//! answer, otherwise the consumer is re-run on the true value. `specfold`
//! applies the same idea to a dependent loop `x_{i+1} = body(i, x_i)`,
//! seeded with `predictor(0)`: an iteration whose predicted input differs
//! from its predecessor's true output is recomputed with that output, and
//! the mispredictions are recorded. The contracts promise exactly the
//! value of the sequential run, whatever interleaving a transport uses;
//! misprediction is bookkeeping, never an error.

use vstd::prelude::*;

verus! {

/// What a speculative fold observed: how many iterations ran, and which
/// of them mispredicted (the first never does).
#[derive(Debug)]
pub struct SpecStats {
    pub iters: usize,
    pub mispredictions: Vec<bool>,
}

/// Run `consumer` on what `producer` yields, overlapping them by feeding
/// `consumer` the predicted value first. Whatever path was taken, the
/// result is a consumer output of a producer output; for deterministic
/// closures that pins it to `consumer(producer())`.
pub fn speculate<B, P, Q, C>(producer: P, predictor: Q, consumer: C) -> (r: B) where
    P: FnOnce() -> usize,
    Q: FnOnce() -> usize,
    C: Fn(usize) -> B,

    requires
        producer.requires(()),
        predictor.requires(()),
        forall|v: usize| #[trigger] predictor.ensures((), v) ==> consumer.requires((v,)),
        forall|v: usize| #[trigger] producer.ensures((), v) ==> consumer.requires((v,)),
    ensures
        exists|v: usize| #[trigger] producer.ensures((), v) && consumer.ensures((v,), r),
{
    let prediction = predictor();
    let speculative_result = consumer(prediction);
    let real_value = producer();
    if real_value == prediction {
        proof {
            assert(producer.ensures((), real_value) && consumer.ensures(
                (real_value,),
                speculative_result,
            ));
        }
        speculative_result
    } else {
        let recomputed = consumer(real_value);
        proof {
            assert(producer.ensures((), real_value) && consumer.ensures(
                (real_value,),
                recomputed,
            ));
        }
        recomputed
    }
}

/// The relation a speculative fold establishes: `p` are predictor outputs,
/// `r` the chained results (`r[0]` from the seed `p[0]`, then each from
/// its predecessor's true output), and `mis` marks exactly the iterations
/// whose prediction differed from that output.
pub open spec fn fold_witness<F, P>(
    iters: int,
    loop_body: F,
    predictor: P,
    p: Seq<usize>,
    r: Seq<usize>,
    mis: Seq<bool>,
) -> bool where F: Fn(usize, usize) -> usize, P: Fn(usize) -> usize {
    &&& p.len() == iters
    &&& r.len() == iters
    &&& mis.len() == iters
    &&& forall|i: int| 0 <= i < iters ==> predictor.ensures(((i as usize),), #[trigger] p[i])
    &&& (iters > 0 ==> loop_body.ensures((0usize, p[0]), r[0]) && mis[0] == false)
    &&& forall|i: int|
        1 <= i < iters ==> loop_body.ensures(((i as usize), r[i - 1]), #[trigger] r[i])
    &&& forall|i: int| 1 <= i < iters ==> (#[trigger] mis[i] == (p[i] != r[i - 1]))
}

/// Iteratively run `loop_body` on guessed inputs. The statistics are
/// tied to predictor and body outputs by `fold_witness`: the recorded
/// results chain exactly as the sequential recurrence seeded with
/// `predictor(0)` would, and an iteration is marked mispredicted iff its
/// guess differed from its predecessor's true output.
#[verifier::loop_isolation(false)]
pub fn specfold<F, P>(iters: usize, loop_body: F, predictor: P) -> (stats: SpecStats) where
    F: Fn(usize, usize) -> usize,
    P: Fn(usize) -> usize,

    requires
        forall|i: usize| i < iters ==> predictor.requires((i,)),
        forall|i: usize, v: usize|
            i < iters && #[trigger] predictor.ensures((i,), v) ==> loop_body.requires((i, v)),
        forall|i: usize, x: usize, v: usize|
            1 <= i < iters && #[trigger] loop_body.ensures(((i - 1) as usize, x), v)
                ==> loop_body.requires((i, v)),
    ensures
        stats.iters == iters,
        stats.mispredictions@.len() == iters,
        exists|p: Seq<usize>, r: Seq<usize>|
            #[trigger] fold_witness(iters as int, loop_body, predictor, p, r,
                stats.mispredictions@,
            ),
{
    let mut mis: Vec<bool> = Vec::new();
    let mut prev: usize = 0;
    let ghost mut ps: Seq<usize> = Seq::empty();
    let ghost mut rs: Seq<usize> = Seq::empty();
    let mut i: usize = 0;
    while i < iters
        invariant
            i <= iters,
            mis@.len() == i,
            ps.len() == i,
            rs.len() == i,
            forall|j: int| 0 <= j < i ==> predictor.ensures(((j as usize),), #[trigger] ps[j]),
            i > 0 ==> loop_body.ensures((0usize, ps[0]), rs[0]) && mis@[0] == false,
            forall|j: int|
                1 <= j < i ==> loop_body.ensures(((j as usize), rs[j - 1]), #[trigger] rs[j]),
            forall|j: int| 1 <= j < i ==> (#[trigger] mis@[j] == (ps[j] != rs[j - 1])),
            i > 0 ==> prev == rs[i - 1],
        decreases iters - i,
    {
        let pred = predictor(i);
        let mispredicted = i > 0 && pred != prev;
        mis.push(mispredicted);
        let x = if i == 0 {
            pred
        } else if mispredicted {
            prev
        } else {
            pred
        };
        let res = loop_body(i, x);
        proof {
            ps = ps.push(pred);
            rs = rs.push(res);
        }
        prev = res;
        i = i + 1;
    }
    let stats = SpecStats { iters, mispredictions: mis };
    proof {
        assert(fold_witness(iters as int, loop_body, predictor, ps, rs, stats.mispredictions@));
    }
    stats
}

} // verus!
