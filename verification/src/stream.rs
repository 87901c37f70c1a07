//! Streaming processors: a state and a sample give the next state and a sample.
use crate::num::F32;
use vstd::prelude::*;

verus! {

/// What a processor makes of a run of samples: the state it ends in, and what it
/// gives for each sample.
pub open spec fn run<S>(step: spec_fn(S, F32) -> (S, F32), s: S, xs: Seq<F32>) -> (S, Seq<F32>)
    decreases xs.len(),
{
    if xs.len() == 0 {
        (s, Seq::empty())
    } else {
        let (t, ys) = run(step, s, xs.drop_last());
        let (u, y) = step(t, xs.last());
        (u, ys.push(y))
    }
}

/// Every sample gives one sample.
pub proof fn law_runs_keep_length<S>(step: spec_fn(S, F32) -> (S, F32), s: S, xs: Seq<F32>)
    ensures
        run(step, s, xs).1.len() == xs.len(),
    decreases xs.len(),
{
    if xs.len() > 0 {
        law_runs_keep_length(step, s, xs.drop_last());
    }
}

/// Two blocks one after the other give what the one block made of both gives.
pub proof fn law_runs_compose<S>(
    step: spec_fn(S, F32) -> (S, F32),
    s: S,
    a: Seq<F32>,
    b: Seq<F32>,
)
    ensures
        run(step, s, a + b).0 == run(step, run(step, s, a).0, b).0,
        run(step, s, a + b).1 == run(step, s, a).1 + run(step, run(step, s, a).0, b).1,
    decreases b.len(),
{
    if b.len() == 0 {
        assert(a + b =~= a);
        assert(run(step, s, a).1 + Seq::<F32>::empty() =~= run(step, s, a).1);
    } else {
        law_runs_compose(step, s, a, b.drop_last());
        assert((a + b).drop_last() =~= a + b.drop_last());
        assert((a + b).last() == b.last());
        let t = run(step, s, a).0;
        let ys = run(step, t, b.drop_last()).1;
        let y = step(run(step, t, b.drop_last()).0, b.last()).1;
        assert((run(step, s, a).1 + ys).push(y) =~= run(step, s, a).1 + ys.push(y));
    }
}

} // verus!
