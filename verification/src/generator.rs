//! Generation: the context grows by the token that its nearest samples
//! vote for.

use vstd::prelude::*;
use vstd::slice::slice_subrange;
use crate::error::NcdError;
use crate::metric::Ncd;
use crate::neighbors::all_wf;
use crate::neighbors::k_nearest;
use crate::neighbors::lemma_nearest_one;
use crate::neighbors::lemma_vote_of_one;
use crate::neighbors::ranks_before;
use crate::neighbors::majority;
use crate::neighbors::nearest;
use crate::neighbors::selects;
use crate::neighbors::vote;
use crate::pool::current_worker;
use crate::pool::CompressorPool;
use crate::pool::Oracle;
use crate::training::collect;
use crate::training::query_scores;
use crate::training::Sample;
use crate::training::TrainingSet;

verus! {

/// The targets of the chosen samples, in the order in which they were
/// chosen.
pub open spec fn targets_of(samples: Seq<Sample>, chosen: Seq<usize>) -> Seq<u8> {
    Seq::new(chosen.len(), |p: int| samples[chosen[p] as int].target)
}

/// The token that follows `window`: the vote of the targets of the `k`
/// samples whose contexts are nearest to it. There is none where no
/// sample is chosen; a failure of a measurement fails the step.
pub open spec fn next_token(o: Oracle, ts: TrainingSet, window: Seq<u8>, k: int) -> Result<
    Option<u8>,
    NcdError,
> {
    match o.size(window) {
        Err(e) => Err(e),
        Ok(qsize) => match collect(ts.row(o, window, qsize)) {
            Err(e) => Err(e),
            Ok(scores) => Ok(vote(targets_of(ts.samples(), nearest(scores, k)))),
        },
    }
}

/// With one neighbor, the sample that ranks before every other decides:
/// the token is its target.
pub proof fn lemma_first_ranked_decides(samples: Seq<Sample>, scores: Seq<Ncd>, m: usize)
    requires
        all_wf(scores, scores.len() as int),
        samples.len() == scores.len(),
        m < scores.len(),
        forall|j: int| 0 <= j < scores.len() && j != m ==> #[trigger] ranks_before(scores, m as int, j),
    ensures
        vote(targets_of(samples, nearest(scores, 1))) == Some(samples[m as int].target),
{
    lemma_nearest_one(scores, m);
    lemma_vote_of_one(samples[m as int].target);
    assert(targets_of(samples, seq![m]) =~= seq![samples[m as int].target]);
}

/// The last `n_ctx` tokens of a context that has that many.
pub open spec fn last_window(context: Seq<u8>, n_ctx: int) -> Seq<u8> {
    context.subrange(context.len() - n_ctx, context.len() as int)
}

/// The context after up to `steps` more tokens: each step appends the
/// token that follows the last `n_ctx` tokens. The context stays as it
/// is from the step on that finds no token; a step that fails fails the
/// whole.
pub open spec fn continuation(
    o: Oracle,
    ts: TrainingSet,
    context: Seq<u8>,
    n_ctx: int,
    k: int,
    steps: nat,
) -> Result<Seq<u8>, NcdError>
    decreases steps,
{
    if steps == 0 {
        Ok(context)
    } else {
        match next_token(o, ts, last_window(context, n_ctx), k) {
            Err(e) => Err(e),
            Ok(None) => Ok(context),
            Ok(Some(token)) => continuation(o, ts, context.push(token), n_ctx, k, (steps - 1) as nat),
        }
    }
}

/// What generation from a seed gives: the seed with its continuation,
/// and a failure where the seed is shorter than the window.
pub open spec fn generated(
    o: Oracle,
    ts: TrainingSet,
    seed: Seq<u8>,
    n_ctx: int,
    k: int,
    max_new_tokens: nat,
) -> Result<Seq<u8>, NcdError> {
    if seed.len() < n_ctx {
        Err(NcdError::ContextTooShort)
    } else {
        continuation(o, ts, seed, n_ctx, k, max_new_tokens)
    }
}

/// Finds the token that follows `window`: measures the window once,
/// measures its distance to every sample, selects the `k` nearest, and
/// takes the vote of their targets.
pub fn predict_next(pool: &mut CompressorPool, worker: usize, ts: &TrainingSet, window: &[u8], k: usize) -> (r:
    Result<Option<u8>, NcdError>)
    requires
        old(pool).wf(),
        ts.wf(),
    ensures
        final(pool).wf(),
        final(pool).slot_count() == old(pool).slot_count(),
        final(pool).capacity() == old(pool).capacity(),
        final(pool).free() == old(pool).free(),
        r == next_token(old(pool).oracle(worker), *ts, window@, k as int),
{
    let qsize = match pool.compressed_size_at(worker, window) {
        Ok(qsize) => qsize,
        Err(e) => {
            return Err(e);
        },
    };
    let scores = match query_scores(pool, worker, ts, window, qsize) {
        Ok(scores) => scores,
        Err(e) => {
            return Err(e);
        },
    };
    let chosen = k_nearest(&scores, k);
    let mut targets: Vec<u8> = Vec::new();
    let mut p: usize = 0;
    while p < chosen.len()
        invariant
            p <= chosen@.len(),
            scores@.len() == ts.samples().len(),
            selects(scores@, scores@.len() as int, k as int, chosen@),
            targets@ == Seq::new(p as nat, |q: int| ts.samples()[chosen@[q] as int].target),
        decreases chosen@.len() - p,
    {
        targets.push(ts.target(chosen[p]));
        p = p + 1;
    }
    assert(targets@ == targets_of(ts.samples(), chosen@));
    Ok(majority(&targets))
}

/// Extends `context` by up to `max_new_tokens` tokens on the slot of
/// `worker`: each step takes the last `n_ctx` tokens as the query and
/// appends the token that `predict_next` finds for it. Generation ends
/// early where no sample is chosen. A context shorter than `n_ctx`, or a
/// measurement that fails, fails the call.
pub fn generate_at(
    pool: &mut CompressorPool,
    worker: usize,
    ts: &TrainingSet,
    context: &[u8],
    n_ctx: usize,
    k: usize,
    max_new_tokens: usize,
) -> (r: Result<Vec<u8>, NcdError>)
    requires
        old(pool).wf(),
        ts.wf(),
    ensures
        final(pool).wf(),
        final(pool).slot_count() == old(pool).slot_count(),
        final(pool).capacity() == old(pool).capacity(),
        final(pool).free() == old(pool).free(),
        match r {
            Ok(tokens) => generated(
                old(pool).oracle(worker),
                *ts,
                context@,
                n_ctx as int,
                k as int,
                max_new_tokens as nat,
            ) == Ok::<Seq<u8>, NcdError>(tokens@),
            Err(e) => generated(
                old(pool).oracle(worker),
                *ts,
                context@,
                n_ctx as int,
                k as int,
                max_new_tokens as nat,
            ) == Err::<Seq<u8>, NcdError>(e),
        },
{
    if context.len() < n_ctx {
        return Err(NcdError::ContextTooShort);
    }
    let ghost o = pool.oracle(worker);
    let ghost goal = continuation(o, *ts, context@, n_ctx as int, k as int, max_new_tokens as nat);
    let mut tokens: Vec<u8> = Vec::new();
    let mut c: usize = 0;
    while c < context.len()
        invariant
            c <= context@.len(),
            tokens@ == context@.subrange(0, c as int),
        decreases context@.len() - c,
    {
        tokens.push(context[c]);
        c = c + 1;
    }
    assert(tokens@ == context@);
    let mut made: usize = 0;
    while made < max_new_tokens
        invariant
            made <= max_new_tokens,
            ts.wf(),
            pool.wf(),
            pool.slot_count() == old(pool).slot_count(),
            pool.capacity() == old(pool).capacity(),
            pool.free() == old(pool).free(),
            pool.oracle(worker) == o,
            o == old(pool).oracle(worker),
            context@.len() >= n_ctx,
            goal == continuation(o, *ts, context@, n_ctx as int, k as int, max_new_tokens as nat),
            tokens@.len() >= n_ctx,
            goal == continuation(
                o,
                *ts,
                tokens@,
                n_ctx as int,
                k as int,
                (max_new_tokens - made) as nat,
            ),
        decreases max_new_tokens - made,
    {
        let len = tokens.len();
        let window = slice_subrange(tokens.as_slice(), len - n_ctx, len);
        match predict_next(pool, worker, ts, window, k) {
            Err(e) => {
                return Err(e);
            },
            Ok(None) => {
                return Ok(tokens);
            },
            Ok(Some(token)) => {
                tokens.push(token);
            },
        }
        made = made + 1;
    }
    Ok(tokens)
}

/// Extends `context` by up to `max_new_tokens` tokens on the slot of the
/// calling thread.
pub fn generate(
    pool: &mut CompressorPool,
    ts: &TrainingSet,
    context: &[u8],
    n_ctx: usize,
    k: usize,
    max_new_tokens: usize,
) -> (r: Result<Vec<u8>, NcdError>)
    requires
        old(pool).wf(),
        ts.wf(),
    ensures
        final(pool).wf(),
        final(pool).slot_count() == old(pool).slot_count(),
        final(pool).capacity() == old(pool).capacity(),
        final(pool).free() == old(pool).free(),
        exists|worker: usize|
            match r {
                Ok(tokens) => generated(
                    #[trigger] old(pool).oracle(worker),
                    *ts,
                    context@,
                    n_ctx as int,
                    k as int,
                    max_new_tokens as nat,
                ) == Ok::<Seq<u8>, NcdError>(tokens@),
                Err(e) => generated(
                    old(pool).oracle(worker),
                    *ts,
                    context@,
                    n_ctx as int,
                    k as int,
                    max_new_tokens as nat,
                ) == Err::<Seq<u8>, NcdError>(e),
            },
        context@.len() < n_ctx ==> r == Err::<Vec<u8>, NcdError>(NcdError::ContextTooShort),
{
    let worker = current_worker();
    generate_at(pool, worker, ts, context, n_ctx, k, max_new_tokens)
}

} // verus!
