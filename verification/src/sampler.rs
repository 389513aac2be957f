//! Sampling of contexts and targets from a corpus, exhaustively or at
//! random offsets.

use vstd::prelude::*;
use vstd::slice::slice_subrange;
use crate::error::NcdError;

verus! {

/// A run of tokens of a corpus, held as the place where it starts and its
/// length. It borrows nothing and copies nothing.
#[derive(Clone, Copy, Debug, PartialEq, Eq, Structural)]
pub struct Window {
    pub start: usize,
    pub len: usize,
}

impl Window {
    /// The window lies within a corpus of `n` tokens.
    pub open spec fn fits(self, n: nat) -> bool {
        self.start + self.len <= n
    }

    /// The window and the token after it lie within a corpus of `n` tokens.
    pub open spec fn has_target(self, n: nat) -> bool {
        self.start + self.len < n
    }

    /// The tokens of the window.
    pub open spec fn of(self, corpus: Seq<u8>) -> Seq<u8> {
        corpus.subrange(self.start as int, self.start + self.len)
    }

    /// Whether the window lies within a corpus of `n` tokens.
    pub fn fits_in(&self, n: usize) -> (b: bool)
        ensures
            b == self.fits(n as nat),
    {
        self.len <= n && self.start <= n - self.len
    }

    /// Whether the window and the token after it lie within a corpus of
    /// `n` tokens.
    pub fn has_target_in(&self, n: usize) -> (b: bool)
        ensures
            b == self.has_target(n as nat),
    {
        self.len < n && self.start < n - self.len
    }

    /// The tokens of the window, as a view into the corpus.
    pub fn slice<'a>(&self, corpus: &'a [u8]) -> (s: &'a [u8])
        requires
            self.fits(corpus@.len()),
        ensures
            s@ == self.of(corpus@),
    {
        let total = corpus.len();
        assert(self.start + self.len <= total);
        slice_subrange(corpus, self.start, self.start + self.len)
    }
}

/// A context and the token that followed it in the corpus.
#[derive(Clone, Copy, Debug, PartialEq, Eq, Structural)]
pub struct Example {
    pub window: Window,
    pub target: u8,
}

/// The example that the first `len` tokens from `start` give: that run as
/// the context, the token after it as the target.
pub open spec fn example_at(corpus: Seq<u8>, start: usize, len: int) -> Example {
    Example { window: Window { start, len: len as usize }, target: corpus[start + len] }
}

/// The examples that one window gives: one for each of its prefixes,
/// shortest first, each with the token that follows the prefix.
pub open spec fn prefixes(corpus: Seq<u8>, w: Window) -> Seq<Example> {
    Seq::new(w.len as nat, |t: int| example_at(corpus, w.start, t + 1))
}

/// The examples that a list of windows gives, window by window.
pub open spec fn examples_of(corpus: Seq<u8>, windows: Seq<Window>) -> Seq<Example>
    decreases windows.len(),
{
    if windows.len() == 0 {
        Seq::empty()
    } else {
        examples_of(corpus, windows.drop_last()) + prefixes(corpus, windows.last())
    }
}

/// Every window of the list has its target within a corpus of `n` tokens.
pub open spec fn all_have_targets(windows: Seq<Window>, n: nat) -> bool {
    forall|b: int| 0 <= b < windows.len() ==> (#[trigger] windows[b]).has_target(n)
}

/// The windows of length `n_ctx` at every offset of a corpus of `n`
/// tokens that leaves room for a target, in the order of the offsets.
pub open spec fn all_windows(n: nat, n_ctx: usize) -> Seq<Window> {
    Seq::new(
        if n >= n_ctx {
            (n - n_ctx) as nat
        } else {
            0
        },
        |i: int| Window { start: i as usize, len: n_ctx },
    )
}

/// The example's context lies within the corpus, and its target is the
/// token that follows the context there.
pub open spec fn follows(corpus: Seq<u8>, e: Example) -> bool {
    e.window.has_target(corpus.len()) && e.target == corpus[e.window.start + e.window.len]
}

/// Every example of windows that have their targets is a context of the
/// corpus with the token that follows it.
pub proof fn lemma_examples_follow(corpus: Seq<u8>, windows: Seq<Window>)
    requires
        all_have_targets(windows, corpus.len()),
    ensures
        forall|i: int|
            0 <= i < examples_of(corpus, windows).len() ==> follows(
                corpus,
                #[trigger] examples_of(corpus, windows)[i],
            ),
    decreases windows.len(),
{
    if windows.len() > 0 {
        let earlier = windows.drop_last();
        let w = windows.last();
        assert(all_have_targets(earlier, corpus.len())) by {
            assert forall|b: int| 0 <= b < earlier.len() implies (#[trigger] earlier[b]).has_target(
                corpus.len(),
            ) by {
                assert(earlier[b] == windows[b]);
            }
        }
        lemma_examples_follow(corpus, earlier);
        assert(w.has_target(corpus.len()));
        let head = examples_of(corpus, earlier);
        let all = examples_of(corpus, windows);
        assert forall|i: int| 0 <= i < all.len() implies follows(corpus, #[trigger] all[i]) by {
            if i < head.len() {
                assert(all[i] == head[i]);
            } else {
                assert(all[i] == prefixes(corpus, w)[i - head.len()]);
            }
        }
    }
}

/// The targets of the prefixes of a window are the tokens of the window
/// that starts one token further on.
pub proof fn lemma_targets_are_next_window(corpus: Seq<u8>, x: Window, t: int)
    requires
        corpus.len() <= usize::MAX,
        x.has_target(corpus.len()),
        0 <= t < x.len,
    ensures
        prefixes(corpus, x)[t].target == (Window { start: (x.start + 1) as usize, len: x.len }).of(
            corpus,
        )[t],
{
}

/// Windows of one length give that many examples each.
pub proof fn lemma_examples_len(corpus: Seq<u8>, windows: Seq<Window>, n_ctx: usize)
    requires
        forall|b: int| 0 <= b < windows.len() ==> (#[trigger] windows[b]).len == n_ctx,
    ensures
        examples_of(corpus, windows).len() == windows.len() * n_ctx,
    decreases windows.len(),
{
    if windows.len() > 0 {
        lemma_examples_len(corpus, windows.drop_last(), n_ctx);
        assert((windows.len() - 1) * n_ctx + n_ctx == windows.len() * n_ctx) by (nonlinear_arith);
    }
}

/// The exhaustive sample of a corpus of `n` tokens holds `n_ctx` examples
/// for each of the `n - n_ctx` offsets.
pub proof fn lemma_exhaustive_len(corpus: Seq<u8>, n_ctx: usize)
    requires
        corpus.len() >= n_ctx,
    ensures
        examples_of(corpus, all_windows(corpus.len(), n_ctx)).len() == (corpus.len() - n_ctx)
            * n_ctx,
{
    lemma_examples_len(corpus, all_windows(corpus.len(), n_ctx), n_ctx);
}

/// Builds the examples of one window. Fails where the window, with its
/// target, does not lie within the corpus.
pub fn expand_window(corpus: &[u8], w: Window) -> (r: Result<Vec<Example>, NcdError>)
    ensures
        match r {
            Ok(v) => w.has_target(corpus@.len()) && v@ == prefixes(corpus@, w),
            Err(e) => e == NcdError::ContextTooShort && !w.has_target(corpus@.len()),
        },
{
    if !w.has_target_in(corpus.len()) {
        return Err(NcdError::ContextTooShort);
    }
    let mut v: Vec<Example> = Vec::new();
    let mut t: usize = 0;
    while t < w.len
        invariant
            t <= w.len,
            w.has_target(corpus@.len()),
            corpus@.len() <= usize::MAX,
            v@ == Seq::new(t as nat, |u: int| example_at(corpus@, w.start, u + 1)),
        decreases w.len - t,
    {
        let example = Example {
            window: Window { start: w.start, len: t + 1 },
            target: corpus[w.start + t + 1],
        };
        v.push(example);
        t = t + 1;
    }
    Ok(v)
}

/// Builds the examples of a list of windows, window by window. Fails
/// where one of the windows, with its target, does not lie within the
/// corpus.
pub fn expand(corpus: &[u8], windows: &Vec<Window>) -> (r: Result<Vec<Example>, NcdError>)
    ensures
        match r {
            Ok(v) => all_have_targets(windows@, corpus@.len()) && v@ == examples_of(
                corpus@,
                windows@,
            ),
            Err(e) => e == NcdError::ContextTooShort && !all_have_targets(windows@, corpus@.len()),
        },
{
    let mut v: Vec<Example> = Vec::new();
    let mut b: usize = 0;
    while b < windows.len()
        invariant
            b <= windows@.len(),
            all_have_targets(windows@.take(b as int), corpus@.len()),
            v@ == examples_of(corpus@, windows@.take(b as int)),
        decreases windows@.len() - b,
    {
        match expand_window(corpus, windows[b]) {
            Err(e) => {
                return Err(e);
            },
            Ok(part) => {
                let mut part = part;
                proof {
                    assert(windows@.take(b + 1).drop_last() == windows@.take(b as int));
                    assert(windows@.take(b + 1).last() == windows@[b as int]);
                    assert forall|c: int| 0 <= c < b + 1 implies (#[trigger] windows@.take(
                        b + 1,
                    )[c]).has_target(corpus@.len()) by {
                        if c < b {
                            assert(windows@.take(b as int)[c] == windows@[c]);
                        }
                    }
                }
                v.append(&mut part);
            },
        }
        b = b + 1;
    }
    assert(windows@.take(b as int) == windows@);
    Ok(v)
}

/// The exhaustive sample: the examples of the window of length `n_ctx`
/// at every offset that leaves room for a target, in the order of the
/// offsets. Fails where the corpus is shorter than a window.
pub fn exhaustive(corpus: &[u8], n_ctx: usize) -> (r: Result<Vec<Example>, NcdError>)
    ensures
        match r {
            Ok(v) => corpus@.len() >= n_ctx && v@ == examples_of(
                corpus@,
                all_windows(corpus@.len(), n_ctx),
            ),
            Err(e) => e == NcdError::ContextTooShort && corpus@.len() < n_ctx,
        },
{
    if corpus.len() < n_ctx {
        return Err(NcdError::ContextTooShort);
    }
    let offsets = corpus.len() - n_ctx;
    let mut windows: Vec<Window> = Vec::new();
    let mut i: usize = 0;
    while i < offsets
        invariant
            i <= offsets,
            offsets == corpus@.len() - n_ctx,
            windows@ == Seq::new(i as nat, |j: int| Window { start: j as usize, len: n_ctx }),
        decreases offsets - i,
    {
        windows.push(Window { start: i, len: n_ctx });
        i = i + 1;
    }
    assert(windows@ == all_windows(corpus@.len(), n_ctx));
    expand(corpus, &windows)
}

/// `rand::Rng::gen_range` on the generator of `rand::thread_rng`, over
/// the range from 0 up to and without `bound`. The contract claims that
/// the value lies in that range; an empty range is left out, as the call
/// panics on it.
#[verifier::external_body]
fn random_below(bound: usize) -> (r: usize)
    requires
        bound > 0,
    ensures
        r < bound,
{
    rand::Rng::gen_range(&mut rand::thread_rng(), 0..bound)
}

/// Draws `batch_size` windows of length `n_ctx` at random offsets of
/// `data`, and with each the window one token further on, which holds
/// the targets of its prefixes. Fails where the corpus is too short for
/// a window with a target.
pub fn get_data(data: &Vec<u8>, n_ctx: usize, batch_size: usize) -> (r: Result<
    (Vec<Window>, Vec<Window>),
    NcdError,
>)
    ensures
        match r {
            Ok((x, y)) => {
                &&& data@.len() > n_ctx
                &&& x@.len() == batch_size
                &&& y@.len() == batch_size
                &&& forall|b: int|
                    0 <= b < batch_size ==> {
                        &&& (#[trigger] x@[b]).len == n_ctx
                        &&& x@[b].has_target(data@.len())
                        &&& y@[b] == Window { start: (x@[b].start + 1) as usize, len: n_ctx }
                    }
            },
            Err(e) => e == NcdError::ContextTooShort && data@.len() <= n_ctx,
        },
{
    if data.len() <= n_ctx {
        return Err(NcdError::ContextTooShort);
    }
    let max_idx = data.len() - n_ctx;
    let mut x: Vec<Window> = Vec::new();
    let mut y: Vec<Window> = Vec::new();
    let mut b: usize = 0;
    while b < batch_size
        invariant
            b <= batch_size,
            data@.len() > n_ctx,
            max_idx == data@.len() - n_ctx,
            x@.len() == b,
            y@.len() == b,
            forall|c: int|
                0 <= c < b ==> {
                    &&& (#[trigger] x@[c]).len == n_ctx
                    &&& x@[c].has_target(data@.len())
                    &&& y@[c] == Window { start: (x@[c].start + 1) as usize, len: n_ctx }
                },
        decreases batch_size - b,
    {
        let i = random_below(max_idx);
        x.push(Window { start: i, len: n_ctx });
        y.push(Window { start: i + 1, len: n_ctx });
        b = b + 1;
    }
    Ok((x, y))
}

/// A random sample: the examples of `batch_size` windows of length
/// `n_ctx` at random offsets. Fails where the corpus is too short for a
/// window with a target.
pub fn random_batch(data: &Vec<u8>, n_ctx: usize, batch_size: usize) -> (r: Result<
    Vec<Example>,
    NcdError,
>)
    ensures
        match r {
            Ok(v) => {
                &&& data@.len() > n_ctx
                &&& exists|x: Seq<Window>|
                    {
                        &&& x.len() == batch_size
                        &&& forall|b: int|
                            0 <= b < batch_size ==> (#[trigger] x[b]).len == n_ctx
                                && x[b].has_target(data@.len())
                        &&& v@ == #[trigger] examples_of(data@, x)
                    }
            },
            Err(e) => e == NcdError::ContextTooShort && data@.len() <= n_ctx,
        },
{
    match get_data(data, n_ctx, batch_size) {
        Err(e) => Err(e),
        Ok((x, _)) => {
            let r = expand(data.as_slice(), &x);
            assert(all_have_targets(x@, data@.len()));
            r
        },
    }
}

} // verus!
