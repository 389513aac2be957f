//! The training set, its measurement, and the distances between its
//! contexts.

use vstd::prelude::*;
use crate::error::NcdError;
use crate::metric::ncd_at;
use crate::metric::ncd_spec;
use crate::metric::Ncd;
use crate::neighbors::all_wf;
use crate::pool::CompressorPool;
use crate::pool::Oracle;
use crate::sampler::Example;
use crate::sampler::Window;

verus! {

/// A context of the corpus with its compressed size and the token that
/// followed it.
#[derive(Clone, Copy, Debug, PartialEq, Eq, Structural)]
pub struct Sample {
    pub window: Window,
    pub size: u64,
    pub target: u8,
}

/// The samples that measuring a list of examples gives, in their order;
/// or the first failure: of an example whose window does not lie within
/// the corpus, or of a measurement.
pub open spec fn measure_all(o: Oracle, corpus: Seq<u8>, examples: Seq<Example>) -> Result<
    Seq<Sample>,
    NcdError,
>
    decreases examples.len(),
{
    if examples.len() == 0 {
        Ok(Seq::empty())
    } else {
        match measure_all(o, corpus, examples.drop_last()) {
            Err(e) => Err(e),
            Ok(done) => {
                let ex = examples.last();
                if !ex.window.fits(corpus.len()) {
                    Err(NcdError::ContextTooShort)
                } else {
                    match o.size(ex.window.of(corpus)) {
                        Err(e) => Err(e),
                        Ok(size) => Ok(
                            done.push(Sample { window: ex.window, size, target: ex.target }),
                        ),
                    }
                }
            },
        }
    }
}

/// A failure on the first `i` examples is the failure on all of them.
pub proof fn lemma_measure_all_fails(
    o: Oracle,
    corpus: Seq<u8>,
    examples: Seq<Example>,
    i: int,
    n: int,
)
    requires
        0 <= i <= n <= examples.len(),
        measure_all(o, corpus, examples.take(i)) is Err,
    ensures
        measure_all(o, corpus, examples.take(n)) == measure_all(o, corpus, examples.take(i)),
    decreases n - i,
{
    if i < n {
        lemma_measure_all_fails(o, corpus, examples, i, n - 1);
        assert(examples.take(n).drop_last() == examples.take(n - 1));
    }
}

/// Where every example is measured, there is one sample for each: it has
/// the example's window and target, and the size that the oracle gives
/// for the window's tokens.
pub proof fn lemma_measure_all_samples(o: Oracle, corpus: Seq<u8>, examples: Seq<Example>)
    requires
        measure_all(o, corpus, examples) is Ok,
    ensures
        ({
            let samples = measure_all(o, corpus, examples).unwrap();
            &&& samples.len() == examples.len()
            &&& forall|j: int|
                0 <= j < examples.len() ==> {
                    &&& (#[trigger] samples[j]).window == examples[j].window
                    &&& samples[j].target == examples[j].target
                    &&& samples[j].window.fits(corpus.len())
                    &&& o.size(samples[j].window.of(corpus)) == Ok::<u64, NcdError>(
                        samples[j].size,
                    )
                }
        }),
    decreases examples.len(),
{
    if examples.len() > 0 {
        lemma_measure_all_samples(o, corpus, examples.drop_last());
    }
}

/// The distances of a row, if every one of them was had; else the first
/// failure in the row.
pub open spec fn collect(row: Seq<Result<Ncd, NcdError>>) -> Result<Seq<Ncd>, NcdError>
    decreases row.len(),
{
    if row.len() == 0 {
        Ok(Seq::empty())
    } else {
        match collect(row.drop_last()) {
            Err(e) => Err(e),
            Ok(done) => match row.last() {
                Ok(d) => Ok(done.push(d)),
                Err(e) => Err(e),
            },
        }
    }
}

/// A failure among the first `i` entries of a row is the failure of the
/// row.
pub proof fn lemma_collect_fails(row: Seq<Result<Ncd, NcdError>>, i: int, n: int)
    requires
        0 <= i <= n <= row.len(),
        collect(row.take(i)) is Err,
    ensures
        collect(row.take(n)) == collect(row.take(i)),
    decreases n - i,
{
    if i < n {
        lemma_collect_fails(row, i, n - 1);
        assert(row.take(n).drop_last() == row.take(n - 1));
    }
}

/// A corpus and the samples drawn from it. The corpus is held once; each
/// sample refers to its context by place and length.
pub struct TrainingSet {
    corpus: Vec<u8>,
    samples: Vec<Sample>,
}

impl TrainingSet {
    /// The tokens of the corpus.
    pub closed spec fn corpus(&self) -> Seq<u8> {
        self.corpus@
    }

    /// The samples, in the order in which they were put in.
    pub closed spec fn samples(&self) -> Seq<Sample> {
        self.samples@
    }

    /// Every sample's window lies within the corpus.
    pub open spec fn wf(&self) -> bool {
        forall|j: int|
            0 <= j < self.samples().len() ==> (#[trigger] self.samples()[j]).window.fits(
                self.corpus().len(),
            )
    }

    /// The tokens of the context of sample `j`.
    pub open spec fn context(&self, j: int) -> Seq<u8> {
        self.samples()[j].window.of(self.corpus())
    }

    /// Every sample holds the size that the oracle `o` gives for its
    /// context.
    pub open spec fn measured_by(&self, o: Oracle) -> bool {
        forall|j: int|
            0 <= j < self.samples().len() ==> o.size(#[trigger] self.context(j)) == Ok::<
                u64,
                NcdError,
            >(self.samples()[j].size)
    }

    /// The distances from a query of compressed size `qsize` to the
    /// context of every sample, each with its own outcome.
    pub open spec fn row(&self, o: Oracle, query: Seq<u8>, qsize: u64) -> Seq<
        Result<Ncd, NcdError>,
    > {
        Seq::new(
            self.samples().len(),
            |j: int| ncd_spec(o, query, qsize, self.context(j), self.samples()[j].size),
        )
    }

    /// The distances from the context of every sample to the context of
    /// every sample, by the sizes that the samples hold.
    pub open spec fn matrix(&self, o: Oracle) -> Seq<Seq<Result<Ncd, NcdError>>> {
        Seq::new(
            self.samples().len(),
            |i: int| self.row(o, self.context(i), self.samples()[i].size),
        )
    }

    /// Rows that are each the row of their sample make up the matrix,
    /// in whatever order and by whichever worker they were computed.
    pub proof fn lemma_rows_form_matrix(&self, o: Oracle, rows: Seq<Seq<Result<Ncd, NcdError>>>)
        requires
            rows.len() == self.samples().len(),
            forall|i: int|
                0 <= i < rows.len() ==> #[trigger] rows[i] == self.row(
                    o,
                    self.context(i),
                    self.samples()[i].size,
                ),
        ensures
            rows == self.matrix(o),
    {
        assert(rows =~= self.matrix(o));
    }

    /// A training set of a corpus and samples that were measured
    /// elsewhere. There is none where a sample's window does not lie
    /// within the corpus.
    pub fn from_parts(corpus: Vec<u8>, samples: Vec<Sample>) -> (r: Option<TrainingSet>)
        ensures
            match r {
                Some(ts) => ts.wf() && ts.corpus() == corpus@ && ts.samples() == samples@,
                None => exists|j: int|
                    0 <= j < samples@.len() && !(#[trigger] samples@[j]).window.fits(corpus@.len()),
            },
    {
        let n = corpus.len();
        let mut j: usize = 0;
        while j < samples.len()
            invariant
                j <= samples@.len(),
                n == corpus@.len(),
                forall|i: int| 0 <= i < j ==> (#[trigger] samples@[i]).window.fits(n as nat),
            decreases samples@.len() - j,
        {
            if !samples[j].window.fits_in(n) {
                return None;
            }
            j = j + 1;
        }
        Some(TrainingSet { corpus, samples })
    }

    /// Measures the context of every example on the slot of `worker` and
    /// keeps the corpus with the samples. The first example that cannot
    /// be measured fails the whole set: its window does not lie within
    /// the corpus, or its measurement failed.
    pub fn build(pool: &mut CompressorPool, worker: usize, corpus: Vec<u8>, examples: &Vec<Example>) -> (r:
        Result<TrainingSet, NcdError>)
        requires
            old(pool).wf(),
        ensures
            final(pool).wf(),
            final(pool).slot_count() == old(pool).slot_count(),
            final(pool).capacity() == old(pool).capacity(),
            final(pool).free() == old(pool).free(),
            match r {
                Ok(ts) => {
                    &&& ts.wf()
                    &&& ts.corpus() == corpus@
                    &&& measure_all(old(pool).oracle(worker), corpus@, examples@) == Ok::<
                        Seq<Sample>,
                        NcdError,
                    >(ts.samples())
                    &&& ts.measured_by(old(pool).oracle(worker))
                },
                Err(e) => measure_all(old(pool).oracle(worker), corpus@, examples@) == Err::<
                    Seq<Sample>,
                    NcdError,
                >(e),
            },
    {
        let ghost o = pool.oracle(worker);
        let n = corpus.len();
        let mut samples: Vec<Sample> = Vec::new();
        let mut i: usize = 0;
        while i < examples.len()
            invariant
                i <= examples@.len(),
                n == corpus@.len(),
                pool.wf(),
                pool.slot_count() == old(pool).slot_count(),
                pool.capacity() == old(pool).capacity(),
                pool.free() == old(pool).free(),
                pool.oracle(worker) == o,
                measure_all(o, corpus@, examples@.take(i as int)) == Ok::<Seq<Sample>, NcdError>(
                    samples@,
                ),
            decreases examples@.len() - i,
        {
            let ex = examples[i];
            proof {
                assert(examples@.take(i + 1).drop_last() == examples@.take(i as int));
                assert(examples@.take(i + 1).last() == ex);
            }
            if !ex.window.fits_in(n) {
                proof {
                    lemma_measure_all_fails(o, corpus@, examples@, i + 1, examples@.len() as int);
                    assert(examples@.take(examples@.len() as int) == examples@);
                }
                return Err(NcdError::ContextTooShort);
            }
            match pool.compressed_size_at(worker, ex.window.slice(corpus.as_slice())) {
                Err(e) => {
                    proof {
                        lemma_measure_all_fails(
                            o,
                            corpus@,
                            examples@,
                            i + 1,
                            examples@.len() as int,
                        );
                        assert(examples@.take(examples@.len() as int) == examples@);
                    }
                    return Err(e);
                },
                Ok(size) => {
                    samples.push(Sample { window: ex.window, size, target: ex.target });
                },
            }
            i = i + 1;
        }
        proof {
            assert(examples@.take(i as int) == examples@);
            lemma_measure_all_samples(o, corpus@, examples@);
        }
        Ok(TrainingSet { corpus, samples })
    }

    /// The number of samples.
    pub fn len(&self) -> (n: usize)
        ensures
            n == self.samples().len(),
    {
        self.samples.len()
    }

    /// Sample `j`, if there is one.
    pub fn sample(&self, j: usize) -> (r: Option<Sample>)
        ensures
            r == (if j < self.samples().len() {
                Some(self.samples()[j as int])
            } else {
                None
            }),
    {
        if j < self.samples.len() {
            Some(self.samples[j])
        } else {
            None
        }
    }

    /// The target of sample `j`.
    pub fn target(&self, j: usize) -> (t: u8)
        requires
            j < self.samples().len(),
        ensures
            t == self.samples()[j as int].target,
    {
        self.samples[j].target
    }

    /// The tokens of the corpus.
    pub fn corpus_bytes(&self) -> (s: &[u8])
        ensures
            s@ == self.corpus(),
    {
        self.corpus.as_slice()
    }

    /// The tokens of the context of sample `j`, as a view into the
    /// corpus; `None` where there is no such sample.
    pub fn context_bytes(&self, j: usize) -> (r: Option<&[u8]>)
        requires
            self.wf(),
        ensures
            match r {
                Some(s) => j < self.samples().len() && s@ == self.context(j as int),
                None => j >= self.samples().len(),
            },
    {
        if j < self.samples.len() {
            assert(self.samples()[j as int].window.fits(self.corpus().len()));
            Some(self.samples[j].window.slice(self.corpus.as_slice()))
        } else {
            None
        }
    }
}

/// Computes the distance from `query`, of compressed size `qsize`, to the
/// context of every sample, on the slot of `worker`. A distance that
/// cannot be had is recorded in its place and the row goes on.
pub fn query_row(pool: &mut CompressorPool, worker: usize, ts: &TrainingSet, query: &[u8], qsize: u64) -> (r:
    Vec<Result<Ncd, NcdError>>)
    requires
        old(pool).wf(),
        ts.wf(),
    ensures
        final(pool).wf(),
        final(pool).slot_count() == old(pool).slot_count(),
        final(pool).capacity() == old(pool).capacity(),
        final(pool).free() == old(pool).free(),
        r@ == ts.row(old(pool).oracle(worker), query@, qsize),
{
    let ghost o = pool.oracle(worker);
    let mut row: Vec<Result<Ncd, NcdError>> = Vec::new();
    let mut j: usize = 0;
    while j < ts.len()
        invariant
            j <= ts.samples().len(),
            ts.wf(),
            pool.wf(),
            pool.slot_count() == old(pool).slot_count(),
            pool.capacity() == old(pool).capacity(),
            pool.free() == old(pool).free(),
            pool.oracle(worker) == o,
            row@ == Seq::new(
                j as nat,
                |t: int| ncd_spec(o, query@, qsize, ts.context(t), ts.samples()[t].size),
            ),
        decreases ts.samples().len() - j,
    {
        let sample = ts.samples[j];
        let context = sample.window.slice(ts.corpus.as_slice());
        let d = ncd_at(pool, worker, query, qsize, context, sample.size);
        row.push(d);
        j = j + 1;
    }
    row
}

/// Computes the distance from `query`, of compressed size `qsize`, to the
/// context of every sample, on the slot of `worker`, and gives up at the
/// first distance that cannot be had.
pub fn query_scores(pool: &mut CompressorPool, worker: usize, ts: &TrainingSet, query: &[u8], qsize: u64) -> (r:
    Result<Vec<Ncd>, NcdError>)
    requires
        old(pool).wf(),
        ts.wf(),
    ensures
        final(pool).wf(),
        final(pool).slot_count() == old(pool).slot_count(),
        final(pool).capacity() == old(pool).capacity(),
        final(pool).free() == old(pool).free(),
        match r {
            Ok(scores) => {
                &&& collect(ts.row(old(pool).oracle(worker), query@, qsize)) == Ok::<
                    Seq<Ncd>,
                    NcdError,
                >(scores@)
                &&& scores@.len() == ts.samples().len()
                &&& all_wf(scores@, scores@.len() as int)
            },
            Err(e) => collect(ts.row(old(pool).oracle(worker), query@, qsize)) == Err::<
                Seq<Ncd>,
                NcdError,
            >(e),
        },
{
    let ghost o = pool.oracle(worker);
    let ghost row = ts.row(o, query@, qsize);
    let mut scores: Vec<Ncd> = Vec::new();
    let mut j: usize = 0;
    while j < ts.len()
        invariant
            j <= ts.samples().len(),
            ts.wf(),
            row == ts.row(o, query@, qsize),
            pool.wf(),
            pool.slot_count() == old(pool).slot_count(),
            pool.capacity() == old(pool).capacity(),
            pool.free() == old(pool).free(),
            pool.oracle(worker) == o,
            collect(row.take(j as int)) == Ok::<Seq<Ncd>, NcdError>(scores@),
            scores@.len() == j,
            all_wf(scores@, j as int),
        decreases ts.samples().len() - j,
    {
        let sample = ts.samples[j];
        let context = sample.window.slice(ts.corpus.as_slice());
        proof {
            assert(row.take(j + 1).drop_last() == row.take(j as int));
            assert(row.take(j + 1).last() == row[j as int]);
        }
        match ncd_at(pool, worker, query, qsize, context, sample.size) {
            Err(e) => {
                proof {
                    lemma_collect_fails(row, j + 1, row.len() as int);
                    assert(row.take(row.len() as int) == row);
                }
                return Err(e);
            },
            Ok(d) => {
                scores.push(d);
            },
        }
        j = j + 1;
    }
    assert(row.take(j as int) == row);
    Ok(scores)
}

/// Computes row `i` of the distance matrix on the slot of `worker`: the
/// distances from the context of sample `i` to the context of every
/// sample, by the sizes that the samples hold. There is no row for a
/// sample that is not there.
pub fn distance_row(pool: &mut CompressorPool, worker: usize, ts: &TrainingSet, i: usize) -> (r: Option<
    Vec<Result<Ncd, NcdError>>,
>)
    requires
        old(pool).wf(),
        ts.wf(),
    ensures
        final(pool).wf(),
        final(pool).slot_count() == old(pool).slot_count(),
        final(pool).capacity() == old(pool).capacity(),
        final(pool).free() == old(pool).free(),
        match r {
            Some(row) => i < ts.samples().len() && row@ == ts.matrix(old(pool).oracle(worker))[i as int],
            None => i >= ts.samples().len(),
        },
{
    if i >= ts.len() {
        return None;
    }
    let sample = ts.samples[i];
    let context = sample.window.slice(ts.corpus.as_slice());
    Some(query_row(pool, worker, ts, context, sample.size))
}

/// Computes the whole distance matrix on the slot of `worker`, row by
/// row. A distance that cannot be had is recorded in its place.
pub fn distance_matrix(pool: &mut CompressorPool, worker: usize, ts: &TrainingSet) -> (m: Vec<
    Vec<Result<Ncd, NcdError>>,
>)
    requires
        old(pool).wf(),
        ts.wf(),
    ensures
        final(pool).wf(),
        final(pool).slot_count() == old(pool).slot_count(),
        final(pool).capacity() == old(pool).capacity(),
        final(pool).free() == old(pool).free(),
        m@.len() == ts.samples().len(),
        forall|i: int|
            0 <= i < m@.len() ==> (#[trigger] m@[i])@ == ts.matrix(old(pool).oracle(worker))[i],
{
    let ghost o = pool.oracle(worker);
    let mut m: Vec<Vec<Result<Ncd, NcdError>>> = Vec::new();
    let mut i: usize = 0;
    while i < ts.len()
        invariant
            i <= ts.samples().len(),
            ts.wf(),
            pool.wf(),
            pool.slot_count() == old(pool).slot_count(),
            pool.capacity() == old(pool).capacity(),
            pool.free() == old(pool).free(),
            pool.oracle(worker) == o,
            m@.len() == i,
            forall|t: int| 0 <= t < i ==> (#[trigger] m@[t])@ == ts.matrix(o)[t],
        decreases ts.samples().len() - i,
    {
        match distance_row(pool, worker, ts, i) {
            Some(row) => {
                m.push(row);
            },
            None => {},
        }
        i = i + 1;
    }
    m
}

} // verus!
