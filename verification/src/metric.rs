//! The normalized compression distance, kept as an exact quotient.

use vstd::prelude::*;
use crate::error::NcdError;
use crate::pool::CompressorPool;
use crate::pool::Oracle;
use crate::pool::current_worker;

verus! {

/// The byte that separates the two sequences of a joint measurement.
pub const SEPARATOR: u8 = 0x20;

/// A distance, kept exactly as the quotient `num / den`.
#[derive(Clone, Copy, Debug, PartialEq, Eq, Structural)]
pub struct Ncd {
    pub num: u64,
    pub den: u64,
}

impl Ncd {
    /// A distance has a denominator.
    pub open spec fn wf(self) -> bool {
        self.den > 0
    }

    /// `self < other` as quotients.
    pub open spec fn lt(self, other: Ncd) -> bool {
        self.num * other.den < other.num * self.den
    }

    /// `self <= other` as quotients.
    pub open spec fn le(self, other: Ncd) -> bool {
        self.num * other.den <= other.num * self.den
    }

    /// The distance `num / den`, if there is a denominator.
    pub fn new(num: u64, den: u64) -> (r: Option<Ncd>)
        ensures
            r == (if den > 0 {
                Some(Ncd { num, den })
            } else {
                None
            }),
    {
        if den > 0 {
            Some(Ncd { num, den })
        } else {
            None
        }
    }

    /// Whether this distance is smaller than `other`.
    pub fn is_less(&self, other: &Ncd) -> (b: bool)
        ensures
            b == self.lt(*other),
    {
        assert(self.num * other.den <= u128::MAX) by (nonlinear_arith)
            requires
                self.num <= u64::MAX,
                other.den <= u64::MAX,
        ;
        assert(other.num * self.den <= u128::MAX) by (nonlinear_arith)
            requires
                other.num <= u64::MAX,
                self.den <= u64::MAX,
        ;
        (self.num as u128) * (other.den as u128) < (other.num as u128) * (self.den as u128)
    }

    /// On distances with denominators, `le` is transitive.
    pub proof fn lemma_le_transitive(a: Ncd, b: Ncd, c: Ncd)
        requires
            a.wf(),
            b.wf(),
            c.wf(),
            a.le(b),
            b.le(c),
        ensures
            a.le(c),
    {
        let (an, ad) = (a.num as int, a.den as int);
        let (bn, bd) = (b.num as int, b.den as int);
        let (cn, cd) = (c.num as int, c.den as int);
        assert(an * cd <= cn * ad) by (nonlinear_arith)
            requires
                ad > 0,
                bd > 0,
                cd > 0,
                an >= 0,
                bn >= 0,
                cn >= 0,
                an * bd <= bn * ad,
                bn * cd <= cn * bd,
        {
            assert((an * bd) * cd <= (bn * ad) * cd);
            assert((bn * cd) * ad <= (cn * bd) * ad);
            assert((an * cd) * bd <= (cn * ad) * bd);
        }
    }

    /// On distances with denominators, a strict step after a weak one is
    /// strict.
    pub proof fn lemma_le_lt_transitive(a: Ncd, b: Ncd, c: Ncd)
        requires
            a.wf(),
            b.wf(),
            c.wf(),
            a.le(b),
            b.lt(c),
        ensures
            a.lt(c),
    {
        let (an, ad) = (a.num as int, a.den as int);
        let (bn, bd) = (b.num as int, b.den as int);
        let (cn, cd) = (c.num as int, c.den as int);
        assert(an * cd < cn * ad) by (nonlinear_arith)
            requires
                ad > 0,
                bd > 0,
                cd > 0,
                an >= 0,
                bn >= 0,
                cn >= 0,
                an * bd <= bn * ad,
                bn * cd < cn * bd,
        {
            assert((an * bd) * cd <= (bn * ad) * cd);
            assert((bn * cd) * ad < (cn * bd) * ad);
            assert((an * cd) * bd < (cn * ad) * bd);
        }
    }

    /// On distances with denominators, a weak step after a strict one is
    /// strict.
    pub proof fn lemma_lt_le_transitive(a: Ncd, b: Ncd, c: Ncd)
        requires
            a.wf(),
            b.wf(),
            c.wf(),
            a.lt(b),
            b.le(c),
        ensures
            a.lt(c),
    {
        let (an, ad) = (a.num as int, a.den as int);
        let (bn, bd) = (b.num as int, b.den as int);
        let (cn, cd) = (c.num as int, c.den as int);
        assert(an * cd < cn * ad) by (nonlinear_arith)
            requires
                ad > 0,
                bd > 0,
                cd > 0,
                an >= 0,
                bn >= 0,
                cn >= 0,
                an * bd < bn * ad,
                bn * cd <= cn * bd,
        {
            assert((an * bd) * cd < (bn * ad) * cd);
            assert((bn * cd) * ad <= (cn * bd) * ad);
            assert((an * cd) * bd < (cn * ad) * bd);
        }
    }
}

/// The two sequences with the separator between them.
pub open spec fn joined(x: Seq<u8>, y: Seq<u8>) -> Seq<u8> {
    x + seq![SEPARATOR] + y
}

/// Joins `x` and `y` with one separator byte between them.
pub fn concat_with_space(x: &[u8], y: &[u8]) -> (s: Vec<u8>)
    ensures
        s@ == joined(x@, y@),
{
    let mut s: Vec<u8> = Vec::new();
    let mut i: usize = 0;
    while i < x.len()
        invariant
            i <= x@.len(),
            s@ == x@.subrange(0, i as int),
        decreases x@.len() - i,
    {
        s.push(x[i]);
        i = i + 1;
    }
    assert(x@.subrange(0, i as int) == x@);
    s.push(SEPARATOR);
    let mut j: usize = 0;
    while j < y.len()
        invariant
            j <= y@.len(),
            s@ == x@ + seq![SEPARATOR] + y@.subrange(0, j as int),
        decreases y@.len() - j,
    {
        s.push(y[j]);
        j = j + 1;
    }
    assert(y@.subrange(0, j as int) == y@);
    s
}

/// The smaller of two sizes.
pub open spec fn smaller(a: u64, b: u64) -> u64 {
    if a <= b {
        a
    } else {
        b
    }
}

/// The larger of two sizes.
pub open spec fn larger(a: u64, b: u64) -> u64 {
    if a <= b {
        b
    } else {
        a
    }
}

/// The distance that three compressed sizes stand for: what the joint
/// size exceeds the smaller single size by, over the larger single size.
/// It is undefined where both single sizes are zero. A joint size below
/// the smaller single size, which sizes of one compressor configuration
/// are not expected to give, counts as no excess.
pub open spec fn ncd_value(joint: u64, size_a: u64, size_b: u64) -> Result<Ncd, NcdError> {
    if larger(size_a, size_b) == 0 {
        Err(NcdError::DegenerateInput)
    } else {
        Ok(
            Ncd {
                num: if joint >= smaller(size_a, size_b) {
                    (joint - smaller(size_a, size_b)) as u64
                } else {
                    0
                },
                den: larger(size_a, size_b),
            },
        )
    }
}

/// Computes the distance from the compressed size of the joined
/// sequences and the compressed sizes of the two sequences.
pub fn ncd_from_sizes(joint: u64, size_a: u64, size_b: u64) -> (r: Result<Ncd, NcdError>)
    ensures
        r == ncd_value(joint, size_a, size_b),
        r is Err <==> size_a == 0 && size_b == 0,
        r matches Ok(d) ==> d.wf(),
{
    let low = if size_a <= size_b {
        size_a
    } else {
        size_b
    };
    let high = if size_a <= size_b {
        size_b
    } else {
        size_a
    };
    if high == 0 {
        return Err(NcdError::DegenerateInput);
    }
    let excess = if joint >= low {
        joint - low
    } else {
        0
    };
    Ok(Ncd { num: excess, den: high })
}

/// The distance between `a` and `b` as the oracle `o` measures it, from
/// the sizes `size_a` and `size_b` that the caller holds for them. The
/// joined sequence is measured only where the distance is defined.
pub open spec fn ncd_spec(o: Oracle, a: Seq<u8>, size_a: u64, b: Seq<u8>, size_b: u64) -> Result<
    Ncd,
    NcdError,
> {
    if size_a == 0 && size_b == 0 {
        Err(NcdError::DegenerateInput)
    } else {
        match o.size(joined(a, b)) {
            Ok(joint) => ncd_value(joint, size_a, size_b),
            Err(e) => Err(e),
        }
    }
}

/// A distance that is defined is not negative: it has a denominator above
/// zero and a numerator that is not below zero, whatever the oracle gave
/// for the joined sequences.
pub proof fn lemma_ncd_not_negative(o: Oracle, a: Seq<u8>, size_a: u64, b: Seq<u8>, size_b: u64)
    ensures
        ncd_spec(o, a, size_a, b, size_b) matches Ok(d) ==> d.den > 0 && d.num >= 0,
        (size_a > 0 || size_b > 0) && o.size(joined(a, b)) is Ok ==> ncd_spec(
            o,
            a,
            size_a,
            b,
            size_b,
        ) is Ok,
{
}

/// The normalized compression distance from `x` to `x2`, measured on the
/// slot of `worker`. `x_compressed` and `x2_compressed` are the
/// compressed sizes of the two sequences, measured beforehand with the
/// same pool configuration; they are taken as given. The order of the
/// two sequences matters: `x` comes first in the joint measurement.
pub fn ncd_at(
    pool: &mut CompressorPool,
    worker: usize,
    x: &[u8],
    x_compressed: u64,
    x2: &[u8],
    x2_compressed: u64,
) -> (r: Result<Ncd, NcdError>)
    requires
        old(pool).wf(),
    ensures
        final(pool).wf(),
        final(pool).slot_count() == old(pool).slot_count(),
        final(pool).capacity() == old(pool).capacity(),
        final(pool).free() == old(pool).free(),
        r == ncd_spec(old(pool).oracle(worker), x@, x_compressed, x2@, x2_compressed),
        r matches Ok(d) ==> d.wf(),
{
    if x_compressed == 0 && x2_compressed == 0 {
        return Err(NcdError::DegenerateInput);
    }
    let both = concat_with_space(x, x2);
    match pool.compressed_size_at(worker, both.as_slice()) {
        Ok(joint) => ncd_from_sizes(joint, x_compressed, x2_compressed),
        Err(e) => Err(e),
    }
}

/// The normalized compression distance from `x` to `x2`, measured on the
/// slot of the calling thread.
pub fn ncd(pool: &mut CompressorPool, x: &[u8], x_compressed: u64, x2: &[u8], x2_compressed: u64) -> (r:
    Result<Ncd, NcdError>)
    requires
        old(pool).wf(),
    ensures
        final(pool).wf(),
        final(pool).slot_count() == old(pool).slot_count(),
        final(pool).capacity() == old(pool).capacity(),
        final(pool).free() == old(pool).free(),
        exists|worker: usize|
            r == ncd_spec(
                #[trigger] old(pool).oracle(worker),
                x@,
                x_compressed,
                x2@,
                x2_compressed,
            ),
        old(pool).idle() && old(pool).slot_count() > 0 ==> r == ncd_spec(
            old(pool).oracle(0),
            x@,
            x_compressed,
            x2@,
            x2_compressed,
        ),
        r matches Ok(d) ==> d.wf(),
{
    let worker = current_worker();
    let r = ncd_at(pool, worker, x, x_compressed, x2, x2_compressed);
    proof {
        if old(pool).idle() && old(pool).slot_count() > 0 {
            old(pool).lemma_idle_oracle(worker);
            old(pool).lemma_idle_oracle(0);
        }
    }
    r
}

} // verus!
