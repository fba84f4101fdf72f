//! Fractions between zero and one, for greediness and for proportions.

use vstd::prelude::*;

verus! {

/// A fraction `numer / denom` in the closed interval from zero to one.
#[derive(Clone, Copy, Debug)]
pub struct Ratio {
    numer: u32,
    denom: u32,
}

impl Ratio {
    /// The numerator.
    pub closed spec fn numer(&self) -> int {
        self.numer as int
    }

    /// The denominator.
    pub closed spec fn denom(&self) -> int {
        self.denom as int
    }

    /// The denominator is positive and the fraction is at most one.
    pub open spec fn wf(&self) -> bool {
        0 <= self.numer() <= self.denom() && 0 < self.denom() <= u32::MAX
    }

    /// What every fraction of this type satisfies.
    #[verifier::type_invariant]
    closed spec fn valid(&self) -> bool {
        0 < self.denom && self.numer <= self.denom
    }

    /// The fraction applied to `range`, rounded down.
    pub open spec fn scaled(&self, range: int) -> int {
        (self.numer() * range) / self.denom()
    }

    /// The fraction `numer / denom`, if it lies between zero and one.
    pub fn new(numer: u32, denom: u32) -> (ratio: Option<Ratio>)
        ensures
            ratio is Some <==> 0 < denom && numer <= denom,
            ratio is Some ==> ratio->0.wf() && ratio->0.numer() == numer && ratio->0.denom() == denom,
    {
        if denom == 0 || numer > denom {
            None
        } else {
            Some(Ratio { numer, denom })
        }
    }

    /// The numerator.
    pub fn numerator(&self) -> (numer: u32)
        ensures
            numer == self.numer(),
            self.wf(),
    {
        proof {
            use_type_invariant(self);
        }
        self.numer
    }

    /// The denominator.
    pub fn denominator(&self) -> (denom: u32)
        ensures
            denom == self.denom(),
            self.wf(),
    {
        proof {
            use_type_invariant(self);
        }
        self.denom
    }

    /// The fraction applied to `range`, rounded down.
    pub fn scale(&self, range: u32) -> (part: u32)
        ensures
            part == self.scaled(range as int),
            part <= range,
            self.wf(),
    {
        proof {
            use_type_invariant(self);
            lemma_scaled_bounds(*self, range as int);
            assert(self.numer * range <= u32::MAX * u32::MAX) by (nonlinear_arith)
                requires
                    self.numer <= u32::MAX,
                    range <= u32::MAX,
            ;
        }
        let product: u64 = (self.numer as u64) * (range as u64);
        let part: u64 = product / (self.denom as u64);
        part as u32
    }
}

/// A fraction of a range is no less than zero and no more than the range.
pub proof fn lemma_scaled_bounds(ratio: Ratio, range: int)
    requires
        ratio.wf(),
        0 <= range,
    ensures
        0 <= ratio.scaled(range) <= range,
{
    let n = ratio.numer();
    let d = ratio.denom();
    assert(0 <= n * range <= d * range) by (nonlinear_arith)
        requires
            0 <= n <= d,
            0 <= range,
    ;
    assert(0 <= (n * range) / d <= range) by (nonlinear_arith)
        requires
            0 <= n * range <= d * range,
            0 < d,
    ;
}

/// Zero of any range is nothing.
pub proof fn lemma_scaled_none(ratio: Ratio, range: int)
    requires
        ratio.wf(),
        ratio.numer() == 0,
    ensures
        ratio.scaled(range) == 0,
{
    let n = ratio.numer();
    let d = ratio.denom();
    assert(n * range == 0) by (nonlinear_arith)
        requires
            n == 0,
    ;
}

/// The whole of a range is the range.
pub proof fn lemma_scaled_all(ratio: Ratio, range: int)
    requires
        ratio.wf(),
        ratio.numer() == ratio.denom(),
    ensures
        ratio.scaled(range) == range,
{
    let n = ratio.numer();
    let d = ratio.denom();
    assert((n * range) / d == range) by (nonlinear_arith)
        requires
            n == d,
            0 < d,
    ;
}

} // verus!
