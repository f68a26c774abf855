use vstd::prelude::*;

verus! {

/// An exact rational number `num / den`, used wherever the circuit needs a
/// real-valued coefficient.
#[derive(Clone, Copy, Debug)]
pub struct Ratio {
    pub num: i64,
    pub den: i64,
}

impl Ratio {
    /// The denominator is positive and both parts can be negated without overflow.
    pub open spec fn wf(self) -> bool {
        &&& 0 < self.den
        &&& -i64::MAX <= self.num <= i64::MAX
    }

    pub open spec fn spec_zero() -> Ratio {
        Ratio { num: 0, den: 1 }
    }

    pub open spec fn spec_from_int(n: int) -> Ratio {
        Ratio { num: n as i64, den: 1 }
    }

    pub open spec fn spec_neg(self) -> Ratio {
        Ratio { num: -self.num as i64, den: self.den }
    }

    pub open spec fn spec_recip(self) -> Ratio {
        if self.num > 0 {
            Ratio { num: self.den, den: self.num }
        } else {
            Ratio { num: -self.den as i64, den: -self.num as i64 }
        }
    }

    pub fn zero() -> (r: Ratio)
        ensures
            r == Ratio::spec_zero(),
            r.wf(),
    {
        Ratio { num: 0, den: 1 }
    }

    pub fn from_int(n: i64) -> (r: Ratio)
        requires
            -i64::MAX <= n,
        ensures
            r == Ratio::spec_from_int(n as int),
            r.wf(),
    {
        Ratio { num: n, den: 1 }
    }

    /// `-self`.
    pub fn neg(&self) -> (r: Ratio)
        requires
            self.wf(),
        ensures
            r == self.spec_neg(),
            r.wf(),
    {
        Ratio { num: -self.num, den: self.den }
    }

    /// `1 / self`, with the sign carried by the numerator.
    pub fn recip(&self) -> (r: Ratio)
        requires
            self.wf(),
            self.num != 0,
        ensures
            r == self.spec_recip(),
            r.wf(),
    {
        if self.num > 0 {
            Ratio { num: self.den, den: self.num }
        } else {
            Ratio { num: -self.den, den: -self.num }
        }
    }
}

} // verus!
