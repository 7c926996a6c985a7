use vstd::prelude::*;

verus! {

/// An exact rational result `num / den`, kept as computed (not reduced).
#[derive(Debug, Clone, Copy, PartialEq, Eq, Structural)]
pub struct Ratio {
    pub num: i128,
    pub den: i128,
}

impl Ratio {
    pub open spec fn wf(&self) -> bool {
        self.den > 0
    }

    pub fn numer(&self) -> (r: i128)
        ensures
            r == self.num,
    {
        self.num
    }

    pub fn denom(&self) -> (r: i128)
        ensures
            r == self.den,
    {
        self.den
    }
}

} // verus!
