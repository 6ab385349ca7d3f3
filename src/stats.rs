//! Hit and fault counts of a finished run, and the ratios derived from them.
use vstd::prelude::*;

verus! {

/// A ratio kept exactly, as a numerator over a positive denominator.
#[derive(Clone, Copy, Debug, PartialEq, Eq, Structural)]
pub struct Ratio {
    pub num: usize,
    pub den: usize,
}

/// The counters of one run.
#[derive(Clone, Copy, Debug, PartialEq, Eq, Structural)]
pub struct RunStats {
    pub hits: usize,
    pub faults: usize,
}

impl RunStats {
    /// No reference seen yet.
    pub fn zero() -> (r: RunStats)
        ensures
            r.hits == 0,
            r.faults == 0,
    {
        RunStats { hits: 0, faults: 0 }
    }

    /// The number of references counted.
    pub open spec fn total(&self) -> int {
        self.hits + self.faults
    }

    /// `hits / (hits + faults)`; `None` where no reference was counted, since
    /// the ratio is then undefined.
    pub fn hit_ratio(&self) -> (r: Option<Ratio>)
        requires
            self.total() <= usize::MAX,
        ensures
            self.total() == 0 <==> r is None,
            r matches Some(q) ==> q.num == self.hits && q.den == self.total(),
    {
        let den = self.hits + self.faults;
        if den == 0 {
            None
        } else {
            Some(Ratio { num: self.hits, den })
        }
    }

    /// `faults / (hits + faults)`; `None` where no reference was counted,
    /// since the ratio is then undefined.
    pub fn fault_ratio(&self) -> (r: Option<Ratio>)
        requires
            self.total() <= usize::MAX,
        ensures
            self.total() == 0 <==> r is None,
            r matches Some(q) ==> q.num == self.faults && q.den == self.total(),
    {
        let den = self.hits + self.faults;
        if den == 0 {
            None
        } else {
            Some(Ratio { num: self.faults, den })
        }
    }
}

} // verus!
