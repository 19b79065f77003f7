//! The distance between two lines and the limit it is held against.

use vstd::prelude::*;

verus! {

/// A limit on the distance between two lines, as the fraction
/// `numer / denom`. A negative limit admits no pair of lines; one with a
/// zero denominator and a non-negative numerator admits every pair.
#[derive(Clone, Copy, Debug, PartialEq, Eq)]
pub struct Ratio {
    pub numer: i64,
    pub denom: u64,
}

/// Whether the fraction `numer / denom` is at most `limit`.
pub open spec fn at_most(numer: nat, denom: nat, limit: Ratio) -> bool {
    numer * limit.denom <= limit.numer * denom
}

/// How far apart two lines are, as the fraction `numer / denom`: the weight
/// of what differs over the weight of everything compared.
#[derive(Clone, Copy, Debug, PartialEq, Eq)]
pub struct Distance {
    pub numer: u128,
    pub denom: u128,
}

/// The distance that belongs to a weight of `changed` out of `total`. Where
/// nothing was weighed the distance is zero.
pub open spec fn fraction(changed: nat, total: nat) -> (nat, nat) {
    if total == 0 {
        (0, 1)
    } else {
        (changed, total)
    }
}

impl Distance {
    /// A distance lies between zero and one, and its parts are bounded by
    /// the lengths of two lines.
    pub open spec fn wf(self) -> bool {
        &&& self.numer <= self.denom
        &&& 0 < self.denom <= 2 * usize::MAX
    }

    /// The numerator and the denominator.
    pub open spec fn parts(self) -> (nat, nat) {
        (self.numer as nat, self.denom as nat)
    }

    /// Whether this distance is at most `limit`.
    pub open spec fn within(self, limit: Ratio) -> bool {
        at_most(self.numer as nat, self.denom as nat, limit)
    }

    /// The distance for a weight of `changed` out of `total`.
    pub fn new(changed: u128, total: u128) -> (distance: Distance)
        requires
            changed <= total <= 2 * usize::MAX,
        ensures
            distance.wf(),
            distance.parts() == fraction(changed as nat, total as nat),
    {
        if total == 0 {
            Distance { numer: 0, denom: 1 }
        } else {
            Distance { numer: changed, denom: total }
        }
    }

    /// Decides whether this distance is at most `limit`.
    pub fn is_within(&self, limit: Ratio) -> (within: bool)
        requires
            self.wf(),
        ensures
            within == self.within(limit),
    {
        if limit.numer < 0 {
            assert(limit.numer * self.denom < 0) by (nonlinear_arith)
                requires
                    limit.numer < 0,
                    self.denom > 0,
            ;
            assert(self.numer * limit.denom >= 0) by (nonlinear_arith);
            return false;
        }
        let bound = limit.numer as u128;
        assert(bound * self.denom <= u128::MAX) by (nonlinear_arith)
            requires
                bound <= 0x7fff_ffff_ffff_ffff,
                self.denom <= 2 * 0xffff_ffff_ffff_ffff,
        ;
        let right: u128 = bound * self.denom;
        match self.numer.checked_mul(limit.denom as u128) {
            Some(left) => left <= right,
            None => false,
        }
    }
}

} // verus!
