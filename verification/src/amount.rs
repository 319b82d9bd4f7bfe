//! The share of a balance that a user puts at stake.

use crate::model::stake_amount;
use vstd::prelude::*;

verus! {

/// A share between nothing and all: `numerator / denominator` with a
/// positive denominator that the numerator does not exceed.
#[derive(Debug, Clone, Copy)]
pub struct Fraction {
    numerator: u32,
    denominator: u32,
}

impl Fraction {
    #[verifier::type_invariant]
    spec fn in_unit_interval(self) -> bool {
        0 < self.denominator && self.numerator <= self.denominator
    }

    /// The number of parts taken.
    pub closed spec fn numerator(self) -> nat {
        self.numerator as nat
    }

    /// The number of parts that make the whole.
    pub closed spec fn denominator(self) -> nat {
        self.denominator as nat
    }

    /// The share `numerator / denominator`, where that is a share between
    /// nothing and all.
    pub fn new(numerator: u32, denominator: u32) -> (share: Option<Fraction>)
        ensures
            match share {
                Some(f) => 0 < denominator && numerator <= denominator && f.numerator()
                    == numerator && f.denominator() == denominator,
                None => denominator == 0 || numerator > denominator,
            },
    {
        if denominator == 0 || numerator > denominator {
            None
        } else {
            Some(Fraction { numerator, denominator })
        }
    }

    /// The share of `percent` in a hundred, where that is no more than all.
    pub fn percent(percent: u32) -> (share: Option<Fraction>)
        ensures
            match share {
                Some(f) => percent <= 100 && f.numerator() == percent && f.denominator() == 100,
                None => percent > 100,
            },
    {
        Fraction::new(percent, 100)
    }

    /// The whole.
    pub fn all() -> (share: Fraction)
        ensures
            share.numerator() == 1,
            share.denominator() == 1,
    {
        Fraction { numerator: 1, denominator: 1 }
    }

    /// The least whole amount that is no less than this share of `balance`.
    pub fn of(&self, balance: u32) -> (amount: u32)
        ensures
            amount == stake_amount(balance as nat, self.numerator(), self.denominator()),
            amount <= balance,
            self.numerator() == 0 || balance == 0 <==> amount == 0,
    {
        proof {
            use_type_invariant(self);
        }
        let n = self.numerator as u64;
        let d = self.denominator as u64;
        let b = balance as u64;
        assert(b * n <= 0xFFFF_FFFF * 0xFFFF_FFFF) by (nonlinear_arith)
            requires
                0 <= b <= 0xFFFF_FFFF,
                0 <= n <= 0xFFFF_FFFF,
        ;
        let scaled = b * n + (d - 1);
        let amount = scaled / d;
        assert(amount <= b) by (nonlinear_arith)
            requires
                amount == (b * n + (d - 1)) / (d as int),
                0 <= n <= d,
                0 < d,
                0 <= b,
        ;
        assert((n == 0 || b == 0) <==> amount == 0) by (nonlinear_arith)
            requires
                amount == (b * n + (d - 1)) / (d as int),
                0 <= n <= d,
                0 < d,
                0 <= b,
        ;
        amount as u32
    }
}

} // verus!
