//! Whole percentages and what they take of an amount.

use vstd::prelude::*;
use crate::primitives::Balance;

verus! {

/// The number of parts that make a whole.
pub const PERCENT_ACCURACY: u8 = 100;

/// `parts` hundredths of `amount`, rounded to the nearest unit; a result that
/// lies exactly between two units goes to the lower one. More than a hundred
/// parts count as a hundred.
pub open spec fn percent_of(parts: nat, amount: nat) -> nat {
    let p: nat = if parts > 100 { 100 } else { parts };
    (amount * p + 49) / 100
}

/// A share between nothing and the whole, in hundredths.
#[derive(Clone, Copy, Debug, PartialEq, Eq, Structural)]
pub struct Percent {
    parts: u8,
}

impl Percent {
    /// The number of hundredths, never above a hundred.
    pub closed spec fn parts(self) -> nat {
        if self.parts > 100 {
            100
        } else {
            self.parts as nat
        }
    }

    /// The share of `parts` hundredths; more than a hundred give the whole.
    pub closed spec fn of_parts(parts: u8) -> Percent {
        Percent {
            parts: if parts > 100 {
                100
            } else {
                parts
            },
        }
    }

    /// `of_parts` caps the parts at a hundred and keeps them otherwise.
    pub proof fn lemma_of_parts(parts: u8)
        ensures
            Percent::of_parts(parts).parts() == (if parts > 100 {
                100
            } else {
                parts as nat
            }),
    {
    }

    /// The share of `parts` hundredths; more than a hundred give the whole.
    #[verifier::when_used_as_spec(of_parts)]
    pub fn from_parts(parts: u8) -> (p: Percent)
        ensures
            p == Percent::of_parts(parts),
            p.parts() == (if parts > 100 { 100 } else { parts as nat }),
    {
        if parts > PERCENT_ACCURACY {
            Percent { parts: PERCENT_ACCURACY }
        } else {
            Percent { parts }
        }
    }

    /// The number of hundredths.
    pub fn deconstruct(self) -> (parts: u8)
        ensures
            parts == self.parts(),
            parts <= 100,
    {
        if self.parts > PERCENT_ACCURACY {
            PERCENT_ACCURACY
        } else {
            self.parts
        }
    }

    /// This share of `amount`, rounded to the nearest unit, ties downwards.
    pub fn share_of(self, amount: Balance) -> (r: Balance)
        ensures
            r == percent_of(self.parts(), amount as nat),
            r <= amount,
    {
        let r: Balance = percent_mul(self.deconstruct(), amount);
        proof {
            lemma_percent_of_bounded(self.parts(), amount as nat);
        }
        r
    }
}

/// A share of an amount is never more than the amount.
pub proof fn lemma_percent_of_bounded(parts: nat, amount: nat)
    ensures
        percent_of(parts, amount) <= amount,
{
    let p: nat = if parts > 100 { 100 } else { parts };
    assert(amount * p <= amount * 100) by (nonlinear_arith)
        requires
            p <= 100,
    ;
}

/// Calls `sp_arithmetic::Percent::from_parts` and then the type's
/// multiplication by an integer, `Mul<N>::mul`.
///
/// `from_parts` caps the parts at a hundred. The product is computed as
/// `(amount / 100) * parts` plus the rounded hundredth part of
/// `(amount % 100) * parts`, which is rounded up only when its remainder is
/// above fifty: together that is `percent_of`. Neither step can overflow or
/// panic.
#[verifier::external_body]
fn percent_mul(parts: u8, amount: u128) -> (r: u128)
    ensures
        r == percent_of(parts as nat, amount as nat),
{
    sp_arithmetic::Percent::from_parts(parts) * amount
}

} // verus!
