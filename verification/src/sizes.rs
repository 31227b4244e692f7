//! Powers, and the sizes of the tables that the generators fill.

use vstd::prelude::*;

verus! {

/// `base` to the power `exp`.
pub open spec fn power(base: nat, exp: nat) -> nat
    decreases exp,
{
    if exp == 0 {
        1
    } else {
        base * power(base, (exp - 1) as nat)
    }
}

/// A power of a positive base is positive.
pub proof fn lemma_power_positive(base: nat, exp: nat)
    requires
        base > 0,
    ensures
        power(base, exp) > 0,
    decreases exp,
{
    if exp > 0 {
        lemma_power_positive(base, (exp - 1) as nat);
        assert(base * power(base, (exp - 1) as nat) > 0) by (nonlinear_arith)
            requires
                base > 0,
                power(base, (exp - 1) as nat) > 0,
        ;
    }
}

/// A power of a positive base does not shrink as the exponent grows.
pub proof fn lemma_power_grows(base: nat, low: nat, high: nat)
    requires
        base > 0,
        low <= high,
    ensures
        power(base, low) <= power(base, high),
    decreases high,
{
    if low < high {
        lemma_power_grows(base, low, (high - 1) as nat);
        lemma_power_positive(base, (high - 1) as nat);
        assert(power(base, (high - 1) as nat) <= base * power(base, (high - 1) as nat))
            by (nonlinear_arith)
            requires
                base > 0,
        ;
    }
}

/// Every power of one is one.
pub proof fn lemma_power_of_one(exp: nat)
    ensures
        power(1, exp) == 1,
    decreases exp,
{
    if exp > 0 {
        lemma_power_of_one((exp - 1) as nat);
    }
}

/// `base` to the power `exp`, or the largest machine word where the power
/// does not fit in one.
pub fn saturating_power(base: usize, exp: usize) -> (hint: usize)
    ensures
        hint == if power(base as nat, exp as nat) <= usize::MAX {
            power(base as nat, exp as nat)
        } else {
            usize::MAX as nat
        },
{
    if base == 0 {
        if exp == 0 {
            return 1;
        }
        assert(power(0, exp as nat) == 0 * power(0, (exp - 1) as nat));
        return 0;
    }
    if base == 1 {
        proof {
            lemma_power_of_one(exp as nat);
        }
        return 1;
    }
    let mut hint: usize = 1;
    let mut done: usize = 0;
    while done < exp
        invariant
            base > 0,
            done <= exp,
            hint == power(base as nat, done as nat),
        decreases exp - done,
    {
        match hint.checked_mul(base) {
            Some(next) => {
                assert(power(base as nat, (done + 1) as nat) == base * power(
                    base as nat,
                    done as nat,
                ));
                assert(hint * base == base * hint) by (nonlinear_arith);
                hint = next;
            },
            None => {
                proof {
                    assert(power(base as nat, (done + 1) as nat) == base * power(
                        base as nat,
                        done as nat,
                    ));
                    assert(hint * base == base * hint) by (nonlinear_arith);
                    lemma_power_grows(base as nat, (done + 1) as nat, exp as nat);
                }
                return usize::MAX;
            },
        }
        done += 1;
    }
    hint
}

} // verus!
