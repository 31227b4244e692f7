//! A counter over digit rows of growing length, read out through a list of
//! options: an odometer that gains a wheel whenever its last wheel turns
//! over.

use crate::explorer_proofs::{lemma_position_push, lemma_position_update};
use crate::selection::select;
use crate::sizes::power;
use crate::views::nats;
use vstd::arithmetic::div_mod::{lemma_fundamental_div_mod, lemma_mod_bound};
use vstd::prelude::*;

verus! {

/// Why an explorer could not be made.
#[derive(Debug, Clone, Copy, PartialEq, Eq, Structural)]
pub enum InvalidArgument {
    /// The step is zero: the explorer would never move.
    ZeroStep,
    /// There are no options: no digit could name one.
    EmptyDomain,
    /// A starting digit names no option.
    DigitOutOfRange,
}

/// An endless walk through the digit rows over a list of options, `step`
/// places at a time; each row is read out as the options that its digits
/// name.
pub struct ListExplorer<T> where T: Clone {
    num_options: usize,
    options_list: Vec<T>,
    current_list: Vec<usize>,
    step: usize,
}

/// Every digit is below the base.
pub open spec fn valid_digits(digits: Seq<nat>, base: nat) -> bool {
    forall|i: int| 0 <= i < digits.len() ==> digits[i] < base
}

/// The number that a digit row stands for, its first digit counting least.
pub open spec fn value(digits: Seq<nat>, base: nat) -> nat
    decreases digits.len(),
{
    if digits.len() == 0 {
        0
    } else {
        digits[0] + base * value(digits.drop_first(), base)
    }
}

/// The place of a digit row among all digit rows, the shorter rows first
/// and rows of one length in counting order, the empty row at place 0:
/// the row read with every digit one higher.
pub open spec fn position(digits: Seq<nat>, base: nat) -> nat
    decreases digits.len(),
{
    if digits.len() == 0 {
        0
    } else {
        digits[0] + 1 + base * position(digits.drop_first(), base)
    }
}

/// One pull that moves `step` places leads from the row `before` to the
/// row `after`.
pub open spec fn pulled(before: Seq<nat>, after: Seq<nat>, base: nat, step: nat) -> bool {
    &&& valid_digits(after, base)
    &&& position(after, base) == position(before, base) + step
}

/// The row of `len` zeros.
pub open spec fn zeros(len: nat) -> Seq<nat> {
    Seq::new(len, |i: int| 0nat)
}

/// Whether every digit names one of `base` options.
fn digits_in_range(digits: &Vec<usize>, base: usize) -> (fine: bool)
    ensures
        fine == valid_digits(nats(digits@), base as nat),
{
    for at in 0..digits.len()
        invariant
            forall|i: int| 0 <= i < at ==> digits@[i] < base,
    {
        if digits[at] >= base {
            assert(nats(digits@)[at as int] >= base);
            return false;
        }
    }
    assert forall|i: int| 0 <= i < nats(digits@).len() implies nats(digits@)[i] < base by {
        assert(digits@[i] < base);
    }
    true
}

impl<T> ListExplorer<T> where T: Clone {
    /// The options that the digits name.
    pub closed spec fn domain(&self) -> Seq<T> {
        self.options_list@
    }

    /// The number of options, which is the base of the digits.
    pub open spec fn base(&self) -> nat {
        self.domain().len()
    }

    /// The digit row that the next pull reads out, its first digit
    /// counting least.
    pub closed spec fn digits(&self) -> Seq<nat> {
        nats(self.current_list@)
    }

    /// The number of places that a pull moves on.
    pub closed spec fn step(&self) -> nat {
        self.step as nat
    }

    #[verifier::type_invariant]
    spec fn well_formed(&self) -> bool {
        &&& self.num_options == self.options_list@.len()
        &&& self.num_options >= 1
        &&& self.step >= 1
        &&& valid_digits(nats(self.current_list@), self.num_options as nat)
    }

    /// An explorer over `options_list` that starts at the digit row
    /// `current_list` and moves `step` places with every pull, one place
    /// where no step is given. A step of zero, an empty list of options and
    /// a digit that names no option are refused, in this order.
    pub fn new(options_list: Vec<T>, current_list: Vec<usize>, step: Option<usize>) -> (made:
        Result<ListExplorer<T>, InvalidArgument>)
        ensures
            match made {
                Ok(explorer) => {
                    &&& step != Some(0usize)
                    &&& options_list@.len() > 0
                    &&& valid_digits(nats(current_list@), options_list@.len())
                    &&& explorer.domain() == options_list@
                    &&& explorer.digits() == nats(current_list@)
                    &&& explorer.step() == match step {
                        Some(s) => s as nat,
                        None => 1,
                    }
                },
                Err(InvalidArgument::ZeroStep) => step == Some(0usize),
                Err(InvalidArgument::EmptyDomain) => step != Some(0usize) && options_list@.len()
                    == 0,
                Err(InvalidArgument::DigitOutOfRange) => {
                    &&& step != Some(0usize)
                    &&& options_list@.len() > 0
                    &&& !valid_digits(nats(current_list@), options_list@.len())
                },
            },
    {
        let step = match step {
            Some(s) => s,
            None => 1,
        };
        if step == 0 {
            return Err(InvalidArgument::ZeroStep);
        }
        if options_list.len() == 0 {
            return Err(InvalidArgument::EmptyDomain);
        }
        if !digits_in_range(&current_list, options_list.len()) {
            return Err(InvalidArgument::DigitOutOfRange);
        }
        Ok(ListExplorer { num_options: options_list.len(), options_list, current_list, step })
    }

    /// Adds `amount` to the digit at `index`, which may be the place after
    /// the last digit: a digit made there starts one lower, so that the new
    /// row of zeros follows the last row of the old length. Returns what is
    /// carried to the next place.
    fn increment(&mut self, index: usize, amount: usize) -> (carry: usize)
        requires
            index <= old(self).digits().len(),
            amount >= 1,
        ensures
            final(self).domain() == old(self).domain(),
            final(self).step() == old(self).step(),
            final(self).digits().len() == if index == old(self).digits().len() {
                index + 1
            } else {
                old(self).digits().len() as int
            },
            position(final(self).digits(), final(self).base()) + carry * power(
                final(self).base(),
                (index + 1) as nat,
            ) == position(old(self).digits(), old(self).base()) + amount * power(
                old(self).base(),
                index as nat,
            ),
            index == old(self).digits().len() ==> carry < amount,
            carry <= amount,
    {
        proof {
            use_type_invariant(&*self);
        }
        let base = self.num_options;
        let ghost before = nats(self.current_list@);
        let ghost weight = power(base as nat, index as nat);
        assert(power(base as nat, (index + 1) as nat) == base * weight);
        let mut digits: Vec<usize> = Vec::new();
        std::mem::swap(&mut digits, &mut self.current_list);
        assert(nats(self.current_list@) =~= Seq::<nat>::empty());
        let carry = if index == digits.len() {
            let rest = amount - 1;
            let digit = rest % base;
            let carry = rest / base;
            digits.push(digit);
            proof {
                lemma_fundamental_div_mod(rest as int, base as int);
                lemma_mod_bound(rest as int, base as int);
                assert(nats(digits@) =~= before.push(digit as nat));
                lemma_position_push(before, digit as nat, base as nat);
                assert((digit + 1) * weight + carry * (base * weight) == amount * weight)
                    by (nonlinear_arith)
                    requires
                        amount - 1 == base * carry + digit,
                ;
                assert(carry < amount) by (nonlinear_arith)
                    requires
                        amount - 1 == base * carry + digit,
                        base >= 1,
                        carry >= 0,
                        digit >= 0,
                ;
            }
            carry
        } else {
            let found = digits[index];
            assert(found == before[index as int]);
            let room = base - found;
            if amount < room {
                digits[index] = found + amount;
                proof {
                    assert(nats(digits@) =~= before.update(index as int, (found + amount) as nat));
                    lemma_position_update(
                        before,
                        index as int,
                        (found + amount) as nat,
                        base as nat,
                    );
                    assert((found + amount) * weight == found * weight + amount * weight)
                        by (nonlinear_arith);
                    assert(0 * (base * weight) == 0);
                }
                0
            } else {
                let rest = amount - room;
                let ghost quotient = rest as int / base as int;
                proof {
                    lemma_fundamental_div_mod(rest as int, base as int);
                    lemma_mod_bound(rest as int, base as int);
                    assert(0 <= quotient <= rest) by (nonlinear_arith)
                        requires
                            rest == base * quotient + (rest as int % base as int),
                            0 <= rest as int % base as int,
                            base >= 1,
                            rest >= 0,
                    ;
                    assert(base * (1 + quotient) == base + base * quotient) by (nonlinear_arith);
                }
                let digit = rest % base;
                let carry = 1 + rest / base;
                digits[index] = digit;
                proof {
                    assert(nats(digits@) =~= before.update(index as int, digit as nat));
                    lemma_position_update(before, index as int, digit as nat, base as nat);
                    assert(digit * weight + carry * (base * weight) == found * weight + amount
                        * weight) by (nonlinear_arith)
                        requires
                            found + amount == base * carry + digit,
                    ;
                    assert(carry <= amount) by (nonlinear_arith)
                        requires
                            found + amount == base * carry + digit,
                            found < base,
                            carry >= 1,
                            digit >= 0,
                    ;
                }
                carry
            }
        };
        self.current_list = digits;
        carry
    }

    /// Reads out the digit row as the options that its digits name, then
    /// moves `step` places on. Rows of one length follow each other in
    /// counting order; after the last row of a length comes the row of
    /// zeros that is one digit longer.
    pub fn next(&mut self) -> (out: Vec<T>)
        ensures
            out@.len() == old(self).digits().len(),
            forall|i: int|
                0 <= i < out@.len() ==> cloned(
                    old(self).domain()[old(self).digits()[i] as int],
                    #[trigger] out@[i],
                ),
            final(self).domain() == old(self).domain(),
            final(self).step() == old(self).step(),
            valid_digits(old(self).digits(), old(self).base()),
            pulled(old(self).digits(), final(self).digits(), old(self).base(), old(self).step()),
            final(self).digits().len() >= old(self).digits().len(),
    {
        proof {
            use_type_invariant(&*self);
        }
        assert forall|i: int| 0 <= i < self.current_list@.len() implies self.current_list@[i]
            < self.options_list@.len() by {
            assert(nats(self.current_list@)[i] < self.num_options);
        }
        let out = select(&self.options_list, &self.current_list);
        let ghost base = self.base();
        let ghost target = position(self.digits(), base) + self.step();
        assert(power(base, 0) == 1);
        let mut carry = self.increment(0, self.step);
        let mut index_to_check: usize = 0;
        while index_to_check < self.current_list.len() && carry != 0
            invariant
                self.domain() == old(self).domain(),
                self.step() == old(self).step(),
                self.base() == base,
                index_to_check < self.digits().len(),
                self.digits().len() == self.current_list@.len(),
                self.digits().len() >= old(self).digits().len(),
                position(self.digits(), base) + carry * power(base, (index_to_check + 1) as nat)
                    == target,
            decreases carry, self.current_list@.len() - index_to_check,
        {
            carry = self.increment(index_to_check + 1, carry);
            index_to_check += 1;
        }
        proof {
            use_type_invariant(&*self);
            assert(0 * power(base, (index_to_check + 1) as nat) == 0);
        }
        out
    }
}

} // verus!
