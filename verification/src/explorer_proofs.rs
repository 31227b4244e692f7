//! What the positions of digit rows say about the walk of an explorer.

use crate::explorer::{position, pulled, valid_digits, value, zeros};
use crate::sizes::power;
use vstd::prelude::*;

verus! {

/// A digit appended at the end counts by the power of its place.
pub proof fn lemma_position_push(digits: Seq<nat>, digit: nat, base: nat)
    ensures
        position(digits.push(digit), base) == position(digits, base) + (digit + 1) * power(
            base,
            digits.len(),
        ),
    decreases digits.len(),
{
    let longer = digits.push(digit);
    if digits.len() == 0 {
        assert(longer.drop_first() =~= Seq::<nat>::empty());
        assert(position(longer.drop_first(), base) == 0);
        assert(power(base, 0) == 1);
        assert(base * 0 == 0);
        assert((digit + 1) * 1 == digit + 1);
    } else {
        let rest = digits.drop_first();
        assert(longer.drop_first() =~= rest.push(digit));
        lemma_position_push(rest, digit, base);
        let p = position(rest, base);
        let w = power(base, rest.len());
        assert(power(base, digits.len()) == base * w);
        assert(base * (p + (digit + 1) * w) == base * p + (digit + 1) * (base * w))
            by (nonlinear_arith);
    }
}

/// A digit changed in its place changes the position by the difference
/// times the power of the place.
pub proof fn lemma_position_update(digits: Seq<nat>, at: int, digit: nat, base: nat)
    requires
        0 <= at < digits.len(),
    ensures
        position(digits.update(at, digit), base) + digits[at] * power(base, at as nat) == position(
            digits,
            base,
        ) + digit * power(base, at as nat),
    decreases at,
{
    let changed = digits.update(at, digit);
    let rest = digits.drop_first();
    if at == 0 {
        assert(changed.drop_first() =~= rest);
        assert(power(base, 0) == 1);
        assert(digits[0] * 1 == digits[0]);
        assert(digit * 1 == digit);
    } else {
        assert(changed.drop_first() =~= rest.update(at - 1, digit));
        lemma_position_update(rest, at - 1, digit, base);
        let p = position(rest, base);
        let q = position(rest.update(at - 1, digit), base);
        let w = power(base, (at - 1) as nat);
        assert(power(base, at as nat) == base * w);
        assert(rest[at - 1] == digits[at]);
        assert(base * q + digits[at] * (base * w) == base * p + digit * (base * w))
            by (nonlinear_arith)
            requires
                q + digits[at] * w == p + digit * w,
        ;
    }
}

/// No two rows of valid digits share a position: an explorer's next row is
/// fixed by the position that its contract names.
pub proof fn lemma_position_injective(first: Seq<nat>, second: Seq<nat>, base: nat)
    requires
        base >= 1,
        valid_digits(first, base),
        valid_digits(second, base),
        position(first, base) == position(second, base),
    ensures
        first == second,
    decreases first.len(),
{
    if first.len() == 0 || second.len() == 0 {
        assert(first =~= second);
    } else {
        let p = position(first.drop_first(), base);
        let q = position(second.drop_first(), base);
        assert(first[0] == second[0] && p == q) by (nonlinear_arith)
            requires
                first[0] + 1 + base * p == second[0] + 1 + base * q,
                first[0] < base,
                second[0] < base,
        ;
        lemma_position_injective(first.drop_first(), second.drop_first(), base);
        assert(first =~= seq![first[0]] + first.drop_first());
        assert(second =~= seq![second[0]] + second.drop_first());
    }
}

/// A row of `len` zeros is a row of valid digits; a zero appended to it
/// gives the next longer one, which lies `base^len` places further on.
pub proof fn lemma_zeros(base: nat, len: nat)
    requires
        base >= 1,
    ensures
        valid_digits(zeros(len), base),
        zeros(len + 1) == zeros(len).push(0),
        position(zeros(len + 1), base) == position(zeros(len), base) + power(base, len),
{
    assert(zeros(len + 1) =~= zeros(len).push(0));
    lemma_position_push(zeros(len), 0, base);
    assert((0 + 1) * power(base, len) == power(base, len)) by (nonlinear_arith);
}

/// The rows of zeros lie further on the longer they are.
pub proof fn lemma_zeros_ascend(base: nat, shorter: nat, longer: nat)
    requires
        base >= 1,
        shorter <= longer,
    ensures
        position(zeros(shorter), base) <= position(zeros(longer), base),
    decreases longer,
{
    if shorter < longer {
        lemma_zeros_ascend(base, shorter, (longer - 1) as nat);
        lemma_zeros(base, (longer - 1) as nat);
    }
}

/// A row of valid digits lies as many places past the row of zeros of its
/// length as the number it stands for, and that number is below
/// `base^len`: the rows of one length fill the places from one row of zeros
/// up to the next, in counting order.
pub proof fn lemma_position_by_value(digits: Seq<nat>, base: nat)
    requires
        base >= 1,
        valid_digits(digits, base),
    ensures
        position(digits, base) == position(zeros(digits.len()), base) + value(digits, base),
        value(digits, base) < power(base, digits.len()),
    decreases digits.len(),
{
    if digits.len() == 0 {
        assert(zeros(0) =~= Seq::<nat>::empty());
    } else {
        let rest = digits.drop_first();
        let len = rest.len();
        lemma_position_by_value(rest, base);
        assert(zeros(digits.len()).drop_first() =~= zeros(len));
        assert(zeros(digits.len())[0] == 0);
        let p = position(zeros(len), base);
        let v = value(rest, base);
        let w = power(base, len);
        assert(power(base, digits.len()) == base * w);
        assert(base * (p + v) == base * p + base * v) by (nonlinear_arith);
        assert(digits[0] + base * v < base * w) by (nonlinear_arith)
            requires
                digits[0] < base,
                v < w,
        ;
    }
}

/// The length of a row of valid digits can be read off its position: the
/// rows of `len` digits are those from the row of `len` zeros up to, but
/// not including, the row of `len + 1` zeros. A pull makes the row longer
/// exactly when it leads to the longer row of zeros or past it.
pub proof fn lemma_length_by_position(digits: Seq<nat>, base: nat, len: nat)
    requires
        base >= 1,
        valid_digits(digits, base),
    ensures
        digits.len() == len <==> position(zeros(len), base) <= position(digits, base) < position(
            zeros(len + 1),
            base,
        ),
        digits.len() > len <==> position(digits, base) >= position(zeros(len + 1), base),
{
    lemma_position_by_value(digits, base);
    lemma_zeros(base, len);
    lemma_zeros(base, digits.len());
    if digits.len() < len {
        lemma_zeros_ascend(base, digits.len() + 1, len);
    } else if digits.len() > len {
        lemma_zeros_ascend(base, len + 1, digits.len());
    }
}

/// Rows of valid digits of one length that stand for the same number are
/// the same row.
pub proof fn lemma_value_injective(first: Seq<nat>, second: Seq<nat>, base: nat)
    requires
        base >= 1,
        first.len() == second.len(),
        valid_digits(first, base),
        valid_digits(second, base),
        value(first, base) == value(second, base),
    ensures
        first == second,
{
    lemma_position_by_value(first, base);
    lemma_position_by_value(second, base);
    lemma_position_injective(first, second, base);
}

/// Counting from a row of zeros. Let `digits` be the row that lies `pulls`
/// places past the row of `len` zeros, which is the row that an explorer
/// of step 1 started at those zeros reads out after `pulls` pulls. As long
/// as `pulls` is below `base^len` the row has `len` digits and stands for
/// the number `pulls`; at `pulls == base^len` it is the row of `len + 1`
/// zeros.
pub proof fn lemma_counting_order(base: nat, len: nat, pulls: nat, digits: Seq<nat>)
    requires
        base >= 1,
        valid_digits(digits, base),
        position(digits, base) == position(zeros(len), base) + pulls,
    ensures
        pulls < power(base, len) ==> digits.len() == len && value(digits, base) == pulls,
        pulls == power(base, len) ==> digits == zeros(len + 1),
{
    lemma_zeros(base, len);
    lemma_position_by_value(digits, base);
    if pulls < power(base, len) {
        lemma_length_by_position(digits, base, len);
    } else if pulls == power(base, len) {
        lemma_zeros(base, len + 1);
        lemma_position_injective(digits, zeros(len + 1), base);
    }
}

/// A walk of pulls of step 1 that starts at the row of `len` zeros. As
/// long as fewer than `base^len` pulls were made, the row has `len` digits
/// and stands for the number of pulls made, so that the first `base^len`
/// rows are the rows of `len` digits in counting order, each once and none
/// left out; the row after them is the row of `len + 1` zeros.
pub proof fn lemma_counting_walk(base: nat, len: nat, walk: Seq<Seq<nat>>)
    requires
        base >= 1,
        walk.len() > 0,
        walk[0] == zeros(len),
        forall|t: int| 1 <= t < walk.len() ==> pulled(walk[t - 1], #[trigger] walk[t], base, 1),
    ensures
        forall|t: int|
            0 <= t < walk.len() && t < power(base, len) ==> (#[trigger] walk[t]).len() == len
                && value(walk[t], base) == t,
        forall|s: int, t: int|
            0 <= s < t < walk.len() && t < power(base, len) ==> walk[s] != walk[t],
        forall|digits: Seq<nat>|
            valid_digits(digits, base) && digits.len() == len && value(digits, base) < walk.len()
                ==> walk[#[trigger] value(digits, base) as int] == digits,
        walk.len() > power(base, len) ==> walk[power(base, len) as int] == zeros(len + 1),
{
    lemma_zeros(base, len);
    assert forall|digits: Seq<nat>|
        valid_digits(digits, base) && digits.len() == len && value(digits, base)
            < walk.len() implies walk[#[trigger] value(digits, base) as int] == digits by {
        let t = value(digits, base) as int;
        lemma_position_by_value(digits, base);
        lemma_walk_position(base, walk, t);
        lemma_position_injective(walk[t], digits, base);
    }
    assert forall|t: int| 0 <= t < walk.len() implies valid_digits(#[trigger] walk[t], base)
        && position(walk[t], base) == position(zeros(len), base) + t by {
        lemma_walk_position(base, walk, t);
    }
    assert forall|t: int| 0 <= t < walk.len() && t < power(base, len) implies (
    #[trigger] walk[t]).len() == len && value(walk[t], base) == t by {
        lemma_counting_order(base, len, t as nat, walk[t]);
    }
    if walk.len() > power(base, len) {
        let turn = power(base, len);
        lemma_counting_order(base, len, turn, walk[turn as int]);
    }
}

/// After `t` pulls of step 1 a walk is `t` places further on.
proof fn lemma_walk_position(base: nat, walk: Seq<Seq<nat>>, t: int)
    requires
        0 <= t < walk.len(),
        valid_digits(walk[0], base),
        forall|t: int| 1 <= t < walk.len() ==> pulled(walk[t - 1], #[trigger] walk[t], base, 1),
    ensures
        valid_digits(walk[t], base),
        position(walk[t], base) == position(walk[0], base) + t,
    decreases t,
{
    if t > 0 {
        lemma_walk_position(base, walk, t - 1);
        assert(pulled(walk[t - 1], walk[t], base, 1));
    }
}

} // verus!
