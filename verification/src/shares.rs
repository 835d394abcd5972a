//! Ticket arithmetic: how many tickets a deposit earns and how many a
//! withdrawal gives up, computed exactly without leaving 128 bits.

use vstd::prelude::*;
use vstd::arithmetic::div_mod::lemma_fundamental_div_mod;
use vstd::arithmetic::div_mod::lemma_fundamental_div_mod_converse;

verus! {

/// The tickets that a deposit of `amount` earns in a pool that commits funds
/// for `period_days`: one ticket per unit per day.
pub open spec fn tickets_earned(amount: int, period_days: int) -> int {
    amount * period_days
}

/// The rounded-down share `value * part / whole`.
pub open spec fn share_floor(value: int, part: int, whole: int) -> int {
    (value * part) / whole
}

/// The tickets that a participant holding `tickets` gives up when withdrawing
/// `amount` out of `balance`: the same proportion of the tickets, rounded
/// down. Nothing is given up from an empty balance.
pub open spec fn tickets_burned(tickets: int, amount: int, balance: int) -> int {
    if balance > 0 {
        share_floor(tickets, amount, balance)
    } else {
        0
    }
}

/// `quot` and `rem` are the quotient and remainder of `x` divided by `d`.
pub open spec fn divides_as(x: int, d: int, quot: int, rem: int) -> bool {
    &&& x == quot * d + rem
    &&& 0 <= rem < d
}

proof fn lemma_divides_as_sum(x: int, y: int, d: int, qx: int, rx: int, qy: int, ry: int)
    by (nonlinear_arith)
    requires
        divides_as(x, d, qx, rx),
        divides_as(y, d, qy, ry),
    ensures
        rx + ry >= d ==> divides_as(x + y, d, qx + qy + 1, rx + ry - d),
        rx + ry < d ==> divides_as(x + y, d, qx + qy, rx + ry),
{
}

proof fn lemma_quotient_below(x: int, d: int, quot: int, rem: int, bound: int, cap: int)
    by (nonlinear_arith)
    requires
        divides_as(bound * x, d, quot, rem),
        0 <= bound < d,
        0 <= x <= cap,
    ensures
        0 <= quot,
        cap > 0 ==> quot < cap,
        cap == 0 ==> quot == 0,
{
    assert(bound * x <= bound * cap);
    assert(bound * cap <= (d - 1) * cap);
    if quot >= cap && cap > 0 {
        assert(quot * d >= cap * d);
    }
    if quot < 0 {
        assert(quot * d <= -d);
    }
}

proof fn lemma_scaled(r: int, k: int, m: int)
    by (nonlinear_arith)
    ensures
        r * (k + m) == r * k + r * m,
        r * (2 * k) == r * k + r * k,
{
}

proof fn lemma_share_assembles(
    value: int,
    part: int,
    whole: int,
    q0: int,
    r0: int,
    q1: int,
    r1: int,
)
    by (nonlinear_arith)
    requires
        divides_as(value, whole, q0, r0),
        divides_as(r0 * part, whole, q1, r1),
        0 <= value,
        0 <= part <= whole,
    ensures
        divides_as(value * part, whole, q0 * part + q1, r1),
        0 <= q0 * part <= value,
        0 <= q0 * part + q1 <= value,
{
    assert(value * part == (q0 * part) * whole + r0 * part);
    assert(q0 >= 0) by {
        if q0 < 0 {
            assert(q0 * whole <= -whole);
        }
    }
    assert(q0 * part <= q0 * whole);
    assert(q1 >= 0) by {
        if q1 < 0 {
            assert(q1 * whole <= -whole);
        }
    }
    assert(value * part <= value * whole);
    if q0 * part + q1 > value {
        assert((q0 * part + q1) * whole >= (value + 1) * whole);
    }
}

/// Computes `value * part / whole`, rounded down, for a `part` that does not
/// exceed `whole`. The product itself may not fit in 128 bits, so the share is
/// assembled from the binary digits of `part`.
pub fn proportional_share(value: i128, part: i128, whole: i128) -> (share: i128)
    requires
        0 <= value,
        0 <= part <= whole,
        0 < whole,
    ensures
        share == share_floor(value as int, part as int, whole as int),
        0 <= share <= value,
{
    let q0: i128 = value / whole;
    let r0: i128 = value % whole;
    proof {
        lemma_fundamental_div_mod(value as int, whole as int);
        assert(divides_as(value as int, whole as int, q0 as int, r0 as int)) by (nonlinear_arith)
            requires
                value == whole * (value / whole) + (value % whole),
                q0 == value / whole,
                r0 == value % whole,
                0 <= r0 < whole,
        ;
    }
    // `part == rest * scale + low`: the digits still to come, and those done.
    let mut rest: i128 = part;
    let ghost mut scale: int = 1;
    let ghost mut low: int = 0;
    // `r0 * scale` divided by `whole`, kept while digits are still to come.
    let mut step_quot: i128 = 0;
    let mut step_rem: i128 = r0;
    // `r0 * low` divided by `whole`.
    let mut quot: i128 = 0;
    let mut rem: i128 = 0;
    while rest > 0
        invariant
            0 < whole,
            0 <= r0 < whole,
            0 <= part <= whole,
            0 <= rest,
            1 <= scale,
            0 <= low < scale,
            part == rest * scale + low,
            rest > 0 ==> divides_as(r0 * scale, whole as int, step_quot as int, step_rem as int),
            divides_as(r0 * low, whole as int, quot as int, rem as int),
        decreases rest,
    {
        let ghost rest0: int = rest as int;
        let ghost scale0: int = scale;
        let ghost low0: int = low;
        assert(rest0 * scale0 >= scale0) by (nonlinear_arith)
            requires
                rest0 >= 1,
                scale0 >= 1,
        ;
        if rest % 2 == 1 {
            proof {
                lemma_scaled(r0 as int, low0, scale0);
                lemma_divides_as_sum(
                    r0 * low0,
                    r0 * scale0,
                    whole as int,
                    quot as int,
                    rem as int,
                    step_quot as int,
                    step_rem as int,
                );
                let q: int = if rem + step_rem >= whole {
                    quot + step_quot + 1
                } else {
                    quot + step_quot
                };
                let r: int = if rem + step_rem >= whole {
                    rem + step_rem - whole
                } else {
                    rem + step_rem
                };
                lemma_quotient_below(low0 + scale0, whole as int, q, r, r0 as int, part as int);
                low = low0 + scale0;
            }
            if rem >= whole - step_rem {
                rem = rem - (whole - step_rem);
                quot = quot + step_quot + 1;
            } else {
                rem = rem + step_rem;
                quot = quot + step_quot;
            }
        }
        rest = rest / 2;
        proof {
            scale = 2 * scale0;
            assert(part == rest * scale + low) by (nonlinear_arith)
                requires
                    part == rest0 * scale0 + low0,
                    scale == 2 * scale0,
                    rest == rest0 / 2,
                    rest0 % 2 == 1 ==> low == low0 + scale0,
                    rest0 % 2 != 1 ==> low == low0,
                    rest0 >= 0,
            ;
        }
        if rest > 0 {
            proof {
                lemma_scaled(r0 as int, scale0, scale0);
                lemma_divides_as_sum(
                    r0 * scale0,
                    r0 * scale0,
                    whole as int,
                    step_quot as int,
                    step_rem as int,
                    step_quot as int,
                    step_rem as int,
                );
                let q: int = if step_rem + step_rem >= whole {
                    step_quot + step_quot + 1
                } else {
                    step_quot + step_quot
                };
                let r: int = if step_rem + step_rem >= whole {
                    step_rem + step_rem - whole
                } else {
                    step_rem + step_rem
                };
                assert(scale <= part) by (nonlinear_arith)
                    requires
                        part == rest * scale + low,
                        rest >= 1,
                        scale >= 1,
                        low >= 0,
                ;
                lemma_quotient_below(scale, whole as int, q, r, r0 as int, part as int);
            }
            if step_rem >= whole - step_rem {
                step_rem = step_rem - (whole - step_rem);
                step_quot = step_quot + step_quot + 1;
            } else {
                step_rem = step_rem + step_rem;
                step_quot = step_quot + step_quot;
            }
        }
    }
    proof {
        assert(low == part) by (nonlinear_arith)
            requires
                part == rest * scale + low,
                rest == 0,
        ;
        lemma_share_assembles(
            value as int,
            part as int,
            whole as int,
            q0 as int,
            r0 as int,
            quot as int,
            rem as int,
        );
        lemma_fundamental_div_mod_converse(
            value * part,
            whole as int,
            q0 * part + quot,
            rem as int,
        );
    }
    q0 * part + quot
}

/// The tickets earned by depositing `amount` for `period_days`.
pub fn tickets_for(amount: i128, period_days: u32) -> (tickets: i128)
    requires
        i128::MIN <= tickets_earned(amount as int, period_days as int) <= i128::MAX,
    ensures
        tickets == tickets_earned(amount as int, period_days as int),
{
    amount * (period_days as i128)
}

/// The tickets given up by withdrawing `amount` out of `balance` while
/// holding `tickets`.
pub fn tickets_to_remove(tickets: i128, amount: i128, balance: i128) -> (burned: i128)
    requires
        0 <= tickets,
        0 <= amount <= balance,
    ensures
        burned == tickets_burned(tickets as int, amount as int, balance as int),
        0 <= burned <= tickets,
{
    if balance > 0 {
        proportional_share(tickets, amount, balance)
    } else {
        0
    }
}

} // verus!
