//! Exact fixed-point arithmetic for proportional payouts.
//!
//! Settlement pays each winning bet `floor(pool * amount / winner_stake)`.
//! The product `pool * amount` can exceed 128 bits, so the quotient is
//! computed without ever forming it: the whole-quotient part is split off
//! first, and the remaining `floor(r * y / d)` with `r < d` is accumulated
//! bit by bit over `y`, reducing modulo `d` at every step.

use vstd::prelude::*;

verus! {

use vstd::arithmetic::div_mod::{
    lemma_div_denominator, lemma_div_is_ordered, lemma_div_is_ordered_by_denominator,
    lemma_div_pos_is_pos, lemma_fundamental_div_mod, lemma_fundamental_div_mod_converse,
    lemma_hoist_over_denominator,
};
use vstd::arithmetic::power2::{lemma2_to64, lemma2_to64_rest, lemma_pow2_adds, lemma_pow2_unfold, pow2};

/// Integer division distributes sub-additively over a sum of numerators:
/// the floors of two shares never exceed the floor of their combined share.
pub proof fn lemma_div_sum_le(a: int, b: int, d: int)
    requires
        0 <= a,
        0 <= b,
        0 < d,
    ensures
        a / d + b / d <= (a + b) / d,
{
    lemma_fundamental_div_mod(a, d);
    lemma_fundamental_div_mod(b, d);
    assert(a % d + b % d + (a / d + b / d) * d == a + b) by (nonlinear_arith)
        requires
            a == d * (a / d) + a % d,
            b == d * (b / d) + b % d,
    ;
    lemma_hoist_over_denominator(a % d + b % d, a / d + b / d, d as nat);
    lemma_div_pos_is_pos(a % d + b % d, d);
}

/// A share `floor(x * y / d)` with `y <= d` never exceeds `x`.
pub proof fn lemma_mul_div_le(x: int, y: int, d: int)
    requires
        0 <= x,
        0 <= y <= d,
        0 < d,
    ensures
        0 <= (x * y) / d <= x,
{
    assert(0 <= x * y <= x * d) by (nonlinear_arith)
        requires
            0 <= x,
            0 <= y <= d,
    ;
    lemma_div_is_ordered(x * y, x * d, d);
    assert((x * d) / d == x) by {
        vstd::arithmetic::div_mod::lemma_div_by_multiple(x, d);
    }
    lemma_div_pos_is_pos(x * y, d);
}

/// Computes `floor(r * y / d)` for `r < d` without forming the product,
/// by consuming `y` one binary digit at a time, most significant first,
/// and keeping the running remainder reduced modulo `d`.
fn rem_mul_div(r: u128, y: u128, d: u128) -> (res: u128)
    requires
        0 < d,
        r < d,
    ensures
        res as int == (r as int * y as int) / (d as int),
{
    let mut q: u128 = 0;
    let mut rem: u128 = 0;
    let mut p: u128 = 0x8000_0000_0000_0000_0000_0000_0000_0000;
    let ghost mut k: nat = 127;
    proof {
        lemma2_to64();
        lemma2_to64_rest();
        lemma_pow2_adds(64, 63);
        assert(p == pow2(127));
        assert((y as int) / (2 * (p as int)) == 0) by {
            lemma_pow2_adds(64, 64);
            assert(2 * (p as int) == pow2(128));
            vstd::arithmetic::div_mod::lemma_basic_div(y as int, 2 * (p as int));
        }
    }
    while p > 0
        invariant
            0 < d,
            r < d,
            rem < d,
            p > 0 ==> p == pow2(k) && k <= 127,
            p > 0 ==> q as int * d as int + rem as int == r as int * ((y as int) / (2 * (p as int))),
            p == 0 ==> q as int * d as int + rem as int == r as int * (y as int),
        decreases p,
    {
        let b: u128 = (y / p) % 2;
        let ghost hi_old: int = (y as int) / (2 * (p as int));
        let ghost hi_new: int = (y as int) / (p as int);
        proof {
            lemma_div_denominator(y as int, p as int, 2);
            assert((p as int) * 2 == 2 * (p as int));
            lemma_fundamental_div_mod(hi_new, 2);
            assert(hi_new == 2 * hi_old + b as int);
            // The quotient accumulated so far is at most the consumed prefix,
            // which still fits in 127 bits, so doubling it cannot overflow.
            lemma_div_is_ordered_by_denominator(y as int, 2, 2 * (p as int));
            lemma_div_is_ordered(y as int, u128::MAX as int, 2);
            assert(hi_old <= 0x7fff_ffff_ffff_ffff_ffff_ffff_ffff_ffff);
            assert(q as int <= hi_old) by (nonlinear_arith)
                requires
                    q as int * d as int + rem as int == r as int * hi_old,
                    0 <= rem as int,
                    0 <= (r as int) && (r as int) < d as int,
                    0 <= hi_old,
                    0 <= q as int,
            ;
        }
        let ghost q0: int = q as int;
        let ghost rem0: int = rem as int;
        q = q * 2;
        if rem >= d - rem {
            q = q + 1;
            rem = rem - (d - rem);
        } else {
            rem = rem + rem;
        }
        proof {
            assert(q as int * d as int + rem as int == 2 * (r as int * hi_old)) by (nonlinear_arith)
                requires
                    q0 * (d as int) + rem0 == r as int * hi_old,
                    rem0 < d as int,
                    (rem0 >= d as int - rem0 && q as int == 2 * q0 + 1 && rem as int == 2 * rem0
                        - d as int) || (rem0 < d as int - rem0 && q as int == 2 * q0 && rem as int
                        == 2 * rem0),
            ;
            // Before a possible carry from the digit itself, bound the
            // quotient: it is at most twice the consumed prefix.
            assert(q as int <= 2 * hi_old) by (nonlinear_arith)
                requires
                    q as int * d as int + rem as int == 2 * (r as int * hi_old),
                    0 <= rem as int,
                    0 <= (r as int) && (r as int) < d as int,
                    0 <= hi_old,
                    0 <= q as int,
            ;
        }
        let ghost qmid: int = q as int;
        let ghost remmid: int = rem as int;
        if b == 1 {
            if r >= d - rem {
                q = q + 1;
                rem = r - (d - rem);
            } else {
                rem = rem + r;
            }
        }
        proof {
            assert(q as int * (d as int) + rem as int == r as int * hi_new) by (nonlinear_arith)
                requires
                    hi_new == 2 * hi_old + b as int,
                    qmid * (d as int) + remmid == 2 * (r as int * hi_old),
                    0 <= remmid < d as int,
                    (b as int == 0 && q as int == qmid && rem as int == remmid) || (b as int == 1
                        && ((remmid >= d as int - r as int && q as int == qmid + 1 && rem as int
                        == remmid + r as int - d as int) || (remmid < d as int - r as int
                        && q as int == qmid && rem as int == remmid + r as int))),
                    0 <= (r as int) && (r as int) < d as int,
            ;
            if p > 1 {
                assert(k > 0) by {
                    if k == 0 {
                        assert(pow2(0) == 1) by {
                            lemma2_to64();
                        }
                    }
                }
                lemma_pow2_unfold(k);
                k = (k - 1) as nat;
                assert(p as int / 2 == pow2(k));
                assert(2 * ((p / 2) as int) == p as int);
            } else {
                assert((y as int) / 1 == y as int);
            }
        }
        p = p / 2;
    }
    proof {
        lemma_fundamental_div_mod_converse(
            r as int * y as int,
            d as int,
            q as int,
            rem as int,
        );
    }
    q
}

/// Computes `floor(x * y / d)` exactly in unsigned 128-bit arithmetic.
///
/// With `y <= d` the quotient is at most `x`, so the result always fits,
/// even though the product `x * y` itself may not.
pub fn mul_div_floor(x: u128, y: u128, d: u128) -> (res: u128)
    requires
        0 < d,
        y <= d,
    ensures
        res as int == (x as int * y as int) / (d as int),
        res <= x,
{
    let q0: u128 = x / d;
    let r0: u128 = x % d;
    proof {
        lemma_fundamental_div_mod(x as int, d as int);
        assert(q0 as int * y as int <= x as int) by (nonlinear_arith)
            requires
                x as int == d as int * (q0 as int) + r0 as int,
                0 <= r0 as int,
                0 <= y as int <= d as int,
                0 <= q0 as int,
                0 < d as int,
        ;
    }
    let head: u128 = q0 * y;
    let tail: u128 = rem_mul_div(r0, y, d);
    proof {
        lemma_hoist_over_denominator(r0 as int * y as int, head as int, d as nat);
        assert(r0 as int * y as int + (head as int) * (d as int) == x as int * y as int)
            by (nonlinear_arith)
            requires
                head as int == q0 as int * y as int,
                x as int == d as int * (q0 as int) + r0 as int,
        ;
        lemma_mul_div_le(x as int, y as int, d as int);
        assert(head as int + tail as int == (x as int * y as int) / (d as int));
    }
    head + tail
}

} // verus!
