//! Rounded integer division: the one place where the fixed-point model
//! loses resolution, pinned to a single convention (ties away from zero).

use vstd::prelude::*;
use vstd::arithmetic::div_mod::{
    lemma_div_is_ordered, lemma_div_pos_is_pos, lemma_fundamental_div_mod,
    lemma_fundamental_div_mod_converse_div,
};

verus! {

/// Nearest integer to `a / b`, ties rounded away from zero.
pub open spec fn round_div(a: int, b: int) -> int
    recommends
        b >= 1,
{
    if a >= 0 {
        (2 * a + b) / (2 * b)
    } else {
        -((2 * (-a) + b) / (2 * b))
    }
}

/// For a nonnegative numerator, rounding relates to floor division of the
/// doubled numerator shifted by half the divisor.
proof fn lemma_round_div_of_quotient(u: int, b: int, q: int, r: int)
    requires
        b >= 1,
        0 <= r < b,
        0 <= u,
        u == q * b + r,
    ensures
        2 * r < b ==> round_div(u, b) == q,
        2 * r >= b ==> round_div(u, b) == q + 1,
{
    assert(q >= 0) by {
        if q < 0 {
            assert(q * b <= -1 * b) by (nonlinear_arith)
                requires q <= -1 && b >= 1;
        }
    }
    if 2 * r < b {
        assert(2 * u + b == q * (2 * b) + (2 * r + b)) by (nonlinear_arith)
            requires u == q * b + r;
        lemma_fundamental_div_mod_converse_div(2 * u + b, 2 * b, q, 2 * r + b);
    } else {
        assert(2 * u + b == (q + 1) * (2 * b) + (2 * r - b)) by (nonlinear_arith)
            requires u == q * b + r;
        lemma_fundamental_div_mod_converse_div(2 * u + b, 2 * b, q + 1, 2 * r - b);
    }
}

/// A rounded mean of values from an interval stays in that interval:
/// if `n * lo <= s <= n * hi` then `round_div(s, n)` lies in `[lo, hi]`.
pub proof fn lemma_round_div_hull(s: int, n: int, lo: int, hi: int)
    requires
        n >= 1,
        n * lo <= s,
        s <= n * hi,
    ensures
        lo <= round_div(s, n),
        round_div(s, n) <= hi,
{
    if s >= 0 {
        // upper bound
        assert(2 * s + n <= 2 * n * hi + n) by (nonlinear_arith)
            requires s <= n * hi;
        assert(2 * n * hi + n == hi * (2 * n) + n) by (nonlinear_arith);
        lemma_fundamental_div_mod_converse_div(2 * n * hi + n, 2 * n, hi, n);
        lemma_div_is_ordered(2 * s + n, 2 * n * hi + n, 2 * n);
        // lower bound
        if lo >= 0 {
            assert(2 * n * lo + n <= 2 * s + n) by (nonlinear_arith)
                requires n * lo <= s;
            assert(2 * n * lo + n == lo * (2 * n) + n) by (nonlinear_arith);
            lemma_fundamental_div_mod_converse_div(2 * n * lo + n, 2 * n, lo, n);
            lemma_div_is_ordered(2 * n * lo + n, 2 * s + n, 2 * n);
        } else {
            lemma_div_pos_is_pos(2 * s + n, 2 * n);
        }
    } else {
        let u = -s;
        // round_div(s, n) == -((2u + n) / (2n)); show lo <= -d <= hi for d = (2u+n)/(2n)
        // upper bound on d from s >= n * lo, i.e. u <= n * (-lo)
        assert(2 * u + n <= 2 * n * (-lo) + n) by (nonlinear_arith)
            requires n * lo <= s && u == -s;
        assert(2 * n * (-lo) + n == (-lo) * (2 * n) + n) by (nonlinear_arith);
        lemma_fundamental_div_mod_converse_div(2 * n * (-lo) + n, 2 * n, -lo, n);
        lemma_div_is_ordered(2 * u + n, 2 * n * (-lo) + n, 2 * n);
        // lower bound on d
        if hi >= 0 {
            lemma_div_pos_is_pos(2 * u + n, 2 * n);
        } else {
            assert(2 * n * (-hi) + n <= 2 * u + n) by (nonlinear_arith)
                requires s <= n * hi && u == -s;
            assert(2 * n * (-hi) + n == (-hi) * (2 * n) + n) by (nonlinear_arith);
            lemma_fundamental_div_mod_converse_div(2 * n * (-hi) + n, 2 * n, -hi, n);
            lemma_div_is_ordered(2 * n * (-hi) + n, 2 * u + n, 2 * n);
        }
    }
}

/// Rounded division on machine integers, ties away from zero.
pub fn round_div_i128(a: i128, b: i128) -> (q: i128)
    requires
        1 <= b <= 0x1_0000_0000_0000_0000,
        i128::MIN < a,
    ensures
        q == round_div(a as int, b as int),
{
    if a >= 0 {
        let ua = a as u128;
        let ub = b as u128;
        let q0 = ua / ub;
        let r = ua % ub;
        proof {
            lemma_fundamental_div_mod(ua as int, ub as int);
            assert(ua as int == q0 as int * ub as int + r as int) by (nonlinear_arith)
                requires
                    ua as int == ub as int * (ua as int / ub as int) + ua as int % ub as int,
                    q0 == ua as int / ub as int,
                    r == ua as int % ub as int;
            lemma_round_div_of_quotient(ua as int, ub as int, q0 as int, r as int);
            if b > 1 {
                assert(q0 as int * ub as int >= q0 as int * 2) by (nonlinear_arith)
                    requires ub as int >= 2 && q0 as int >= 0;
            }
        }
        if 2 * r >= ub {
            (q0 + 1) as i128
        } else {
            q0 as i128
        }
    } else {
        let ua = (-a) as u128;
        let ub = b as u128;
        let q0 = ua / ub;
        let r = ua % ub;
        proof {
            lemma_fundamental_div_mod(ua as int, ub as int);
            assert(ua as int == q0 as int * ub as int + r as int) by (nonlinear_arith)
                requires
                    ua as int == ub as int * (ua as int / ub as int) + ua as int % ub as int,
                    q0 == ua as int / ub as int,
                    r == ua as int % ub as int;
            lemma_round_div_of_quotient(ua as int, ub as int, q0 as int, r as int);
            if b > 1 {
                assert(q0 as int * ub as int >= q0 as int * 2) by (nonlinear_arith)
                    requires ub as int >= 2 && q0 as int >= 0;
            }
        }
        if 2 * r >= ub {
            -((q0 + 1) as i128)
        } else {
            -(q0 as i128)
        }
    }
}

} // verus!
