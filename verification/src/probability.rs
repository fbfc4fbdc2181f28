//! Smoothed probability arithmetic, carried out exactly on integers.
//!
//! A probability rounded to two decimal places is represented as an integer
//! number of hundredths. All smoothing arithmetic is exact: the smoothed
//! count is kept as a fraction, and the final rounding divides once.
use vstd::prelude::*;

use vstd::arithmetic::div_mod::lemma_fundamental_div_mod;

verus! {

/// `100 * num / den` rounded to the nearest integer, halves away from zero,
/// for `num >= 0` and `den > 0`.
pub open spec fn round_hundredths(num: int, den: int) -> int {
    (200 * num + den) / (2 * den)
}

/// Numerator of the smoothed count `c'' = c' + k` as an exact fraction.
///
/// With Good-Turing off the adjusted count `c'` is `c` itself. With it on,
/// a zero count becomes `N(1)`, and a positive count becomes
/// `(c+1) * N(c+1) / N(c)`, read as 0 when `N(c)` is 0.
pub open spec fn smoothed_num(c: int, k: int, gt: bool, n_c: int, n_c1: int, n_1: int) -> int {
    if !gt {
        c + k
    } else if c == 0 {
        n_1 + k
    } else if n_c == 0 {
        k
    } else {
        (c + 1) * n_c1 + k * n_c
    }
}

/// Denominator of the smoothed count fraction: `N(c)` in the fractional
/// Good-Turing case, 1 otherwise.
pub open spec fn smoothed_den(c: int, gt: bool, n_c: int) -> int {
    if gt && c != 0 && n_c != 0 {
        n_c
    } else {
        1
    }
}

/// The rounded probability, in hundredths, of a gram with merged count `c`:
/// the smoothed count divided by the base denominator `d`, rounded to two
/// decimals. An empty probability space (`d == 0`, possible only when the
/// corpus has no tokens and no additive smoothing is asked for) yields 0.
pub open spec fn gram_probability(
    c: int,
    k: int,
    gt: bool,
    n_c: int,
    n_c1: int,
    n_1: int,
    d: int,
) -> int {
    let num = smoothed_num(c, k, gt, n_c, n_c1, n_1);
    let den = smoothed_den(c, gt, n_c) * d;
    if den == 0 {
        0
    } else {
        round_hundredths(num, den)
    }
}

/// Computes `gram_probability` executably. `total` bounds the count mass;
/// the result is then at most `100 * (total + 1)`.
pub fn probability_hundredths(
    c: u32,
    k: u32,
    gt: bool,
    n_c: u32,
    n_c1: u32,
    n_1: u32,
    d: u64,
    Ghost(total): Ghost<int>,
) -> (p: u64)
    requires
        total <= u32::MAX,
        c as int <= total,
        n_1 as int <= total,
        (gt && c >= 1) ==> (c as int + 1) * (n_c1 as int) <= total,
        k == 0 || k as int <= d as int,
    ensures
        p as int == gram_probability(
            c as int,
            k as int,
            gt,
            n_c as int,
            n_c1 as int,
            n_1 as int,
            d as int,
        ),
        p as int <= 100 * (total + 1),
{
    let ghost gc = c as int;
    let ghost gk = k as int;
    let ghost gd = d as int;
    if d == 0 {
        proof {
            assert(smoothed_den(gc, gt, n_c as int) * 0 == 0) by (nonlinear_arith);
        }
        return 0;
    }
    let num: u128 = if !gt {
        c as u128 + k as u128
    } else if c == 0 {
        n_1 as u128 + k as u128
    } else if n_c == 0 {
        k as u128
    } else {
        proof {
            assert((gc + 1) * (n_c1 as int) <= 0x10000000000000000) by (nonlinear_arith)
                requires
                    0 <= gc <= 0xffffffff,
                    0 <= n_c1 <= 0xffffffff,
            ;
            assert(gk * (n_c as int) <= 0x10000000000000000) by (nonlinear_arith)
                requires
                    0 <= gk <= 0xffffffff,
                    0 <= n_c <= 0xffffffff,
            ;
        }
        (c as u128 + 1) * (n_c1 as u128) + (k as u128) * (n_c as u128)
    };
    let den_factor: u128 = if gt && c != 0 && n_c != 0 {
        n_c as u128
    } else {
        1
    };
    let ghost nf = den_factor as int;
    proof {
        assert(num as int == smoothed_num(gc, gk, gt, n_c as int, n_c1 as int, n_1 as int));
        assert(nf == smoothed_den(gc, gt, n_c as int));
        assert(nf * gd <= 0x1000000000000000000000000) by (nonlinear_arith)
            requires
                0 <= nf <= 0x100000000,
                0 <= gd <= 0xffffffffffffffff,
        ;
    }
    let den: u128 = den_factor * (d as u128);
    let ghost nd = den as int;
    proof {
        assert(nd == nf * gd);
        assert(nd >= 1) by (nonlinear_arith)
            requires
                nd == nf * gd,
                nf >= 1,
                gd >= 1,
        ;
        assert(num as int <= total + gk * nf) by {
            if gt && c >= 1 && n_c != 0 {
            } else {
                assert(nf == 1);
                assert(gk * 1 == gk) by (nonlinear_arith);
            }
        }
        assert(num as int <= (total + 1) * nd) by (nonlinear_arith)
            requires
                num as int <= total + gk * nf,
                gk == 0 || gk <= gd,
                nd == nf * gd,
                nf >= 1,
                gd >= 1,
                total >= 0,
                gk >= 0,
        ;
        assert(200 * (num as int) + nd <= (200 * (total + 1) + 1) * nd) by (nonlinear_arith)
            requires
                num as int <= (total + 1) * nd,
                nd >= 1,
                total >= 0,
        ;
    }
    let q: u128 = (200 * num + den) / (2 * den);
    proof {
        let nn = 200 * (num as int) + nd;
        let dd = 2 * nd;
        lemma_fundamental_div_mod(nn, dd);
        let qv = nn / dd;
        assert(q as int == qv);
        assert(dd * qv <= nn);
        assert(qv <= 100 * (total + 1)) by (nonlinear_arith)
            requires
                dd == 2 * nd,
                nd >= 1,
                dd * qv <= nn,
                nn <= (200 * (total + 1) + 1) * nd,
                total >= 0,
        ;
        assert(qv >= 0) by (nonlinear_arith)
            requires
                dd >= 2,
                nn >= 0,
                nn == dd * qv + nn % dd,
                nn % dd < dd,
        ;
    }
    q as u64
}

} // verus!
