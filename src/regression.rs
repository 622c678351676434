use vstd::prelude::*;

use crate::round_div;
use crate::stats::seq_sum;

verus! {

/// Sum of the products `x[i] * y[i]` over the common length.
pub open spec fn sum_products(x: Seq<u32>, y: Seq<u32>) -> int
    decreases x.len(),
{
    if x.len() == 0 || y.len() < x.len() {
        0
    } else {
        sum_products(x.drop_last(), y.take(x.len() - 1)) + x.last() * y[x.len() - 1]
    }
}

/// Numerator of the least-squares slope: `n * Sxy - Sx * Sy`.
pub open spec fn slope_numerator(x: Seq<u32>, y: Seq<u32>) -> int {
    x.len() * sum_products(x, y) - seq_sum(x) * seq_sum(y)
}

/// Common denominator of slope and intercept: `n * Sxx - Sx * Sx`.
pub open spec fn denominator(x: Seq<u32>) -> int {
    x.len() * sum_products(x, x) - seq_sum(x) * seq_sum(x)
}

/// Numerator of the intercept: `Sy * Sxx - Sx * Sxy`.
pub open spec fn intercept_numerator(x: Seq<u32>, y: Seq<u32>) -> int {
    seq_sum(y) * sum_products(x, x) - seq_sum(x) * sum_products(x, y)
}

/// A fitted line `y = slope * x + intercept` for `x` in hundredths of a unit
/// and `y` in cents: `slope` is in cents per unit of `x`, `intercept` in
/// cents, both rounded to the nearest integer.
#[derive(Clone, Copy, PartialEq, Eq, Structural)]
pub struct LinearModel {
    pub slope: i128,
    pub intercept: i128,
}

/// Largest input value for which a fit is always computed.
pub const FIT_VALUE_LIMIT: u32 = 0x100_0000;

/// Longest input for which a fit is always computed.
pub const FIT_LEN_LIMIT: usize = 0x10_0000;

/// Rounds `a / b` (with `b > 0`) as `round_div`, or `None` when an
/// intermediate does not fit.
fn checked_round_div(a: i128, b: u128) -> (r: Option<i128>)
    requires
        b > 0,
    ensures
        r is Some ==> r.unwrap() == round_div(a as int, b as int),
        b < 0x100_0000_0000_0000_0000_0000_0000_0000 && -0x100_0000_0000_0000_0000_0000_0000_0000 < a
            < 0x100_0000_0000_0000_0000_0000_0000_0000 ==> r is Some,
{
    let neg = a < 0;
    let mag: u128 = if neg {
        if a == i128::MIN {
            return None;
        }
        (-a) as u128
    } else {
        a as u128
    };
    let twice = match mag.checked_mul(2) {
        Some(t) => t,
        None => return None,
    };
    let top = match twice.checked_add(b) {
        Some(t) => t,
        None => return None,
    };
    let bottom = match b.checked_mul(2) {
        Some(t) => t,
        None => return None,
    };
    let q = top / bottom;
    if q > i128::MAX as u128 {
        return None;
    }
    if neg { Some(-(q as i128)) } else { Some(q as i128) }
}

proof fn lemma_sum_bound(x: Seq<u32>, m: int)
    requires
        forall|i: int| 0 <= i < x.len() ==> x[i] <= m,
        m >= 0,
    ensures
        0 <= seq_sum(x) <= x.len() * m,
    decreases x.len(),
{
    if x.len() > 0 {
        lemma_sum_bound(x.drop_last(), m);
        assert(x.len() * m == (x.len() - 1) * m + m) by (nonlinear_arith);
    }
}

proof fn lemma_products_bound(x: Seq<u32>, y: Seq<u32>, m: int)
    requires
        forall|i: int| 0 <= i < x.len() ==> x[i] <= m,
        forall|i: int| 0 <= i < y.len() ==> y[i] <= m,
        m >= 0,
    ensures
        0 <= sum_products(x, y) <= x.len() * (m * m),
    decreases x.len(),
{
    if x.len() > 0 && y.len() >= x.len() {
        lemma_products_bound(x.drop_last(), y.take(x.len() - 1), m);
        let a = x.last() as int;
        let b = y[x.len() - 1] as int;
        assert(0 <= a * b <= m * m) by (nonlinear_arith)
            requires 0 <= a <= m, 0 <= b <= m;
        assert(x.len() * (m * m) == (x.len() - 1) * (m * m) + m * m) by (nonlinear_arith);
    }
}

/// Ordinary least squares of `y` on `x`, paired by position.
///
/// `None` when the denominator `n * Sxx - Sx * Sx` is not positive (no
/// inputs, or all `x` equal), or when an intermediate exceeds 128 bits; the
/// latter never happens for at most `FIT_LEN_LIMIT` pairs of values below
/// `FIT_VALUE_LIMIT`. A result is the exact fit, rounded.
pub fn simple_linear_regression(x: &[u32], y: &[u32]) -> (r: Option<LinearModel>)
    requires
        x.len() == y.len(),
    ensures
        r is Some ==> denominator(x@) > 0 && r.unwrap().slope == round_div(
            100 * slope_numerator(x@, y@),
            denominator(x@),
        ) && r.unwrap().intercept == round_div(intercept_numerator(x@, y@), denominator(x@)),
        denominator(x@) <= 0 ==> r is None,
        denominator(x@) > 0 && x.len() <= FIT_LEN_LIMIT && (forall|i: int|
            0 <= i < x.len() ==> x@[i] < FIT_VALUE_LIMIT && y@[i] < FIT_VALUE_LIMIT) ==> r is Some,
{
    let n = x.len();
    let mut sx: u128 = 0;
    let mut sy: u128 = 0;
    let mut sxy: u128 = 0;
    let mut sxx: u128 = 0;
    let mut i: usize = 0;
    let ghost m: int = 0xffff_ffff;
    while i < n
        invariant
            i <= n,
            n == x.len(),
            n == y.len(),
            sx == seq_sum(x@.take(i as int)),
            sy == seq_sum(y@.take(i as int)),
            sxy == sum_products(x@.take(i as int), y@.take(i as int)),
            sxx == sum_products(x@.take(i as int), x@.take(i as int)),
            sx <= i * m,
            sy <= i * m,
            sxy <= i * (m * m),
            sxx <= i * (m * m),
            m == 0xffff_ffff,
        decreases n - i,
    {
        let ghost j = i as int;
        assert(x@.take(j + 1).drop_last() =~= x@.take(j));
        assert(y@.take(j + 1).drop_last() =~= y@.take(j));
        assert(y@.take(j + 1).take(j) =~= y@.take(j));
        assert(x@.take(j + 1).take(j) =~= x@.take(j));
        let a = x[i] as u128;
        let b = y[i] as u128;
        assert(a * b <= m * m && a * a <= m * m) by (nonlinear_arith)
            requires a <= m, b <= m;
        assert((j + 1) * m == j * m + m && (j + 1) * (m * m) == j * (m * m) + m * m) by (nonlinear_arith);
        assert(j * (m * m) + m * m <= 0xffff_ffff_ffff_ffff * (m * m)) by (nonlinear_arith)
            requires j < 0xffff_ffff_ffff_ffff, m == 0xffff_ffff;
        sx = sx + a;
        sy = sy + b;
        sxy = sxy + a * b;
        sxx = sxx + a * a;
        i = i + 1;
    }
    assert(x@.take(n as int) =~= x@);
    assert(y@.take(n as int) =~= y@);
    let ghost small = n <= FIT_LEN_LIMIT && (forall|i: int|
        0 <= i < x.len() ==> x@[i] < FIT_VALUE_LIMIT && y@[i] < FIT_VALUE_LIMIT);
    proof {
        if small {
            let lim = FIT_VALUE_LIMIT as int;
            lemma_sum_bound(x@, lim);
            lemma_sum_bound(y@, lim);
            lemma_products_bound(x@, y@, lim);
            lemma_products_bound(x@, x@, lim);
            assert(n * lim <= 0x100000 * 0x1000000) by (nonlinear_arith)
                requires n <= 0x100000, lim == 0x1000000;
            assert(n * (lim * lim) <= 0x100000 * (0x1000000 * 0x1000000)) by (nonlinear_arith)
                requires n <= 0x100000, lim == 0x1000000;
        }
    }
    let n128 = n as u128;
    let (pa, pb, pc, pe, pf, pg) = match (
        n128.checked_mul(sxy),
        sx.checked_mul(sy),
        n128.checked_mul(sxx),
        sx.checked_mul(sx),
        sy.checked_mul(sxx),
        sx.checked_mul(sxy),
    ) {
        (Some(pa), Some(pb), Some(pc), Some(pe), Some(pf), Some(pg)) => (pa, pb, pc, pe, pf, pg),
        _ => {
            proof {
                if small {
                    assert(n128 * sxy <= 0x100000 * 0x1000000000000 * 0x100000) by (nonlinear_arith)
                        requires n128 <= 0x100000, sxy <= 0x100000 * 0x1000000000000;
                    assert(sx * sy <= 0x100000 * 0x1000000 * (0x100000 * 0x1000000)) by (nonlinear_arith)
                        requires sx <= 0x100000 * 0x1000000, sy <= 0x100000 * 0x1000000;
                    assert(n128 * sxx <= 0x100000 * 0x1000000000000 * 0x100000) by (nonlinear_arith)
                        requires n128 <= 0x100000, sxx <= 0x100000 * 0x1000000000000;
                    assert(sx * sx <= 0x100000 * 0x1000000 * (0x100000 * 0x1000000)) by (nonlinear_arith)
                        requires sx <= 0x100000 * 0x1000000;
                    assert(sy * sxx <= 0x100000 * 0x1000000 * (0x100000 * 0x1000000000000)) by (nonlinear_arith)
                        requires sy <= 0x100000 * 0x1000000, sxx <= 0x100000 * 0x1000000000000;
                    assert(sx * sxy <= 0x100000 * 0x1000000 * (0x100000 * 0x1000000000000)) by (nonlinear_arith)
                        requires sx <= 0x100000 * 0x1000000, sxy <= 0x100000 * 0x1000000000000;
                }
            }
            return None;
        },
    };
    if pc <= pe {
        return None;
    }
    let d = pc - pe;
    if pa > i128::MAX as u128 || pb > i128::MAX as u128 || pf > i128::MAX as u128 || pg > i128::MAX as u128 {
        proof {
            if small {
                assert(n128 * sxy <= 0x100000 * 0x1000000000000 * 0x100000) by (nonlinear_arith)
                    requires n128 <= 0x100000, sxy <= 0x100000 * 0x1000000000000;
                assert(sx * sy <= 0x100000 * 0x1000000 * (0x100000 * 0x1000000)) by (nonlinear_arith)
                    requires sx <= 0x100000 * 0x1000000, sy <= 0x100000 * 0x1000000;
                assert(sy * sxx <= 0x100000 * 0x1000000 * (0x100000 * 0x1000000000000)) by (nonlinear_arith)
                    requires sy <= 0x100000 * 0x1000000, sxx <= 0x100000 * 0x1000000000000;
                assert(sx * sxy <= 0x100000 * 0x1000000 * (0x100000 * 0x1000000000000)) by (nonlinear_arith)
                    requires sx <= 0x100000 * 0x1000000, sxy <= 0x100000 * 0x1000000000000;
            }
        }
        return None;
    }
    let num = (pa as i128) - (pb as i128);
    let inum = (pf as i128) - (pg as i128);
    let scaled = match num.checked_mul(100) {
        Some(v) => v,
        None => {
            proof {
                if small {
                    assert(n128 * sxy <= 0x100000 * 0x1000000000000 * 0x100000) by (nonlinear_arith)
                        requires n128 <= 0x100000, sxy <= 0x100000 * 0x1000000000000;
                    assert(sx * sy <= 0x100000 * 0x1000000 * (0x100000 * 0x1000000)) by (nonlinear_arith)
                        requires sx <= 0x100000 * 0x1000000, sy <= 0x100000 * 0x1000000;
                }
            }
            return None;
        },
    };
    proof {
        if small {
            assert(n128 * sxy <= 0x100000 * 0x1000000000000 * 0x100000) by (nonlinear_arith)
                requires n128 <= 0x100000, sxy <= 0x100000 * 0x1000000000000;
            assert(sx * sy <= 0x100000 * 0x1000000 * (0x100000 * 0x1000000)) by (nonlinear_arith)
                requires sx <= 0x100000 * 0x1000000, sy <= 0x100000 * 0x1000000;
            assert(n128 * sxx <= 0x100000 * 0x1000000000000 * 0x100000) by (nonlinear_arith)
                requires n128 <= 0x100000, sxx <= 0x100000 * 0x1000000000000;
            assert(sy * sxx <= 0x100000 * 0x1000000 * (0x100000 * 0x1000000000000)) by (nonlinear_arith)
                requires sy <= 0x100000 * 0x1000000, sxx <= 0x100000 * 0x1000000000000;
            assert(sx * sxy <= 0x100000 * 0x1000000 * (0x100000 * 0x1000000000000)) by (nonlinear_arith)
                requires sx <= 0x100000 * 0x1000000, sxy <= 0x100000 * 0x1000000000000;
        }
    }
    let slope = match checked_round_div(scaled, d) {
        Some(v) => v,
        None => return None,
    };
    proof {
        if small {
            assert(pf <= 0x1_0000_0000_0000_0000_0000_0000_0000);
            assert(pg <= 0x1_0000_0000_0000_0000_0000_0000_0000);
            assert(inum == pf as int - pg as int);
            assert(-0x100_0000_0000_0000_0000_0000_0000_0000int < inum as int);
            assert((inum as int) < 0x100_0000_0000_0000_0000_0000_0000_0000int);
            assert(d < 0x100_0000_0000_0000_0000_0000_0000_0000);
        }
    }
    let intercept = match checked_round_div(inum, d) {
        Some(v) => v,
        None => return None,
    };
    Some(LinearModel { slope, intercept })
}

} // verus!
