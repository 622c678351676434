use vstd::prelude::*;

use crate::round_div;

verus! {

/// `s` is in ascending order.
pub open spec fn is_sorted(s: Seq<u32>) -> bool {
    forall|i: int, j: int| 0 <= i <= j < s.len() ==> s[i] <= s[j]
}

/// `t` holds the values of `s` in ascending order.
pub open spec fn is_sorted_form(t: Seq<u32>, s: Seq<u32>) -> bool {
    is_sorted(t) && t.to_multiset() == s.to_multiset()
}

/// Sum of the values of `s`.
pub open spec fn seq_sum(s: Seq<u32>) -> int
    decreases s.len(),
{
    if s.len() == 0 {
        0
    } else {
        seq_sum(s.drop_last()) + s.last()
    }
}

/// Relies on slice::sort_unstable: afterwards the same values stand in
/// ascending order.
#[verifier::external_body]
pub(crate) fn sort_ascending(v: &mut Vec<u32>)
    ensures
        is_sorted_form(final(v)@, old(v)@),
{
    v.sort_unstable();
}

/// The first and third quartiles of a column, taken by rank from its sorted
/// form: the values at indices `n / 4` and `3 * n / 4`, without interpolation.
pub struct IqrBounds {
    pub q1: u32,
    pub q3: u32,
}

/// Quartiles of a sorted column; `None` for an empty one.
pub open spec fn iqr_of_sorted(t: Seq<u32>) -> Option<IqrBounds> {
    if t.len() == 0 {
        None
    } else {
        Some(IqrBounds { q1: t[(t.len() / 4) as int], q3: t[(3 * t.len() / 4) as int] })
    }
}

/// `x` lies within `[q1 - 1.5 * iqr, q3 + 1.5 * iqr]`, both ends included.
pub open spec fn in_bounds(b: IqrBounds, x: int) -> bool {
    let iqr = b.q3 - b.q1;
    2 * b.q1 - 3 * iqr <= 2 * x && 2 * x <= 2 * b.q3 + 3 * iqr
}

/// An empty column has no bounds, and then no value is retained.
pub open spec fn retained(b: Option<IqrBounds>, x: int) -> bool {
    match b {
        Some(b) => in_bounds(b, x),
        None => false,
    }
}

/// The values of `s` that `b` retains, in their order.
pub open spec fn retained_values(s: Seq<u32>, b: Option<IqrBounds>) -> Seq<u32>
    decreases s.len(),
{
    if s.len() == 0 {
        s
    } else if retained(b, s.last() as int) {
        retained_values(s.drop_last(), b).push(s.last())
    } else {
        retained_values(s.drop_last(), b)
    }
}

impl IqrBounds {
    /// Whether `x` lies within the bounds.
    pub fn contains(&self, x: u32) -> (r: bool)
        ensures
            r == in_bounds(*self, x as int),
    {
        let q1 = self.q1 as i64;
        let q3 = self.q3 as i64;
        let iqr = q3 - q1;
        let v = x as i64;
        2 * q1 - 3 * iqr <= 2 * v && 2 * v <= 2 * q3 + 3 * iqr
    }
}

/// Whether `x` is retained by the bounds `b` (an absent bound retains nothing).
pub fn is_retained(b: &Option<IqrBounds>, x: u32) -> (r: bool)
    ensures
        r == retained(*b, x as int),
{
    match b {
        Some(b) => b.contains(x),
        None => false,
    }
}

/// The quartile bounds read off a column already in ascending order.
pub fn iqr_of_sorted_column(t: &Vec<u32>) -> (r: Option<IqrBounds>)
    ensures
        r == iqr_of_sorted(t@),
{
    let n = t.len();
    if n == 0 {
        return None;
    }
    let q = n / 4;
    let m = n % 4;
    let k = q * 3 + m * 3 / 4;
    assert(k == 3 * n / 4) by (nonlinear_arith)
        requires
            q == n / 4,
            m == n % 4,
            k == q * 3 + m * 3 / 4,
    ;
    Some(IqrBounds { q1: t[q], q3: t[k] })
}

/// The quartile bounds of a column in any order.
pub fn iqr_bounds(data: &[u32]) -> (r: Option<IqrBounds>)
    ensures
        exists|t: Seq<u32>| is_sorted_form(t, data@) && r == iqr_of_sorted(t),
{
    let mut sorted: Vec<u32> = Vec::new();
    let mut i: usize = 0;
    while i < data.len()
        invariant
            i <= data.len(),
            sorted@ == data@.take(i as int),
        decreases data.len() - i,
    {
        sorted.push(data[i]);
        i = i + 1;
        assert(sorted@ =~= data@.take(i as int));
    }
    assert(data@.take(data.len() as int) =~= data@);
    sort_ascending(&mut sorted);
    let r = iqr_of_sorted_column(&sorted);
    assert(is_sorted_form(sorted@, data@));
    r
}

/// Keeps the values of `data` that lie within its own quartile bounds, in
/// their order. An empty column stays empty.
pub fn remove_outliers_iqr(data: &[u32]) -> (r: Vec<u32>)
    ensures
        exists|t: Seq<u32>|
            is_sorted_form(t, data@) && r@ == retained_values(data@, iqr_of_sorted(t)),
{
    let b = iqr_bounds(data);
    let ghost t = choose|t: Seq<u32>| is_sorted_form(t, data@) && b == iqr_of_sorted(t);
    let mut out: Vec<u32> = Vec::new();
    let mut i: usize = 0;
    while i < data.len()
        invariant
            i <= data.len(),
            out@ == retained_values(data@.take(i as int), b),
        decreases data.len() - i,
    {
        assert(data@.take(i + 1).drop_last() =~= data@.take(i as int));
        if is_retained(&b, data[i]) {
            out.push(data[i]);
        }
        i = i + 1;
    }
    assert(data@.take(data.len() as int) =~= data@);
    out
}

/// Mean of the values, rounded to the nearest unit; `None` for no values.
pub fn mean_rounded(values: &[u32]) -> (r: Option<u128>)
    ensures
        values.len() == 0 ==> r is None,
        values.len() > 0 ==> r is Some && r.unwrap() == round_div(seq_sum(values@), values.len() as int),
{
    let n = values.len();
    if n == 0 {
        return None;
    }
    let mut sum: u128 = 0;
    let mut i: usize = 0;
    while i < n
        invariant
            i <= n,
            n == values.len(),
            sum == seq_sum(values@.take(i as int)),
            sum <= i * 0xffff_ffffu128,
        decreases n - i,
    {
        assert(values@.take(i + 1).drop_last() =~= values@.take(i as int));
        assert((i + 1) * 0xffff_ffffu128 == i * 0xffff_ffffu128 + 0xffff_ffffu128) by (nonlinear_arith);
        assert(i * 0xffff_ffffu128 <= 0xffff_ffff_ffff_ffffu128 * 0xffff_ffffu128) by (nonlinear_arith)
            requires i <= 0xffff_ffff_ffff_ffffu128;
        sum = sum + values[i] as u128;
        i = i + 1;
    }
    assert(values@.take(n as int) =~= values@);
    let n128 = n as u128;
    let m = (2 * sum + n128) / (2 * n128);
    assert(m == round_div(sum as int, n as int));
    Some(m)
}

/// Median by rank: the element at index `n / 2` of a column in ascending
/// order (for even `n` the upper middle one, not an interpolation).
pub fn median_of_sorted(sorted: &Vec<u32>) -> (r: u32)
    requires
        sorted.len() > 0,
    ensures
        r == sorted@[(sorted.len() / 2) as int],
{
    sorted[sorted.len() / 2]
}

/// Rounds an amount in cents to whole currency units, kept in cents.
pub fn round_to_unit(cents: u32) -> (r: u64)
    ensures
        r == round_div(cents as int, 100) * 100,
{
    ((2 * (cents as u64) + 100) / 200) * 100
}

} // verus!
