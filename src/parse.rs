use vstd::prelude::*;
use vstd::string::StringSliceAdditionalSpecFns;

verus! {

/// `c` is an ASCII decimal digit.
pub open spec fn is_digit(c: u8) -> bool {
    48 <= c <= 57
}

/// Every byte of `s` is a decimal digit.
pub open spec fn all_digits(s: Seq<u8>) -> bool {
    forall|i: int| 0 <= i < s.len() ==> is_digit(#[trigger] s[i])
}

/// The number that the digits of `s` spell (0 for none).
pub open spec fn digits_value(s: Seq<u8>) -> int
    decreases s.len(),
{
    if s.len() == 0 {
        0
    } else {
        digits_value(s.drop_last()) * 10 + (s.last() - 48)
    }
}

/// `s` without its leading `$` signs.
pub open spec fn strip_dollars(s: Seq<u8>) -> Seq<u8>
    decreases s.len(),
{
    if s.len() > 0 && s[0] == 36 {
        strip_dollars(s.subrange(1, s.len() as int))
    } else {
        s
    }
}

/// `s` without its commas.
pub open spec fn drop_commas(s: Seq<u8>) -> Seq<u8>
    decreases s.len(),
{
    if s.len() == 0 {
        s
    } else if s.last() == 44 {
        drop_commas(s.drop_last())
    } else {
        drop_commas(s.drop_last()).push(s.last())
    }
}

/// Index of the first `.` in `s`, or its length when there is none.
pub open spec fn dot_index(s: Seq<u8>) -> int
    decreases s.len(),
{
    if s.len() == 0 {
        0
    } else if s[0] == 46 {
        0
    } else {
        1 + dot_index(s.subrange(1, s.len() as int))
    }
}

/// A plain decimal (digits, then optionally `.` and at most two digits, with
/// at least one digit in all) as a count of hundredths, when that fits in
/// `u32`.
pub open spec fn hundredths_of(s: Seq<u8>) -> Option<u32> {
    let k = dot_index(s);
    let whole = s.subrange(0, k);
    let frac = if k < s.len() { s.subrange(k + 1, s.len() as int) } else { Seq::empty() };
    let v = digits_value(whole) * 100 + if frac.len() == 1 { digits_value(frac) * 10 } else { digits_value(frac) };
    if all_digits(whole) && all_digits(frac) && frac.len() <= 2 && whole.len() + frac.len() > 0 && v
        <= u32::MAX {
        Some(v as u32)
    } else {
        None
    }
}

/// A currency amount such as `$1,234.50` in cents: leading `$` signs and all
/// commas removed, then read as a plain decimal.
pub open spec fn cents_of(s: Seq<u8>) -> Option<u32> {
    hundredths_of(drop_commas(strip_dollars(s)))
}

proof fn lemma_dot_index(s: Seq<u8>)
    ensures
        0 <= dot_index(s) <= s.len(),
        forall|i: int| 0 <= i < dot_index(s) ==> s[i] != 46,
        dot_index(s) < s.len() ==> s[dot_index(s)] == 46,
    decreases s.len(),
{
    if s.len() > 0 && s[0] != 46 {
        let t = s.subrange(1, s.len() as int);
        lemma_dot_index(t);
        assert forall|i: int| 0 <= i < dot_index(s) implies s[i] != 46 by {
            if i > 0 {
                assert(s[i] == t[i - 1]);
            }
        }
    }
}

proof fn lemma_digits_monotone(s: Seq<u8>, n: int)
    requires
        0 <= n <= s.len(),
        all_digits(s),
    ensures
        0 <= digits_value(s.subrange(0, n)) <= digits_value(s),
    decreases s.len(),
{
    if s.len() > 0 {
        if n < s.len() {
            assert(s.drop_last().subrange(0, n) =~= s.subrange(0, n));
            lemma_digits_monotone(s.drop_last(), n);
        } else {
            assert(s.subrange(0, n) =~= s);
            lemma_digits_monotone(s.drop_last(), n - 1);
            assert(s.drop_last().subrange(0, n - 1) =~= s.drop_last());
        }
    }
}

/// The value of the digits `b[lo..hi]`, or `None` when one is not a digit or
/// the value exceeds `cap`.
fn digits_capped(b: &[u8], lo: usize, hi: usize, cap: u32) -> (r: Option<u32>)
    requires
        lo <= hi <= b.len(),
    ensures
        r is Some <==> all_digits(b@.subrange(lo as int, hi as int)) && digits_value(
            b@.subrange(lo as int, hi as int),
        ) <= cap,
        r is Some ==> r.unwrap() == digits_value(b@.subrange(lo as int, hi as int)),
{
    let ghost s = b@.subrange(lo as int, hi as int);
    let mut v: u64 = 0;
    let mut i: usize = lo;
    while i < hi
        invariant
            lo <= i <= hi <= b.len(),
            s == b@.subrange(lo as int, hi as int),
            all_digits(b@.subrange(lo as int, i as int)),
            v == digits_value(b@.subrange(lo as int, i as int)),
            v <= cap,
        decreases hi - i,
    {
        assert(b@.subrange(lo as int, i + 1).drop_last() =~= b@.subrange(lo as int, i as int));
        let c = b[i];
        if c < 48 || c > 57 {
            assert(s[i - lo] == c);
            return None;
        }
        let nv = v * 10 + (c - 48) as u64;
        if nv > cap as u64 {
            proof {
                if all_digits(s) {
                    lemma_digits_monotone(s, i + 1 - lo);
                    assert(s.subrange(0, i + 1 - lo) =~= b@.subrange(lo as int, i + 1));
                }
            }
            return None;
        }
        v = nv;
        i = i + 1;
    }
    assert(b@.subrange(lo as int, hi as int) =~= b@.subrange(lo as int, i as int));
    Some(v as u32)
}

/// The position of the first `.` in `b`, or its length.
fn find_dot(b: &[u8]) -> (k: usize)
    ensures
        k == dot_index(b@),
{
    let mut k: usize = 0;
    while k < b.len() && b[k] != 46
        invariant
            k <= b.len(),
            forall|i: int| 0 <= i < k ==> b@[i] != 46,
        decreases b.len() - k,
    {
        k = k + 1;
    }
    proof {
        lemma_dot_index(b@);
        let d = dot_index(b@);
        if (k as int) < d {
            assert(b@[k as int] == 46);
        }
        if d < k {
            assert(b@[d] == 46);
        }
    }
    k
}

/// Reads a plain decimal (`12`, `12.5`, `12.50`, `.5`) as hundredths.
pub fn parse_hundredths(b: &[u8]) -> (r: Option<u32>)
    ensures
        r == hundredths_of(b@),
{
    let n = b.len();
    let k = find_dot(b);
    proof { lemma_dot_index(b@); }
    let ghost whole = b@.subrange(0, k as int);
    let ghost frac = if k < n { b@.subrange(k + 1, n as int) } else { Seq::<u8>::empty() };
    let frac_lo: usize = if k < n { k + 1 } else { n };
    assert(frac =~= b@.subrange(frac_lo as int, n as int));
    let frac_len = n - frac_lo;
    if frac_len > 2 || k + frac_len == 0 {
        return None;
    }
    let w = match digits_capped(b, 0, k, 42949672) {
        Some(w) => w,
        None => {
            proof {
                if all_digits(whole) {
                    assert(digits_value(whole) >= 42949673);
                    if all_digits(frac) {
                        lemma_digits_nonneg(frac);
                    }
                }
            }
            return None;
        },
    };
    let f = match digits_capped(b, frac_lo, n, 99) {
        Some(f) => f,
        None => {
            proof {
                if all_digits(frac) {
                    assert(frac.len() <= 2);
                    lemma_digits_bound(frac);
                }
            }
            return None;
        },
    };
    let scaled: u64 = if frac_len == 1 { (f as u64) * 10 } else { f as u64 };
    let v: u64 = (w as u64) * 100 + scaled;
    if v > 0xffff_ffff {
        return None;
    }
    Some(v as u32)
}

proof fn lemma_digits_bound(s: Seq<u8>)
    requires
        all_digits(s),
        s.len() <= 2,
    ensures
        0 <= digits_value(s) <= 99,
{
    if s.len() == 1 {
        assert(digits_value(s.drop_last()) == 0);
        assert(is_digit(s[0]));
    } else if s.len() == 2 {
        let d = s.drop_last();
        assert(digits_value(d.drop_last()) == 0);
        assert(d.last() == s[0]);
        assert(is_digit(s[0]) && is_digit(s[1]));
        assert(digits_value(d) == s[0] - 48);
        assert(digits_value(s) == digits_value(d) * 10 + (s[1] - 48));
    }
}

proof fn lemma_digits_nonneg(s: Seq<u8>)
    requires
        all_digits(s),
    ensures
        digits_value(s) >= 0,
    decreases s.len(),
{
    if s.len() > 0 {
        assert(all_digits(s.drop_last()));
        lemma_digits_nonneg(s.drop_last());
        assert(is_digit(s[s.len() - 1]));
    }
}

/// Reads a currency amount such as `$1,234.50` as cents: leading `$` signs
/// and all commas are dropped, the rest is read as a plain decimal.
pub fn clean_price(price_str: &str) -> (r: Option<u32>)
    ensures
        r == cents_of(price_str.spec_bytes()),
{
    let b = price_str.as_bytes();
    let n = b.len();
    let mut i: usize = 0;
    assert(b@.subrange(0, n as int) =~= b@);
    while i < n && b[i] == 36
        invariant
            i <= n,
            n == b.len(),
            strip_dollars(b@) == strip_dollars(b@.subrange(i as int, n as int)),
        decreases n - i,
    {
        assert(b@.subrange(i as int, n as int).subrange(1, n - i) =~= b@.subrange(i + 1, n as int));
        i = i + 1;
    }
    let ghost rest = b@.subrange(i as int, n as int);
    assert(strip_dollars(rest) == rest);
    let mut out: Vec<u8> = Vec::new();
    let mut j: usize = i;
    while j < n
        invariant
            i <= j <= n,
            n == b.len(),
            out@ == drop_commas(b@.subrange(i as int, j as int)),
        decreases n - j,
    {
        assert(b@.subrange(i as int, j + 1).drop_last() =~= b@.subrange(i as int, j as int));
        if b[j] != 44 {
            out.push(b[j]);
        }
        j = j + 1;
    }
    parse_hundredths(out.as_slice())
}

/// A date written `YYYY-MM-DD` as the number `YYYYMMDD`.
pub open spec fn date_code_of(s: Seq<u8>) -> Option<u32> {
    if s.len() == 10 && s[4] == 45 && s[7] == 45 && all_digits(s.subrange(0, 4)) && all_digits(
        s.subrange(5, 7),
    ) && all_digits(s.subrange(8, 10)) {
        Some(
            (digits_value(s.subrange(0, 4)) * 10000 + digits_value(s.subrange(5, 7)) * 100
                + digits_value(s.subrange(8, 10))) as u32,
        )
    } else {
        None
    }
}

proof fn lemma_four_digits(s: Seq<u8>)
    requires
        all_digits(s),
        s.len() <= 4,
    ensures
        0 <= digits_value(s) <= 9999,
    decreases s.len(),
{
    if s.len() > 0 {
        assert(all_digits(s.drop_last()));
        lemma_four_digits_len(s.drop_last());
    }
}

proof fn lemma_four_digits_len(s: Seq<u8>)
    requires
        all_digits(s),
        s.len() <= 3,
    ensures
        0 <= digits_value(s) <= 999,
    decreases s.len(),
{
    if s.len() > 0 {
        assert(all_digits(s.drop_last()));
        lemma_digits_bound(s.drop_last());
    }
}

/// Reads a `YYYY-MM-DD` date as the number `YYYYMMDD`.
pub fn parse_date(date: &str) -> (r: Option<u32>)
    ensures
        r == date_code_of(date.spec_bytes()),
{
    let b = date.as_bytes();
    if b.len() != 10 || b[4] != 45 || b[7] != 45 {
        return None;
    }
    let y = match digits_capped(b, 0, 4, 9999) {
        Some(v) => v,
        None => {
            proof {
                if all_digits(b@.subrange(0, 4)) {
                    lemma_four_digits(b@.subrange(0, 4));
                }
            }
            return None;
        },
    };
    let m = match digits_capped(b, 5, 7, 99) {
        Some(v) => v,
        None => {
            proof {
                if all_digits(b@.subrange(5, 7)) {
                    lemma_digits_bound(b@.subrange(5, 7));
                }
            }
            return None;
        },
    };
    let d = match digits_capped(b, 8, 10, 99) {
        Some(v) => v,
        None => {
            proof {
                if all_digits(b@.subrange(8, 10)) {
                    lemma_digits_bound(b@.subrange(8, 10));
                }
            }
            return None;
        },
    };
    Some(y * 10000 + m * 100 + d)
}

} // verus!
