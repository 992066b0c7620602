//! Fixed-point monetary amounts.
//!
//! The ledger counts money in integer units of `10^-12` of the external
//! currency unit: small enough that every wire amount of interest is exact,
//! and plain enough that all balance arithmetic is integer arithmetic.
use vstd::prelude::*;

use crate::numfmt::{
    all_dec_digits, dec_value, is_dec_digit, lemma_dec_value_nonneg, lemma_dec_value_prefix,
    strip_leading_plus,
};

verus! {

/// How many decimal digits one external unit is subdivided into.
pub const AMOUNT_FRAC_DIGITS: u64 = 12;

/// Units per external whole unit: `10 ^ AMOUNT_FRAC_DIGITS`.
pub const AMOUNT_SCALE: u128 = 1_000_000_000_000;

pub open spec fn pow10(e: int) -> int
    recommends
        e >= 0,
    decreases e,
{
    if e <= 0 {
        1
    } else {
        10 * pow10(e - 1)
    }
}

pub proof fn lemma_pow10_positive(e: int)
    ensures
        pow10(e) >= 1,
    decreases e,
{
    if e > 0 {
        lemma_pow10_positive(e - 1);
    }
}

pub proof fn lemma_amount_scale()
    ensures
        AMOUNT_SCALE == pow10(AMOUNT_FRAC_DIGITS as int),
{
    assert(AMOUNT_SCALE == pow10(12)) by {
        reveal_with_fuel(pow10, 13);
    }
}

/// Index of the first `.` in `s`, or `s.len()` when there is none.
pub open spec fn first_dot(s: Seq<char>) -> int
    decreases s.len(),
{
    if s.len() == 0 {
        0
    } else if s[0] == '.' {
        0
    } else {
        1 + first_dot(s.drop_first())
    }
}

pub proof fn lemma_first_dot(s: Seq<char>)
    ensures
        0 <= first_dot(s) <= s.len(),
        first_dot(s) < s.len() ==> s[first_dot(s)] == '.',
        forall|i: int| 0 <= i < first_dot(s) ==> s[i] != '.',
    decreases s.len(),
{
    if s.len() > 0 && s[0] != '.' {
        lemma_first_dot(s.drop_first());
        assert forall|i: int| 0 <= i < first_dot(s) implies s[i] != '.' by {
            if i >= 1 {
                assert(s[i] == s.drop_first()[i - 1]);
            }
        }
    }
}

/// The amount, in `10^-12` units, written by a decimal string: an optional
/// `+`, one or more integer digits, then optionally a `.` and one to twelve
/// fractional digits; the value must fit in a `u128` of units.
pub open spec fn parse_amount_spec(s: Seq<char>) -> Option<u128> {
    let d = strip_leading_plus(s);
    let fd = first_dot(d);
    if fd == d.len() {
        if d.len() > 0 && all_dec_digits(d) && dec_value(d) * AMOUNT_SCALE <= u128::MAX {
            Some((dec_value(d) * AMOUNT_SCALE) as u128)
        } else {
            None
        }
    } else {
        let ip = d.take(fd);
        let fp = d.subrange(fd + 1, d.len() as int);
        let units = dec_value(ip) * AMOUNT_SCALE + dec_value(fp) * pow10(
            AMOUNT_FRAC_DIGITS - fp.len(),
        );
        if ip.len() > 0 && 0 < fp.len() <= AMOUNT_FRAC_DIGITS && all_dec_digits(ip)
            && all_dec_digits(fp) && units <= u128::MAX {
            Some(units as u128)
        } else {
            None
        }
    }
}

/// `10^e` for exponents up to the fractional width.
fn pow10_u128(e: u64) -> (r: u128)
    requires
        e <= AMOUNT_FRAC_DIGITS,
    ensures
        r == pow10(e as int),
{
    let mut r: u128 = 1;
    let mut k: u64 = 0;
    while k < e
        invariant
            0 <= k <= e,
            e <= AMOUNT_FRAC_DIGITS,
            r == pow10(k as int),
            r <= AMOUNT_SCALE,
        decreases e - k,
    {
        proof {
            lemma_amount_scale();
            assert(pow10(k + 1) <= pow10(12)) by {
                lemma_pow10_monotone(k + 1 as int, 12);
            }
        }
        r = r * 10;
        k = k + 1;
    }
    r
}

pub proof fn lemma_pow10_monotone(a: int, b: int)
    requires
        0 <= a <= b,
    ensures
        pow10(a) <= pow10(b),
    decreases b,
{
    if a < b {
        lemma_pow10_monotone(a, b - 1);
        lemma_pow10_positive(b - 1);
    }
}

pub proof fn lemma_pow10_add(a: int, b: int)
    requires
        a >= 0,
        b >= 0,
    ensures
        pow10(a) * pow10(b) == pow10(a + b),
    decreases a,
{
    if a == 0 {
        assert(pow10(0) * pow10(b) == pow10(b));
    } else {
        lemma_pow10_add(a - 1, b);
        assert(pow10(a) * pow10(b) == 10 * (pow10(a - 1) * pow10(b))) by (nonlinear_arith)
            requires
                pow10(a) == 10 * pow10(a - 1),
        ;
    }
}

/// A digit string's value is below `10^len`.
pub proof fn lemma_dec_value_upper(s: Seq<char>)
    requires
        all_dec_digits(s),
    ensures
        dec_value(s) < pow10(s.len() as int),
    decreases s.len(),
{
    if s.len() == 0 {
    } else {
        assert(all_dec_digits(s.drop_last())) by {
            assert(forall|i: int|
                0 <= i < s.len() - 1 ==> s.drop_last()[i] == #[trigger] s[i]);
        }
        lemma_dec_value_upper(s.drop_last());
        let v = dec_value(s.drop_last());
        let p = pow10(s.len() - 1);
        assert(is_dec_digit(s.last()));
        assert(v * 10 + dec_digit_val(s.last()) < p * 10) by (nonlinear_arith)
            requires
                v < p,
                dec_digit_val(s.last()) <= 9,
        ;
    }
}

/// Total quote units moved by a trade of `qty` lots at `price`.
pub open spec fn quote_units(price: int, qty: int) -> int {
    price * qty * AMOUNT_SCALE
}

/// Ledger units for `qty` lots of the base asset.
pub open spec fn base_units(qty: int) -> int {
    qty * AMOUNT_SCALE
}

/// Computes `price * qty * AMOUNT_SCALE`, or nothing when it does not fit.
pub fn quote_units_checked(price: u64, qty: u64) -> (r: Option<u128>)
    ensures
        r is Some <==> quote_units(price as int, qty as int) <= u128::MAX,
        r is Some ==> r->0 == quote_units(price as int, qty as int),
{
    proof {
        vstd::arithmetic::mul::lemma_mul_upper_bound(
            price as int,
            u64::MAX as int,
            qty as int,
            u64::MAX as int,
        );
        vstd::arithmetic::mul::lemma_mul_nonnegative(price as int, qty as int);
    }
    let pq: u128 = (price as u128) * (qty as u128);
    match pq.checked_mul(AMOUNT_SCALE) {
        Some(v) => Some(v),
        None => None,
    }
}

/// Ledger units for `qty` lots of the base asset; always fits.
pub fn base_units_exec(qty: u64) -> (r: u128)
    ensures
        r == base_units(qty as int),
{
    proof {
        vstd::arithmetic::mul::lemma_mul_upper_bound(
            qty as int,
            u64::MAX as int,
            AMOUNT_SCALE as int,
            AMOUNT_SCALE as int,
        );
        vstd::arithmetic::mul::lemma_mul_nonnegative(qty as int, AMOUNT_SCALE as int);
    }
    (qty as u128) * AMOUNT_SCALE
}

/// Parses the digits of `b` between `lo` and `hi` as one number.
fn parse_digit_range(b: &[u8], lo: usize, hi: usize, Ghost(chars): Ghost<Seq<char>>) -> (r: Option<
    u128,
>)
    requires
        vstd::utf8::is_ascii_chars(chars),
        b@.len() == chars.len(),
        forall|k: int| 0 <= k < chars.len() ==> b@[k] == (chars[k] as u8),
        lo <= hi <= b@.len(),
    ensures
        ({
            let d = chars.subrange(lo as int, hi as int);
            match r {
                Some(v) => all_dec_digits(d) && dec_value(d) == v,
                None => !all_dec_digits(d) || dec_value(d) > u128::MAX,
            }
        }),
{
    let ghost d = chars.subrange(lo as int, hi as int);
    let mut v: u128 = 0;
    let mut i: usize = lo;
    while i < hi
        invariant
            lo <= i <= hi <= b@.len(),
            b@.len() == chars.len(),
            d == chars.subrange(lo as int, hi as int),
            vstd::utf8::is_ascii_chars(chars),
            forall|k: int| 0 <= k < chars.len() ==> b@[k] == (chars[k] as u8),
            all_dec_digits(d.take(i - lo)),
            dec_value(d.take(i - lo)) == v,
        decreases hi - i,
    {
        let c = b[i];
        proof {
            let cc = chars[i as int];
            assert(d[i - lo] == cc);
            assert('\0' <= cc && cc <= '\u{7f}');
            assert((cc as u8) == c);
        }
        if c < 48 || c > 57 {
            proof {
                assert(!is_dec_digit(d[i - lo]));
                assert(0 <= i - lo < d.len());
                assert(!all_dec_digits(d));
            }
            return None;
        }
        let digit = (c - 48) as u128;
        proof {
            assert(is_dec_digit(chars[i as int]));
            assert(dec_digit_val(chars[i as int]) == digit);
        }
        let next = match v.checked_mul(10) {
            Some(m) => m.checked_add(digit),
            None => None,
        };
        match next {
            Some(nv) => {
                proof {
                    let t = d.take(i - lo + 1);
                    assert(t.drop_last() =~= d.take(i - lo));
                    assert(t.last() == d[i - lo]);
                    assert(all_dec_digits(t)) by {
                        assert(forall|k: int|
                            0 <= k < t.len() - 1 ==> t[k] == #[trigger] d.take(i - lo)[k]);
                    }
                    assert(dec_value(t) == nv);
                }
                v = nv;
            },
            None => {
                proof {
                    let t = d.take(i - lo + 1);
                    assert(t.drop_last() =~= d.take(i - lo));
                    assert(t.last() == d[i - lo]);
                    assert(all_dec_digits(t)) by {
                        assert(forall|k: int|
                            0 <= k < t.len() - 1 ==> t[k] == #[trigger] d.take(i - lo)[k]);
                    }
                    assert(dec_value(t) == v * 10 + digit);
                    assert(dec_value(t) > u128::MAX);
                    if all_dec_digits(d) {
                        lemma_dec_value_prefix(d, i - lo + 1);
                        assert(dec_value(d) > u128::MAX);
                    }
                }
                return None;
            },
        }
        i = i + 1;
    }
    proof {
        assert(d.take(i - lo) =~= d);
    }
    Some(v)
}

use crate::numfmt::dec_digit_val;

/// Parses a decimal amount string into `10^-12` units, accepting exactly
/// the grammar of [`parse_amount_spec`].
pub fn parse_amount(s: &str) -> (r: Option<u128>)
    ensures
        r == parse_amount_spec(s@),
{
    broadcast use vstd::string::is_ascii_spec_bytes;

    if !s.is_ascii() {
        proof {
            lemma_non_ascii_amount(s@);
        }
        return None;
    }
    let b = s.as_bytes();
    let ghost chars = s@;
    let n: usize = b.len();
    proof {
        assert(b@.len() == chars.len());
    }
    if n == 0 {
        return None;
    }
    let start: usize = if b[0] == 43 {
        1
    } else {
        0
    };
    let ghost d = strip_leading_plus(chars);
    proof {
        assert(vstd::utf8::is_ascii_chars(chars));
        assert('\0' <= chars[0] && chars[0] <= '\u{7f}');
        if b@[0] == 43 {
            assert(chars[0] == '+');
            assert(d =~= chars.drop_first());
        } else {
            assert(chars[0] != '+');
            assert(d =~= chars);
        }
        assert(forall|i: int| 0 <= i < d.len() ==> d[i] == chars[i + start]);
    }
    if start == n {
        proof {
            assert(d.len() == 0);
            assert(first_dot(d) == 0);
        }
        return None;
    }
    // find the first dot
    let mut dot: usize = n;
    let mut j: usize = start;
    while j < n && dot == n
        invariant
            start <= j <= n,
            chars == s@,
            d == strip_leading_plus(chars),
            n == chars.len(),
            b@.len() == chars.len(),
            vstd::utf8::is_ascii_chars(chars),
            forall|k: int| 0 <= k < chars.len() ==> b@[k] == (chars[k] as u8),
            d.len() == n - start,
            forall|k: int| 0 <= k < d.len() ==> d[k] == chars[k + start],
            dot == n || (start <= dot < n && j == dot && chars[dot as int] == '.'),
            forall|k: int| start <= k < j ==> chars[k] != '.',
        decreases n - j + (if dot == n { 1int } else { 0int }),
    {
        proof {
            assert('\0' <= chars[j as int] && chars[j as int] <= '\u{7f}');
        }
        if b[j] == 46 {
            proof {
                assert(chars[j as int] == '.');
            }
            dot = j;
        } else {
            proof {
                assert(chars[j as int] != '.');
            }
            j = j + 1;
        }
    }
    let ghost fd = first_dot(d);
    proof {
        lemma_first_dot(d);
        if dot < n {
            lemma_first_dot_at(d, dot - start);
            assert(fd == dot - start);
        } else {
            assert(forall|k: int| 0 <= k < d.len() ==> d[k] != '.');
            lemma_first_dot_at(d, d.len() as int);
            assert(fd == d.len());
        }
    }
    if dot == n {
        // integer amount
        let ip = parse_digit_range(b, start, n, Ghost(chars));
        proof {
            assert(chars.subrange(start as int, n as int) =~= d);
            assert(d.take(fd) =~= d);
        }
        match ip {
            Some(v) => {
                proof {
                    if dec_value(d) * AMOUNT_SCALE > u128::MAX {
                    }
                }
                match v.checked_mul(AMOUNT_SCALE) {
                    Some(units) => Some(units),
                    None => None,
                }
            },
            None => {
                proof {
                    if all_dec_digits(d) {
                        lemma_dec_value_nonneg(d);
                        assert(dec_value(d) > u128::MAX);
                        assert(dec_value(d) * AMOUNT_SCALE >= dec_value(d)) by (nonlinear_arith)
                            requires
                                dec_value(d) >= 0,
                                AMOUNT_SCALE >= 1,
                        ;
                    }
                }
                None
            },
        }
    } else {
        let ghost ip_g = d.take(fd);
        let ghost fp_g = d.subrange(fd + 1, d.len() as int);
        proof {
            assert(chars.subrange(start as int, dot as int) =~= ip_g);
            assert(chars.subrange(dot + 1 as int, n as int) =~= fp_g);
        }
        if dot == start {
            // empty integer part
            return None;
        }
        if dot + 1 == n {
            // empty fraction
            return None;
        }
        let fp_len: usize = n - (dot + 1);
        if fp_len > 12 {
            return None;
        }
        let ip = match parse_digit_range(b, start, dot, Ghost(chars)) {
            Some(v) => v,
            None => {
                proof {
                    if all_dec_digits(ip_g) && all_dec_digits(fp_g) {
                        lemma_dec_value_nonneg_units(ip_g, fp_g);
                    }
                }
                return None;
            },
        };
        let fp = match parse_digit_range(b, dot + 1, n, Ghost(chars)) {
            Some(v) => v,
            None => {
                proof {
                    if all_dec_digits(fp_g) {
                        lemma_dec_value_upper(fp_g);
                        assert(pow10(fp_g.len() as int) <= pow10(12)) by {
                            lemma_pow10_monotone(fp_g.len() as int, 12);
                        }
                        assert(dec_value(fp_g) < pow10(12));
                        assert(pow10(12) == AMOUNT_SCALE as int) by {
                            reveal_with_fuel(pow10, 13);
                        }
                        assert(false);
                    }
                }
                return None;
            },
        };
        // frac value scaled to full width
        proof {
            assert(fp_g.len() == fp_len);
            lemma_dec_value_upper(fp_g);
            lemma_dec_value_nonneg(fp_g);
            lemma_dec_value_nonneg(ip_g);
            lemma_pow10_positive(AMOUNT_FRAC_DIGITS - fp_len);
            lemma_pow10_add(fp_len as int, AMOUNT_FRAC_DIGITS - fp_len);
            lemma_amount_scale();
            assert(dec_value(fp_g) * pow10(AMOUNT_FRAC_DIGITS - fp_len) < pow10(fp_len as int)
                * pow10(AMOUNT_FRAC_DIGITS - fp_len)) by (nonlinear_arith)
                requires
                    dec_value(fp_g) < pow10(fp_len as int),
                    pow10(AMOUNT_FRAC_DIGITS - fp_len) >= 1,
            ;
            vstd::arithmetic::mul::lemma_mul_nonnegative(
                dec_value(fp_g),
                pow10(AMOUNT_FRAC_DIGITS - fp_len),
            );
        }
        let frac: u128 = fp * pow10_u128((12 - fp_len) as u64);
        match ip.checked_mul(AMOUNT_SCALE) {
            Some(scaled) => {
                match scaled.checked_add(frac) {
                    Some(units) => Some(units),
                    None => None,
                }
            },
            None => {
                proof {
                    assert(dec_value(ip_g) * AMOUNT_SCALE > u128::MAX);
                }
                None
            },
        }
    }
}

/// With a non-negative fraction, the whole amount is at least the scaled
/// integer part, which is at least the integer part itself.
proof fn lemma_dec_value_nonneg_units(ip: Seq<char>, fp: Seq<char>)
    requires
        all_dec_digits(ip),
        all_dec_digits(fp),
    ensures
        dec_value(ip) * AMOUNT_SCALE + dec_value(fp) * pow10(AMOUNT_FRAC_DIGITS - fp.len())
            >= dec_value(ip),
{
    lemma_dec_value_nonneg(ip);
    lemma_dec_value_nonneg(fp);
    lemma_pow10_positive(AMOUNT_FRAC_DIGITS - fp.len());
    assert(dec_value(ip) * AMOUNT_SCALE >= dec_value(ip)) by (nonlinear_arith)
        requires
            dec_value(ip) >= 0,
            AMOUNT_SCALE >= 1,
    ;
    vstd::arithmetic::mul::lemma_mul_nonnegative(
        dec_value(fp),
        pow10(AMOUNT_FRAC_DIGITS - fp.len()),
    );
}

/// The exact index where the first dot stands.
proof fn lemma_first_dot_at(s: Seq<char>, k: int)
    requires
        0 <= k <= s.len(),
        forall|i: int| 0 <= i < k ==> s[i] != '.',
        k < s.len() ==> s[k] == '.',
    ensures
        first_dot(s) == k,
    decreases s.len(),
{
    if s.len() > 0 && k > 0 {
        assert(forall|i: int|
            0 <= i < k - 1 ==> s.drop_first()[i] == #[trigger] s[i + 1]);
        lemma_first_dot_at(s.drop_first(), k - 1);
    }
}

/// A string that is not entirely ASCII is no amount: the non-ASCII
/// character is neither a sign, a dot, nor a digit.
proof fn lemma_non_ascii_amount(s: Seq<char>)
    requires
        !vstd::utf8::is_ascii_chars(s),
    ensures
        parse_amount_spec(s) is None,
{
    assert(exists|i: int| 0 <= i < s.len() && !('\0' <= #[trigger] s[i] <= '\u{7f}'));
    let i = choose|i: int| 0 <= i < s.len() && !('\0' <= #[trigger] s[i] <= '\u{7f}');
    let bad = s[i];
    assert(bad != '+');
    assert(bad != '.');
    assert(!is_dec_digit(bad));
    let d = strip_leading_plus(s);
    let j: int = if s.len() > 0 && s[0] == '+' {
        i - 1
    } else {
        i
    };
    assert(0 <= j < d.len() && d[j] == bad);
    let fd = first_dot(d);
    lemma_first_dot(d);
    if fd == d.len() {
        assert(!all_dec_digits(d));
    } else {
        let ip = d.take(fd);
        let fp = d.subrange(fd + 1, d.len() as int);
        if j < fd {
            assert(ip[j] == bad);
            assert(!all_dec_digits(ip));
        } else if j == fd {
            assert(d[fd] == '.');
            assert(false);
        } else {
            assert(fp[j - fd - 1] == bad);
            assert(!all_dec_digits(fp));
        }
    }
}

} // verus!

