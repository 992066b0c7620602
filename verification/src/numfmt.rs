//! Decimal and hexadecimal rendering and parsing of the integers that travel
//! on the wire: prices, quantities, trade ids, and the hex order ids.
use vstd::prelude::*;
use vstd::string::{StringExecFns, StringSliceAdditionalSpecFns};

verus! {

/// The character for one digit value below ten.
pub open spec fn dec_digit_char(d: int) -> char
    recommends
        0 <= d < 10,
{
    ((48 + d) as u8) as char
}

/// The character for one hexadecimal digit value: `0-9` then `a-f`.
pub open spec fn hex_digit_char(d: int) -> char
    recommends
        0 <= d < 16,
{
    if d < 10 {
        ((48 + d) as u8) as char
    } else {
        ((87 + d) as u8) as char
    }
}

/// Decimal rendering of a non-negative integer, without leading zeros
/// (a single `0` for zero).
pub open spec fn dec_chars(n: int) -> Seq<char>
    recommends
        n >= 0,
    decreases n,
{
    if n < 10 {
        seq![dec_digit_char(n)]
    } else {
        dec_chars(n / 10).push(dec_digit_char(n % 10))
    }
}

/// Hexadecimal rendering of a non-negative integer, lowercase, without
/// leading zeros (a single `0` for zero).
pub open spec fn hex_chars(n: int) -> Seq<char>
    recommends
        n >= 0,
    decreases n,
{
    if n < 16 {
        seq![hex_digit_char(n)]
    } else {
        hex_chars(n / 16).push(hex_digit_char(n % 16))
    }
}

pub open spec fn is_dec_digit(c: char) -> bool {
    '0' <= c && c <= '9'
}

pub open spec fn dec_digit_val(c: char) -> int
    recommends
        is_dec_digit(c),
{
    (c as u32) - 48
}

pub open spec fn all_dec_digits(s: Seq<char>) -> bool {
    forall|i: int| 0 <= i < s.len() ==> is_dec_digit(#[trigger] s[i])
}

/// The numeric value of a string of decimal digits; most significant first.
pub open spec fn dec_value(s: Seq<char>) -> int
    decreases s.len(),
{
    if s.len() == 0 {
        0
    } else {
        dec_value(s.drop_last()) * 10 + dec_digit_val(s.last())
    }
}

/// The digit string with an optional single leading `+` removed, as
/// `u64::from_str` accepts.
pub open spec fn strip_leading_plus(s: Seq<char>) -> Seq<char> {
    if s.len() > 0 && s[0] == '+' {
        s.drop_first()
    } else {
        s
    }
}

/// What `str::parse::<u64>` returns: an optional `+`, then one or more
/// decimal digits whose value fits in a `u64`.
pub open spec fn parse_u64_spec(s: Seq<char>) -> Option<u64> {
    let d = strip_leading_plus(s);
    if d.len() > 0 && all_dec_digits(d) && dec_value(d) <= u64::MAX {
        Some(dec_value(d) as u64)
    } else {
        None
    }
}

pub proof fn lemma_dec_value_nonneg(s: Seq<char>)
    requires
        all_dec_digits(s),
    ensures
        dec_value(s) >= 0,
    decreases s.len(),
{
    if s.len() > 0 {
        assert(all_dec_digits(s.drop_last())) by {
            assert(forall|i: int|
                0 <= i < s.len() - 1 ==> s.drop_last()[i] == #[trigger] s[i]);
        }
        lemma_dec_value_nonneg(s.drop_last());
    }
}

/// The value of a proper prefix never exceeds the value of the whole
/// digit string.
pub proof fn lemma_dec_value_prefix(s: Seq<char>, j: int)
    requires
        all_dec_digits(s),
        0 <= j <= s.len(),
    ensures
        dec_value(s.take(j)) <= dec_value(s),
    decreases s.len() - j,
{
    if j < s.len() {
        lemma_dec_value_prefix(s, j + 1);
        let t = s.take(j + 1);
        assert(t.drop_last() =~= s.take(j));
        assert(all_dec_digits(s.take(j))) by {
            assert(forall|i: int|
                0 <= i < j ==> s.take(j)[i] == #[trigger] s[i]);
        }
        lemma_dec_value_nonneg(s.take(j));
        assert(dec_value(t) == dec_value(s.take(j)) * 10 + dec_digit_val(t.last()));
        assert(is_dec_digit(t.last()));
        assert(dec_value(s.take(j)) <= dec_value(t)) by (nonlinear_arith)
            requires
                dec_value(t) == dec_value(s.take(j)) * 10 + dec_digit_val(t.last()),
                dec_value(s.take(j)) >= 0,
                dec_digit_val(t.last()) >= 0,
        ;
    } else {
        assert(s.take(j) =~= s);
    }
}

/// One decimal digit as a string slice.
fn dec_digit_str(d: u64) -> (r: &'static str)
    requires
        d < 10,
    ensures
        r@ =~= seq![dec_digit_char(d as int)],
{
    proof {
        reveal_strlit("0");
        reveal_strlit("1");
        reveal_strlit("2");
        reveal_strlit("3");
        reveal_strlit("4");
        reveal_strlit("5");
        reveal_strlit("6");
        reveal_strlit("7");
        reveal_strlit("8");
        reveal_strlit("9");
    }
    match d {
        0 => "0",
        1 => "1",
        2 => "2",
        3 => "3",
        4 => "4",
        5 => "5",
        6 => "6",
        7 => "7",
        8 => "8",
        _ => "9",
    }
}

/// One hexadecimal digit as a string slice.
fn hex_digit_str(d: u64) -> (r: &'static str)
    requires
        d < 16,
    ensures
        r@ =~= seq![hex_digit_char(d as int)],
{
    proof {
        reveal_strlit("a");
        reveal_strlit("b");
        reveal_strlit("c");
        reveal_strlit("d");
        reveal_strlit("e");
        reveal_strlit("f");
    }
    if d < 10 {
        dec_digit_str(d)
    } else {
        match d {
            10 => "a",
            11 => "b",
            12 => "c",
            13 => "d",
            14 => "e",
            _ => "f",
        }
    }
}

/// Renders `n` in decimal, as `u64::to_string` does.
pub fn u64_to_dec_string(n: u64) -> (s: String)
    ensures
        s@ == dec_chars(n as int),
    decreases n,
{
    if n < 10 {
        dec_digit_str(n).to_owned()
    } else {
        let mut s = u64_to_dec_string(n / 10);
        s.append(dec_digit_str(n % 10));
        assert(s@ =~= dec_chars(n as int));
        s
    }
}

/// Renders `n` in lowercase hexadecimal, as formatting with `{:x}` does.
pub fn u64_to_hex_string(n: u64) -> (s: String)
    ensures
        s@ == hex_chars(n as int),
    decreases n,
{
    if n < 16 {
        hex_digit_str(n).to_owned()
    } else {
        let mut s = u64_to_hex_string(n / 16);
        s.append(hex_digit_str(n % 16));
        assert(s@ =~= hex_chars(n as int));
        s
    }
}

/// Parses a `u64` from a string, accepting exactly what
/// `str::parse::<u64>` accepts.
pub fn parse_u64(s: &str) -> (r: Option<u64>)
    ensures
        r == parse_u64_spec(s@),
{
    broadcast use vstd::string::is_ascii_spec_bytes;

    if !s.is_ascii() {
        proof {
            lemma_non_ascii_rejected(s@);
        }
        return None;
    }
    let b = s.as_bytes();
    proof {
        assert(b@.len() == s@.len());
    }
    let ghost chars = s@;
    let n: usize = b.len();
    if n == 0 {
        return None;
    }
    let start: usize = if b[0] == 43 {
        1
    } else {
        0
    };
    let ghost d = strip_leading_plus(chars);
    proof {
        assert(vstd::utf8::is_ascii_chars(chars));
        assert('\0' <= chars[0] && chars[0] <= '\u{7f}');
        assert((chars[0] as u8) == b@[0]);
        if b@[0] == 43 {
            assert(chars[0] == '+');
            assert(d =~= chars.drop_first());
        } else {
            assert(chars[0] != '+');
            assert(d =~= chars);
        }
        assert(forall|i: int| 0 <= i < d.len() ==> d[i] == chars[i + start]);
    }
    if start == n {
        return None;
    }
    let mut v: u64 = 0;
    let mut i: usize = start;
    while i < n
        invariant
            start <= i <= n,
            chars == s@,
            d == strip_leading_plus(chars),
            n == chars.len(),
            b@.len() == chars.len(),
            forall|k: int| 0 <= k < chars.len() ==> b@[k] == (chars[k] as u8),
            vstd::utf8::is_ascii_chars(chars),
            d.len() == n - start,
            forall|k: int| 0 <= k < d.len() ==> d[k] == chars[k + start],
            all_dec_digits(d.take(i - start)),
            dec_value(d.take(i - start)) == v,
        decreases n - i,
    {
        let c = b[i];
        proof {
            let cc = chars[i as int];
            assert(d[i - start] == cc);
            assert('\0' <= cc && cc <= '\u{7f}');
            assert((cc as u8) == c);
        }
        if c < 48 || c > 57 {
            proof {
                assert(!is_dec_digit(d[i - start]));
                assert(0 <= i - start < d.len());
                assert(!all_dec_digits(d));
                assert(parse_u64_spec(s@) is None);
            }
            return None;
        }
        let digit = (c - 48) as u64;
        proof {
            assert(is_dec_digit(chars[i as int]));
            assert(dec_digit_val(chars[i as int]) == digit);
        }
        let next = match v.checked_mul(10) {
            Some(m) => m.checked_add(digit),
            None => None,
        };
        match next {
            Some(nv) => {
                proof {
                    let t = d.take(i - start + 1);
                    assert(t.drop_last() =~= d.take(i - start));
                    assert(t.last() == d[i - start]);
                    assert(all_dec_digits(t)) by {
                        assert(forall|k: int|
                            0 <= k < t.len() - 1 ==> t[k] == #[trigger] d.take(i - start)[k]);
                    }
                    assert(dec_value(t) == nv);
                }
                v = nv;
            },
            None => {
                // the prefix up to and including this digit already
                // exceeds u64::MAX, so the whole string does too
                proof {
                    let t = d.take(i - start + 1);
                    assert(t.drop_last() =~= d.take(i - start));
                    assert(t.last() == d[i - start]);
                    assert(all_dec_digits(t)) by {
                        assert(forall|k: int|
                            0 <= k < t.len() - 1 ==> t[k] == #[trigger] d.take(i - start)[k]);
                    }
                    assert(dec_value(t) == v * 10 + digit);
                    assert(dec_value(t) > u64::MAX);
                    if all_dec_digits(d) {
                        lemma_dec_value_prefix(d, i - start + 1);
                        assert(dec_value(d) > u64::MAX);
                    }
                    assert(parse_u64_spec(s@) is None);
                }
                return None;
            },
        }
        i = i + 1;
    }
    proof {
        assert(d.take(i - start) =~= d);
    }
    Some(v)
}

/// A string that is not entirely ASCII parses as no number: the non-ASCII
/// character is not a digit wherever it stands.
proof fn lemma_non_ascii_rejected(s: Seq<char>)
    requires
        !vstd::utf8::is_ascii_chars(s),
    ensures
        parse_u64_spec(s) is None,
{
    assert(exists|i: int| 0 <= i < s.len() && !('\0' <= #[trigger] s[i] <= '\u{7f}'));
    let i = choose|i: int| 0 <= i < s.len() && !('\0' <= #[trigger] s[i] <= '\u{7f}');
    let d = strip_leading_plus(s);
    assert(s[i] != '+');
    assert(!is_dec_digit(s[i]));
    if s.len() > 0 && s[0] == '+' {
        assert(i >= 1);
        assert(d[i - 1] == s[i]);
        assert(!all_dec_digits(d));
    } else {
        assert(d[i] == s[i]);
        assert(!all_dec_digits(d));
    }
}

/// Renders `n` in decimal, as `u128`'s display does.
pub fn u128_to_dec_string(n: u128) -> (s: String)
    ensures
        s@ == dec_chars(n as int),
    decreases n,
{
    if n < 10 {
        dec_digit_str((n % 10) as u64).to_owned()
    } else {
        let mut s = u128_to_dec_string(n / 10);
        s.append(dec_digit_str((n % 10) as u64));
        assert(s@ =~= dec_chars(n as int));
        s
    }
}

/// `16^e`.
pub open spec fn pow16(e: int) -> int
    recommends
        e >= 0,
    decreases e,
{
    if e <= 0 {
        1
    } else {
        16 * pow16(e - 1)
    }
}

/// A 64-bit word rendered as exactly sixteen hex digits, leading zeros
/// kept: digit `i` is the word's `i`-th nibble from the top.
pub open spec fn hex_pad16(n: int) -> Seq<char> {
    Seq::new(16, |i: int| hex_digit_char((n / pow16(15 - i)) % 16))
}

/// Renders `n` as exactly sixteen hex digits, zero-padded.
pub fn u64_to_hex_string_padded(n: u64) -> (s: String)
    ensures
        s@ == hex_pad16(n as int),
        s@.len() == 16,
{
    proof {
        lemma_pow16_u64();
    }
    let mut s = String::new();
    let mut p: u64 = 0x1000_0000_0000_0000;
    let mut k: usize = 0;
    while k < 16
        invariant
            0 <= k <= 16,
            k < 16 ==> p == pow16(15 - k),
            s@.len() == k,
            forall|i: int|
                0 <= i < k ==> s@[i] == hex_digit_char(((n as int) / pow16(15 - i)) % 16),
        decreases 16 - k,
    {
        proof {
            lemma_pow16_pos(15 - k);
        }
        let d = (n / p) % 16;
        s.append(hex_digit_str(d));
        if k < 15 {
            p = p / 16;
            proof {
                assert(pow16(15 - k) == 16 * pow16(15 - (k + 1)));
                lemma_pow16_pos(15 - (k + 1));
                vstd::arithmetic::div_mod::lemma_div_multiples_vanish(
                    pow16(15 - (k + 1)),
                    16,
                );
                assert(p == pow16(15 - (k + 1)));
            }
        }
        k = k + 1;
    }
    proof {
        assert(s@ =~= hex_pad16(n as int));
    }
    s
}

proof fn lemma_pow16_pos(e: int)
    ensures
        pow16(e) >= 1,
    decreases e,
{
    if e > 0 {
        lemma_pow16_pos(e - 1);
    }
}

proof fn lemma_pow16_u64()
    ensures
        pow16(15) == 0x1000_0000_0000_0000,
{
    reveal_with_fuel(pow16, 16);
}

/// Compares two strings by their bytes.
pub fn str_eq_exec(a: &str, b: &str) -> (r: bool)
    ensures
        r == (a@ == b@),
{
    broadcast use vstd::utf8::encode_utf8_decode_utf8;

    let ab = a.as_bytes();
    let bb = b.as_bytes();
    let n = ab.len();
    if n != bb.len() {
        proof {
            if a@ == b@ {
                assert(a.spec_bytes() == b.spec_bytes());
            }
        }
        return false;
    }
    let mut i: usize = 0;
    while i < n
        invariant
            0 <= i <= n,
            n == ab@.len(),
            n == bb@.len(),
            ab@ == a.spec_bytes(),
            bb@ == b.spec_bytes(),
            forall|j: int| 0 <= j < i ==> ab@[j] == bb@[j],
        decreases n - i,
    {
        if ab[i] != bb[i] {
            proof {
                if a@ == b@ {
                    assert(a.spec_bytes() == b.spec_bytes());
                }
            }
            return false;
        }
        i = i + 1;
    }
    proof {
        assert(ab@ =~= bb@);
        assert(vstd::utf8::decode_utf8(vstd::utf8::encode_utf8(a@)) == a@);
        assert(vstd::utf8::decode_utf8(vstd::utf8::encode_utf8(b@)) == b@);
        assert(vstd::utf8::encode_utf8(a@) == vstd::utf8::encode_utf8(b@));
    }
    true
}

} // verus!
