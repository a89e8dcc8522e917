//! Decimal text of 64-bit integers, as a stored record writes its expiry.

use crate::session_id::hex_digits;
use vstd::prelude::*;
use vstd::string::*;

verus! {

pub open spec fn is_digit(c: char) -> bool {
    '0' <= c && c <= '9'
}

pub open spec fn digit_of(c: char) -> int {
    c as int - '0' as int
}

/// The number that a string of decimal digits denotes.
pub open spec fn digits_value(s: Seq<char>) -> int
    decreases s.len(),
{
    if s.len() == 0 {
        0
    } else {
        digits_value(s.drop_last()) * 10 + digit_of(s.last())
    }
}

pub open spec fn all_digits(s: Seq<char>) -> bool {
    forall|i: int| 0 <= i < s.len() ==> #[trigger] is_digit(s[i])
}

/// What parsing `s` as an `i64` gives: an optional sign, then one or more
/// decimal digits, of a value within the range of `i64`.
pub open spec fn parsed_i64(s: Seq<char>) -> Option<i64> {
    let signed = s.len() > 0 && (s[0] == '+' || s[0] == '-');
    let body = if signed { s.subrange(1, s.len() as int) } else { s };
    let v = if signed && s[0] == '-' { -digits_value(body) } else { digits_value(body) };
    if body.len() == 0 || !all_digits(body) || v < i64::MIN || v > i64::MAX {
        None
    } else {
        Some(v as i64)
    }
}

/// The decimal digits of `m`, without leading zeros.
pub open spec fn digits_of(m: nat) -> Seq<char>
    decreases m,
{
    if m < 10 {
        seq![hex_digits()[m as int]]
    } else {
        digits_of(m / 10).push(hex_digits()[(m % 10) as int])
    }
}

/// The decimal text of `n`, with a leading `-` when it is negative.
pub open spec fn decimal_of(n: int) -> Seq<char> {
    if n < 0 {
        seq!['-'] + digits_of((-n) as nat)
    } else {
        digits_of(n as nat)
    }
}

proof fn lemma_digits_value_step(s: Seq<char>, c: char)
    ensures
        digits_value(s.push(c)) == digits_value(s) * 10 + digit_of(c),
{
    assert(s.push(c).drop_last() =~= s);
}

/// Parses `s` as an `i64`, as [`parsed_i64`] says.
pub fn parse_i64(s: &str) -> (r: Option<i64>)
    ensures
        r == parsed_i64(s@),
{
    let n = s.unicode_len();
    let mut start: usize = 0;
    let mut negative = false;
    if n > 0 {
        let c = s.get_char(0);
        if c == '+' || c == '-' {
            start = 1;
            negative = c == '-';
        }
    }
    let ghost signed = s@.len() > 0 && (s@[0] == '+' || s@[0] == '-');
    let ghost body = if signed { s@.subrange(1, s@.len() as int) } else { s@ };
    assert(start == (if signed { 1int } else { 0int }));
    if start >= n {
        assert(body.len() == 0);
        return None;
    }
    let mut acc: u64 = 0;
    let mut i: usize = start;
    while i < n
        invariant
            n == s@.len(),
            start <= i <= n,
            start == (if signed { 1int } else { 0int }),
            signed == (s@.len() > 0 && (s@[0] == '+' || s@[0] == '-')),
            body == (if signed { s@.subrange(1, s@.len() as int) } else { s@ }),
            negative == (signed && s@[0] == '-'),
            body == s@.subrange(start as int, n as int),
            all_digits(s@.subrange(start as int, i as int)),
            acc == digits_value(s@.subrange(start as int, i as int)),
            acc <= 0x8000_0000_0000_0000u64,
        decreases n - i,
    {
        let c = s.get_char(i);
        if !('0' <= c && c <= '9') {
            assert(body[i - start] == c);
            assert(!is_digit(body[i - start]));
            assert(!all_digits(body));
            return None;
        }
        let d = (c as u32 - '0' as u32) as u64;
        assert(d == digit_of(c));
        proof {
            assert(s@.subrange(start as int, i + 1) =~= s@.subrange(start as int, i as int).push(c));
            lemma_digits_value_step(s@.subrange(start as int, i as int), c);
        }
        if acc > 0x0CCC_CCCC_CCCC_CCCCu64 || acc * 10 + d > 0x8000_0000_0000_0000u64 {
            proof {
                if all_digits(body) {
                    lemma_digits_grow(body, (i + 1 - start) as int);
                    assert(body.subrange(0, (i + 1 - start) as int) =~= s@.subrange(start as int, i + 1));
                    assert(digits_value(s@.subrange(start as int, i + 1)) == acc * 10 + d);
                    assert(digits_value(body) > 0x8000_0000_0000_0000int);
                }
            }
            return None;
        }
        acc = acc * 10 + d;
        i = i + 1;
    }
    assert(s@.subrange(start as int, n as int) == body);
    if negative {
        Some((0i128 - acc as i128) as i64)
    } else if acc > 0x7FFF_FFFF_FFFF_FFFFu64 {
        None
    } else {
        Some(acc as i64)
    }
}

/// Writes `n` in decimal, as [`decimal_of`] says.
pub fn decimal_text(n: i64) -> (r: String)
    ensures
        r@ == decimal_of(n as int),
{
    let mag: u64 = if n < 0 { (0i128 - n as i128) as u64 } else { n as u64 };
    let ghost mg = mag as nat;
    let mut digits: Vec<u8> = Vec::new();
    let mut m: u64 = mag;
    let ghost mut suffix: Seq<char> = seq![];
    let mut first = true;
    // digits of `mag` from the least significant one
    while first || m > 0
        invariant
            m <= mag,
            mg == mag as nat,
            first == (digits@.len() == 0),
            first ==> m == mag,
            forall|j: int| 0 <= j < digits@.len() ==> #[trigger] digits@[j] < 10,
            suffix.len() == digits@.len(),
            forall|j: int| 0 <= j < suffix.len() ==> suffix[j] == hex_digits()[digits@[suffix.len() - 1 - j] as int],
            m > 0 ==> digits_of(mg) == digits_of(m as nat) + suffix,
            m == 0 && !first ==> digits_of(mg) == suffix,
            digits@.len() <= 20,
            m as int * pow10(digits@.len() as nat) <= mag,
        decreases m, (if first { 1int } else { 0int }),
    {
        let d: u8 = (m % 10) as u8;
        proof {
            lemma_pow10_step(digits@.len() as nat);
            if digits@.len() >= 20 && m >= 1 {
                lemma_pow10_bound(digits@.len() as nat);
                assert(m as int * pow10(digits@.len() as nat) >= pow10(digits@.len() as nat)) by (nonlinear_arith)
                    requires m >= 1, pow10(digits@.len() as nat) >= 1;
            }
            let s2 = seq![hex_digits()[d as int]] + suffix;
            if m >= 10 {
                assert(digits_of(m as nat) == digits_of((m / 10) as nat).push(hex_digits()[d as int]));
                assert(digits_of((m / 10) as nat).push(hex_digits()[d as int]) + suffix
                    =~= digits_of((m / 10) as nat) + s2);
            } else {
                assert(digits_of(m as nat) == seq![hex_digits()[d as int]]);
                assert(digits_of(m as nat) + suffix =~= s2);
            }
            suffix = s2;
            assert((m / 10) as int * pow10((digits@.len() + 1) as nat) <= m as int * pow10(digits@.len() as nat)) by (nonlinear_arith)
                requires pow10((digits@.len() + 1) as nat) == 10 * pow10(digits@.len() as nat), pow10(digits@.len() as nat) >= 1;
        }
        digits.push(d);
        m = m / 10;
        first = false;
    }
    let table = "0123456789abcdef";
    proof {
        reveal_strlit("0123456789abcdef");
    }
    let mut out = String::new();
    if n < 0 {
        let minus = "-";
        proof {
            reveal_strlit("-");
        }
        out.append(minus);
    }
    let ghost lead = out@;
    let mut k: usize = digits.len();
    while k > 0
        invariant
            k <= digits@.len(),
            forall|j: int| 0 <= j < digits@.len() ==> #[trigger] digits@[j] < 10,
            forall|j: int| 0 <= j < suffix.len() ==> suffix[j] == hex_digits()[digits@[suffix.len() - 1 - j] as int],
            table@ == hex_digits(),
            suffix.len() == digits@.len(),
            out@ == lead + suffix.subrange(0, digits@.len() - k as int),
        decreases k,
    {
        k = k - 1;
        let d = digits[k] as usize;
        let piece = table.substring_char(d, d + 1);
        out.append(piece);
        proof {
            assert(piece@ =~= seq![hex_digits()[d as int]]);
            assert(suffix.subrange(0, digits@.len() - k as int) =~= suffix.subrange(0, digits@.len() - k - 1).push(
                suffix[digits@.len() - 1 - k as int],
            ));
        }
    }
    assert(out@ =~= lead + suffix);
    proof {
        if n < 0 {
            assert(lead =~= seq!['-']);
            assert(mg == -(n as int));
        } else {
            assert(lead =~= seq![]);
        }
    }
    out
}

/// Ten to the power `k`.
pub open spec fn pow10(k: nat) -> int
    decreases k,
{
    if k == 0 {
        1
    } else {
        10 * pow10((k - 1) as nat)
    }
}

proof fn lemma_pow10_step(k: nat)
    ensures
        pow10(k + 1) == 10 * pow10(k),
        pow10(k) >= 1,
    decreases k,
{
    if k > 0 {
        lemma_pow10_step((k - 1) as nat);
    }
}

proof fn lemma_pow10_bound(k: nat)
    requires
        k >= 20,
    ensures
        pow10(k) > 0xFFFF_FFFF_FFFF_FFFFint,
    decreases k,
{
    if k > 20 {
        lemma_pow10_bound((k - 1) as nat);
        lemma_pow10_step((k - 1) as nat);
    } else {
        reveal_with_fuel(pow10, 21);
    }
}

proof fn lemma_decimal_digit(d: nat)
    requires
        d < 10,
    ensures
        is_digit(hex_digits()[d as int]),
        digit_of(hex_digits()[d as int]) == d,
{
}

proof fn lemma_digits_of(m: nat)
    ensures
        digits_of(m).len() > 0,
        all_digits(digits_of(m)),
        digits_value(digits_of(m)) == m,
    decreases m,
{
    if m < 10 {
        lemma_decimal_digit(m);
        let s = digits_of(m);
        assert(s.drop_last() =~= seq![]);
        assert(digits_value(s.drop_last()) == 0);
    } else {
        lemma_digits_of(m / 10);
        lemma_decimal_digit(m % 10);
        let s = digits_of(m);
        assert(s.drop_last() =~= digits_of(m / 10));
        assert forall|i: int| 0 <= i < s.len() implies #[trigger] is_digit(s[i]) by {
            if i < s.len() - 1 {
                assert(s[i] == digits_of(m / 10)[i]);
            }
        }
    }
}

/// Reading back the decimal text of an `i64` gives the same number.
pub proof fn lemma_decimal_round_trip(n: i64)
    ensures
        parsed_i64(decimal_of(n as int)) == Some(n),
{
    let t = decimal_of(n as int);
    if n < 0 {
        let m = (-(n as int)) as nat;
        lemma_digits_of(m);
        assert(t[0] == '-');
        assert(t.subrange(1, t.len() as int) =~= digits_of(m));
    } else {
        lemma_digits_of(n as nat);
        let d = digits_of(n as nat);
        assert(is_digit(d[0]));
        assert(t[0] != '+' && t[0] != '-');
    }
}

proof fn lemma_digits_grow(s: Seq<char>, k: int)
    requires
        0 <= k <= s.len(),
        all_digits(s),
    ensures
        digits_value(s) >= digits_value(s.subrange(0, k)),
    decreases s.len() - k,
{
    if k < s.len() {
        lemma_digits_grow(s, k + 1);
        let t = s.subrange(0, k + 1);
        assert(t.drop_last() =~= s.subrange(0, k));
        lemma_digits_nonneg(s.subrange(0, k));
        assert(is_digit(s[k]));
    } else {
        assert(s.subrange(0, k) =~= s);
    }
}

proof fn lemma_digits_nonneg(s: Seq<char>)
    requires
        all_digits(s),
    ensures
        digits_value(s) >= 0,
    decreases s.len(),
{
    if s.len() > 0 {
        assert(is_digit(s.last()));
        lemma_digits_nonneg(s.drop_last());
    }
}

} // verus!
