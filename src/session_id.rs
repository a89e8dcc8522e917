//! Session identifiers: 128 random bits written as 32 lowercase hex digits.

use rand::Rng;
use rand_chacha::ChaCha20Rng;
use vstd::prelude::*;
use vstd::string::*;
use vstd::arithmetic::div_mod::lemma_breakdown;
use vstd::arithmetic::div_mod::lemma_small_mod;
use vstd::arithmetic::power::pow;
use vstd::arithmetic::power::lemma_pow_positive;

verus! {

/// The sixteen lowercase hexadecimal digits, in order of value.
pub open spec fn hex_digits() -> Seq<char> {
    seq!['0', '1', '2', '3', '4', '5', '6', '7', '8', '9', 'a', 'b', 'c', 'd', 'e', 'f']
}

/// The lowest `k` hex digits of `n`, most significant first.
pub open spec fn hex_fixed(n: nat, k: nat) -> Seq<char>
    decreases k,
{
    if k == 0 {
        seq![]
    } else {
        hex_fixed(n / 16, (k - 1) as nat).push(hex_digits()[(n % 16) as int])
    }
}

/// The text of the identifier made from the number `n`.
pub open spec fn id_text(n: nat) -> Seq<char> {
    hex_fixed(n, 32)
}

/// `c` is one of the sixteen lowercase hex digits.
pub open spec fn is_hex_digit(c: char) -> bool {
    exists|d: int| 0 <= d < 16 && hex_digits()[d] == c
}

/// The shape of a session identifier: 32 lowercase hex digits.
pub open spec fn is_session_id(s: Seq<char>) -> bool {
    s.len() == 32 && forall|i: int| 0 <= i < s.len() ==> #[trigger] is_hex_digit(s[i])
}

/// The value of one lowercase hex digit.
pub open spec fn digit_value(c: char) -> nat {
    if c == '0' { 0 }
    else if c == '1' { 1 }
    else if c == '2' { 2 }
    else if c == '3' { 3 }
    else if c == '4' { 4 }
    else if c == '5' { 5 }
    else if c == '6' { 6 }
    else if c == '7' { 7 }
    else if c == '8' { 8 }
    else if c == '9' { 9 }
    else if c == 'a' { 10 }
    else if c == 'b' { 11 }
    else if c == 'c' { 12 }
    else if c == 'd' { 13 }
    else if c == 'e' { 14 }
    else { 15 }
}

/// The number that a string of hex digits denotes.
pub open spec fn hex_value(s: Seq<char>) -> nat
    decreases s.len(),
{
    if s.len() == 0 {
        0
    } else {
        hex_value(s.drop_last()) * 16 + digit_value(s.last())
    }
}

/// Writes `n` as an identifier: 32 lowercase hex digits, zero-padded on the left.
pub fn session_id_from(n: u128) -> (r: String)
    ensures
        r@ == id_text(n as nat),
{
    let mut digits: Vec<u8> = Vec::new();
    let mut m: u128 = n;
    let mut i: usize = 0;
    let ghost mut suffix: Seq<char> = seq![];
    while i < 32
        invariant
            i <= 32,
            digits@.len() == i,
            forall|j: int| 0 <= j < i ==> #[trigger] digits@[j] < 16,
            suffix.len() == i,
            forall|j: int| 0 <= j < i ==> suffix[j] == hex_digits()[digits@[i - 1 - j] as int],
            hex_fixed(n as nat, 32) == hex_fixed(m as nat, (32 - i) as nat) + suffix,
        decreases 32 - i,
    {
        let d: u8 = (m % 16) as u8;
        proof {
            let k = (32 - i - 1) as nat;
            assert(hex_fixed(m as nat, (32 - i) as nat) == hex_fixed((m / 16) as nat, k).push(
                hex_digits()[d as int],
            ));
            let s2 = seq![hex_digits()[d as int]] + suffix;
            assert(hex_fixed((m / 16) as nat, k).push(hex_digits()[d as int]) + suffix
                =~= hex_fixed((m / 16) as nat, k) + s2);
            suffix = s2;
        }
        digits.push(d);
        m = m / 16;
        i = i + 1;
    }
    assert(hex_fixed(m as nat, 0) =~= seq![]);
    assert(hex_fixed(n as nat, 32) =~= suffix);
    let table = "0123456789abcdef";
    proof {
        reveal_strlit("0123456789abcdef");
    }
    let mut out = String::new();
    let mut k: usize = 32;
    while k > 0
        invariant
            k <= 32,
            digits@.len() == 32,
            forall|j: int| 0 <= j < 32 ==> #[trigger] digits@[j] < 16,
            forall|j: int| 0 <= j < 32 ==> suffix[j] == hex_digits()[digits@[31 - j] as int],
            table@ == hex_digits(),
            suffix.len() == 32,
            out@ == suffix.subrange(0, 32 - k as int),
        decreases k,
    {
        k = k - 1;
        let d = digits[k] as usize;
        let piece = table.substring_char(d, d + 1);
        out.append(piece);
        proof {
            assert(piece@ =~= seq![hex_digits()[d as int]]);
            assert(suffix.subrange(0, 32 - k as int) =~= suffix.subrange(0, 31 - k as int).push(
                suffix[31 - k as int],
            ));
        }
    }
    assert(out@ =~= suffix);
    out
}

#[verifier::external_type_specification]
#[verifier::external_body]
pub struct ExChaCha20Rng(ChaCha20Rng);

/// Relies on `rand::Rng::gen::<u128>` over `rand_chacha::ChaCha20Rng`: one
/// draw of 128 bits from the cryptographically secure generator. Nothing is
/// known of the value.
#[verifier::external_body]
pub(crate) fn draw_u128(rng: &mut ChaCha20Rng) -> (r: u128) {
    rng.gen::<u128>()
}

/// Mints a fresh session identifier from one 128-bit draw of `rng`.
pub fn new_session_id(rng: &mut ChaCha20Rng) -> (r: String)
    ensures
        is_session_id(r@),
        exists|n: u128| r@ == #[trigger] id_text(n as nat),
{
    let n = draw_u128(rng);
    proof {
        lemma_session_id_decodes(n);
    }
    session_id_from(n)
}

proof fn lemma_digit_value(d: nat)
    requires
        d < 16,
    ensures
        digit_value(hex_digits()[d as int]) == d,
        is_hex_digit(hex_digits()[d as int]),
{
}

proof fn lemma_hex_fixed(n: nat, k: nat)
    ensures
        hex_fixed(n, k).len() == k,
        forall|i: int| 0 <= i < k ==> #[trigger] is_hex_digit(hex_fixed(n, k)[i]),
        hex_value(hex_fixed(n, k)) == n % (pow(16, k) as nat),
    decreases k,
{
    lemma_pow_positive(16, k);
    reveal(pow);
    if k == 0 {
        assert(n % 1 == 0);
    } else {
        let k1 = (k - 1) as nat;
        lemma_hex_fixed(n / 16, k1);
        lemma_digit_value(n % 16);
        lemma_pow_positive(16, k1);
        let s = hex_fixed(n, k);
        assert(s.drop_last() =~= hex_fixed(n / 16, k1));
        lemma_breakdown(n as int, 16, pow(16, k1));
        reveal(pow);
        assert(pow(16, k) == 16 * pow(16, k1));
        assert(s.last() == hex_digits()[(n % 16) as int]);
        assert(hex_value(s) == hex_value(s.drop_last()) * 16 + n % 16);
        assert(((n / 16) % (pow(16, k1) as nat)) * 16 == 16 * ((n / 16) % (pow(16, k1) as nat)))
            by (nonlinear_arith);
        assert(n as int % pow(16, k) == n as int % (16 * pow(16, k1)));
        assert(n as int % (16 * pow(16, k1)) == 16 * ((n as int / 16) % pow(16, k1)) + n as int % 16);
        assert forall|i: int| 0 <= i < k implies #[trigger] is_hex_digit(s[i]) by {
            if i < k1 {
                assert(s[i] == hex_fixed(n / 16, k1)[i]);
            }
        }
    }
}

/// A session identifier made from a 128-bit number is 32 lowercase hex
/// digits, and reading those digits back gives the number again, which fits
/// in 16 bytes.
pub proof fn lemma_session_id_decodes(n: u128)
    ensures
        is_session_id(id_text(n as nat)),
        hex_value(id_text(n as nat)) == n,
        hex_value(id_text(n as nat)) < pow(256, 16),
{
    lemma_hex_fixed(n as nat, 32);
    reveal(pow);
    reveal_with_fuel(pow, 33);
    assert(pow(16, 32) == 0x1_0000_0000_0000_0000_0000_0000_0000_0000int);
    reveal_with_fuel(pow, 17);
    assert(pow(256, 16) == 0x1_0000_0000_0000_0000_0000_0000_0000_0000int);
    lemma_small_mod(n as nat, pow(16, 32) as nat);
}

} // verus!
