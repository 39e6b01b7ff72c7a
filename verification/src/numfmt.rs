//! Decimal and hexadecimal formatting and parsing of integers, as byte strings.

use vstd::prelude::*;
use vstd::arithmetic::div_mod::{lemma_add_mod_noop, lemma_mul_mod_noop_left, lemma_small_mod};

verus! {

/// ASCII `0`-`9`.
pub open spec fn is_digit(c: u8) -> bool {
    48 <= c <= 57
}

/// The decimal digits of `n`, most significant first, without leading zeros ("0" for zero).
pub open spec fn dec_digits(n: nat) -> Seq<u8>
    decreases n,
{
    if n < 10 {
        seq![(48 + n) as u8]
    } else {
        dec_digits(n / 10).push((48 + n % 10) as u8)
    }
}

/// The number that a string of decimal digits stands for.
pub open spec fn digits_value(s: Seq<u8>) -> nat
    decreases s.len(),
{
    if s.len() == 0 {
        0
    } else {
        digits_value(s.drop_last()) * 10 + (s.last() - 48) as nat
    }
}

/// Every byte is a decimal digit.
pub open spec fn all_digits(s: Seq<u8>) -> bool {
    forall|i: int| 0 <= i < s.len() ==> is_digit(#[trigger] s[i])
}

/// The length of the run of decimal digits that `s` starts with.
pub open spec fn digit_prefix_len(s: Seq<u8>) -> nat
    decreases s.len(),
{
    if s.len() == 0 || !is_digit(s[0]) {
        0
    } else {
        1 + digit_prefix_len(s.drop_first())
    }
}

/// The lower-case hexadecimal digit of a 4-bit value.
pub open spec fn hex_digit(v: u8) -> u8 {
    if v < 10 {
        (48 + v) as u8
    } else {
        (87 + v) as u8
    }
}

/// The value of a hexadecimal digit, either case.
pub open spec fn hex_value(c: u8) -> Option<u8> {
    if 48 <= c <= 57 {
        Some((c - 48) as u8)
    } else if 97 <= c <= 102 {
        Some((c - 87) as u8)
    } else if 65 <= c <= 70 {
        Some((c - 55) as u8)
    } else {
        None
    }
}

/// The `len` lowest hexadecimal digits of `n`, most significant first.
pub open spec fn hex_digits_fixed(n: nat, len: nat) -> Seq<u8>
    decreases len,
{
    if len == 0 {
        Seq::empty()
    } else {
        hex_digits_fixed(n / 16, (len - 1) as nat).push(hex_digit((n % 16) as u8))
    }
}

/// The hexadecimal digits of `n` without leading zeros ("0" for zero).
pub open spec fn hex_digits(n: nat) -> Seq<u8>
    decreases n,
{
    if n < 16 {
        seq![hex_digit(n as u8)]
    } else {
        hex_digits(n / 16).push(hex_digit((n % 16) as u8))
    }
}

/// The number that a string of hexadecimal digits stands for.
pub open spec fn hex_string_value(s: Seq<u8>) -> nat
    decreases s.len(),
{
    if s.len() == 0 {
        0
    } else {
        hex_string_value(s.drop_last()) * 16 + match hex_value(s.last()) {
            Some(v) => v as nat,
            None => 0,
        }
    }
}

pub proof fn lemma_dec_digits_are_digits(n: nat)
    ensures
        all_digits(dec_digits(n)),
        1 <= dec_digits(n).len(),
    decreases n,
{
    if n >= 10 {
        lemma_dec_digits_are_digits(n / 10);
    }
}

/// Reading back the decimal digits of a number gives the number.
pub proof fn lemma_digits_value_of_dec_digits(n: nat)
    ensures
        digits_value(dec_digits(n)) == n,
    decreases n,
{
    if n >= 10 {
        lemma_digits_value_of_dec_digits(n / 10);
        assert(dec_digits(n).drop_last() =~= dec_digits(n / 10));
        vstd::arithmetic::div_mod::lemma_fundamental_div_mod(n as int, 10);
        let d = dec_digits(n);
        assert(n % 10 < 10);
        assert(d.last() == (48 + n % 10) as u8);
        assert(digits_value(d) == digits_value(d.drop_last()) * 10 + (d.last() - 48) as nat);
    } else {
        assert(dec_digits(n).drop_last() =~= Seq::<u8>::empty());
        assert(digits_value(Seq::<u8>::empty()) == 0);
        assert(digits_value(dec_digits(n)) == digits_value(dec_digits(n).drop_last()) * 10 + (dec_digits(n).last() - 48) as nat);
    }
}

/// The decimal digits of a number below `10^k` number at most `k`.
pub proof fn lemma_dec_digits_len(n: nat, k: nat, p: nat)
    requires
        p == pow10(k),
        n < p,
        k >= 1,
    ensures
        dec_digits(n).len() <= k,
    decreases k,
{
    if n >= 10 {
        reveal_with_fuel(pow10, 2);
        assert(k >= 2);
        let q = pow10((k - 1) as nat);
        assert(n < 10 * q);
        assert(n / 10 < q) by (nonlinear_arith)
            requires
                n < 10 * q,
        ;
        lemma_dec_digits_len(n / 10, (k - 1) as nat, q);
    }
}

/// `10^k`.
pub open spec fn pow10(k: nat) -> nat
    decreases k,
{
    if k == 0 {
        1
    } else {
        10 * pow10((k - 1) as nat)
    }
}

/// One step of a digit accumulation done modulo `m` is the step done exactly, modulo `m`.
pub proof fn lemma_wrapping_digit_step(a: int, d: int, m: int)
    requires
        m > 0,
    ensures
        (((a % m) * 10) % m + d) % m == (a * 10 + d) % m,
{
    let y = (a % m) * 10;
    lemma_mul_mod_noop_left(a, 10, m);
    assert(y % m == (a * 10) % m);
    lemma_add_mod_noop(y % m, d, m);
    vstd::arithmetic::div_mod::lemma_mod_twice(y, m);
    lemma_add_mod_noop(a * 10, d, m);
}

/// The decimal digits of `n` ("0" for zero), most significant first.
pub fn format_u64(n: u64) -> (res: Vec<u8>)
    ensures
        res@ == dec_digits(n as nat),
        1 <= res@.len() <= 20,
{
    let mut val = n;
    let mut digits: Vec<u8> = Vec::new();
    while val >= 10
        invariant
            dec_digits(n as nat) == dec_digits(val as nat) + digits@,
            digits@.len() + dec_digits(val as nat).len() == dec_digits(n as nat).len(),
        decreases val,
    {
        let d = (48 + val % 10) as u8;
        let ghost old_digits = digits@;
        digits.insert(0, d);
        assert(dec_digits(val as nat) == dec_digits((val / 10) as nat).push(d));
        assert(dec_digits(val as nat) + old_digits =~= dec_digits((val / 10) as nat) + digits@);
        val = val / 10;
    }
    digits.insert(0, (48 + val) as u8);
    assert(dec_digits(n as nat) =~= digits@);
    proof {
        reveal_with_fuel(pow10, 21);
        assert(pow10(20) == 100000000000000000000);
        lemma_dec_digits_len(n as nat, 20, pow10(20));
    }
    digits
}

/// The decimal digits of `n`, as `format_u64` gives them.
pub fn format_u32(n: u32) -> (res: Vec<u8>)
    ensures
        res@ == dec_digits(n as nat),
        1 <= res@.len() <= 10,
{
    let r = format_u64(n as u64);
    proof {
        reveal_with_fuel(pow10, 11);
        assert(pow10(10) == 10000000000);
        lemma_dec_digits_len(n as nat, 10, pow10(10));
    }
    r
}

/// The decimal form of a signed number: a `-` before the digits of its magnitude when negative.
pub open spec fn signed_digits(n: int) -> Seq<u8> {
    if n < 0 {
        seq![45u8] + dec_digits((-n) as nat)
    } else {
        dec_digits(n as nat)
    }
}

/// The decimal form of `n`, with a leading `-` when it is negative.
pub fn format_i32(n: i32) -> (res: Vec<u8>)
    ensures
        res@ == signed_digits(n as int),
{
    if n < 0 {
        let mag: u64 = (-(n as i64)) as u64;
        let digits = format_u64(mag);
        let mut out: Vec<u8> = Vec::new();
        out.push(45u8);
        let mut i: usize = 0;
        while i < digits.len()
            invariant
                0 <= i <= digits@.len(),
                out@ == seq![45u8] + digits@.take(i as int),
            decreases digits@.len() - i,
        {
            out.push(digits[i]);
            assert(digits@.take(i + 1) =~= digits@.take(i as int).push(digits@[i as int]));
            i += 1;
        }
        assert(digits@.take(digits@.len() as int) =~= digits@);
        out
    } else {
        format_u64(n as u64)
    }
}

/// The lower-case hexadecimal digits of `n` without leading zeros ("0" for zero).
pub fn format_hex(n: u64) -> (res: Vec<u8>)
    ensures
        res@ == hex_digits(n as nat),
{
    let mut val = n;
    let mut digits: Vec<u8> = Vec::new();
    while val >= 16
        invariant
            hex_digits(n as nat) == hex_digits(val as nat) + digits@,
        decreases val,
    {
        let d = hex_char((val % 16) as u8);
        let ghost old_digits = digits@;
        digits.insert(0, d);
        assert(hex_digits(val as nat) == hex_digits((val / 16) as nat).push(d));
        assert(hex_digits(val as nat) + old_digits =~= hex_digits((val / 16) as nat) + digits@);
        val = val / 16;
    }
    digits.insert(0, hex_char(val as u8));
    assert(hex_digits(n as nat) =~= digits@);
    digits
}

/// The lower-case hexadecimal digit of a 4-bit value.
pub fn hex_char(v: u8) -> (c: u8)
    requires
        v < 16,
    ensures
        c == hex_digit(v),
{
    if v < 10 {
        48 + v
    } else {
        87 + v
    }
}

/// All 16 lower-case hexadecimal digits of `val`, leading zeros kept.
pub fn format_hex64(val: u64) -> (res: Vec<u8>)
    ensures
        res@ == hex_digits_fixed(val as nat, 16),
{
    let mut v = val;
    let mut i: usize = 16;
    let mut digits: Vec<u8> = Vec::new();
    assert(val as nat / 1 == val as nat);
    while i > 0
        invariant
            0 <= i <= 16,
            hex_digits_fixed(val as nat, 16) == hex_digits_fixed(v as nat, i as nat) + digits@,
        decreases i,
    {
        let d = hex_char((v % 16) as u8);
        let ghost old_digits = digits@;
        digits.insert(0, d);
        assert(hex_digits_fixed(v as nat, i as nat) == hex_digits_fixed((v / 16) as nat, (i - 1) as nat).push(d));
        assert(hex_digits_fixed(v as nat, i as nat) + old_digits =~= hex_digits_fixed(
            (v / 16) as nat,
            (i - 1) as nat,
        ) + digits@);
        v = v / 16;
        i -= 1;
    }
    assert(hex_digits_fixed(v as nat, 0) + digits@ =~= digits@);
    digits
}

/// `0x` and the 8 lower-case hexadecimal digits of `n`, leading zeros kept.
pub fn format_hex_u32(n: u32) -> (res: Vec<u8>)
    ensures
        res@ == seq![48u8, 120u8] + hex_digits_fixed(n as nat, 8),
{
    let mut v = n;
    let mut i: usize = 8;
    let mut digits: Vec<u8> = Vec::new();
    while i > 0
        invariant
            0 <= i <= 8,
            hex_digits_fixed(n as nat, 8) == hex_digits_fixed(v as nat, i as nat) + digits@,
        decreases i,
    {
        let d = hex_char((v % 16) as u8);
        let ghost old_digits = digits@;
        digits.insert(0, d);
        assert(hex_digits_fixed(v as nat, i as nat) == hex_digits_fixed((v / 16) as nat, (i - 1) as nat).push(d));
        assert(hex_digits_fixed(v as nat, i as nat) + old_digits =~= hex_digits_fixed(
            (v / 16) as nat,
            (i - 1) as nat,
        ) + digits@);
        v = v / 16;
        i -= 1;
    }
    assert(hex_digits_fixed(v as nat, 0) + digits@ =~= digits@);
    digits.insert(0, 120u8);
    digits.insert(0, 48u8);
    assert(digits@ =~= seq![48u8, 120u8] + hex_digits_fixed(n as nat, 8));
    digits
}

/// The run of decimal digits at the start of `buf`, read as a number modulo 2^32
/// (the arithmetic of the release build wraps).
pub fn parse_u32(buf: &[u8]) -> (res: u32)
    ensures
        res == digits_value(buf@.take(digit_prefix_len(buf@) as int)) % 0x1_0000_0000,
{
    let mut val: u32 = 0;
    let mut i: usize = 0;
    while i < buf.len() && is_digit_exec(buf[i])
        invariant
            0 <= i <= buf@.len(),
            all_digits(buf@.take(i as int)),
            val == digits_value(buf@.take(i as int)) % 0x1_0000_0000,
        decreases buf@.len() - i,
    {
        let d = (buf[i] - 48) as u32;
        proof {
            lemma_take_step(buf@, i as int);
            lemma_wrapping_digit_step(digits_value(buf@.take(i as int)) as int, d as int, 0x1_0000_0000);
        }
        val = val.wrapping_mul(10).wrapping_add(d);
        i += 1;
    }
    proof {
        lemma_digit_prefix_len(buf@, i as int);
    }
    val
}

/// The run of decimal digits at the start of `buf`, read as a number modulo 2^64.
pub fn parse_u64(buf: &[u8]) -> (res: u64)
    ensures
        res == digits_value(buf@.take(digit_prefix_len(buf@) as int)) % 0x1_0000_0000_0000_0000,
{
    let mut val: u64 = 0;
    let mut i: usize = 0;
    while i < buf.len() && is_digit_exec(buf[i])
        invariant
            0 <= i <= buf@.len(),
            all_digits(buf@.take(i as int)),
            val == digits_value(buf@.take(i as int)) % 0x1_0000_0000_0000_0000,
        decreases buf@.len() - i,
    {
        let d = (buf[i] - 48) as u64;
        proof {
            lemma_take_step(buf@, i as int);
            lemma_wrapping_digit_step(
                digits_value(buf@.take(i as int)) as int,
                d as int,
                0x1_0000_0000_0000_0000,
            );
        }
        val = val.wrapping_mul(10).wrapping_add(d);
        i += 1;
    }
    proof {
        lemma_digit_prefix_len(buf@, i as int);
    }
    val
}

/// The number that the run of decimal digits at the start of `s` stands for, modulo 2^32
/// (what `parse_u32` reads).
pub open spec fn lead_u32(s: Seq<u8>) -> u32 {
    (digits_value(s.take(digit_prefix_len(s) as int)) % 0x1_0000_0000) as u32
}

/// The number that the run of decimal digits at the start of `s` stands for, modulo 2^64
/// (what `parse_u64` reads).
pub open spec fn lead_u64(s: Seq<u8>) -> u64 {
    (digits_value(s.take(digit_prefix_len(s) as int)) % 0x1_0000_0000_0000_0000) as u64
}

/// Whether a byte is a decimal digit.
pub fn is_digit_exec(c: u8) -> (res: bool)
    ensures
        res == is_digit(c),
{
    48 <= c && c <= 57
}

/// Taking one more byte extends the digit value by that digit.
pub proof fn lemma_take_step(s: Seq<u8>, i: int)
    requires
        0 <= i < s.len(),
    ensures
        digits_value(s.take(i + 1)) == digits_value(s.take(i)) * 10 + (s[i] - 48) as nat,
{
    assert(s.take(i + 1).drop_last() =~= s.take(i));
}

/// A scan that stopped at `i` past digits only, at a non-digit or the end, found the whole
/// digit prefix.
pub proof fn lemma_digit_prefix_len(s: Seq<u8>, i: int)
    requires
        0 <= i <= s.len(),
        all_digits(s.take(i)),
        i == s.len() || !is_digit(s[i]),
    ensures
        digit_prefix_len(s) == i,
    decreases i,
{
    if i > 0 {
        assert(is_digit(s.take(i)[0]));
        assert(all_digits(s.drop_first().take(i - 1))) by {
            assert forall|k: int| 0 <= k < i - 1 implies is_digit(#[trigger] s.drop_first().take(i - 1)[k]) by {
                assert(s.drop_first().take(i - 1)[k] == s.take(i)[k + 1]);
            }
        }
        lemma_digit_prefix_len(s.drop_first(), i - 1);
    }
}

/// A string of decimal digits read as a number, if every byte is a digit and the number is
/// at most 65535.
pub fn parse_u16(s: &[u8]) -> (res: Option<u16>)
    ensures
        match res {
            Some(v) => s@.len() > 0 && all_digits(s@) && v == digits_value(s@),
            None => s@.len() == 0 || !all_digits(s@) || digits_value(s@) > 65535,
        },
{
    if s.len() == 0 {
        return None;
    }
    let mut val: u32 = 0;
    let mut i: usize = 0;
    while i < s.len()
        invariant
            0 <= i <= s@.len(),
            all_digits(s@.take(i as int)),
            val == digits_value(s@.take(i as int)),
            val <= 65535,
        decreases s@.len() - i,
    {
        if !is_digit_exec(s[i]) {
            return None;
        }
        proof {
            lemma_take_step(s@, i as int);
        }
        val = val * 10 + (s[i] - 48) as u32;
        if val > 65535 {
            proof {
                if all_digits(s@) {
                    lemma_digits_value_prefix_monotone(s@, i + 1);
                }
            }
            return None;
        }
        i += 1;
    }
    assert(s@.take(s@.len() as int) =~= s@);
    Some(val as u16)
}

/// The value of a digit string is at least the value of any of its prefixes.
pub proof fn lemma_digits_value_prefix_monotone(s: Seq<u8>, i: int)
    requires
        0 <= i <= s.len(),
        all_digits(s),
    ensures
        digits_value(s.take(i)) <= digits_value(s),
    decreases s.len() - i,
{
    if i < s.len() {
        lemma_take_step(s, i);
        lemma_digits_value_prefix_monotone(s, i + 1);
    } else {
        assert(s.take(i) =~= s);
    }
}

/// A string read as a decimal number modulo 2^32, or 0 when any byte is not a digit.
pub fn parse_u32_from_slice(s: &[u8]) -> (res: u32)
    ensures
        res == if all_digits(s@) {
            digits_value(s@) % 0x1_0000_0000
        } else {
            0
        },
{
    let mut val: u32 = 0;
    let mut i: usize = 0;
    while i < s.len()
        invariant
            0 <= i <= s@.len(),
            all_digits(s@.take(i as int)),
            val == digits_value(s@.take(i as int)) % 0x1_0000_0000,
        decreases s@.len() - i,
    {
        let c = s[i];
        if c < 48 || c > 57 {
            return 0;
        }
        proof {
            lemma_take_step(s@, i as int);
            lemma_wrapping_digit_step(digits_value(s@.take(i as int)) as int, (c - 48) as int, 0x1_0000_0000);
        }
        val = val.wrapping_mul(10).wrapping_add((c - 48) as u32);
        i += 1;
    }
    assert(s@.take(s@.len() as int) =~= s@);
    val
}

/// Exactly 16 hexadecimal digits (either case) read as a number; `None` for any other
/// length or a non-hexadecimal byte.
pub fn parse_hex64(buf: &[u8]) -> (res: Option<u64>)
    ensures
        match res {
            Some(v) => buf@.len() == 16 && (forall|i: int| 0 <= i < 16 ==> #[trigger] hex_value(buf@[i]).is_some())
                && v == hex_string_value(buf@),
            None => buf@.len() != 16 || exists|i: int| 0 <= i < 16 && #[trigger] hex_value(buf@[i]).is_none(),
        },
{
    if buf.len() != 16 {
        return None;
    }
    let mut val: u64 = 0;
    let mut i: usize = 0;
    while i < 16
        invariant
            buf@.len() == 16,
            0 <= i <= 16,
            forall|k: int| 0 <= k < i ==> #[trigger] hex_value(buf@[k]).is_some(),
            val == hex_string_value(buf@.take(i as int)),
            hex_string_value(buf@.take(i as int)) < pow16(i as nat),
        decreases 16 - i,
    {
        let c = buf[i];
        let nibble: u8 = if 48 <= c && c <= 57 {
            c - 48
        } else if 97 <= c && c <= 102 {
            c - 87
        } else if 65 <= c && c <= 70 {
            c - 55
        } else {
            assert(hex_value(buf@[i as int]).is_none());
            return None;
        };
        assert(buf@.take(i + 1).drop_last() =~= buf@.take(i as int));
        proof {
            assert(pow16((i + 1) as nat) == 16 * pow16(i as nat));
            lemma_pow16_bound(i as nat);
        }
        val = val * 16 + nibble as u64;
        i += 1;
    }
    assert(buf@.take(16) =~= buf@);
    Some(val)
}

/// `16^k`.
pub open spec fn pow16(k: nat) -> nat
    decreases k,
{
    if k == 0 {
        1
    } else {
        16 * pow16((k - 1) as nat)
    }
}

proof fn lemma_pow16_bound(k: nat)
    requires
        k < 16,
    ensures
        pow16(k) * 16 <= 0x1_0000_0000_0000_0000,
    decreases k,
{
    if k > 0 {
        lemma_pow16_bound((k - 1) as nat);
    } else {
    }
    reveal_with_fuel(pow16, 16);
    assert(pow16(15) * 16 == 0x1_0000_0000_0000_0000);
    lemma_pow16_monotone(k, 15);
}

proof fn lemma_pow16_monotone(a: nat, b: nat)
    requires
        a <= b,
    ensures
        pow16(a) <= pow16(b),
    decreases b,
{
    if a < b {
        lemma_pow16_monotone(a, (b - 1) as nat);
    }
}

/// Formatting a number in decimal and reading it back gives the number.
pub proof fn law_decimal_roundtrip(n: u64)
    ensures
        all_digits(dec_digits(n as nat)),
        digits_value(dec_digits(n as nat)) == n,
        digit_prefix_len(dec_digits(n as nat)) == dec_digits(n as nat).len(),
{
    lemma_dec_digits_are_digits(n as nat);
    lemma_digits_value_of_dec_digits(n as nat);
    let d = dec_digits(n as nat);
    assert(d.take(d.len() as int) =~= d);
    lemma_digit_prefix_len(d, d.len() as int);
}

} // verus!
