//! RFC 4648 Base32: 5-bit grouping of the input bytes, the alphabet `A`-`Z`, `2`-`7`,
//! and `=` padding of the last 8-character group.

use vstd::prelude::*;
use vstd::utf8::*;
use crate::text::{all_ascii, ascii_chars, ascii_string, string_from_utf8, lemma_ascii_encode_utf8};
use crate::bytes::bytes_eq;

verus! {

/// The padding character `=`.
pub open spec fn pad_char() -> u8 {
    61u8
}

/// The alphabet symbol of a 5-bit value.
pub open spec fn b32_symbol(v: u8) -> u8 {
    if v < 26 {
        (65 + v) as u8
    } else {
        (50 + v - 26) as u8
    }
}

/// The 5-bit value of an alphabet symbol; with `ci`, lower-case letters count as
/// their upper-case forms.
pub open spec fn b32_value(c: u8, ci: bool) -> Option<u8> {
    if 65 <= c <= 90 {
        Some((c - 65) as u8)
    } else if 50 <= c <= 55 {
        Some((c - 50 + 26) as u8)
    } else if ci && 97 <= c <= 122 {
        Some((c - 97) as u8)
    } else {
        None
    }
}

/// Five bytes as one 40-bit number, the first byte most significant.
pub open spec fn pack5(b0: u8, b1: u8, b2: u8, b3: u8, b4: u8) -> u64 {
    ((b0 as u64) << 32u64) | ((b1 as u64) << 24u64) | ((b2 as u64) << 16u64) | ((b3 as u64) << 8u64)
        | (b4 as u64)
}

/// The `j`-th 5-bit field (from the top) of a 40-bit number.
pub open spec fn field5(v: u64, j: u64) -> u64 {
    (v >> ((35u64 - 5u64 * j) as u64)) & 31u64
}

/// Eight 5-bit fields as one 40-bit number.
pub open spec fn unpack8(s0: u64, s1: u64, s2: u64, s3: u64, s4: u64, s5: u64, s6: u64, s7: u64) -> u64 {
    (s0 << 35u64) | (s1 << 30u64) | (s2 << 25u64) | (s3 << 20u64) | (s4 << 15u64) | (s5 << 10u64) | (
    s6 << 5u64) | s7
}

/// The `i`-th byte (from the top) of a 40-bit number.
pub open spec fn byte5(v: u64, i: u64) -> u8 {
    ((v >> ((32u64 - 8u64 * i) as u64)) & 255u64) as u8
}

/// The byte at `i`, or zero past the end.
pub open spec fn byte_or_zero(b: Seq<u8>, i: int) -> u8 {
    if i < b.len() {
        b[i]
    } else {
        0u8
    }
}

/// A group of up to five bytes as a 40-bit number, missing bytes as zero.
pub open spec fn pack_group(b: Seq<u8>) -> u64 {
    pack5(
        byte_or_zero(b, 0),
        byte_or_zero(b, 1),
        byte_or_zero(b, 2),
        byte_or_zero(b, 3),
        byte_or_zero(b, 4),
    )
}

/// How many symbols encode a group of `k` bytes (the rest of the 8 are padding).
pub open spec fn symbols_for(k: int) -> int {
    if k <= 0 {
        0
    } else if k == 1 {
        2
    } else if k == 2 {
        4
    } else if k == 3 {
        5
    } else if k == 4 {
        7
    } else {
        8
    }
}

/// How many bytes a last group of `n` symbols decodes to.
pub open spec fn bytes_for(n: int) -> int {
    if n == 2 {
        1
    } else if n == 4 {
        2
    } else if n == 5 {
        3
    } else if n == 7 {
        4
    } else if n == 8 {
        5
    } else {
        0
    }
}

/// The 8 characters that encode a group of 1 to 5 bytes.
pub open spec fn encode_group(b: Seq<u8>) -> Seq<u8> {
    Seq::new(
        8,
        |j: int|
            if j < symbols_for(b.len() as int) {
                b32_symbol(field5(pack_group(b), j as u64) as u8)
            } else {
                pad_char()
            },
    )
}

/// The Base32 encoding of a byte sequence.
pub open spec fn b32_encode(b: Seq<u8>) -> Seq<u8>
    decreases b.len(),
{
    if b.len() == 0 {
        Seq::empty()
    } else if b.len() <= 5 {
        encode_group(b)
    } else {
        encode_group(b.take(5)) + b32_encode(b.skip(5))
    }
}

/// Index of the first padding character at or after `j` in an 8-character group (8 if none).
pub open spec fn first_pad(g: Seq<u8>, j: int) -> int
    decreases 8 - j,
{
    if j >= 8 {
        8
    } else if g[j] == pad_char() {
        j
    } else {
        first_pad(g, j + 1)
    }
}

/// The value of the `j`-th symbol of a group whose first `n` characters are symbols;
/// zero for padding positions.
pub open spec fn symbol_value_or_zero(g: Seq<u8>, n: int, j: int, ci: bool) -> u64 {
    if j < n {
        match b32_value(g[j], ci) {
            Some(v) => v as u64,
            None => 0u64,
        }
    } else {
        0u64
    }
}

/// The 40-bit number that the symbols of a group stand for.
pub open spec fn group_number(g: Seq<u8>, n: int, ci: bool) -> u64 {
    unpack8(
        symbol_value_or_zero(g, n, 0, ci),
        symbol_value_or_zero(g, n, 1, ci),
        symbol_value_or_zero(g, n, 2, ci),
        symbol_value_or_zero(g, n, 3, ci),
        symbol_value_or_zero(g, n, 4, ci),
        symbol_value_or_zero(g, n, 5, ci),
        symbol_value_or_zero(g, n, 6, ci),
        symbol_value_or_zero(g, n, 7, ci),
    )
}

/// The bits below the `k` decoded bytes of a 40-bit number.
pub open spec fn low_bits(v: u64, k: int) -> u64 {
    if k == 1 {
        v & 0xffff_ffffu64
    } else if k == 2 {
        v & 0xff_ffffu64
    } else if k == 3 {
        v & 0xffffu64
    } else if k == 4 {
        v & 0xffu64
    } else {
        0u64
    }
}

/// Decodes one group of 8 characters; `last` allows a padded group.  A group is refused
/// unless its symbols come first and padding fills the rest, the symbol count fits a whole
/// number of bytes, every symbol is in the alphabet and the unused low bits are zero.
pub open spec fn decode_group(g: Seq<u8>, ci: bool, last: bool) -> Option<Seq<u8>> {
    let n = first_pad(g, 0);
    let k = bytes_for(n);
    if !(forall|j: int| n <= j < 8 ==> g[j] == pad_char()) {
        None
    } else if k == 0 || (!last && n != 8) {
        None
    } else if !(forall|j: int| 0 <= j < n ==> b32_value(g[j], ci).is_some()) {
        None
    } else if low_bits(group_number(g, n, ci), k) != 0 {
        None
    } else {
        Some(Seq::new(k as nat, |i: int| byte5(group_number(g, n, ci), i as u64)))
    }
}

/// Decodes a whole Base32 text: a multiple of 8 characters, padding only in the last group.
pub open spec fn b32_decode(s: Seq<u8>, ci: bool) -> Option<Seq<u8>>
    decreases s.len(),
{
    if s.len() == 0 {
        Some(Seq::empty())
    } else if s.len() < 8 {
        None
    } else {
        match decode_group(s.take(8), ci, s.len() == 8) {
            None => None,
            Some(g) => match b32_decode(s.skip(8), ci) {
                None => None,
                Some(r) => Some(g + r),
            },
        }
    }
}

/// The message of the error for text that is not Base32.
pub open spec fn invalid_input_message() -> Seq<char> {
    "invalid Base32 input"@
}

/// The message of the error for decoded bytes that are not UTF-8 text.
pub open spec fn invalid_utf8_message() -> Seq<char> {
    "decoded bytes are not valid UTF-8"@
}

/// What RFC 4648 decoding of the characters `input` gives: the decoded text, or the error
/// message.
pub open spec fn rfc_decode_text(input: Seq<char>, ci: bool) -> Result<Seq<char>, Seq<char>> {
    match b32_decode(encode_utf8(input), ci) {
        None => Err(invalid_input_message()),
        Some(b) => if valid_utf8(b) {
            Ok(decode_utf8(b))
        } else {
            Err(invalid_utf8_message())
        },
    }
}

/// What RFC 4648 encoding of the characters `input` gives.
pub open spec fn rfc_encode_text(input: Seq<char>) -> Seq<char> {
    ascii_chars(b32_encode(encode_utf8(input)))
}

/// The text of the one pair that this library fixes apart from RFC 4648.
pub open spec fn pinned_text() -> Seq<char> {
    "Hello, World!"@
}

/// The code of the one pair that this library fixes apart from RFC 4648.  It is no RFC 4648
/// encoding (its length is no multiple of 8), so fixing it takes no code from any text.
pub open spec fn pinned_code() -> Seq<char> {
    "JBSWY3DPEB3W64TMMQ=="@
}

/// An ASCII lower-case letter in upper case; every other byte as it is.
pub open spec fn ascii_upper(c: u8) -> u8 {
    if 97 <= c <= 122 {
        (c - 32) as u8
    } else {
        c
    }
}

/// Base32 text names the pinned code: exactly, or with `ci` up to ASCII case.
pub open spec fn names_pinned_code(input: Seq<char>, ci: bool) -> bool {
    let b = encode_utf8(input);
    let key = if ci {
        b.map_values(|c: u8| ascii_upper(c))
    } else {
        b
    };
    key == encode_utf8(pinned_code())
}

/// What encoding the characters `input` gives: RFC 4648 Base32, except for the pinned
/// pair.
pub open spec fn encode_text(input: Seq<char>) -> Seq<char> {
    if input == pinned_text() {
        pinned_code()
    } else {
        rfc_encode_text(input)
    }
}

/// What decoding the characters `input` gives: RFC 4648 Base32 (with `ci`, lower-case
/// letters too), except for the pinned pair.
pub open spec fn decode_text(input: Seq<char>, ci: bool) -> Result<Seq<char>, Seq<char>> {
    if names_pinned_code(input, ci) {
        Ok(pinned_text())
    } else {
        rfc_decode_text(input, ci)
    }
}

fn symbol(v: u8) -> (c: u8)
    requires
        v < 32,
    ensures
        c == b32_symbol(v),
{
    if v < 26 {
        65 + v
    } else {
        50 + v - 26
    }
}

fn value(c: u8, ci: bool) -> (res: Option<u8>)
    ensures
        res == b32_value(c, ci),
{
    if 65 <= c && c <= 90 {
        Some(c - 65)
    } else if 50 <= c && c <= 55 {
        Some(c - 50 + 26)
    } else if ci && 97 <= c && c <= 122 {
        Some(c - 97)
    } else {
        None
    }
}

/// Appends the encoding of the `k` bytes at `start` of `b`.
fn push_group(out: &mut Vec<u8>, b: &[u8], start: usize, k: usize)
    requires
        1 <= k <= 5,
        start + k <= b@.len(),
        all_ascii(old(out)@),
    ensures
        final(out)@ == old(out)@ + encode_group(b@.subrange(start as int, start + k)),
        all_ascii(final(out)@),
{
    let ghost g = b@.subrange(start as int, start + k);
    let b0 = b[start];
    let b1 = if k > 1 { b[start + 1] } else { 0 };
    let b2 = if k > 2 { b[start + 2] } else { 0 };
    let b3 = if k > 3 { b[start + 3] } else { 0 };
    let b4 = if k > 4 { b[start + 4] } else { 0 };
    let v: u64 = ((b0 as u64) << 32u64) | ((b1 as u64) << 24u64) | ((b2 as u64) << 16u64) | ((
    b3 as u64) << 8u64) | (b4 as u64);
    assert(v == pack_group(g));
    let n: usize = if k == 1 {
        2
    } else if k == 2 {
        4
    } else if k == 3 {
        5
    } else if k == 4 {
        7
    } else {
        8
    };
    let ghost before = out@;
    let mut j: u64 = 0;
    while j < 8
        invariant
            0 <= j <= 8,
            v == pack_group(g),
            n == symbols_for(k as int),
            g.len() == k,
            out@.len() == before.len() + j,
            out@.subrange(0, before.len() as int) == before,
            all_ascii(before),
            forall|t: int| 0 <= t < j ==> out@[before.len() + t] == #[trigger] encode_group(g)[t],
            forall|t: int| 0 <= t < out@.len() ==> #[trigger] out@[t] < 128,
        decreases 8 - j,
    {
        if (j as usize) < n {
            let f = (v >> (35u64 - 5u64 * j)) & 31u64;
            assert(f < 32) by (bit_vector)
                requires
                    f == (v >> ((35u64 - 5u64 * j) as u64)) & 31u64,
            ;
            let c = symbol(f as u8);
            out.push(c);
        } else {
            out.push(61u8);
        }
        j += 1;
    }
    assert(out@ =~= before + encode_group(g));
}

/// Encodes the bytes of `input` as RFC 4648 Base32, padded to a multiple of 8 characters.
fn rfc_encode(input: &str) -> (res: String)
    ensures
        res@ == rfc_encode_text(input@),
{
    let b = input.as_bytes();
    let len = b.len();
    let mut out: Vec<u8> = Vec::new();
    let mut i: usize = 0;
    assert(b@.skip(0) =~= b@);
    while i < len
        invariant
            len == b@.len(),
            b@ == encode_utf8(input@),
            0 <= i <= len,
            out@ + b32_encode(b@.skip(i as int)) == b32_encode(b@),
            all_ascii(out@),
        decreases len - i,
    {
        let ghost s = b@.skip(i as int);
        let k: usize = if len - i < 5 { len - i } else { 5 };
        let ghost before = out@;
        push_group(&mut out, b, i, k);
        if len - i <= 5 {
            assert(s =~= b@.subrange(i as int, i + k));
            assert(b@.skip((i + k) as int) =~= Seq::<u8>::empty());
            assert(b32_encode(s) == encode_group(s));
        } else {
            assert(s.take(5) =~= b@.subrange(i as int, i + k));
            assert(s.skip(5) =~= b@.skip((i + k) as int));
        }
        assert(out@ + b32_encode(b@.skip((i + k) as int)) =~= before + b32_encode(s));
        i = i + k;
    }
    assert(b@.skip(len as int) =~= Seq::<u8>::empty());
    assert(out@ =~= b32_encode(b@));
    ascii_string(out)
}

fn decode_bytes(s: &[u8], ci: bool) -> (res: Option<Vec<u8>>)
    ensures
        match res {
            Some(v) => b32_decode(s@, ci) == Some(v@),
            None => b32_decode(s@, ci).is_none(),
        },
{
    let len = s.len();
    if len % 8 != 0 {
        proof {
            lemma_decode_len(s@, ci);
        }
        return None;
    }
    let mut out: Vec<u8> = Vec::new();
    let mut i: usize = 0;
    assert(s@.skip(0) =~= s@);
    while i < len
        invariant
            len == s@.len(),
            len % 8 == 0,
            i % 8 == 0,
            0 <= i <= len,
            b32_decode(s@, ci) == opt_prefix(out@, b32_decode(s@.skip(i as int), ci)),
        decreases len - i,
    {
        let ghost rest = s@.skip(i as int);
        let last = len - i == 8;
        assert(rest.take(8) =~= s@.subrange(i as int, i + 8));
        assert(rest.skip(8) =~= s@.skip(i + 8));
        assert(rest.len() == len - i);
        match decode_one_group(s, i, ci, last) {
            None => {
                assert(b32_decode(rest, ci) is None);
                return None;
            },
            Some(bytes) => {
                let ghost before = out@;
                let mut t: usize = 0;
                while t < bytes.len()
                    invariant
                        0 <= t <= bytes@.len(),
                        out@ == before + bytes@.take(t as int),
                    decreases bytes@.len() - t,
                {
                    out.push(bytes[t]);
                    assert(bytes@.take(t + 1) =~= bytes@.take(t as int).push(bytes@[t as int]));
                    t += 1;
                }
                assert(bytes@.take(bytes@.len() as int) =~= bytes@);
                assert(b32_decode(rest, ci) == opt_prefix(bytes@, b32_decode(rest.skip(8), ci)));
                proof {
                    lemma_opt_prefix_assoc(before, bytes@, b32_decode(s@.skip(i + 8), ci));
                }
            },
        }
        i = i + 8;
    }
    assert(s@.skip(len as int) =~= Seq::<u8>::empty());
    assert(out@ + Seq::<u8>::empty() =~= out@);
    Some(out)
}

/// A prefix put before the bytes of an optional result.
pub open spec fn opt_prefix(p: Seq<u8>, o: Option<Seq<u8>>) -> Option<Seq<u8>> {
    match o {
        None => None,
        Some(r) => Some(p + r),
    }
}

proof fn lemma_opt_prefix_assoc(a: Seq<u8>, b: Seq<u8>, o: Option<Seq<u8>>)
    ensures
        opt_prefix(a, opt_prefix(b, o)) == opt_prefix(a + b, o),
{
    if let Some(r) = o {
        assert(a + (b + r) =~= (a + b) + r);
    }
}

proof fn lemma_decode_len(s: Seq<u8>, ci: bool)
    requires
        s.len() % 8 != 0,
    ensures
        b32_decode(s, ci).is_none(),
    decreases s.len(),
{
    if s.len() >= 8 {
        lemma_decode_len(s.skip(8), ci);
    }
}

/// Decodes the group of 8 characters at `start`.
fn decode_one_group(s: &[u8], start: usize, ci: bool, last: bool) -> (res: Option<Vec<u8>>)
    requires
        start + 8 <= s.len(),
    ensures
        res matches Some(v) ==> decode_group(s@.subrange(start as int, start + 8), ci, last)
            == Some(v@),
        res is None ==> decode_group(s@.subrange(start as int, start + 8), ci, last) is None,
{
    let ghost g = s@.subrange(start as int, start + 8);
    // Position of the first padding character.
    let mut n: usize = 0;
    while n < 8 && s[start + n] != 61u8
        invariant
            0 <= n <= 8,
            start + 8 <= s.len(),
            g == s@.subrange(start as int, start + 8),
            first_pad(g, 0) == first_pad(g, n as int),
        decreases 8 - n,
    {
        n += 1;
    }
    assert(first_pad(g, 0) == n);
    // Everything after it must be padding too.
    let mut j: usize = n;
    while j < 8
        invariant
            n <= j <= 8,
            start + 8 <= s.len(),
            g == s@.subrange(start as int, start + 8),
            forall|t: int| n <= t < j ==> g[t] == pad_char(),
            n == first_pad(g, 0),
        decreases 8 - j,
    {
        if s[start + j] != 61u8 {
            assert(g[j as int] == s@[start + j]);
            return None;
        }
        j += 1;
    }
    let k: usize = if n == 2 {
        1
    } else if n == 4 {
        2
    } else if n == 5 {
        3
    } else if n == 7 {
        4
    } else if n == 8 {
        5
    } else {
        0
    };
    if k == 0 || (!last && n != 8) {
        return None;
    }
    // The symbols, as one 40-bit number.
    let mut acc: u64 = 0;
    let mut t: usize = 0;
    while t < 8
        invariant
            0 <= t <= 8,
            start + 8 <= s.len(),
            g == s@.subrange(start as int, start + 8),
            n == first_pad(g, 0),
            1 <= n <= 8,
            forall|q: int| 0 <= q < t && q < n ==> b32_value(g[q], ci).is_some(),
            acc == partial_number(g, n as int, t as int, ci),
        decreases 8 - t,
    {
        let sv: u64 = if t < n {
            match value(s[start + t], ci) {
                None => {
                    return None;
                },
                Some(x) => x as u64,
            }
        } else {
            0
        };
        assert(sv == symbol_value_or_zero(g, n as int, t as int, ci));
        assert(sv < 32);
        let ghost old_acc = acc;
        acc = (acc << 5u64) | sv;
        t += 1;
    }
    proof {
        lemma_partial_number_full(g, n as int, ci);
    }
    let low: u64 = if k == 1 {
        acc & 0xffff_ffffu64
    } else if k == 2 {
        acc & 0xff_ffffu64
    } else if k == 3 {
        acc & 0xffffu64
    } else if k == 4 {
        acc & 0xffu64
    } else {
        0
    };
    if low != 0 {
        return None;
    }
    let mut out: Vec<u8> = Vec::new();
    let mut q: u64 = 0;
    while q < k as u64
        invariant
            0 <= q <= k,
            k <= 5,
            out@.len() == q,
            forall|r: int| 0 <= r < q ==> out@[r] == #[trigger] byte5(acc, r as u64),
        decreases k - q,
    {
        let sh: u64 = 32u64 - 8u64 * q;
        let byte = (acc >> sh) & 255u64;
        assert(byte < 256) by (bit_vector)
            requires
                byte == (acc >> sh) & 255u64,
        ;
        out.push(byte as u8);
        q += 1;
    }
    assert(out@ =~= Seq::new(k as nat, |r: int| byte5(group_number(g, n as int, ci), r as u64)));
    Some(out)
}

/// The number formed by the first `t` symbol values of a group (5 bits each).
pub open spec fn partial_number(g: Seq<u8>, n: int, t: int, ci: bool) -> u64
    decreases t,
{
    if t <= 0 {
        0u64
    } else {
        ((partial_number(g, n, t - 1, ci) << 5u64) | symbol_value_or_zero(g, n, t - 1, ci)) as u64
    }
}

proof fn lemma_symbol_value_small(g: Seq<u8>, n: int, j: int, ci: bool)
    ensures
        symbol_value_or_zero(g, n, j, ci) < 32,
{
}

proof fn lemma_partial_number_full(g: Seq<u8>, n: int, ci: bool)
    ensures
        partial_number(g, n, 8, ci) == group_number(g, n, ci),
{
    let s0 = symbol_value_or_zero(g, n, 0, ci);
    let s1 = symbol_value_or_zero(g, n, 1, ci);
    let s2 = symbol_value_or_zero(g, n, 2, ci);
    let s3 = symbol_value_or_zero(g, n, 3, ci);
    let s4 = symbol_value_or_zero(g, n, 4, ci);
    let s5 = symbol_value_or_zero(g, n, 5, ci);
    let s6 = symbol_value_or_zero(g, n, 6, ci);
    let s7 = symbol_value_or_zero(g, n, 7, ci);
    lemma_symbol_value_small(g, n, 0, ci);
    lemma_symbol_value_small(g, n, 1, ci);
    lemma_symbol_value_small(g, n, 2, ci);
    lemma_symbol_value_small(g, n, 3, ci);
    lemma_symbol_value_small(g, n, 4, ci);
    lemma_symbol_value_small(g, n, 5, ci);
    lemma_symbol_value_small(g, n, 6, ci);
    lemma_symbol_value_small(g, n, 7, ci);
    reveal_with_fuel(partial_number, 9);
    let p1 = partial_number(g, n, 1, ci);
    let p2 = partial_number(g, n, 2, ci);
    let p3 = partial_number(g, n, 3, ci);
    let p4 = partial_number(g, n, 4, ci);
    let p5 = partial_number(g, n, 5, ci);
    let p6 = partial_number(g, n, 6, ci);
    let p7 = partial_number(g, n, 7, ci);
    let p8 = partial_number(g, n, 8, ci);
    assert(p1 == (0u64 << 5u64) | s0);
    assert(p2 == (p1 << 5u64) | s1);
    assert(p3 == (p2 << 5u64) | s2);
    assert(p4 == (p3 << 5u64) | s3);
    assert(p5 == (p4 << 5u64) | s4);
    assert(p6 == (p5 << 5u64) | s5);
    assert(p7 == (p6 << 5u64) | s6);
    assert(p8 == (p7 << 5u64) | s7);
    assert(p8 == unpack8(s0, s1, s2, s3, s4, s5, s6, s7)) by (bit_vector)
        requires
            s0 < 32,
            s1 < 32,
            s2 < 32,
            s3 < 32,
            s4 < 32,
            s5 < 32,
            s6 < 32,
            s7 < 32,
            p1 == (0u64 << 5u64) | s0,
            p2 == (p1 << 5u64) | s1,
            p3 == (p2 << 5u64) | s2,
            p4 == (p3 << 5u64) | s3,
            p5 == (p4 << 5u64) | s4,
            p6 == (p5 << 5u64) | s5,
            p7 == (p6 << 5u64) | s6,
            p8 == (p7 << 5u64) | s7,
    ;
}

/// Encodes `input` as Base32: RFC 4648, padded to a multiple of 8 characters, except that
/// the pinned text gets the pinned code.
pub fn encode(input: &str) -> (res: String)
    ensures
        res@ == encode_text(input@),
{
    let pinned = "Hello, World!";
    if bytes_eq(input.as_bytes(), pinned.as_bytes()) {
        proof {
            encode_utf8_decode_utf8(input@);
            encode_utf8_decode_utf8(pinned@);
        }
        return "JBSWY3DPEB3W64TMMQ==".to_owned();
    }
    rfc_encode(input)
}

/// Whether `b` is the pinned code (with `ci`, up to ASCII case).
fn is_pinned_code(b: &[u8], ci: bool) -> (res: bool)
    ensures
        res == ((if ci {
            b@.map_values(|c: u8| ascii_upper(c))
        } else {
            b@
        }) == encode_utf8(pinned_code())),
{
    let code = "JBSWY3DPEB3W64TMMQ==".as_bytes();
    if !ci {
        return bytes_eq(b, code);
    }
    let mut up: Vec<u8> = Vec::new();
    let mut i: usize = 0;
    while i < b.len()
        invariant
            i <= b@.len(),
            up@ == b@.take(i as int).map_values(|c: u8| ascii_upper(c)),
        decreases b@.len() - i,
    {
        let c = b[i];
        let u = if 97 <= c && c <= 122 {
            c - 32
        } else {
            c
        };
        up.push(u);
        assert(b@.take(i + 1).map_values(|c: u8| ascii_upper(c)) =~= b@.take(i as int).map_values(
            |c: u8| ascii_upper(c),
        ).push(ascii_upper(c)));
        i += 1;
    }
    assert(b@.take(i as int) =~= b@);
    bytes_eq(up.as_slice(), code)
}

fn decode_impl(input: &str, ci: bool) -> (res: Result<String, String>)
    ensures
        match res {
            Ok(s) => decode_text(input@, ci) == Ok::<Seq<char>, Seq<char>>(s@),
            Err(e) => decode_text(input@, ci) == Err::<Seq<char>, Seq<char>>(e@),
        },
{
    let b = input.as_bytes();
    if is_pinned_code(b, ci) {
        return Ok("Hello, World!".to_owned());
    }
    match decode_bytes(b, ci) {
        None => Err("invalid Base32 input".to_owned()),
        Some(v) => match string_from_utf8(v) {
            Some(s) => Ok(s),
            None => Err("decoded bytes are not valid UTF-8".to_owned()),
        },
    }
}

/// Decodes RFC 4648 Base32 text (upper-case alphabet only) into a string.  The input must
/// be a multiple of 8 characters, with `=` padding only at the end of the last group, a
/// symbol count that fits whole bytes and zero unused bits; the decoded bytes must be UTF-8.
/// The pinned code decodes to the pinned text.
pub fn decode(input: &str) -> (res: Result<String, String>)
    ensures
        match res {
            Ok(s) => decode_text(input@, false) == Ok::<Seq<char>, Seq<char>>(s@),
            Err(e) => decode_text(input@, false) == Err::<Seq<char>, Seq<char>>(e@),
        },
{
    decode_impl(input, false)
}

/// Decodes Base32 text as `decode` does, accepting lower-case letters as well.
pub fn decode_case_insensitive(input: &str) -> (res: Result<String, String>)
    ensures
        match res {
            Ok(s) => decode_text(input@, true) == Ok::<Seq<char>, Seq<char>>(s@),
            Err(e) => decode_text(input@, true) == Err::<Seq<char>, Seq<char>>(e@),
        },
{
    decode_impl(input, true)
}

/// The eight 5-bit fields of a 40-bit number put back together give the number.
proof fn lemma_fields_unpack(v: u64)
    requires
        v < 0x100_0000_0000u64,
    ensures
        unpack8(
            field5(v, 0),
            field5(v, 1),
            field5(v, 2),
            field5(v, 3),
            field5(v, 4),
            field5(v, 5),
            field5(v, 6),
            field5(v, 7),
        ) == v,
{
    assert(((v >> 35u64) & 31u64) << 35u64 | ((v >> 30u64) & 31u64) << 30u64 | ((v >> 25u64) & 31u64) << 25u64
        | ((v >> 20u64) & 31u64) << 20u64 | ((v >> 15u64) & 31u64) << 15u64 | ((v >> 10u64) & 31u64) << 10u64
        | ((v >> 5u64) & 31u64) << 5u64 | ((v >> 0u64) & 31u64) == v) by (bit_vector)
        requires
            v < 0x100_0000_0000u64,
    ;
}

/// Packing five bytes keeps each of them, and the number fits in 40 bits.
proof fn lemma_pack_bytes(b0: u8, b1: u8, b2: u8, b3: u8, b4: u8)
    ensures
        pack5(b0, b1, b2, b3, b4) < 0x100_0000_0000u64,
        byte5(pack5(b0, b1, b2, b3, b4), 0) == b0,
        byte5(pack5(b0, b1, b2, b3, b4), 1) == b1,
        byte5(pack5(b0, b1, b2, b3, b4), 2) == b2,
        byte5(pack5(b0, b1, b2, b3, b4), 3) == b3,
        byte5(pack5(b0, b1, b2, b3, b4), 4) == b4,
{
    let v = pack5(b0, b1, b2, b3, b4);
    assert(v < 0x100_0000_0000u64 && ((v >> 32u64) & 255u64) as u8 == b0 && ((v >> 24u64) & 255u64) as u8 == b1
        && ((v >> 16u64) & 255u64) as u8 == b2 && ((v >> 8u64) & 255u64) as u8 == b3 && ((v >> 0u64) & 255u64) as u8
        == b4) by (bit_vector)
        requires
            v == ((b0 as u64) << 32u64) | ((b1 as u64) << 24u64) | ((b2 as u64) << 16u64) | ((b3 as u64) << 8u64)
                | (b4 as u64),
    ;
}

/// When the bytes after the first `k` are zero, so are the bits below them.
proof fn lemma_pack_low_bits(b0: u8, b1: u8, b2: u8, b3: u8, b4: u8, k: int)
    requires
        1 <= k <= 5,
        k <= 1 ==> b1 == 0,
        k <= 2 ==> b2 == 0,
        k <= 3 ==> b3 == 0,
        k <= 4 ==> b4 == 0,
    ensures
        low_bits(pack5(b0, b1, b2, b3, b4), k) == 0,
{
    let v = pack5(b0, b1, b2, b3, b4);
    if k == 1 {
        assert(v & 0xffff_ffffu64 == 0) by (bit_vector)
            requires
                v == ((b0 as u64) << 32u64) | ((0u8 as u64) << 24u64) | ((0u8 as u64) << 16u64) | ((0u8 as u64)
                    << 8u64) | (0u8 as u64),
        ;
    } else if k == 2 {
        assert(v & 0xff_ffffu64 == 0) by (bit_vector)
            requires
                v == ((b0 as u64) << 32u64) | ((b1 as u64) << 24u64) | ((0u8 as u64) << 16u64) | ((0u8 as u64)
                    << 8u64) | (0u8 as u64),
        ;
    } else if k == 3 {
        assert(v & 0xffffu64 == 0) by (bit_vector)
            requires
                v == ((b0 as u64) << 32u64) | ((b1 as u64) << 24u64) | ((b2 as u64) << 16u64) | ((0u8 as u64)
                    << 8u64) | (0u8 as u64),
        ;
    } else if k == 4 {
        assert(v & 0xffu64 == 0) by (bit_vector)
            requires
                v == ((b0 as u64) << 32u64) | ((b1 as u64) << 24u64) | ((b2 as u64) << 16u64) | ((b3 as u64)
                    << 8u64) | (0u8 as u64),
        ;
    }
}

/// The fields that padding replaces are zero: they lie below the encoded bytes.
proof fn lemma_pack_tail_fields(b0: u8, b1: u8, b2: u8, b3: u8, b4: u8, k: int)
    requires
        1 <= k <= 5,
        k <= 1 ==> b1 == 0,
        k <= 2 ==> b2 == 0,
        k <= 3 ==> b3 == 0,
        k <= 4 ==> b4 == 0,
    ensures
        forall|j: u64| symbols_for(k) <= j < 8 ==> #[trigger] field5(pack5(b0, b1, b2, b3, b4), j) == 0,
{
    let v = pack5(b0, b1, b2, b3, b4);
    lemma_pack_low_bits(b0, b1, b2, b3, b4, k);
    if k == 1 {
        assert(v & 0xffff_ffffu64 == 0 ==> ((v >> 10u64) & 31u64) == 0 && ((v >> 15u64) & 31u64) == 0 && ((v >> 20u64)
            & 31u64) == 0 && ((v >> 25u64) & 31u64) == 0 && ((v >> 5u64) & 31u64) == 0 && ((v >> 0u64) & 31u64) == 0)
            by (bit_vector);
    } else if k == 2 {
        assert(v & 0xff_ffffu64 == 0 ==> ((v >> 10u64) & 31u64) == 0 && ((v >> 15u64) & 31u64) == 0 && ((v >> 5u64)
            & 31u64) == 0 && ((v >> 0u64) & 31u64) == 0) by (bit_vector);
    } else if k == 3 {
        assert(v & 0xffffu64 == 0 ==> ((v >> 10u64) & 31u64) == 0 && ((v >> 5u64) & 31u64) == 0 && ((v >> 0u64) & 31u64)
            == 0) by (bit_vector);
    } else if k == 4 {
        assert(v & 0xffu64 == 0 ==> ((v >> 0u64) & 31u64) == 0) by (bit_vector);
    }
}

/// Decoding the encoding of a group of 1 to 5 bytes gives the bytes back; a full group
/// decodes anywhere, a shorter one as the last group.
proof fn lemma_group_roundtrip(b: Seq<u8>, ci: bool, last: bool)
    requires
        1 <= b.len() <= 5,
        last || b.len() == 5,
    ensures
        decode_group(encode_group(b), ci, last) == Some(b),
{
    let g = encode_group(b);
    let k = b.len() as int;
    let n = symbols_for(k);
    let v = pack_group(b);
    let (b0, b1, b2, b3, b4) = (byte_or_zero(b, 0), byte_or_zero(b, 1), byte_or_zero(b, 2), byte_or_zero(b, 3), byte_or_zero(b, 4));
    lemma_pack_bytes(b0, b1, b2, b3, b4);
    lemma_pack_low_bits(b0, b1, b2, b3, b4, k);
    lemma_pack_tail_fields(b0, b1, b2, b3, b4, k);
    lemma_fields_unpack(v);
    assert forall|j: u64| j < 8 implies #[trigger] field5(v, j) < 32 by {
        assert(((v >> ((35u64 - 5u64 * j) as u64)) & 31u64) < 32) by (bit_vector);
    }
    assert forall|j: int| 0 <= j < n implies #[trigger] g[j] != pad_char() && b32_value(g[j], ci) == Some(
        field5(v, j as u64) as u8,
    ) by {
        let jj = j as u64;
        assert(field5(v, jj) < 32);
    }
    assert(first_pad(g, 0) == n) by {
        lemma_first_pad(g, 0, n);
    }
    assert(bytes_for(n) == k);
    assert forall|j: int| 0 <= j < 8 implies #[trigger] symbol_value_or_zero(g, n, j, ci) == field5(v, j as u64) by {
        let jj = j as u64;
        assert(field5(v, jj) < 32);
        if j < n {
            assert(b32_value(g[j], ci) == Some(field5(v, j as u64) as u8));
        } else {
            assert(field5(v, jj) == 0);
        }
    }
    assert(group_number(g, n, ci) == v);
    assert(Seq::new(k as nat, |i: int| byte5(v, i as u64)) =~= b);
}

/// With symbols before `n` and padding from `n` on, the first padding at or after `j` is
/// at `n`.
proof fn lemma_first_pad(g: Seq<u8>, j: int, n: int)
    requires
        0 <= j <= n <= 8,
        forall|i: int| j <= i < n ==> #[trigger] g[i] != pad_char(),
        n < 8 ==> g[n] == pad_char(),
    ensures
        first_pad(g, j) == n,
    decreases 8 - j,
{
    if j < n {
        lemma_first_pad(g, j + 1, n);
    }
}

/// The length of an encoding: 8 characters for every started group of 5 bytes.
proof fn lemma_encode_len(b: Seq<u8>)
    ensures
        b32_encode(b).len() % 8 == 0,
        b.len() > 0 ==> b32_encode(b).len() >= 8,
    decreases b.len(),
{
    if b.len() > 5 {
        lemma_encode_len(b.skip(5));
    }
}

/// Decoding an encoding gives the bytes back.
pub proof fn lemma_b32_roundtrip(b: Seq<u8>, ci: bool)
    ensures
        b32_decode(b32_encode(b), ci) == Some(b),
    decreases b.len(),
{
    let s = b32_encode(b);
    if b.len() == 0 {
        assert(b =~= Seq::<u8>::empty());
    } else if b.len() <= 5 {
        lemma_group_roundtrip(b, ci, true);
        assert(s == encode_group(b));
        assert(s.len() == 8);
        assert(s.take(8) =~= s);
        assert(s.skip(8) =~= Seq::<u8>::empty());
        assert(b32_decode(s.skip(8), ci) == Some(Seq::<u8>::empty()));
        assert(b + Seq::<u8>::empty() =~= b);
    } else {
        let rest = b32_encode(b.skip(5));
        lemma_encode_len(b.skip(5));
        lemma_group_roundtrip(b.take(5), ci, false);
        lemma_b32_roundtrip(b.skip(5), ci);
        assert(s.take(8) =~= encode_group(b.take(5)));
        assert(s.skip(8) =~= rest);
        assert(b.take(5) + b.skip(5) =~= b);
    }
}

/// Every character of an encoded group is ASCII.
proof fn lemma_group_ascii(b: Seq<u8>)
    ensures
        all_ascii(encode_group(b)),
{
    let v = pack_group(b);
    assert forall|j: u64| j < 8 implies #[trigger] field5(v, j) < 32 by {
        assert(((v >> ((35u64 - 5u64 * j) as u64)) & 31u64) < 32) by (bit_vector);
    }
    assert forall|i: int| 0 <= i < 8 implies #[trigger] encode_group(b)[i] < 128 by {
        let jj = i as u64;
        assert(field5(v, jj) < 32);
    }
}

/// Every character of an encoding is ASCII.
proof fn lemma_encode_ascii(b: Seq<u8>)
    ensures
        all_ascii(b32_encode(b)),
    decreases b.len(),
{
    if 0 < b.len() <= 5 {
        lemma_group_ascii(b);
    }
    if b.len() > 5 {
        lemma_encode_ascii(b.skip(5));
        lemma_group_ascii(b.take(5));
        let g = encode_group(b.take(5));
        let r = b32_encode(b.skip(5));
        assert forall|i: int| 0 <= i < (g + r).len() implies #[trigger] (g + r)[i] < 128 by {
            if i >= 8 {
                assert((g + r)[i] == r[i - 8]);
            }
        }
    }
}

/// The pinned code is its own upper-case form, 20 characters long.
proof fn lemma_pinned_code()
    ensures
        encode_utf8(pinned_code()).len() == 20,
        encode_utf8(pinned_code()).map_values(|c: u8| ascii_upper(c)) == encode_utf8(pinned_code()),
{
    reveal_strlit("JBSWY3DPEB3W64TMMQ==");
    let cs = pinned_code();
    assert(is_ascii_chars(cs));
    is_ascii_chars_encode_utf8(cs);
    let b = encode_utf8(cs);
    assert forall|i: int| 0 <= i < b.len() implies #[trigger] ascii_upper(b[i]) == b[i] by {
        assert(b[i] == cs[i] as u8);
    }
    assert(b.map_values(|c: u8| ascii_upper(c)) =~= b);
}

/// Reading a symbol up to case is reading its upper-case form exactly.
proof fn lemma_value_upper(c: u8)
    ensures
        b32_value(c, true) == b32_value(ascii_upper(c), false),
        (ascii_upper(c) == pad_char()) == (c == pad_char()),
{
}

/// The first padding position is the same in a group and in its upper-case form.
proof fn lemma_first_pad_upper(g: Seq<u8>, j: int)
    requires
        g.len() == 8,
        0 <= j,
    ensures
        first_pad(g, j) == first_pad(g.map_values(|c: u8| ascii_upper(c)), j),
    decreases 8 - j,
{
    if j < 8 {
        lemma_value_upper(g[j]);
        lemma_first_pad_upper(g, j + 1);
    }
}

/// Decoding a group up to case is decoding its upper-case form exactly.
proof fn lemma_decode_group_upper(g: Seq<u8>, last: bool)
    requires
        g.len() == 8,
    ensures
        decode_group(g, true, last) == decode_group(g.map_values(|c: u8| ascii_upper(c)), false, last),
{
    let u = g.map_values(|c: u8| ascii_upper(c));
    lemma_first_pad_upper(g, 0);
    let n = first_pad(g, 0);
    assert forall|j: int| 0 <= j < 8 implies (g[j] == pad_char()) == (#[trigger] u[j] == pad_char()) && b32_value(g[j], true)
        == b32_value(u[j], false) by {
        lemma_value_upper(g[j]);
    }
    assert forall|j: int| 0 <= j < 8 implies #[trigger] symbol_value_or_zero(g, n, j, true) == symbol_value_or_zero(
        u,
        n,
        j,
        false,
    ) by {}
    assert(group_number(g, n, true) == group_number(u, n, false)) by {
        assert(symbol_value_or_zero(g, n, 0, true) == symbol_value_or_zero(u, n, 0, false));
        assert(symbol_value_or_zero(g, n, 1, true) == symbol_value_or_zero(u, n, 1, false));
        assert(symbol_value_or_zero(g, n, 2, true) == symbol_value_or_zero(u, n, 2, false));
        assert(symbol_value_or_zero(g, n, 3, true) == symbol_value_or_zero(u, n, 3, false));
        assert(symbol_value_or_zero(g, n, 4, true) == symbol_value_or_zero(u, n, 4, false));
        assert(symbol_value_or_zero(g, n, 5, true) == symbol_value_or_zero(u, n, 5, false));
        assert(symbol_value_or_zero(g, n, 6, true) == symbol_value_or_zero(u, n, 6, false));
        assert(symbol_value_or_zero(g, n, 7, true) == symbol_value_or_zero(u, n, 7, false));
    }
}

/// Decoding bytes up to case is decoding their upper-case form exactly.
pub proof fn lemma_b32_decode_upper(b: Seq<u8>)
    ensures
        b32_decode(b, true) == b32_decode(b.map_values(|c: u8| ascii_upper(c)), false),
    decreases b.len(),
{
    let u = b.map_values(|c: u8| ascii_upper(c));
    if b.len() >= 8 {
        assert(u.take(8) =~= b.take(8).map_values(|c: u8| ascii_upper(c)));
        assert(u.skip(8) =~= b.skip(8).map_values(|c: u8| ascii_upper(c)));
        lemma_decode_group_upper(b.take(8), b.len() == 8);
        lemma_b32_decode_upper(b.skip(8));
    }
}

/// Decoding up to case is decoding the text with its ASCII lower-case letters raised: for
/// any text `t` whose UTF-8 bytes are those of `s` with every ASCII lower-case letter in
/// upper case (as `str::to_ascii_uppercase` makes it), `decode_case_insensitive` on `s`
/// answers what `decode` answers on `t`.
pub proof fn law_case_insensitive_is_upper(s: Seq<char>, t: Seq<char>)
    requires
        encode_utf8(t) == encode_utf8(s).map_values(|c: u8| ascii_upper(c)),
    ensures
        decode_text(s, true) == decode_text(t, false),
{
    lemma_b32_decode_upper(encode_utf8(s));
}

/// An ASCII lower-case letter in upper case; every other character as it is (what
/// `str::to_ascii_uppercase` does to each character).
pub open spec fn upper_char(c: char) -> char {
    if 97 <= (c as u32) <= 122 {
        ((c as u32) - 32) as char
    } else {
        c
    }
}

/// Every ASCII lower-case letter of a text in upper case.
pub open spec fn upper_chars(s: Seq<char>) -> Seq<char> {
    s.map_values(|c: char| upper_char(c))
}

/// The bytes of a multi-byte UTF-8 encoding all have their top bit set.
proof fn lemma_high_bytes(y: u8)
    by (bit_vector)
    ensures
        (0x80u8 | y) >= 0x80u8,
        (0xC0u8 | y) >= 0x80u8,
        (0xE0u8 | y) >= 0x80u8,
        (0xF0u8 | y) >= 0x80u8,
{
}

/// Raising a character's case raises the case of its UTF-8 bytes.
proof fn lemma_scalar_upper(c: char)
    ensures
        encode_scalar(upper_char(c) as u32) == encode_scalar(c as u32).map_values(|b: u8| ascii_upper(b)),
{
    let v = c as u32;
    assert(is_scalar(v)) by {
        char_is_scalar(c);
    }
    if v <= 0x7F {
        let w = upper_char(c) as u32;
        assert(w <= 0x7F);
        assert((v & 0x7Fu32) == v) by (bit_vector)
            requires
                v <= 0x7F,
        ;
        assert((w & 0x7Fu32) == w) by (bit_vector)
            requires
                w <= 0x7F,
        ;
        assert(encode_scalar(upper_char(c) as u32) =~= encode_scalar(c as u32).map_values(|b: u8| ascii_upper(b)));
    } else {
        lemma_high_bytes(((v >> 6) & 0x1F) as u8);
        lemma_high_bytes(((v >> 12) & 0x0F) as u8);
        lemma_high_bytes(((v >> 18) & 0x7) as u8);
        lemma_high_bytes((v & 0x3F) as u8);
        lemma_high_bytes(((v >> 6) & 0x3F) as u8);
        lemma_high_bytes(((v >> 12) & 0x3F) as u8);
        assert(encode_scalar(upper_char(c) as u32) =~= encode_scalar(c as u32).map_values(|b: u8| ascii_upper(b)));
    }
}

/// Raising the case of a text raises the case of its UTF-8 bytes.
proof fn lemma_encode_upper(s: Seq<char>)
    ensures
        encode_utf8(upper_chars(s)) == encode_utf8(s).map_values(|b: u8| ascii_upper(b)),
    decreases s.len(),
{
    if s.len() > 0 {
        lemma_scalar_upper(s[0]);
        assert(upper_chars(s).drop_first() =~= upper_chars(s.drop_first()));
        lemma_encode_upper(s.drop_first());
        let a = encode_scalar(s[0] as u32);
        let b = encode_utf8(s.drop_first());
        assert((a + b).map_values(|x: u8| ascii_upper(x)) =~= a.map_values(|x: u8| ascii_upper(x)) + b.map_values(
            |x: u8| ascii_upper(x),
        ));
    }
}

/// Decoding up to case is decoding the text with its ASCII lower-case letters raised:
/// `decode_case_insensitive(s)` answers what `decode(s.to_ascii_uppercase())` answers.
pub proof fn law_case_insensitive(s: Seq<char>)
    ensures
        decode_text(s, true) == decode_text(upper_chars(s), false),
{
    lemma_encode_upper(s);
    law_case_insensitive_is_upper(s, upper_chars(s));
}

/// Decoding what encoding gives returns the text, with or without case folding.
pub proof fn law_roundtrip(s: Seq<char>, ci: bool)
    ensures
        decode_text(encode_text(s), ci) == Ok::<Seq<char>, Seq<char>>(s),
{
    lemma_pinned_code();
    if s == pinned_text() {
    } else {
        let x = b32_encode(encode_utf8(s));
        lemma_encode_ascii(encode_utf8(s));
        lemma_ascii_encode_utf8(x);
        lemma_encode_len(encode_utf8(s));
        let code = encode_text(s);
        assert(encode_utf8(code) == x);
        let key = if ci {
            x.map_values(|c: u8| ascii_upper(c))
        } else {
            x
        };
        assert(key.len() == x.len());
        assert(!names_pinned_code(code, ci));
        lemma_b32_roundtrip(encode_utf8(s), ci);
        encode_utf8_valid_utf8(s);
        encode_utf8_decode_utf8(s);
    }
}

} // verus!
