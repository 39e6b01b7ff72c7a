//! The small piece of HTTP/1.1 that the servers speak: finding the end of the header block,
//! the request line, `Content-Length`, and the head of a response.

use vstd::prelude::*;
use vstd::utf8::encode_utf8;
use crate::bytes::{crlf_at, lower, lower_exec, scan_until, lemma_scan_until_bounds, has_prefix, starts_with, extend};
use crate::numfmt::{dec_digits, digits_value, digit_prefix_len, format_u32, is_digit, is_digit_exec, lemma_take_step,
    lemma_wrapping_digit_step, lemma_digit_prefix_len, all_digits};

verus! {

/// `\r\n\r\n` starts at `i`.
pub open spec fn blank_line_at(buf: Seq<u8>, i: int) -> bool {
    buf[i] == 13 && buf[i + 1] == 10 && buf[i + 2] == 13 && buf[i + 3] == 10
}

/// The index just past the first `\r\n\r\n` within the first `len` bytes: where the body
/// starts.
pub fn find_header_end(buf: &[u8], len: usize) -> (res: Option<usize>)
    requires
        len <= buf@.len(),
    ensures
        match res {
            Some(e) => 4 <= e <= len && blank_line_at(buf@, e - 4) && forall|k: int|
                0 <= k < e - 4 ==> !blank_line_at(buf@, k),
            None => forall|k: int| 0 <= k && k + 3 < len ==> !blank_line_at(buf@, k),
        },
{
    if len < 4 {
        return None;
    }
    let mut i: usize = 0;
    while i + 3 < len
        invariant
            4 <= len <= buf@.len(),
            0 <= i <= len - 3,
            forall|k: int| 0 <= k < i ==> !blank_line_at(buf@, k),
        decreases len - i,
    {
        if buf[i] == 13 && buf[i + 1] == 10 && buf[i + 2] == 13 && buf[i + 3] == 10 {
            return Some(i + 4);
        }
        i += 1;
    }
    None
}

/// Just past the first blank line (`\r\n\r\n`) that starts at or after `i`, if any.
pub open spec fn blank_line_from(req: Seq<u8>, i: int) -> Option<int>
    decreases req.len() - i,
{
    if i < 0 || i + 3 >= req.len() {
        None
    } else if blank_line_at(req, i) {
        Some(i + 4)
    } else {
        blank_line_from(req, i + 1)
    }
}

/// Where the header of a request ends (just past its blank line), if it does.
pub open spec fn header_end_of(req: Seq<u8>) -> Option<int> {
    blank_line_from(req, 0)
}

pub proof fn lemma_blank_line_from(req: Seq<u8>, i: int, j: int)
    requires
        0 <= i <= j,
        forall|k: int| i <= k < j ==> !blank_line_at(req, k),
    ensures
        j + 3 < req.len() && blank_line_at(req, j) ==> blank_line_from(req, i) == Some(j + 4),
        (forall|k: int| j <= k && k + 3 < req.len() ==> !blank_line_at(req, k)) ==> blank_line_from(req, i) is None,
    decreases j - i,
{
    if i < j {
        lemma_blank_line_from(req, i + 1, j);
    } else {
        lemma_blank_line_tail(req, i);
    }
}

pub proof fn lemma_blank_line_tail(req: Seq<u8>, i: int)
    requires
        0 <= i,
    ensures
        (forall|k: int| i <= k && k + 3 < req.len() ==> !blank_line_at(req, k)) ==> blank_line_from(req, i) is None,
    decreases req.len() - i,
{
    if i + 3 < req.len() {
        lemma_blank_line_tail(req, i + 1);
    }
}

/// The length of the request line, its `\r\n` included: just past the first `\r\n` within
/// the first `len` bytes, or `len` when there is none.
pub fn request_line_len(buf: &[u8], len: usize) -> (res: usize)
    requires
        len <= buf@.len(),
    ensures
        res <= len,
        (exists|i: int| 0 <= i && i + 1 < len && crlf_at(buf@, i)) ==> 2 <= res && crlf_at(buf@, res - 2) && forall|k: int|
            0 <= k < res - 2 ==> !crlf_at(buf@, k),
        !(exists|i: int| 0 <= i && i + 1 < len && crlf_at(buf@, i)) ==> res == len,
{
    if len == 0 {
        return 0;
    }
    let mut i: usize = 0;
    while i < len - 1
        invariant
            len > 0,
            len <= buf@.len(),
            0 <= i,
            i <= len,
            forall|k: int| 0 <= k < i && k + 1 < len ==> !crlf_at(buf@, k),
        decreases len - i,
    {
        if buf[i] == 13 && buf[i + 1] == 10 {
            return i + 2;
        }
        i += 1;
    }
    assert(!(exists|i: int| 0 <= i && i + 1 < len && crlf_at(buf@, i)));
    len
}

/// A line without the `\r\n` that ends it, if one does.
pub open spec fn without_crlf(l: Seq<u8>) -> Seq<u8> {
    if l.len() >= 2 && l[l.len() - 2] == 13 && l[l.len() - 1] == 10 {
        l.take(l.len() - 2)
    } else {
        l
    }
}

/// Drops the `\r\n` that ends a line, if one does.
pub fn strip_crlf(l: &[u8]) -> (res: &[u8])
    ensures
        res@ == without_crlf(l@),
{
    let n = l.len();
    if n >= 2 && l[n - 2] == 13 && l[n - 1] == 10 {
        let r = &l[0..n - 2];
        r
    } else {
        l
    }
}

/// `Content-Length: `, lower-cased.
pub open spec fn content_length_needle() -> Seq<u8> {
    seq![99u8, 111, 110, 116, 101, 110, 116, 45, 108, 101, 110, 103, 116, 104, 58, 32]
}

/// The header name `Content-Length: ` starts at `i`, in any ASCII case.
pub open spec fn content_length_at(buf: Seq<u8>, i: int) -> bool {
    forall|j: int| 0 <= j < 16 ==> lower(#[trigger] buf[i + j]) == content_length_needle()[j]
}

/// The `Content-Length` value a request's headers announce: the digits that follow the first
/// `Content-Length: ` (any case) that ends before `header_end`, read modulo the word size;
/// 0 when there is none.
pub open spec fn content_length_of(buf: Seq<u8>, header_end: int) -> nat {
    let hs = buf.take(header_end);
    if exists|i: int| 0 <= i && i + 16 < header_end && content_length_at(buf, i) {
        let i = choose|i: int|
            0 <= i && i + 16 < header_end && content_length_at(buf, i) && forall|k: int|
                0 <= k < i ==> !content_length_at(buf, k);
        let rest = hs.skip(i + 16);
        digits_value(rest.take(digit_prefix_len(rest) as int)) % (usize::MAX as nat + 1)
    } else {
        0
    }
}

/// The value of the first `Content-Length` header among the bytes before `header_end`
/// (see `content_length_of`).
pub fn parse_content_length(buf: &[u8], header_end: usize) -> (res: usize)
    requires
        header_end <= buf@.len(),
    ensures
        res == content_length_of(buf@, header_end as int),
{
    if header_end <= 16 {
        return 0;
    }
    let mut i: usize = 0;
    while i < header_end - 16
        invariant
            16 < header_end <= buf@.len(),
            forall|k: int| 0 <= k < i ==> !content_length_at(buf@, k),
        decreases header_end - i,
    {
        let matched = content_length_matches(buf, i);
        if matched {
            assert(content_length_at(buf@, i as int));
            let start = i + 16;
            let ghost hs = buf@.take(header_end as int);
            let ghost rest = hs.skip(start as int);
            let mut val: usize = 0;
            let mut k = start;
            while k < header_end && is_digit_exec(buf[k])
                invariant
                    start <= k <= header_end <= buf@.len(),
                    hs == buf@.take(header_end as int),
                    rest == hs.skip(start as int),
                    all_digits(rest.take(k - start)),
                    val == digits_value(rest.take(k - start)) % (usize::MAX as nat + 1),
                decreases header_end - k,
            {
                let d = (buf[k] - 48) as usize;
                assert(rest[k - start] == buf@[k as int]);
                proof {
                    lemma_take_step(rest, k - start);
                    lemma_wrapping_digit_step(
                        digits_value(rest.take(k - start)) as int,
                        d as int,
                        usize::MAX as int + 1,
                    );
                }
                val = val.wrapping_mul(10).wrapping_add(d);
                k += 1;
            }
            proof {
                if k < header_end {
                    assert(rest[k - start] == buf@[k as int]);
                }
                lemma_digit_prefix_len(rest, k - start);
                let w = choose|w: int|
                    0 <= w && w + 16 < header_end && content_length_at(buf@, w) && forall|q: int|
                        0 <= q < w ==> !content_length_at(buf@, q);
                assert(w == i) by {
                    if w < i {
                    } else if w > i {
                    }
                }
            }
            return val;
        }
        i += 1;
    }
    proof {
        assert(!exists|w: int| 0 <= w && w + 16 < header_end && content_length_at(buf@, w));
    }
    0
}

/// Whether `Content-Length: ` (any case) starts at `i`.
fn content_length_matches(buf: &[u8], i: usize) -> (res: bool)
    requires
        i + 16 <= buf@.len(),
    ensures
        res == content_length_at(buf@, i as int),
{
    let needle: [u8; 16] = [67u8, 111, 110, 116, 101, 110, 116, 45, 76, 101, 110, 103, 116, 104, 58, 32];
    let blen = buf.len();
    let mut j: usize = 0;
    while j < 16
        invariant
            blen == buf@.len(),
            i + 16 <= buf@.len(),
            0 <= j <= 16,
            needle@ == seq![67u8, 111, 110, 116, 101, 110, 116, 45, 76, 101, 110, 103, 116, 104, 58, 32],
            forall|t: int| 0 <= t < j ==> lower(#[trigger] buf@[i + t]) == content_length_needle()[t],
        decreases 16 - j,
    {
        let a = lower_exec(buf[i + j]);
        let b = lower_exec(needle[j]);
        assert(b == content_length_needle()[j as int]);
        if a != b {
            return false;
        }
        j += 1;
    }
    true
}

/// The request line split at its spaces: the end of the method, the start of the path
/// (one past that space) and the end of the path; all within the first `len` bytes.
pub open spec fn request_line_parts(buf: Seq<u8>, len: int) -> (int, int, int) {
    let line = buf.take(len);
    let method_end = scan_until(line, 0, |c: u8| c == 32);
    let path_start = method_end + 1;
    let path_end = scan_until(line, path_start, |c: u8| c == 32);
    (method_end, path_start, path_end)
}

/// Splits the request line: `(method_end, path_start, path_end)` as `request_line_parts`.
pub fn parse_request_line(buf: &[u8], len: usize) -> (res: (usize, usize, usize))
    requires
        len <= buf@.len(),
        len < usize::MAX,
    ensures
        res.0 as int == request_line_parts(buf@, len as int).0,
        res.1 as int == request_line_parts(buf@, len as int).1,
        res.2 as int == request_line_parts(buf@, len as int).2,
        res.0 <= len,
        res.1 == res.0 + 1,
        res.1 <= res.2,
        res.2 <= len + 1,
{
    let ghost line = buf@.take(len as int);
    let mut method_end: usize = 0;
    while method_end < len && buf[method_end] != 32
        invariant
            len <= buf@.len(),
            method_end <= len,
            line == buf@.take(len as int),
            scan_until(line, 0, |c: u8| c == 32) == scan_until(line, method_end as int, |c: u8| c == 32),
        decreases len - method_end,
    {
        assert(line[method_end as int] == buf@[method_end as int]);
        method_end += 1;
    }
    if method_end < len {
        assert(line[method_end as int] == buf@[method_end as int]);
    }
    let path_start = method_end + 1;
    let mut path_end = path_start;
    while path_end < len && buf[path_end] != 32
        invariant
            len <= buf@.len(),
            path_start <= path_end,
            path_end <= len + 1,
            line == buf@.take(len as int),
            scan_until(line, path_start as int, |c: u8| c == 32) == scan_until(
                line,
                path_end as int,
                |c: u8| c == 32,
            ),
        decreases len + 1 - path_end,
    {
        assert(line[path_end as int] == buf@[path_end as int]);
        path_end += 1;
    }
    if path_end < len {
        assert(line[path_end as int] == buf@[path_end as int]);
    }
    (method_end, path_start, path_end)
}

/// The method (the first `method_end` bytes) is exactly `expected`.
pub fn method_is(buf: &[u8], method_end: usize, expected: &[u8]) -> (res: bool)
    requires
        method_end == expected@.len() ==> method_end <= buf@.len(),
    ensures
        res == (method_end == expected@.len() && buf@.take(method_end as int) == expected@),
{
    if method_end != expected.len() {
        return false;
    }
    let mut i: usize = 0;
    while i < expected.len()
        invariant
            method_end == expected@.len(),
            method_end <= buf@.len(),
            0 <= i <= expected@.len(),
            forall|k: int| 0 <= k < i ==> buf@[k] == expected@[k],
        decreases expected@.len() - i,
    {
        if buf[i] != expected[i] {
            assert(buf@.take(method_end as int)[i as int] != expected@[i as int]);
            return false;
        }
        i += 1;
    }
    assert(buf@.take(method_end as int) =~= expected@);
    true
}

/// The path (bytes `start..end`) is exactly `expected`.
pub fn path_eq(buf: &[u8], start: usize, end: usize, expected: &[u8]) -> (res: bool)
    requires
        start <= end,
        end - start == expected@.len() ==> end <= buf@.len(),
    ensures
        res == (end - start == expected@.len() && buf@.subrange(start as int, end as int)
            == expected@),
{
    let len = end - start;
    if len != expected.len() {
        return false;
    }
    let mut i: usize = 0;
    while i < len
        invariant
            len == end - start,
            len == expected@.len(),
            end <= buf@.len(),
            0 <= i <= len,
            forall|k: int| 0 <= k < i ==> buf@[start + k] == expected@[k],
        decreases len - i,
    {
        if buf[start + i] != expected[i] {
            assert(buf@.subrange(start as int, end as int)[i as int] != expected@[i as int]);
            return false;
        }
        i += 1;
    }
    assert(buf@.subrange(start as int, end as int) =~= expected@);
    true
}

/// The path (bytes `start..end`) begins with `prefix`.
pub fn path_starts_with(buf: &[u8], start: usize, end: usize, prefix: &[u8]) -> (res: bool)
    requires
        start <= end,
        prefix@.len() <= end - start ==> end <= buf@.len(),
    ensures
        res == (prefix@.len() <= end - start && buf@.subrange(
            start as int,
            start + prefix@.len(),
        ) == prefix@),
{
    let len = end - start;
    if len < prefix.len() {
        return false;
    }
    let mut i: usize = 0;
    while i < prefix.len()
        invariant
            prefix@.len() <= end - start,
            end <= buf@.len(),
            0 <= i <= prefix@.len(),
            forall|k: int| 0 <= k < i ==> buf@[start + k] == prefix@[k],
        decreases prefix@.len() - i,
    {
        if buf[start + i] != prefix[i] {
            assert(buf@.subrange(start as int, start + prefix@.len())[i as int] != prefix@[i as int]);
            return false;
        }
        i += 1;
    }
    assert(buf@.subrange(start as int, start + prefix@.len()) =~= prefix@);
    true
}

/// The bytes of a string literal.
pub open spec fn lit(s: &str) -> Seq<u8> {
    encode_utf8(s@)
}

/// A fresh vector holding the bytes of a string literal.
pub fn lit_bytes(s: &str) -> (res: Vec<u8>)
    ensures
        res@ == lit(s),
{
    let mut v: Vec<u8> = Vec::new();
    extend(&mut v, s.as_bytes());
    v
}

/// The head of a response: status line, `Content-Type`, `Connection: close` and the
/// `Content-Length` of a body of `body_len` bytes (its low 32 bits, in decimal), then the
/// blank line.
pub open spec fn response_head(status: Seq<u8>, content_type: Seq<u8>, body_len: nat) -> Seq<u8> {
    lit("HTTP/1.1 ") + status + lit("\r\nContent-Type: ") + content_type + lit(
        "\r\nConnection: close\r\nContent-Length: ",
    ) + dec_digits(body_len % 0x1_0000_0000) + lit("\r\n\r\n")
}

/// A whole response: head and body.
pub fn build_response(status: &[u8], content_type: &[u8], body: &[u8]) -> (res: Vec<u8>)
    ensures
        res@ == response_head(status@, content_type@, body@.len()) + body@,
{
    let mut out: Vec<u8> = Vec::new();
    extend(&mut out, "HTTP/1.1 ".as_bytes());
    extend(&mut out, status);
    extend(&mut out, "\r\nContent-Type: ".as_bytes());
    extend(&mut out, content_type);
    extend(&mut out, "\r\nConnection: close\r\nContent-Length: ".as_bytes());
    let blen = body.len();
    let n = format_u32(blen as u32);
    assert((blen as u32) as u64 == (blen as u64) % 0x1_0000_0000u64) by (bit_vector);
    extend(&mut out, n.as_slice());
    extend(&mut out, "\r\n\r\n".as_bytes());
    extend(&mut out, body);
    assert(out@ =~= response_head(status@, content_type@, body@.len()) + body@);
    out
}

} // verus!
