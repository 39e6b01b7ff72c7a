//! Byte-slice comparisons and scanning helpers shared by the tools.

use vstd::prelude::*;

verus! {

/// True when `a` and `b` hold the same bytes.
pub fn bytes_eq(a: &[u8], b: &[u8]) -> (res: bool)
    ensures
        res == (a@ == b@),
{
    if a.len() != b.len() {
        return false;
    }
    let mut i: usize = 0;
    while i < a.len()
        invariant
            a@.len() == b@.len(),
            0 <= i <= a@.len(),
            forall|k: int| 0 <= k < i ==> a@[k] == b@[k],
        decreases a@.len() - i,
    {
        if a[i] != b[i] {
            return false;
        }
        i += 1;
    }
    assert(a@ =~= b@);
    true
}

/// `s` begins with `prefix`.
pub open spec fn has_prefix(s: Seq<u8>, prefix: Seq<u8>) -> bool {
    prefix.len() <= s.len() && s.take(prefix.len() as int) == prefix
}

/// True when `haystack` begins with `prefix`.
pub fn starts_with(haystack: &[u8], prefix: &[u8]) -> (res: bool)
    ensures
        res == has_prefix(haystack@, prefix@),
{
    if prefix.len() > haystack.len() {
        return false;
    }
    let mut i: usize = 0;
    while i < prefix.len()
        invariant
            prefix@.len() <= haystack@.len(),
            0 <= i <= prefix@.len(),
            forall|k: int| 0 <= k < i ==> haystack@[k] == prefix@[k],
        decreases prefix@.len() - i,
    {
        if haystack[i] != prefix[i] {
            assert(haystack@.take(prefix@.len() as int)[i as int] != prefix@[i as int]);
            return false;
        }
        i += 1;
    }
    assert(haystack@.take(prefix@.len() as int) =~= prefix@);
    true
}

/// ASCII lower-casing of one byte.
pub open spec fn lower(c: u8) -> u8 {
    if 65 <= c <= 90 {
        (c + 32) as u8
    } else {
        c
    }
}

/// ASCII lower-casing of one byte.
pub fn lower_exec(c: u8) -> (res: u8)
    ensures
        res == lower(c),
{
    if c >= 65 && c <= 90 {
        c + 32
    } else {
        c
    }
}

/// The first `n` bytes of `a` and of `b` agree up to ASCII case.
pub open spec fn eq_ci_prefix(a: Seq<u8>, b: Seq<u8>, n: int) -> bool {
    forall|i: int| 0 <= i < n ==> lower(#[trigger] a[i]) == lower(b[i])
}

/// True when the first `len` bytes of `buf` begin with `prefix`, up to ASCII case.
pub fn starts_with_ci(buf: &[u8], len: usize, prefix: &[u8]) -> (res: bool)
    requires
        prefix@.len() <= len ==> prefix@.len() <= buf@.len(),
    ensures
        res == (prefix@.len() <= len && eq_ci_prefix(buf@, prefix@, prefix@.len() as int)),
{
    if len < prefix.len() {
        return false;
    }
    let mut i: usize = 0;
    while i < prefix.len()
        invariant
            prefix@.len() <= buf@.len(),
            0 <= i <= prefix@.len(),
            eq_ci_prefix(buf@, prefix@, i as int),
        decreases prefix@.len() - i,
    {
        if lower_exec(buf[i]) != lower_exec(prefix[i]) {
            return false;
        }
        i += 1;
    }
    true
}

/// True when the first `a_len` bytes of `a` and the first `b_len` bytes of `b` are the same
/// name up to ASCII case.
pub fn name_eq_ci(a: &[u8], a_len: usize, b: &[u8], b_len: usize) -> (res: bool)
    requires
        a_len == b_len ==> a_len <= a@.len() && b_len <= b@.len(),
    ensures
        res == (a_len == b_len && eq_ci_prefix(a@, b@, a_len as int)),
{
    if a_len != b_len {
        return false;
    }
    let mut i: usize = 0;
    while i < a_len
        invariant
            a_len <= a@.len(),
            a_len <= b@.len(),
            0 <= i <= a_len,
            eq_ci_prefix(a@, b@, i as int),
        decreases a_len - i,
    {
        if lower_exec(a[i]) != lower_exec(b[i]) {
            return false;
        }
        i += 1;
    }
    true
}

/// `\n`, `\r` or a space.
pub open spec fn is_trailing_blank(c: u8) -> bool {
    c == 10 || c == 13 || c == 32
}

/// The length of `s` without its trailing newlines, carriage returns and spaces.
pub open spec fn trimmed_len(s: Seq<u8>) -> nat
    decreases s.len(),
{
    if s.len() > 0 && is_trailing_blank(s.last()) {
        trimmed_len(s.drop_last())
    } else {
        s.len()
    }
}

/// `s` without its trailing newlines, carriage returns and spaces.
pub fn trim_end(s: &[u8]) -> (res: &[u8])
    ensures
        res@ == s@.take(trimmed_len(s@) as int),
{
    let mut len = s.len();
    assert(s@.take(len as int) =~= s@);
    while len > 0 && (s[len - 1] == 10 || s[len - 1] == 13 || s[len - 1] == 32)
        invariant
            0 <= len <= s@.len(),
            trimmed_len(s@) == trimmed_len(s@.take(len as int)),
        decreases len,
    {
        assert(s@.take(len as int).drop_last() =~= s@.take(len - 1));
        len -= 1;
    }
    assert(s@.take(len as int).len() == len);
    let r = slice_prefix(s, len);
    r
}

/// The first `n` bytes of `s`.
pub fn slice_prefix(s: &[u8], n: usize) -> (res: &[u8])
    requires
        n <= s@.len(),
    ensures
        res@ == s@.take(n as int),
{
    let r = &s[0..n];
    r
}

/// Appends `src` to `dest` without letting `dest` grow past `cap` bytes: whatever does not
/// fit is dropped.
pub fn copy_to(dest: &mut Vec<u8>, cap: usize, src: &[u8])
    ensures
        final(dest)@ == if old(dest)@.len() >= cap {
            old(dest)@
        } else {
            old(dest)@ + src@.take(min(src@.len() as int, cap - old(dest)@.len()))
        },
{
    let ghost start = dest@;
    let mut i: usize = 0;
    while i < src.len() && dest.len() < cap
        invariant
            0 <= i <= src@.len(),
            dest@ == start + src@.take(i as int),
            start.len() < cap ==> dest@.len() <= cap,
            start.len() >= cap ==> i == 0,
        decreases src@.len() - i,
    {
        dest.push(src[i]);
        assert(src@.take(i + 1) =~= src@.take(i as int).push(src@[i as int]));
        i += 1;
    }
    proof {
        if start.len() >= cap {
            assert(dest@ =~= start);
        } else {
            assert(i == min(src@.len() as int, cap - start.len()));
        }
    }
}

/// Appends all of `src` to `dest`.
pub fn extend(dest: &mut Vec<u8>, src: &[u8])
    ensures
        final(dest)@ == old(dest)@ + src@,
{
    let ghost start = dest@;
    let mut i: usize = 0;
    while i < src.len()
        invariant
            0 <= i <= src@.len(),
            dest@ == start + src@.take(i as int),
        decreases src@.len() - i,
    {
        dest.push(src[i]);
        assert(src@.take(i + 1) =~= src@.take(i as int).push(src@[i as int]));
        i += 1;
    }
    assert(src@.take(src@.len() as int) =~= src@);
}

/// `new` equals `old` except perhaps at position `i`.
pub open spec fn same_except<T>(old: Seq<T>, new: Seq<T>, i: int) -> bool {
    new.len() == old.len() && forall|j: int| 0 <= j < new.len() && j != i ==> new[j] == old[j]
}

/// The smaller of two integers.
pub open spec fn min(a: int, b: int) -> int {
    if a < b {
        a
    } else {
        b
    }
}

/// The index of the first byte at or after `start` for which `stop` holds (or the end).
pub open spec fn scan_until(buf: Seq<u8>, start: int, stop: spec_fn(u8) -> bool) -> int
    decreases buf.len() - start,
{
    if start >= buf.len() || stop(buf[start]) {
        start
    } else {
        scan_until(buf, start + 1, stop)
    }
}

/// A space, newline or carriage return.
pub open spec fn is_word_end(c: u8) -> bool {
    c == 32 || c == 10 || c == 13
}

/// The end of the word that starts at `start`: the first space, newline or carriage return
/// at or after it, or the end of `buf`.
pub fn next_space(buf: &[u8], start: usize) -> (res: usize)
    ensures
        res == scan_until(buf@, start as int, |c: u8| is_word_end(c)),
{
    let mut i = start;
    while i < buf.len() && buf[i] != 32 && buf[i] != 10 && buf[i] != 13
        invariant
            start <= i,
            scan_until(buf@, start as int, |c: u8| is_word_end(c)) == scan_until(
                buf@,
                i as int,
                |c: u8| is_word_end(c),
            ),
        decreases buf@.len() - i,
    {
        i += 1;
    }
    i
}

/// The first byte at or after `start` that is not a space (or the end of `buf`).
pub fn skip_spaces(buf: &[u8], start: usize) -> (res: usize)
    ensures
        res == scan_until(buf@, start as int, |c: u8| c != 32),
{
    let mut i = start;
    while i < buf.len() && buf[i] == 32
        invariant
            start <= i,
            scan_until(buf@, start as int, |c: u8| c != 32) == scan_until(
                buf@,
                i as int,
                |c: u8| c != 32,
            ),
        decreases buf@.len() - i,
    {
        i += 1;
    }
    i
}

/// A space or a tab.
pub open spec fn is_blank(c: u8) -> bool {
    c == 32 || c == 9
}

/// A space, tab, newline or carriage return.
pub open spec fn is_token_end(c: u8) -> bool {
    c == 32 || c == 9 || c == 10 || c == 13
}

/// The first byte at or after `start` that is neither a space nor a tab (or the end).
pub fn skip_blanks(buf: &[u8], start: usize) -> (res: usize)
    ensures
        res == scan_until(buf@, start as int, |c: u8| !is_blank(c)),
{
    let mut i = start;
    while i < buf.len() && (buf[i] == 32 || buf[i] == 9)
        invariant
            start <= i,
            scan_until(buf@, start as int, |c: u8| !is_blank(c)) == scan_until(
                buf@,
                i as int,
                |c: u8| !is_blank(c),
            ),
        decreases buf@.len() - i,
    {
        i += 1;
    }
    i
}

/// The end of the token that starts at `start`: the first space, tab, newline or carriage
/// return at or after it, or the end of `buf`.
pub fn next_token_end(buf: &[u8], start: usize) -> (res: usize)
    ensures
        res == scan_until(buf@, start as int, |c: u8| is_token_end(c)),
{
    let mut i = start;
    while i < buf.len() && buf[i] != 32 && buf[i] != 9 && buf[i] != 10 && buf[i] != 13
        invariant
            start <= i,
            scan_until(buf@, start as int, |c: u8| is_token_end(c)) == scan_until(
                buf@,
                i as int,
                |c: u8| is_token_end(c),
            ),
        decreases buf@.len() - i,
    {
        i += 1;
    }
    i
}

/// Where the token that follows position `from` begins: the first byte at or after `from`
/// that is neither a space nor a tab.
pub open spec fn tok_start(line: Seq<u8>, from: int) -> int {
    scan_until(line, from, |c: u8| !is_blank(c))
}

/// Where the token that follows position `from` ends: the first space, tab, newline or
/// carriage return after its start.
pub open spec fn tok_end(line: Seq<u8>, from: int) -> int {
    scan_until(line, tok_start(line, from), |c: u8| is_token_end(c))
}

/// The token that follows position `from` (empty when none does).
pub open spec fn token_after(line: Seq<u8>, from: int) -> Seq<u8> {
    line.subrange(tok_start(line, from), tok_end(line, from))
}

/// Where the search for the `k`-th token of a line (counting from 0) starts.
pub open spec fn nth_token_from(line: Seq<u8>, k: nat) -> int
    decreases k,
{
    if k == 0 {
        0
    } else {
        tok_end(line, nth_token_from(line, (k - 1) as nat))
    }
}

/// The `k`-th blank-separated token of a line (counting from 0), empty once the line has
/// no more.
pub open spec fn nth_token(line: Seq<u8>, k: nat) -> Seq<u8> {
    token_after(line, nth_token_from(line, k))
}

/// Finds the token that follows position `from`: its start and its end.
pub fn next_token(line: &[u8], from: usize) -> (res: (usize, usize))
    requires
        from <= line@.len(),
    ensures
        res.0 == tok_start(line@, from as int),
        res.1 == tok_end(line@, from as int),
        from <= res.0 <= res.1 <= line@.len(),
{
    let s = skip_blanks(line, from);
    let e = next_token_end(line, s);
    proof {
        lemma_scan_until_bounds(line@, from as int, |c: u8| !is_blank(c));
        lemma_scan_until_bounds(line@, s as int, |c: u8| is_token_end(c));
    }
    (s, e)
}

/// The start and end of every token stay within the line.
pub proof fn lemma_token_bounds(line: Seq<u8>, from: int)
    requires
        0 <= from <= line.len(),
    ensures
        from <= tok_start(line, from) <= tok_end(line, from) <= line.len(),
{
    lemma_scan_until_bounds(line, from, |c: u8| !is_blank(c));
    lemma_scan_until_bounds(line, tok_start(line, from), |c: u8| is_token_end(c));
}

/// The search for every token starts within the line.
pub proof fn lemma_nth_token_from_bounds(line: Seq<u8>, k: nat)
    ensures
        0 <= nth_token_from(line, k) <= line.len(),
    decreases k,
{
    if k > 0 {
        lemma_nth_token_from_bounds(line, (k - 1) as nat);
        lemma_token_bounds(line, nth_token_from(line, (k - 1) as nat));
    }
}

/// `scan_until` stops at the first byte, from `start` on, for which `stop` holds.
pub proof fn lemma_scan_until_first(buf: Seq<u8>, start: int, j: int, stop: spec_fn(u8) -> bool)
    requires
        0 <= start <= j <= buf.len(),
        forall|k: int| start <= k < j ==> !stop(#[trigger] buf[k]),
        j == buf.len() || stop(buf[j]),
    ensures
        scan_until(buf, start, stop) == j,
    decreases j - start,
{
    if start < j {
        lemma_scan_until_first(buf, start + 1, j, stop);
    }
}

/// `scan_until` stops no earlier than where it starts and no later than the end.
pub proof fn lemma_scan_until_bounds(buf: Seq<u8>, start: int, stop: spec_fn(u8) -> bool)
    requires
        0 <= start,
    ensures
        start <= scan_until(buf, start, stop),
        start <= buf.len() ==> scan_until(buf, start, stop) <= buf.len(),
        forall|k: int| start <= k < scan_until(buf, start, stop) ==> !stop(#[trigger] buf[k]),
        scan_until(buf, start, stop) < buf.len() ==> stop(buf[scan_until(buf, start, stop)]),
    decreases buf.len() - start,
{
    if start < buf.len() && !stop(buf[start]) {
        lemma_scan_until_bounds(buf, start + 1, stop);
    }
}

/// The index of the first `\n` among the first `len` bytes.
pub fn find_line_end(buf: &[u8], len: usize) -> (res: Option<usize>)
    requires
        len <= buf@.len(),
    ensures
        match res {
            Some(i) => i < len && buf@[i as int] == 10 && forall|k: int| 0 <= k < i ==> buf@[k] != 10,
            None => forall|k: int| 0 <= k < len ==> buf@[k] != 10,
        },
{
    let mut i: usize = 0;
    while i < len
        invariant
            len <= buf@.len(),
            0 <= i <= len,
            forall|k: int| 0 <= k < i ==> buf@[k] != 10,
        decreases len - i,
    {
        if buf[i] == 10 {
            return Some(i);
        }
        i += 1;
    }
    None
}

/// A `\r\n` pair starts at `i`.
pub open spec fn crlf_at(buf: Seq<u8>, i: int) -> bool {
    buf[i] == 13 && buf[i + 1] == 10
}

/// The index of the first `\r\n` within the first `len` bytes.
pub fn find_crlf(buf: &[u8], len: usize) -> (res: Option<usize>)
    requires
        len <= buf@.len(),
    ensures
        match res {
            Some(i) => i + 1 < len && crlf_at(buf@, i as int) && forall|k: int|
                0 <= k < i ==> !crlf_at(buf@, k),
            None => forall|k: int| 0 <= k && k + 1 < len ==> !crlf_at(buf@, k),
        },
{
    if len < 2 {
        return None;
    }
    let mut i: usize = 0;
    while i + 1 < len
        invariant
            2 <= len <= buf@.len(),
            0 <= i <= len - 1,
            forall|k: int| 0 <= k < i ==> !crlf_at(buf@, k),
        decreases len - i,
    {
        if buf[i] == 13 && buf[i + 1] == 10 {
            return Some(i);
        }
        i += 1;
    }
    None
}

/// The SMTP end-of-data mark `\r\n.\r\n` starts at `i`.
pub open spec fn dot_terminator_at(buf: Seq<u8>, i: int) -> bool {
    buf[i] == 13 && buf[i + 1] == 10 && buf[i + 2] == 46 && buf[i + 3] == 13 && buf[i + 4] == 10
}

/// The index of the first `\r\n.\r\n` within the first `len` bytes.
pub fn find_dot_terminator(buf: &[u8], len: usize) -> (res: Option<usize>)
    requires
        len <= buf@.len(),
    ensures
        match res {
            Some(i) => i + 4 < len && dot_terminator_at(buf@, i as int) && forall|k: int|
                0 <= k < i ==> !dot_terminator_at(buf@, k),
            None => forall|k: int| 0 <= k && k + 4 < len ==> !dot_terminator_at(buf@, k),
        },
{
    if len < 5 {
        return None;
    }
    let mut i: usize = 0;
    while i + 4 < len
        invariant
            5 <= len <= buf@.len(),
            0 <= i <= len - 4,
            forall|k: int| 0 <= k < i ==> !dot_terminator_at(buf@, k),
        decreases len - i,
    {
        if buf[i] == 13 && buf[i + 1] == 10 && buf[i + 2] == 46 && buf[i + 3] == 13 && buf[i + 4]
            == 10 {
            return Some(i);
        }
        i += 1;
    }
    None
}

/// The span `[start, end)` of what lies between the first `<` within the first `len` bytes
/// and the first `>` after it, the brackets left out; `None` when there is no `<`, or no `>`
/// after the first `<`.
pub fn extract_angle_addr(buf: &[u8], len: usize) -> (res: Option<(usize, usize)>)
    requires
        len <= buf@.len(),
    ensures
        match res {
            Some((s, e)) => 1 <= s <= e < len && buf@[s - 1] == 60 && buf@[e as int] == 62
                && (forall|k: int| 0 <= k < s - 1 ==> buf@[k] != 60)
                && (forall|k: int| s <= k < e ==> buf@[k] != 62),
            None => forall|s: int| 0 <= s < len && buf@[s] == 60 ==> (exists|p: int|
                0 <= p < s && buf@[p] == 60) || (forall|k: int| s < k < len ==> buf@[k] != 62),
        },
{
    let mut i: usize = 0;
    while i < len
        invariant
            len <= buf@.len(),
            0 <= i <= len,
            forall|k: int| 0 <= k < i ==> buf@[k] != 60,
        decreases len - i,
    {
        if buf[i] == 60 {
            let start = i;
            let mut j = i + 1;
            while j < len
                invariant
                    len <= buf@.len(),
                    start < j <= len,
                    buf@[start as int] == 60,
                    forall|k: int| 0 <= k < start ==> buf@[k] != 60,
                    forall|k: int| start < k < j ==> buf@[k] != 62,
                decreases len - j,
            {
                if buf[j] == 62 {
                    return Some((start + 1, j));
                }
                j += 1;
            }
            return None;
        }
        i += 1;
    }
    None
}

/// `src` followed by a zero byte, when that fits in a buffer of `cap` bytes.
pub fn make_cstr(src: &[u8], cap: usize) -> (res: Option<Vec<u8>>)
    ensures
        match res {
            Some(v) => src@.len() < cap && v@ == src@.push(0u8),
            None => src@.len() >= cap,
        },
{
    if src.len() >= cap {
        return None;
    }
    let mut out: Vec<u8> = Vec::new();
    let mut i: usize = 0;
    while i < src.len()
        invariant
            0 <= i <= src@.len(),
            out@ == src@.take(i as int),
        decreases src@.len() - i,
    {
        out.push(src[i]);
        assert(src@.take(i + 1) =~= src@.take(i as int).push(src@[i as int]));
        i += 1;
    }
    out.push(0u8);
    assert(src@.take(src@.len() as int) =~= src@);
    Some(out)
}

} // verus!
