//! The port scanner's arguments: a dotted IPv4 address, two port numbers, the fields of the
//! command line they come from, and the lines of its report.

use vstd::prelude::*;
use crate::bytes::extend;
use crate::http::{lit, lit_bytes};
use crate::cmdline::{arg_count, arg_count_nuls};
use crate::numfmt::{all_digits, digits_value, is_digit, is_digit_exec, dec_digits, format_u32,
    lemma_wrapping_digit_step};

verus! {

/// The pieces of `s` between the bytes equal to `sep` (one more piece than separators).
pub open spec fn split_on(s: Seq<u8>, sep: u8) -> Seq<Seq<u8>>
    decreases s.len(),
{
    if s.len() == 0 {
        seq![Seq::empty()]
    } else {
        let r = split_on(s.drop_last(), sep);
        if s.last() == sep {
            r.push(Seq::empty())
        } else {
            r.update(r.len() - 1, r.last().push(s.last()))
        }
    }
}

/// There is always at least one piece.
pub proof fn lemma_split_len(s: Seq<u8>, sep: u8)
    ensures
        split_on(s, sep).len() >= 1,
    decreases s.len(),
{
    if s.len() > 0 {
        lemma_split_len(s.drop_last(), sep);
    }
}

/// `p` begins with `q`.
pub open spec fn starts_with_seq(p: Seq<u8>, q: Seq<u8>) -> bool {
    q.len() <= p.len() && p.take(q.len() as int) == q
}

/// Reading more bytes leaves the finished pieces alone and only extends the last one.
pub proof fn lemma_split_prefix(s: Seq<u8>, sep: u8, i: int)
    requires
        0 <= i <= s.len(),
    ensures
        ({
            let a = split_on(s.take(i), sep);
            let b = split_on(s, sep);
            &&& a.len() >= 1
            &&& b.len() >= a.len()
            &&& forall|k: int| 0 <= k < a.len() - 1 ==> b[k] == a[k]
            &&& starts_with_seq(b[a.len() - 1], a.last())
        }),
    decreases s.len() - i,
{
    lemma_split_len(s.take(i), sep);
    lemma_split_len(s, sep);
    if i == s.len() {
        assert(s.take(i) =~= s);
        assert(s.take(i).len() == s.len());
        let b = split_on(s, sep);
        assert(b.last().take(b.last().len() as int) =~= b.last());
    } else {
        lemma_split_prefix(s, sep, i + 1);
        let a = split_on(s.take(i), sep);
        let a2 = split_on(s.take(i + 1), sep);
        let b = split_on(s, sep);
        assert(s.take(i + 1).drop_last() =~= s.take(i));
        assert(s.take(i + 1).last() == s[i]);
        if s[i] == sep {
            assert(a2 == a.push(Seq::empty()));
            assert(b[a.len() - 1] == a2[a.len() - 1]);
            assert(b[a.len() - 1].take(a.last().len() as int) =~= a.last());
        } else {
            assert(a2 == a.update(a.len() - 1, a.last().push(s[i])));
            let p = b[a.len() - 1];
            assert(p.take(a2.last().len() as int) == a2.last());
            assert(p.take(a.last().len() as int) =~= a2.last().take(a.last().len() as int));
            assert(a2.last().take(a.last().len() as int) =~= a.last());
        }
    }
}

/// A piece that is a valid octet: digits, at least one, whose value (read modulo 2^32) is
/// at most 255.
pub open spec fn octet_ok(p: Seq<u8>) -> bool {
    p.len() > 0 && all_digits(p) && digits_value(p) % 0x1_0000_0000 <= 255
}

/// The value of an octet.
pub open spec fn octet(p: Seq<u8>) -> u32 {
    (digits_value(p) % 0x1_0000_0000) as u32
}

/// The address that dotted text stands for: four valid octets, most significant first.
pub open spec fn ipv4_spec(s: Seq<u8>) -> Option<u32> {
    let p = split_on(s, 46);
    if p.len() == 4 && octet_ok(p[0]) && octet_ok(p[1]) && octet_ok(p[2]) && octet_ok(p[3]) {
        Some((octet(p[0]) << 24u32) | (octet(p[1]) << 16u32) | (octet(p[2]) << 8u32) | octet(p[3]))
    } else {
        None
    }
}

/// Reads a dotted IPv4 address.
pub fn parse_ipv4(s: &[u8]) -> (res: Option<u32>)
    ensures
        res == ipv4_spec(s@),
{
    let mut octets: Vec<u32> = Vec::new();
    let mut current: u32 = 0;
    let mut has_digit = false;
    let mut i: usize = 0;
    while i < s.len()
        invariant
            i <= s@.len(),
            ({
                let parts = split_on(s@.take(i as int), 46);
                &&& parts.len() == octets@.len() + 1
                &&& octets@.len() <= 3
                &&& forall|k: int| 0 <= k < octets@.len() ==> octet_ok(#[trigger] parts[k]) && octets@[k] == octet(parts[k])
                &&& current == digits_value(parts.last()) % 0x1_0000_0000
                &&& has_digit == (parts.last().len() > 0)
                &&& all_digits(parts.last())
            }),
        decreases s@.len() - i,
    {
        let ghost parts = split_on(s@.take(i as int), 46);
        let ghost parts2 = split_on(s@.take(i + 1), 46);
        assert(s@.take(i + 1).drop_last() =~= s@.take(i as int));
        assert(s@.take(i + 1).last() == s@[i as int]);
        proof {
            lemma_split_prefix(s@, 46, i + 1);
            lemma_split_len(s@.take(i as int), 46);
        }
        let c = s[i];
        if c == 46 {
            if !has_digit || octets.len() >= 3 || current > 255 {
                proof {
                    assert(parts2 == parts.push(Seq::empty()));
                    let b = split_on(s@, 46);
                    let k = parts.len() - 1;
                    assert(b[k] == parts2[k]);
                }
                return None;
            }
            octets.push(current);
            current = 0;
            has_digit = false;
            proof {
                assert(parts2 == parts.push(Seq::empty()));
                assert(digits_value(Seq::<u8>::empty()) == 0);
            }
        } else if is_digit_exec(c) {
            let d = (c - 48) as u32;
            proof {
                let p = parts.last();
                assert(parts2 == parts.update(parts.len() - 1, p.push(c)));
                assert(p.push(c).drop_last() =~= p);
                lemma_wrapping_digit_step(digits_value(p) as int, d as int, 0x1_0000_0000);
                assert forall|k: int| 0 <= k < p.push(c).len() implies is_digit(#[trigger] p.push(c)[k]) by {
                    if k < p.len() {
                        assert(p.push(c)[k] == p[k]);
                    }
                }
            }
            current = current.wrapping_mul(10).wrapping_add(d);
            has_digit = true;
        } else {
            proof {
                let p = parts.last();
                assert(parts2 == parts.update(parts.len() - 1, p.push(c)));
                let b = split_on(s@, 46);
                let k = parts.len() - 1;
                let q = b[k];
                assert(q.take(p.len() as int + 1) == p.push(c));
                assert(q[p.len() as int] == q.take(p.len() as int + 1)[p.len() as int]);
                assert(!is_digit(q[p.len() as int]));
            }
            return None;
        }
        i += 1;
    }
    assert(s@.take(s@.len() as int) =~= s@);
    if !has_digit || octets.len() != 3 || current > 255 {
        return None;
    }
    let o3 = current;
    Some((octets[0] << 24u32) | (octets[1] << 16u32) | (octets[2] << 8u32) | o3)
}

/// The fields of a command line: every NUL-ended one, and a last one without a NUL when it
/// is not empty.
pub open spec fn fields(cmdline: Seq<u8>) -> Seq<Seq<u8>> {
    let p = split_on(cmdline, 0);
    if cmdline.len() == 0 {
        Seq::empty()
    } else if cmdline.last() == 0 {
        p.drop_last()
    } else {
        p
    }
}

/// The number of fields is the argument count: one per NUL, and one more for a last field
/// without a NUL.
pub proof fn lemma_fields_len(cmdline: Seq<u8>)
    ensures
        fields(cmdline).len() == arg_count(cmdline),
{
    lemma_split_nuls(cmdline);
    if cmdline.len() > 0 {
        lemma_split_nuls(cmdline.drop_last());
        lemma_split_len(cmdline.drop_last(), 0);
    }
}

/// Splitting at NULs gives one piece more than there are NULs.
pub proof fn lemma_split_nuls(s: Seq<u8>)
    ensures
        split_on(s, 0).len() == arg_count_nuls(s) + 1,
    decreases s.len(),
{
    if s.len() > 0 {
        lemma_split_nuls(s.drop_last());
        lemma_split_len(s.drop_last(), 0);
    }
}

/// The `n`-th field of a command line (the program's name is field 0).
pub fn get_arg(cmdline: &[u8], n: usize) -> (res: Option<Vec<u8>>)
    ensures
        match res {
            Some(a) => n < fields(cmdline@).len() && a@ == fields(cmdline@)[n as int],
            None => n >= fields(cmdline@).len(),
        },
{
    let mut idx: usize = 0;
    let mut start: usize = 0;
    let mut i: usize = 0;
    proof {
        lemma_split_len(cmdline@, 0);
    }
    while i < cmdline.len()
        invariant
            i <= cmdline@.len(),
            start <= i,
            ({
                let parts = split_on(cmdline@.take(i as int), 0);
                &&& parts.len() == idx + 1
                &&& idx <= n
                &&& parts.last() == cmdline@.subrange(start as int, i as int)
            }),
        decreases cmdline@.len() - i,
    {
        let ghost parts = split_on(cmdline@.take(i as int), 0);
        let ghost parts2 = split_on(cmdline@.take(i + 1), 0);
        assert(cmdline@.take(i + 1).drop_last() =~= cmdline@.take(i as int));
        assert(cmdline@.take(i + 1).last() == cmdline@[i as int]);
        proof {
            lemma_split_prefix(cmdline@, 0, i + 1);
            lemma_split_len(cmdline@.take(i as int), 0);
        }
        if cmdline[i] == 0 {
            if idx == n {
                let mut a: Vec<u8> = Vec::new();
                extend(&mut a, &cmdline[start..i]);
                proof {
                    assert(parts2 == parts.push(Seq::empty()));
                    let b = split_on(cmdline@, 0);
                    assert(b[idx as int] == parts2[idx as int]);
                    if i + 1 == cmdline@.len() {
                        assert(cmdline@.take(i + 1) =~= cmdline@);
                    }
                }
                return Some(a);
            }
            idx += 1;
            start = i + 1;
            proof {
                assert(parts2 == parts.push(Seq::empty()));
                assert(cmdline@.subrange(start as int, i + 1) =~= Seq::<u8>::empty());
            }
        } else {
            proof {
                assert(parts2 == parts.update(parts.len() - 1, parts.last().push(cmdline@[i as int])));
                assert(cmdline@.subrange(start as int, i + 1) =~= parts.last().push(cmdline@[i as int]));
            }
        }
        i += 1;
    }
    assert(cmdline@.take(cmdline@.len() as int) =~= cmdline@);
    if idx == n && start < cmdline.len() {
        let mut a: Vec<u8> = Vec::new();
        extend(&mut a, &cmdline[start..cmdline.len()]);
        proof {
            let p = split_on(cmdline@, 0);
            assert(p.last().len() > 0);
            assert(p.last().last() == cmdline@.last());
        }
        return Some(a);
    }
    proof {
        let p = split_on(cmdline@, 0);
        assert(p.last() == cmdline@.subrange(start as int, cmdline@.len() as int));
        if cmdline@.len() > 0 {
            let r = split_on(cmdline@.drop_last(), 0);
            lemma_split_len(cmdline@.drop_last(), 0);
            if cmdline@.last() != 0 {
                assert(p == r.update(r.len() - 1, r.last().push(cmdline@.last())));
                assert(p.last().len() > 0);
                assert(idx != n);
            } else {
                assert(p == r.push(Seq::empty()));
                assert(fields(cmdline@) =~= p.drop_last());
            }
        }
    }
    None
}

/// The usage message, printed when fewer than three arguments are given.
pub fn usage() -> (res: Vec<u8>)
    ensures
        res@ == lit("Usage: tiny-portscan <ip> <start-port> <end-port>\n") + lit(
            "Example: tiny-portscan 127.0.0.1 9990 10000\n",
        ),
{
    let mut out = lit_bytes("Usage: tiny-portscan <ip> <start-port> <end-port>\n");
    extend(&mut out, "Example: tiny-portscan 127.0.0.1 9990 10000\n".as_bytes());
    out
}

/// How long the scanner waits for each port, in milliseconds.
pub const TIMEOUT_MS: u32 = 200;

/// The line that opens the report.
pub fn scan_header(ip: &[u8], start: u16, end: u16) -> (res: Vec<u8>)
    ensures
        res@ == lit("Scanning ") + ip@ + lit(" ports ") + dec_digits(start as nat) + lit("-") + dec_digits(end as nat)
            + lit(" (timeout ") + dec_digits(TIMEOUT_MS as nat) + lit("ms)\n"),
{
    let mut out = lit_bytes("Scanning ");
    extend(&mut out, ip);
    extend(&mut out, " ports ".as_bytes());
    let d = format_u32(start as u32);
    extend(&mut out, d.as_slice());
    extend(&mut out, "-".as_bytes());
    let d = format_u32(end as u32);
    extend(&mut out, d.as_slice());
    extend(&mut out, " (timeout ".as_bytes());
    let d = format_u32(TIMEOUT_MS);
    extend(&mut out, d.as_slice());
    extend(&mut out, "ms)\n".as_bytes());
    out
}

/// The line for an open port.
pub fn open_line(port: u16) -> (res: Vec<u8>)
    ensures
        res@ == lit("  OPEN  ") + dec_digits(port as nat) + lit("\n"),
{
    let mut out = lit_bytes("  OPEN  ");
    let d = format_u32(port as u32);
    extend(&mut out, d.as_slice());
    extend(&mut out, "\n".as_bytes());
    out
}

/// The line that closes the report.
pub fn summary_line(open_count: u32) -> (res: Vec<u8>)
    ensures
        res@ == lit("Scan complete: ") + dec_digits(open_count as nat) + lit(" open port(s)\n"),
{
    let mut out = lit_bytes("Scan complete: ");
    let d = format_u32(open_count);
    extend(&mut out, d.as_slice());
    extend(&mut out, " open port(s)\n".as_bytes());
    out
}

} // verus!
