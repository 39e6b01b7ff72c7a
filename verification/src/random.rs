//! A xorshift64 pseudo-random generator, printed as decimal lines or as raw bytes, and the
//! reading of its command line (`-n count`, `-b count`).

use vstd::prelude::*;
use crate::bytes::{scan_until, lemma_scan_until_bounds, extend, min};
use crate::numfmt::{dec_digits, format_u64, all_digits, digits_value, is_digit, is_digit_exec, parse_u64,
    lemma_digit_prefix_len};
use crate::blockchain::{le_bytes64, le64};

verus! {

/// The seed used when the random source yields zero, the one state xorshift never leaves.
pub const FALLBACK_SEED: u64 = 0xdeadbeefcafe1234;

/// One xorshift64 step (shifts 13, 7, 17).
pub open spec fn xs(x: u64) -> u64 {
    let a = x ^ (x << 13u64);
    let b = a ^ (a >> 7u64);
    b ^ (b << 17u64)
}

/// The state after `n` steps from `s`.
pub open spec fn xs_iter(s: u64, n: nat) -> u64
    decreases n,
{
    if n == 0 {
        s
    } else {
        xs_iter(xs(s), (n - 1) as nat)
    }
}

/// The bytes of the next `n` values from `s`, each least significant byte first.
pub open spec fn stream(s: u64, n: nat) -> Seq<u8>
    decreases n,
{
    if n == 0 {
        Seq::empty()
    } else {
        le_bytes64(xs(s)) + stream(xs(s), (n - 1) as nat)
    }
}

/// Advances the generator and gives the new state, which is also the value drawn.
pub fn xorshift64(state: &mut u64) -> (res: u64)
    ensures
        res == xs(*old(state)),
        *final(state) == res,
{
    let mut x = *state;
    x ^= x << 13u64;
    x ^= x >> 7u64;
    x ^= x << 17u64;
    *state = x;
    x
}

/// The generator never reaches zero from a state other than zero, so it never gets stuck.
pub proof fn law_xorshift_nonzero(x: u64)
    requires
        x != 0,
    ensures
        xs(x) != 0,
{
    assert(x != 0 ==> x ^ (x << 13u64) != 0) by (bit_vector);
    let a = x ^ (x << 13u64);
    assert(a != 0 ==> a ^ (a >> 7u64) != 0) by (bit_vector);
    let b = a ^ (a >> 7u64);
    assert(b != 0 ==> b ^ (b << 17u64) != 0) by (bit_vector);
}

/// The seed to start from: the one read, or `FALLBACK_SEED` when it is zero.
pub fn seed_or_fallback(seed: u64) -> (res: u64)
    ensures
        res == if seed == 0 {
            FALLBACK_SEED
        } else {
            seed
        },
        res != 0,
{
    if seed == 0 {
        FALLBACK_SEED
    } else {
        seed
    }
}

/// The next value as a decimal line.
pub fn next_line(state: &mut u64) -> (res: Vec<u8>)
    ensures
        *final(state) == xs(*old(state)),
        res@ == dec_digits(xs(*old(state)) as nat).push(10u8),
{
    let v = xorshift64(state);
    let mut line = format_u64(v);
    line.push(10u8);
    line
}

/// The next `chunk` raw bytes: the values drawn in turn, each least significant byte first,
/// as many as the chunk needs, the last one cut short when the chunk ends inside it.
pub fn next_bytes(state: &mut u64, chunk: usize) -> (res: Vec<u8>)
    requires
        chunk <= 4096,
    ensures
        res@ == stream(*old(state), ((chunk + 7) / 8) as nat).take(chunk as int),
        *final(state) == xs_iter(*old(state), ((chunk + 7) / 8) as nat),
{
    let ghost s0 = *state;
    let mut out: Vec<u8> = Vec::new();
    let mut k: usize = 0;
    while out.len() < chunk
        invariant
            chunk <= 4096,
            out@.len() <= chunk,
            out@.len() < chunk ==> out@.len() == 8 * k,
            out@.len() == chunk ==> k == (chunk + 7) / 8,
            k <= (chunk + 7) / 8,
            *state == xs_iter(s0, k as nat),
            stream(s0, k as nat).take(out@.len() as int) == out@,
            stream(s0, k as nat).len() == 8 * k,
        decreases chunk - out@.len(),
    {
        let ghost sk = *state;
        let v = xorshift64(state);
        let bytes = le64(v);
        let mut j: usize = 0;
        let ghost before = out@;
        proof {
            lemma_stream_step(s0, k as nat);
            lemma_iter_step(s0, k as nat);
        }
        while j < 8 && out.len() < chunk
            invariant
                j <= 8,
                bytes@ == le_bytes64(v),
                before.len() == 8 * k,
                out@.len() <= chunk,
                out@ == before + bytes@.take(j as int),
            decreases 8 - j,
        {
            out.push(bytes[j]);
            assert(bytes@.take(j + 1) =~= bytes@.take(j as int).push(bytes@[j as int]));
            j += 1;
        }
        proof {
            let st = stream(s0, (k + 1) as nat);
            assert(st =~= stream(s0, k as nat) + le_bytes64(v));
            assert(st.take(out@.len() as int) =~= out@);
        }
        k += 1;
    }
    out
}

/// Drawing one more value appends its bytes to the stream.
pub proof fn lemma_stream_step(s: u64, k: nat)
    ensures
        stream(s, k + 1) == stream(s, k) + le_bytes64(xs(xs_iter(s, k))),
        stream(s, k).len() == 8 * k,
    decreases k,
{
    if k > 0 {
        lemma_stream_step(xs(s), (k - 1) as nat);
        assert(stream(s, k + 1) =~= le_bytes64(xs(s)) + (stream(xs(s), (k - 1) as nat) + le_bytes64(
            xs(xs_iter(xs(s), (k - 1) as nat)),
        )));
    } else {
        assert(stream(s, 1) =~= le_bytes64(xs(s)) + stream(xs(s), 0));
    }
}

/// One more step after `k` steps is `k + 1` steps.
pub proof fn lemma_iter_step(s: u64, k: nat)
    ensures
        xs_iter(s, k + 1) == xs(xs_iter(s, k)),
    decreases k,
{
    if k > 0 {
        lemma_iter_step(xs(s), (k - 1) as nat);
        assert(xs_iter(s, k + 1) == xs_iter(xs(s), k));
        assert(xs_iter(s, k) == xs_iter(xs(s), (k - 1) as nat));
    } else {
        assert(xs_iter(s, 1) == xs_iter(xs(s), 0));
    }
}

/// A count as given on the command line: its digits read modulo 2^64; `None` when some byte
/// is not a digit (the tool then stops with status 1).
pub fn parse_count(s: &[u8]) -> (res: Option<u64>)
    ensures
        res == if all_digits(s@) {
            Some((digits_value(s@) % 0x1_0000_0000_0000_0000) as u64)
        } else {
            None::<u64>
        },
{
    let mut i: usize = 0;
    while i < s.len()
        invariant
            i <= s@.len(),
            all_digits(s@.take(i as int)),
        decreases s@.len() - i,
    {
        if !is_digit_exec(s[i]) {
            return None;
        }
        assert(s@.take(i + 1) =~= s@.take(i as int).push(s@[i as int]));
        i += 1;
    }
    assert(s@.take(s@.len() as int) =~= s@);
    proof {
        lemma_digit_prefix_len(s@, s@.len() as int);
    }
    Some(parse_u64(s))
}

/// The non-empty NUL-separated fields of a command line from position `i` on, at most `n`
/// of them.
pub open spec fn fields_from(cmdline: Seq<u8>, i: int, n: nat) -> Seq<Seq<u8>>
    decreases cmdline.len() - i,
{
    if i < 0 || i >= cmdline.len() || n == 0 {
        Seq::empty()
    } else {
        let e = scan_until(cmdline, i, |c: u8| c == 0);
        proof {
            lemma_scan_until_bounds(cmdline, i, |c: u8| c == 0);
        }
        let taken: nat = if e > i {
            1
        } else {
            0
        };
        let rest = if e < cmdline.len() {
            fields_from(cmdline, e + 1, (n - taken) as nat)
        } else {
            Seq::empty()
        };
        if e > i {
            seq![cmdline.subrange(i, e)] + rest
        } else {
            rest
        }
    }
}

/// The arguments the tool reads: the first eight non-empty ones after the program's name.
pub open spec fn tool_args(cmdline: Seq<u8>) -> Seq<Seq<u8>> {
    fields_from(cmdline, scan_until(cmdline, 0, |c: u8| c == 0) + 1, 8)
}

/// Reading the options from argument `j` on, with the count and the raw flag so far: `-n N`
/// sets the count, `-b N` sets it and asks for raw bytes; `None` when a count is not a
/// number.
pub open spec fn options_from(args: Seq<Seq<u8>>, j: int, count: u64, raw: bool) -> Option<(u64, bool)>
    decreases args.len() - j,
{
    if j < 0 || j >= args.len() {
        Some((count, raw))
    } else if (args[j] == seq![45u8, 110u8] || args[j] == seq![45u8, 98u8]) && j + 1 < args.len() {
        if all_digits(args[j + 1]) {
            options_from(
                args,
                j + 2,
                (digits_value(args[j + 1]) % 0x1_0000_0000_0000_0000) as u64,
                raw || args[j] == seq![45u8, 98u8],
            )
        } else {
            None
        }
    } else {
        options_from(args, j + 1, count, raw)
    }
}

/// The first eight non-empty arguments after the program's name, in a command line as
/// `/proc/self/cmdline` holds it.
pub fn first_args(cmdline: &[u8]) -> (res: Vec<Vec<u8>>)
    ensures
        res@.map_values(|a: Vec<u8>| a@) == tool_args(cmdline@),
        res@.len() <= 8,
{
    let mut i: usize = 0;
    while i < cmdline.len() && cmdline[i] != 0
        invariant
            i <= cmdline@.len(),
            scan_until(cmdline@, 0, |c: u8| c == 0) == scan_until(cmdline@, i as int, |c: u8| c == 0),
        decreases cmdline@.len() - i,
    {
        i += 1;
    }
    let ghost first = i as int + 1;
    let mut args: Vec<Vec<u8>> = Vec::new();
    let mut pos: usize = if i < cmdline.len() {
        i + 1
    } else {
        cmdline.len()
    };
    let ghost all = fields_from(cmdline@, first, 8);
    assert(i >= cmdline.len() ==> all =~= Seq::<Seq<u8>>::empty());
    while pos < cmdline.len() && args.len() < 8
        invariant
            pos <= cmdline@.len(),
            args@.len() <= 8,
            all == args@.map_values(|a: Vec<u8>| a@) + fields_from(cmdline@, pos as int, (8 - args@.len()) as nat),
        ensures
            pos <= cmdline@.len(),
            args@.len() <= 8,
            all == args@.map_values(|a: Vec<u8>| a@) + fields_from(cmdline@, pos as int, (8 - args@.len()) as nat),
            pos >= cmdline@.len() || args@.len() >= 8,
        decreases cmdline@.len() - pos,
    {
        let start = pos;
        while pos < cmdline.len() && cmdline[pos] != 0
            invariant
                start <= pos <= cmdline@.len(),
                scan_until(cmdline@, start as int, |c: u8| c == 0) == scan_until(cmdline@, pos as int, |c: u8| c == 0),
            decreases cmdline@.len() - pos,
        {
            pos += 1;
        }
        let ghost before = args@.map_values(|a: Vec<u8>| a@);
        let ghost n = (8 - args@.len()) as nat;
        if pos > start {
            let mut a: Vec<u8> = Vec::new();
            extend(&mut a, &cmdline[start..pos]);
            args.push(a);
        }
        proof {
            let after = args@.map_values(|a: Vec<u8>| a@);
            let next = if pos < cmdline@.len() {
                fields_from(cmdline@, pos + 1, (8 - args@.len()) as nat)
            } else {
                Seq::<Seq<u8>>::empty()
            };
            if pos > start {
                assert(after =~= before.push(cmdline@.subrange(start as int, pos as int)));
                assert(before + fields_from(cmdline@, start as int, n) =~= after + next);
            } else {
                assert(after =~= before);
            }
        }
        if pos >= cmdline.len() {
            break;
        }
        pos += 1;
    }
    proof {
        let got = args@.map_values(|a: Vec<u8>| a@);
        if args@.len() == 8 {
            assert(fields_from(cmdline@, pos as int, 0) =~= Seq::<Seq<u8>>::empty());
        } else {
            assert(fields_from(cmdline@, pos as int, (8 - args@.len()) as nat) =~= Seq::<Seq<u8>>::empty());
        }
        assert(all =~= got);
    }
    args
}

/// How many values (or bytes) to produce and whether as raw bytes, from a command line as
/// `/proc/self/cmdline` holds it; one decimal value by default.  `None` when a count is not a
/// number.
pub fn parse_args(cmdline: &[u8]) -> (res: Option<(u64, bool)>)
    ensures
        res == options_from(tool_args(cmdline@), 0, 1, false),
{
    let args = first_args(cmdline);
    let ghost all = tool_args(cmdline@);
    let mut count: u64 = 1;
    let mut raw = false;
    let mut j: usize = 0;
    while j < args.len()
        invariant
            j <= args@.len(),
            options_from(all, 0, 1, false) == options_from(all, j as int, count, raw),
            all == args@.map_values(|a: Vec<u8>| a@),
            all == tool_args(cmdline@),
        decreases args@.len() - j,
    {
        let arg = args[j].as_slice();
        assert(all[j as int] == arg@);
        let is_n = arg.len() == 2 && arg[0] == 45 && arg[1] == 110;
        let is_b = arg.len() == 2 && arg[0] == 45 && arg[1] == 98;
        assert(is_n == (arg@ == seq![45u8, 110u8])) by {
            if arg@ == seq![45u8, 110u8] {
                assert(arg@[0] == seq![45u8, 110u8][0]);
                assert(arg@[1] == seq![45u8, 110u8][1]);
            }
            if is_n {
                assert(arg@ =~= seq![45u8, 110u8]);
            }
        }
        assert(is_b == (arg@ == seq![45u8, 98u8])) by {
            if arg@ == seq![45u8, 98u8] {
                assert(arg@[0] == seq![45u8, 98u8][0]);
                assert(arg@[1] == seq![45u8, 98u8][1]);
            }
            if is_b {
                assert(arg@ =~= seq![45u8, 98u8]);
            }
        }
        if (is_n || is_b) && j + 1 < args.len() {
            assert(all[j + 1] == args@[j + 1]@);
            match parse_count(args[j + 1].as_slice()) {
                Some(v) => {
                    count = v;
                    if is_b {
                        raw = true;
                    }
                    j += 2;
                },
                None => {
                    return None;
                },
            }
        } else {
            j += 1;
        }
    }
    Some((count, raw))
}

} // verus!
