//! What the small system-call demonstrations print and decide: the greeting, `yes`, the
//! one-page web server, the pipe between a parent and its child, the memory-mapped file
//! viewer and the signal counter.

use vstd::prelude::*;
use crate::bytes::{extend, scan_until, lemma_scan_until_bounds};
use crate::http::{lit, lit_bytes};
use crate::numfmt::{dec_digits, format_u64, format_i32, signed_digits};
use crate::pubsub::second_arg;

verus! {

/// The greeting of the smallest programs.
pub fn hello() -> (res: Vec<u8>)
    ensures
        res@ == lit("Hello, tiny world!\n"),
{
    lit_bytes("Hello, tiny world!\n")
}

/// The line `yes` repeats.
pub fn yes_line() -> (res: Vec<u8>)
    ensures
        res@ == lit("y\n"),
{
    lit_bytes("y\n")
}

/// The port the web server listens on.
pub const SERVER_PORT: u16 = 9999;

/// The page the web server serves.
pub open spec fn page() -> Seq<u8> {
    lit(
        "<html><body><h1>Hello from tiny-server!</h1><p>A ~14KB HTTP server with no standard library.</p></body></html>",
    )
}

/// The whole answer to every request: the page with its length.
pub fn server_response() -> (res: Vec<u8>)
    ensures
        res@ == lit("HTTP/1.1 200 OK\r\nContent-Type: text/html\r\nConnection: close\r\nContent-Length: ")
            + dec_digits(page().len()) + lit("\r\n\r\n") + page(),
{
    let body = "<html><body><h1>Hello from tiny-server!</h1><p>A ~14KB HTTP server with no standard library.</p></body></html>".as_bytes();
    let mut out = lit_bytes("HTTP/1.1 200 OK\r\nContent-Type: text/html\r\nConnection: close\r\nContent-Length: ");
    extend(&mut out, format_u64(body.len() as u64).as_slice());
    extend(&mut out, "\r\n\r\n".as_bytes());
    extend(&mut out, body);
    out
}

/// The web server's first line.
pub fn server_banner() -> (res: Vec<u8>)
    ensures
        res@ == lit("Listening on port ") + dec_digits(SERVER_PORT as nat) + lit("\n"),
{
    let mut out = lit_bytes("Listening on port ");
    extend(&mut out, format_u64(SERVER_PORT as u64).as_slice());
    extend(&mut out, "\n".as_bytes());
    out
}

/// The web server's log line for its `n`-th request.
pub fn server_log(n: u64) -> (res: Vec<u8>)
    ensures
        res@ == lit("[") + dec_digits(n as nat) + lit("] 200 OK\n"),
{
    let mut out = lit_bytes("[");
    extend(&mut out, format_u64(n).as_slice());
    extend(&mut out, "] 200 OK\n".as_bytes());
    out
}

/// The messages the child sends through the pipe, in order.
pub fn pipe_messages() -> (res: Vec<Vec<u8>>)
    ensures
        res@.len() == 3,
        res@[0]@ == lit("Hello from the child process!\n"),
        res@[1]@ == lit("Pipes are a Unix IPC mechanism.\n"),
        res@[2]@ == lit("This is the last message. Goodbye!\n"),
{
    let mut out: Vec<Vec<u8>> = Vec::new();
    out.push(lit_bytes("Hello from the child process!\n"));
    out.push(lit_bytes("Pipes are a Unix IPC mechanism.\n"));
    out.push(lit_bytes("This is the last message. Goodbye!\n"));
    out
}

/// What the child prints before it sends `count` (at most 9) messages.
pub fn child_banner(pid: i32, count: u8) -> (res: Vec<u8>)
    requires
        count <= 9,
    ensures
        res@ == lit("[child  pid=") + signed_digits(pid as int) + lit("] sending ") + seq![(48 + count) as u8] + lit(
            " messages through pipe\n",
        ),
{
    let mut out = lit_bytes("[child  pid=");
    extend(&mut out, format_i32(pid).as_slice());
    extend(&mut out, "] sending ".as_bytes());
    out.push(48 + count);
    extend(&mut out, " messages through pipe\n".as_bytes());
    out
}

/// What the parent prints after it forks.
pub fn parent_banner(pid: i32, child: i32) -> (res: Vec<u8>)
    ensures
        res@ == lit("[parent pid=") + signed_digits(pid as int) + lit("] forked child pid=") + signed_digits(
            child as int,
        ) + lit("\n") + lit("[parent] reading from pipe:\n"),
{
    let mut out = lit_bytes("[parent pid=");
    extend(&mut out, format_i32(pid).as_slice());
    extend(&mut out, "] forked child pid=".as_bytes());
    extend(&mut out, format_i32(child).as_slice());
    extend(&mut out, "\n".as_bytes());
    extend(&mut out, "[parent] reading from pipe:\n".as_bytes());
    out
}

/// What the parent prints for each chunk read from the pipe.
pub fn pipe_chunk(chunk: &[u8]) -> (res: Vec<u8>)
    ensures
        res@ == lit("  > ") + chunk@,
{
    let mut out = lit_bytes("  > ");
    extend(&mut out, chunk);
    out
}

/// How the parent reports the child's end, from the status `waitpid` gives.
pub fn child_exit_report(status: i32) -> (res: Vec<u8>)
    ensures
        res@ == if status & 0x7f == 0 {
            lit("[parent] child exited with status ") + signed_digits(((status >> 8i32) & 0xff) as int) + lit("\n")
        } else {
            lit("[parent] child terminated abnormally\n")
        },
{
    if status & 0x7f == 0 {
        let code = (status >> 8i32) & 0xff;
        let mut out = lit_bytes("[parent] child exited with status ");
        extend(&mut out, format_i32(code).as_slice());
        extend(&mut out, "\n".as_bytes());
        out
    } else {
        lit_bytes("[parent] child terminated abnormally\n")
    }
}

/// The path the file viewer maps: its first argument, when it is not empty and fits a
/// 256-byte buffer with its zero byte.
pub open spec fn mapped_path(cmdline: Seq<u8>) -> Option<Seq<u8>> {
    match second_arg(cmdline) {
        Some(a) => if 0 < a.len() < 256 {
            Some(a)
        } else {
            None
        },
        None => None,
    }
}

/// Reads the path the file viewer maps.
pub fn get_argv1(cmdline: &[u8]) -> (res: Option<Vec<u8>>)
    ensures
        match res {
            Some(p) => mapped_path(cmdline@) == Some(p@),
            None => mapped_path(cmdline@) is None,
        },
{
    let mut i: usize = 0;
    while i < cmdline.len() && cmdline[i] != 0
        invariant
            i <= cmdline@.len(),
            scan_until(cmdline@, 0, |c: u8| c == 0) == scan_until(cmdline@, i as int, |c: u8| c == 0),
        decreases cmdline@.len() - i,
    {
        i += 1;
    }
    if i >= cmdline.len() || i + 1 >= cmdline.len() {
        return None;
    }
    let start = i + 1;
    let mut j = start;
    while j < cmdline.len() && cmdline[j] != 0
        invariant
            start <= j <= cmdline@.len(),
            scan_until(cmdline@, start as int, |c: u8| c == 0) == scan_until(cmdline@, j as int, |c: u8| c == 0),
        decreases cmdline@.len() - j,
    {
        j += 1;
    }
    let len = j - start;
    if len == 0 || len >= 256 {
        return None;
    }
    let mut p: Vec<u8> = Vec::new();
    extend(&mut p, &cmdline[start..j]);
    Some(p)
}

/// What the file viewer prints before the file's bytes.
pub fn mapped_header(path: &[u8], size: u64) -> (res: Vec<u8>)
    ensures
        res@ == lit("File: ") + path@ + lit("\nSize: ") + dec_digits(size as nat) + lit(" bytes (memory-mapped)\n\n"),
{
    let mut out = lit_bytes("File: ");
    extend(&mut out, path);
    extend(&mut out, "\nSize: ".as_bytes());
    extend(&mut out, format_u64(size).as_slice());
    extend(&mut out, " bytes (memory-mapped)\n\n".as_bytes());
    out
}

/// The signal counter: how many `SIGUSR1` have come.
pub struct SignalCounter {
    pub usr1: u64,
}

impl SignalCounter {
    /// Nothing counted yet.
    pub fn new() -> (res: SignalCounter)
        ensures
            res.usr1 == 0,
    {
        SignalCounter { usr1: 0 }
    }

    /// After a wake-up, with the flags the handlers set: what to print, and whether to exit
    /// (after a `SIGINT`).  A `SIGUSR1` is counted and reported first.
    pub fn on_wake(&mut self, got_usr1: bool, got_int: bool) -> (res: (Vec<u8>, bool))
        ensures
            final(self).usr1 == if got_usr1 {
                old(self).usr1.wrapping_add(1)
            } else {
                old(self).usr1
            },
            res.1 == got_int,
            res.0@ == (if got_usr1 {
                lit("Caught SIGUSR1 (#") + dec_digits(final(self).usr1 as nat) + lit(")\n")
            } else {
                Seq::empty()
            }) + (if got_int {
                lit("\nCaught SIGINT, exiting gracefully.\n") + lit("Total SIGUSR1 received: ") + dec_digits(
                    final(self).usr1 as nat,
                ) + lit("\n")
            } else {
                Seq::empty()
            }),
    {
        let mut out: Vec<u8> = Vec::new();
        if got_usr1 {
            self.usr1 = self.usr1.wrapping_add(1);
            extend(&mut out, "Caught SIGUSR1 (#".as_bytes());
            extend(&mut out, format_u64(self.usr1).as_slice());
            extend(&mut out, ")\n".as_bytes());
        }
        let ghost first = out@;
        if got_int {
            extend(&mut out, "\nCaught SIGINT, exiting gracefully.\n".as_bytes());
            extend(&mut out, "Total SIGUSR1 received: ".as_bytes());
            extend(&mut out, format_u64(self.usr1).as_slice());
            extend(&mut out, "\n".as_bytes());
        }
        proof {
            if !got_usr1 {
                assert(first =~= Seq::<u8>::empty());
            }
            if !got_int {
                assert(out@ =~= first + Seq::<u8>::empty());
            }
        }
        (out, got_int)
    }
}

/// What the signal counter prints when it starts.
pub fn signal_banner(pid: u64) -> (res: Vec<u8>)
    ensures
        res@ == lit("PID: ") + dec_digits(pid as nat) + lit("\n") + lit(
            "Waiting for signals... (Ctrl+C to quit, kill -USR1 <pid> to ping)\n",
        ),
{
    let mut out = lit_bytes("PID: ");
    extend(&mut out, format_u64(pid).as_slice());
    extend(&mut out, "\n".as_bytes());
    extend(&mut out, "Waiting for signals... (Ctrl+C to quit, kill -USR1 <pid> to ping)\n".as_bytes());
    out
}

} // verus!
