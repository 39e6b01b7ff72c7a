//! The UDP echo server's bookkeeping: what it counts for each datagram it echoes, and what
//! it answers to the commands typed on its standard input.

use vstd::prelude::*;
use crate::bytes::{extend, trim_end, trimmed_len, bytes_eq};
use crate::http::{lit, lit_bytes};
use crate::numfmt::{dec_digits, format_u64};

verus! {

/// The port the server listens on.
pub const UDP_PORT: u16 = 9998;

/// What the server has echoed so far.
pub struct EchoStats {
    pub echo_count: u64,
    pub total_bytes: u64,
}

/// What a command line typed on standard input does.
#[derive(PartialEq, Eq, Structural, Clone, Copy)]
pub enum EchoCommand {
    /// `quit`: say so and stop.
    Quit,
    /// `stats`: report the counts.
    Stats,
    /// Anything else.
    Unknown,
}

/// How a command line reads, trailing newlines, carriage returns and spaces aside.
pub open spec fn command_spec(line: Seq<u8>) -> EchoCommand {
    let cmd = line.take(trimmed_len(line) as int);
    if cmd == lit("quit") {
        EchoCommand::Quit
    } else if cmd == lit("stats") {
        EchoCommand::Stats
    } else {
        EchoCommand::Unknown
    }
}

/// Reads a command line.
pub fn parse_command(line: &[u8]) -> (res: EchoCommand)
    ensures
        res == command_spec(line@),
{
    let cmd = trim_end(line);
    if bytes_eq(cmd, "quit".as_bytes()) {
        EchoCommand::Quit
    } else if bytes_eq(cmd, "stats".as_bytes()) {
        EchoCommand::Stats
    } else {
        EchoCommand::Unknown
    }
}

impl EchoStats {
    /// Nothing echoed yet.
    pub fn new() -> (res: EchoStats)
        ensures
            res.echo_count == 0,
            res.total_bytes == 0,
    {
        EchoStats { echo_count: 0, total_bytes: 0 }
    }

    /// A datagram of `n` bytes was echoed: counted, and logged.
    pub fn on_echo(&mut self, n: u64) -> (res: Vec<u8>)
        ensures
            final(self).echo_count == old(self).echo_count.wrapping_add(1),
            final(self).total_bytes == old(self).total_bytes.wrapping_add(n),
            res@ == lit("[echo] ") + dec_digits(n as nat) + lit(" bytes\n"),
    {
        self.echo_count = self.echo_count.wrapping_add(1);
        self.total_bytes = self.total_bytes.wrapping_add(n);
        let mut out = lit_bytes("[echo] ");
        extend(&mut out, format_u64(n).as_slice());
        extend(&mut out, " bytes\n".as_bytes());
        out
    }

    /// What the server prints for a command.
    pub fn answer(&self, cmd: EchoCommand) -> (res: Vec<u8>)
        ensures
            res@ == match cmd {
                EchoCommand::Quit => lit("Shutting down.\n"),
                EchoCommand::Stats => lit("Echoed ") + dec_digits(self.echo_count as nat) + lit(" datagrams, ")
                    + dec_digits(self.total_bytes as nat) + lit(" bytes total\n"),
                EchoCommand::Unknown => lit("Unknown command. Try: stats, quit\n"),
            },
    {
        match cmd {
            EchoCommand::Quit => lit_bytes("Shutting down.\n"),
            EchoCommand::Stats => {
                let mut out = lit_bytes("Echoed ");
                extend(&mut out, format_u64(self.echo_count).as_slice());
                extend(&mut out, " datagrams, ".as_bytes());
                extend(&mut out, format_u64(self.total_bytes).as_slice());
                extend(&mut out, " bytes total\n".as_bytes());
                out
            },
            EchoCommand::Unknown => lit_bytes("Unknown command. Try: stats, quit\n"),
        }
    }
}

/// The server's first lines.
pub fn echo_banner() -> (res: Vec<u8>)
    ensures
        res@ == lit("UDP echo server listening on port ") + dec_digits(UDP_PORT as nat) + lit("\n") + lit(
            "Commands on stdin: stats, quit\n",
        ),
{
    let mut out = lit_bytes("UDP echo server listening on port ");
    extend(&mut out, format_u64(UDP_PORT as u64).as_slice());
    extend(&mut out, "\n".as_bytes());
    extend(&mut out, "Commands on stdin: stats, quit\n".as_bytes());
    out
}

} // verus!
