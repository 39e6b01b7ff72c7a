//! The session logic of a small SMTP server: the command dialogue (`EHLO`, `MAIL FROM:`,
//! `RCPT TO:`, `DATA`, ...) and the collection of a message up to its `<CRLF>.<CRLF>`.
//!
//! The server reads from the client and hands each chunk to `Session::on_read`, which
//! answers with what to send back, what to log, and whether to close the connection.

use vstd::prelude::*;
use crate::bytes::{eq_ci_prefix, starts_with_ci, find_crlf, crlf_at, find_dot_terminator, dot_terminator_at,
    extract_angle_addr, scan_until, lemma_scan_until_first, lemma_scan_until_bounds, extend, min};
use crate::http::{lit, lit_bytes};
use crate::numfmt::{dec_digits, format_u32};

verus! {

/// The longest command line, with its line end.
pub const MAX_LINE: usize = 512;
/// The largest message.
pub const MAX_MSG_SIZE: usize = 10240;
/// How much of a sender or recipient address is kept.
pub const MAX_ADDR: usize = 256;

/// Where the dialogue stands.
#[derive(PartialEq, Eq, Structural, Clone, Copy)]
pub enum SmtpState {
    Init,
    Greeted,
    Mail,
    Rcpt,
    Data,
}

/// A client's session: the dialogue state, the unprocessed command bytes, the sender and
/// recipient (the kept bytes and the length the address had) and the message so far.
pub struct Session {
    pub state: SmtpState,
    pub line: Vec<u8>,
    pub from: Vec<u8>,
    pub from_len: usize,
    pub to: Vec<u8>,
    pub to_len: usize,
    pub data: Vec<u8>,
}

/// A session as the specification sees it.
pub struct SessionModel {
    pub state: SmtpState,
    pub line: Seq<u8>,
    pub from: Seq<u8>,
    pub from_len: nat,
    pub to: Seq<u8>,
    pub to_len: nat,
    pub data: Seq<u8>,
}

impl View for Session {
    type V = SessionModel;

    open spec fn view(&self) -> SessionModel {
        SessionModel {
            state: self.state,
            line: self.line@,
            from: self.from@,
            from_len: self.from_len as nat,
            to: self.to@,
            to_len: self.to_len as nat,
            data: self.data@,
        }
    }
}

/// What the server does after a chunk from the client: send `reply`, log `log`, then
/// close the connection (`close`) or stop altogether (`abort`).
pub struct Outcome {
    pub reply: Vec<u8>,
    pub log: Vec<u8>,
    pub close: bool,
    pub abort: bool,
}

/// The first `\r\n` at or after `i`.
pub open spec fn crlf_from(s: Seq<u8>, i: int) -> Option<int>
    decreases s.len() - i,
{
    if i < 0 || i + 1 >= s.len() {
        None
    } else if crlf_at(s, i) {
        Some(i)
    } else {
        crlf_from(s, i + 1)
    }
}

/// The first `\r\n.\r\n` at or after `i`.
pub open spec fn dot_from(s: Seq<u8>, i: int) -> Option<int>
    decreases s.len() - i,
{
    if i < 0 || i + 4 >= s.len() {
        None
    } else if dot_terminator_at(s, i) {
        Some(i)
    } else {
        dot_from(s, i + 1)
    }
}

/// What lies between the first `<` of a line and the first `>` after it.
pub open spec fn angle_addr(s: Seq<u8>) -> Option<(int, int)> {
    let lt = scan_until(s, 0, |c: u8| c == 60);
    let gt = scan_until(s, lt + 1, |c: u8| c == 62);
    if lt >= s.len() || gt >= s.len() {
        None
    } else {
        Some((lt + 1, gt))
    }
}

proof fn lemma_crlf_from(s: Seq<u8>, i: int, j: int)
    requires
        0 <= i <= j,
        forall|k: int| i <= k < j ==> !crlf_at(s, k),
    ensures
        j + 1 < s.len() && crlf_at(s, j) ==> crlf_from(s, i) == Some(j),
        (forall|k: int| j <= k && k + 1 < s.len() ==> !crlf_at(s, k)) ==> crlf_from(s, i) is None,
    decreases j - i,
{
    if i < j {
        lemma_crlf_from(s, i + 1, j);
    } else {
        lemma_crlf_tail(s, i);
    }
}

proof fn lemma_crlf_tail(s: Seq<u8>, i: int)
    requires
        0 <= i,
    ensures
        (forall|k: int| i <= k && k + 1 < s.len() ==> !crlf_at(s, k)) ==> crlf_from(s, i) is None,
    decreases s.len() - i,
{
    if i + 1 < s.len() {
        lemma_crlf_tail(s, i + 1);
    }
}

proof fn lemma_dot_from(s: Seq<u8>, i: int, j: int)
    requires
        0 <= i <= j,
        forall|k: int| i <= k < j ==> !dot_terminator_at(s, k),
    ensures
        j + 4 < s.len() && dot_terminator_at(s, j) ==> dot_from(s, i) == Some(j),
        (forall|k: int| j <= k && k + 4 < s.len() ==> !dot_terminator_at(s, k)) ==> dot_from(s, i) is None,
    decreases j - i,
{
    if i < j {
        lemma_dot_from(s, i + 1, j);
    } else {
        lemma_dot_tail(s, i);
    }
}

proof fn lemma_dot_tail(s: Seq<u8>, i: int)
    requires
        0 <= i,
    ensures
        (forall|k: int| i <= k && k + 4 < s.len() ==> !dot_terminator_at(s, k)) ==> dot_from(s, i) is None,
    decreases s.len() - i,
{
    if i + 4 < s.len() {
        lemma_dot_tail(s, i + 1);
    }
}

pub proof fn lemma_crlf_from_bounds(s: Seq<u8>, i: int)
    requires
        0 <= i,
    ensures
        crlf_from(s, i) matches Some(j) ==> i <= j && j + 1 < s.len(),
    decreases s.len() - i,
{
    if i + 1 < s.len() && !crlf_at(s, i) {
        lemma_crlf_from_bounds(s, i + 1);
    }
}

/// The first line end of a buffer.
fn first_crlf(s: &[u8]) -> (res: Option<usize>)
    ensures
        match res {
            Some(i) => crlf_from(s@, 0) == Some(i as int) && i + 1 < s@.len(),
            None => crlf_from(s@, 0) is None,
        },
{
    let r = find_crlf(s, s.len());
    proof {
        match r {
            Some(i) => lemma_crlf_from(s@, 0, i as int),
            None => lemma_crlf_from(s@, 0, 0),
        }
    }
    r
}

/// The first message terminator of a buffer.
fn first_dot(s: &[u8]) -> (res: Option<usize>)
    ensures
        match res {
            Some(i) => dot_from(s@, 0) == Some(i as int) && i + 4 < s@.len(),
            None => dot_from(s@, 0) is None,
        },
{
    let r = find_dot_terminator(s, s.len());
    proof {
        match r {
            Some(i) => lemma_dot_from(s@, 0, i as int),
            None => lemma_dot_from(s@, 0, 0),
        }
    }
    r
}

/// What lies between the first `<` of a line and the first `>` after it.
fn angle(s: &[u8]) -> (res: Option<(usize, usize)>)
    ensures
        match res {
            Some((a, b)) => angle_addr(s@) == Some((a as int, b as int)) && a <= b <= s@.len(),
            None => angle_addr(s@) is None,
        },
{
    let r = extract_angle_addr(s, s.len());
    proof {
        let lt = scan_until(s@, 0, |c: u8| c == 60);
        lemma_scan_until_bounds(s@, 0, |c: u8| c == 60);
        match r {
            Some((a, b)) => {
                lemma_scan_until_first(s@, 0, a - 1, |c: u8| c == 60);
                lemma_scan_until_first(s@, a as int, b as int, |c: u8| c == 62);
            },
            None => {
                if lt < s@.len() {
                    assert(s@[lt] == 60);
                    lemma_scan_until_bounds(s@, lt + 1, |c: u8| c == 62);
                    let gt = scan_until(s@, lt + 1, |c: u8| c == 62);
                    if gt < s@.len() {
                        assert(s@[gt] == 62);
                        assert(false);
                    }
                }
            },
        }
    }
    r
}

/// The line begins with `p`, up to ASCII case.
pub open spec fn ci_prefix(line: Seq<u8>, p: Seq<u8>) -> bool {
    p.len() <= line.len() && eq_ci_prefix(line, p, p.len() as int)
}

/// The address a `MAIL FROM:` or `RCPT TO:` line gives: what lies between its first `<` and
/// the first `>` after it when there is such a pair, else everything after the first `offset`
/// bytes (the command word); the bytes kept (at most `MAX_ADDR`) and the length the address
/// had.
pub open spec fn address_of(cmd: Seq<u8>, offset: int) -> (Seq<u8>, nat) {
    match angle_addr(cmd) {
        Some((s, e)) => (cmd.subrange(s, e).take(min(e - s, MAX_ADDR as int)), (e - s) as nat),
        None => {
            let n = min(cmd.len() - offset, MAX_ADDR as int);
            (cmd.subrange(offset, offset + n), n as nat)
        },
    }
}

/// When a line holds a `<` and a `>` after its first `<`, the address is exactly the bytes
/// between that first `<` and the first `>` after it (cut to `MAX_ADDR`), whatever follows on
/// the line; the length reported is that of the whole address.
pub proof fn law_address_between_brackets(cmd: Seq<u8>, offset: int, i: int, j: int)
    requires
        0 <= i < j < cmd.len(),
        cmd[i] == 60,
        cmd[j] == 62,
        forall|k: int| 0 <= k < i ==> cmd[k] != 60,
        forall|k: int| i < k < j ==> cmd[k] != 62,
    ensures
        angle_addr(cmd) == Some((i + 1, j)),
        address_of(cmd, offset).1 == j - i - 1,
        j - i - 1 <= MAX_ADDR ==> address_of(cmd, offset).0 == cmd.subrange(i + 1, j),
        j - i - 1 > MAX_ADDR ==> address_of(cmd, offset).0 == cmd.subrange(i + 1, i + 1 + MAX_ADDR),
{
    lemma_scan_until_first(cmd, 0, i, |c: u8| c == 60);
    lemma_scan_until_first(cmd, i + 1, j, |c: u8| c == 62);
    assert(cmd.subrange(i + 1, j).take(min(j - i - 1, MAX_ADDR as int)) =~= cmd.subrange(
        i + 1,
        i + 1 + min(j - i - 1, MAX_ADDR as int),
    ));
}

/// A line with no `<`, or with no `>` after its first `<`, gives as address the bytes after
/// the command word (cut to `MAX_ADDR`).
pub proof fn law_address_without_brackets(cmd: Seq<u8>, offset: int)
    requires
        0 <= offset <= cmd.len(),
        forall|i: int, j: int|
            #![trigger cmd[i], cmd[j]]
            0 <= i < j < cmd.len() && cmd[i] == 60 && (forall|k: int| 0 <= k < i ==> cmd[k] != 60)
                ==> cmd[j] != 62,
    ensures
        angle_addr(cmd) is None,
        address_of(cmd, offset) == (
            cmd.subrange(offset, offset + min(cmd.len() - offset, MAX_ADDR as int)),
            min(cmd.len() - offset, MAX_ADDR as int) as nat,
        ),
{
    let lt = scan_until(cmd, 0, |c: u8| c == 60);
    lemma_scan_until_bounds(cmd, 0, |c: u8| c == 60);
    if lt < cmd.len() {
        lemma_scan_until_bounds(cmd, lt + 1, |c: u8| c == 62);
        let gt = scan_until(cmd, lt + 1, |c: u8| c == 62);
        if gt < cmd.len() {
            assert(cmd[gt] == 62);
            assert(cmd[lt] == 60);
            assert(false);
        }
    }
}

/// `m` with its dialogue reset: greeted, no sender, no recipient.
pub open spec fn greeted(m: SessionModel) -> SessionModel {
    SessionModel { state: SmtpState::Greeted, from: Seq::empty(), from_len: 0, to: Seq::empty(), to_len: 0, ..m }
}

/// What the command line `cmd` does, with `rest` the bytes after its line end: the
/// session after it, the reply, and whether the connection closes.
#[verifier::opaque]
pub open spec fn command(m: SessionModel, cmd: Seq<u8>, rest: Seq<u8>) -> (SessionModel, Seq<u8>, bool) {
    let m1 = SessionModel { line: rest, ..m };
    if ci_prefix(cmd, lit("quit")) {
        (m1, lit("221 Bye\r\n"), true)
    } else if ci_prefix(cmd, lit("noop")) {
        (m1, lit("250 OK\r\n"), false)
    } else if ci_prefix(cmd, lit("rset")) {
        if m.state == SmtpState::Init {
            (m1, lit("503 Say EHLO first\r\n"), false)
        } else {
            (greeted(m1), lit("250 OK\r\n"), false)
        }
    } else if ci_prefix(cmd, lit("ehlo")) {
        (greeted(m1), lit("250-tiny-smtp\r\n") + lit("250-SIZE 10240\r\n") + lit("250 OK\r\n"), false)
    } else if ci_prefix(cmd, lit("helo")) {
        (greeted(m1), lit("250 tiny-smtp\r\n"), false)
    } else if ci_prefix(cmd, lit("mail from:")) {
        if m.state == SmtpState::Init {
            (m1, lit("503 Say EHLO first\r\n"), false)
        } else if m.state != SmtpState::Greeted {
            (m1, lit("503 Bad sequence\r\n"), false)
        } else {
            let (a, n) = address_of(cmd, lit("mail from:").len() as int);
            (SessionModel { state: SmtpState::Mail, from: a, from_len: n, ..m1 }, lit("250 OK\r\n"), false)
        }
    } else if ci_prefix(cmd, lit("rcpt to:")) {
        if m.state != SmtpState::Mail && m.state != SmtpState::Rcpt {
            (m1, lit("503 Bad sequence\r\n"), false)
        } else {
            let (a, n) = address_of(cmd, lit("rcpt to:").len() as int);
            (SessionModel { state: SmtpState::Rcpt, to: a, to_len: n, ..m1 }, lit("250 OK\r\n"), false)
        }
    } else if ci_prefix(cmd, lit("data")) {
        if m.state != SmtpState::Rcpt {
            (m1, lit("503 Bad sequence\r\n"), false)
        } else {
            (
                SessionModel { state: SmtpState::Data, line: Seq::empty(), data: rest, ..m },
                lit("354 Start mail input; end with <CRLF>.<CRLF>\r\n"),
                false,
            )
        }
    } else {
        (m1, lit("500 Unrecognized command\r\n"), false)
    }
}

/// A command leaves the bytes after its line end in the buffer, or none when it starts a
/// message.
pub proof fn lemma_command_line(m: SessionModel, cmd: Seq<u8>, rest: Seq<u8>)
    requires
        m.state != SmtpState::Data,
    ensures
        command(m, cmd, rest).0.line == rest || command(m, cmd, rest).0.line.len() == 0,
        command(m, cmd, rest).0.state == SmtpState::Data ==> command(m, cmd, rest).0.data == rest
            && command(m, cmd, rest).0.line.len() == 0,
        command(m, cmd, rest).2 ==> command(m, cmd, rest).0.state == m.state,
{
    reveal(command);
}

/// Runs the complete command lines of the buffer, one after the other, until there is none
/// left, the connection closes, or `DATA` starts a message; `reply` is what was answered
/// so far.
pub open spec fn run_lines(m: SessionModel, reply: Seq<u8>) -> (SessionModel, Seq<u8>, bool)
    decreases m.line.len(),
{
    if m.state == SmtpState::Data {
        (m, reply, false)
    } else {
        match crlf_from(m.line, 0) {
            None => (m, reply, false),
            Some(i) => {
                proof {
                    lemma_crlf_from_bounds(m.line, 0);
                    lemma_command_line(m, m.line.take(i), m.line.skip(i + 2));
                }
                let (m2, r, close) = command(m, m.line.take(i), m.line.skip(i + 2));
                if close {
                    (m2, reply + r, true)
                } else {
                    run_lines(m2, reply + r)
                }
            },
        }
    }
}

/// The log line of a delivered message, numbered `count`, with a body of `size` bytes; when
/// an address was longer than what was kept, only the part before it is written and the
/// server stops (`true`).
pub open spec fn delivery_log(m: SessionModel, count: u32, size: int) -> (Seq<u8>, bool) {
    let head = lit("[#") + dec_digits(count as nat) + lit("] MAIL FROM:");
    if m.from_len > MAX_ADDR {
        (head, true)
    } else if m.to_len > MAX_ADDR {
        (head + m.from + lit(" TO:"), true)
    } else {
        (head + m.from + lit(" TO:") + m.to + lit(" (") + dec_digits(size as nat) + lit(" bytes)\n"), false)
    }
}

/// What a chunk of bytes from the client does, with `count` messages delivered so far: the
/// session after it, the reply, the log, whether to close, whether to stop, and the new
/// count.
pub open spec fn read_step(m: SessionModel, chunk: Seq<u8>, count: u32) -> (
    SessionModel,
    Seq<u8>,
    Seq<u8>,
    bool,
    bool,
    u32,
) {
    if m.state == SmtpState::Data {
        let d = m.data + chunk;
        match dot_from(d, 0) {
            Some(pos) => {
                let c = count.wrapping_add(1);
                let (log, abort) = delivery_log(m, c, pos);
                let done = SessionModel { state: SmtpState::Greeted, data: Seq::empty(), ..m };
                if abort {
                    (done, Seq::empty(), log, false, true, c)
                } else {
                    (done, lit("250 OK\r\n"), log, false, false, c)
                }
            },
            None => if d.len() >= MAX_MSG_SIZE {
                (
                    SessionModel { state: SmtpState::Greeted, data: Seq::empty(), ..m },
                    lit("552 Message too large\r\n"),
                    Seq::empty(),
                    false,
                    false,
                    count,
                )
            } else {
                (SessionModel { data: d, ..m }, Seq::empty(), Seq::empty(), false, false, count)
            },
        }
    } else {
        let (m2, r, close) = run_lines(SessionModel { line: m.line + chunk, ..m }, Seq::empty());
        if close {
            (m2, r, Seq::empty(), true, false, count)
        } else if m2.state != SmtpState::Data && m2.line.len() >= MAX_LINE {
            (
                SessionModel { line: Seq::empty(), ..m2 },
                r + lit("500 Line too long\r\n"),
                Seq::empty(),
                false,
                false,
                count,
            )
        } else {
            (m2, r, Seq::empty(), false, false, count)
        }
    }
}

/// A fresh copy of `s[from..]`.
fn tail_copy(s: &[u8], from: usize) -> (res: Vec<u8>)
    requires
        from <= s@.len(),
    ensures
        res@ == s@.skip(from as int),
{
    let mut v: Vec<u8> = Vec::new();
    let mut i = from;
    while i < s.len()
        invariant
            from <= i <= s@.len(),
            v@ == s@.subrange(from as int, i as int),
        decreases s@.len() - i,
    {
        v.push(s[i]);
        assert(s@.subrange(from as int, i + 1) =~= s@.subrange(from as int, i as int).push(s@[i as int]));
        i += 1;
    }
    assert(s@.subrange(from as int, i as int) =~= s@.skip(from as int));
    v
}

/// A fresh copy of `s[from..to]`.
fn range_copy(s: &[u8], from: usize, to: usize) -> (res: Vec<u8>)
    requires
        from <= to <= s@.len(),
    ensures
        res@ == s@.subrange(from as int, to as int),
{
    let mut v: Vec<u8> = Vec::new();
    let mut i = from;
    while i < to
        invariant
            from <= i <= to,
            to <= s@.len(),
            v@ == s@.subrange(from as int, i as int),
        decreases to - i,
    {
        v.push(s[i]);
        assert(s@.subrange(from as int, i + 1) =~= s@.subrange(from as int, i as int).push(s@[i as int]));
        i += 1;
    }
    v
}

/// The address of a `MAIL FROM:` (`offset` 10) or `RCPT TO:` (`offset` 8) line.
fn address(cmd: &[u8], offset: usize) -> (res: (Vec<u8>, usize))
    requires
        offset <= cmd@.len(),
    ensures
        (res.0@, res.1 as nat) == address_of(cmd@, offset as int),
        res.0@.len() <= MAX_ADDR,
{
    match angle(cmd) {
        Some((a, b)) => {
            let n = if b - a > MAX_ADDR {
                MAX_ADDR
            } else {
                b - a
            };
            let kept = range_copy(cmd, a, a + n);
            assert(kept@ =~= cmd@.subrange(a as int, b as int).take(min(b - a, MAX_ADDR as int)));
            (kept, b - a)
        },
        None => {
            let n = if cmd.len() - offset > MAX_ADDR {
                MAX_ADDR
            } else {
                cmd.len() - offset
            };
            (range_copy(cmd, offset, offset + n), n)
        },
    }
}

impl Session {
    /// Buffers within their limits.
    pub open spec fn wf(&self) -> bool {
        &&& self.state == SmtpState::Data ==> self.data@.len() < MAX_MSG_SIZE && self.line@.len() == 0
        &&& self.state != SmtpState::Data ==> self.line@.len() < MAX_LINE
        &&& self.from@.len() <= MAX_ADDR
        &&& self.to@.len() <= MAX_ADDR
    }

    /// How many bytes the server may read next: room in the message buffer while a message
    /// is coming in, else room in the command buffer.
    pub open spec fn room_spec(&self) -> int {
        if self.state == SmtpState::Data {
            MAX_MSG_SIZE - self.data@.len()
        } else {
            MAX_LINE - self.line@.len()
        }
    }

    /// A new session, and the greeting to send.
    pub fn new() -> (res: (Session, Vec<u8>))
        ensures
            res.0.wf(),
            res.0@.state == SmtpState::Init,
            res.0@.line.len() == 0,
            res.0@.data.len() == 0,
            res.0@.from_len == 0,
            res.0@.to_len == 0,
            res.1@ == lit("220 tiny-smtp ready\r\n"),
    {
        (
            Session {
                state: SmtpState::Init,
                line: Vec::new(),
                from: Vec::new(),
                from_len: 0,
                to: Vec::new(),
                to_len: 0,
                data: Vec::new(),
            },
            lit_bytes("220 tiny-smtp ready\r\n"),
        )
    }

    /// How many bytes the server may read next.
    pub fn room(&self) -> (res: usize)
        requires
            self.wf(),
        ensures
            res == self.room_spec(),
            res > 0,
    {
        if self.state == SmtpState::Data {
            MAX_MSG_SIZE - self.data.len()
        } else {
            MAX_LINE - self.line.len()
        }
    }

    fn reset_greeted(&mut self)
        ensures
            final(self)@ == greeted(old(self)@),
    {
        self.state = SmtpState::Greeted;
        self.from = Vec::new();
        self.from_len = 0;
        self.to = Vec::new();
        self.to_len = 0;
    }

    /// Runs the command line `cmd`, with `rest` the bytes after its line end.
    fn command(&mut self, cmd: &[u8], rest: Vec<u8>) -> (res: (Vec<u8>, bool))
        requires
            old(self).from@.len() <= MAX_ADDR,
            old(self).to@.len() <= MAX_ADDR,
        ensures
            (final(self)@, res.0@, res.1) == command(old(self)@, cmd@, rest@),
            final(self).from@.len() <= MAX_ADDR,
            final(self).to@.len() <= MAX_ADDR,
    {
        reveal(command);
        let len = cmd.len();
        let st = self.state;
        if starts_with_ci(cmd, len, "quit".as_bytes()) {
            self.line = rest;
            return (lit_bytes("221 Bye\r\n"), true);
        }
        if starts_with_ci(cmd, len, "noop".as_bytes()) {
            self.line = rest;
            return (lit_bytes("250 OK\r\n"), false);
        }
        if starts_with_ci(cmd, len, "rset".as_bytes()) {
            self.line = rest;
            if st == SmtpState::Init {
                return (lit_bytes("503 Say EHLO first\r\n"), false);
            }
            self.reset_greeted();
            return (lit_bytes("250 OK\r\n"), false);
        }
        if starts_with_ci(cmd, len, "ehlo".as_bytes()) {
            self.line = rest;
            self.reset_greeted();
            let mut r = lit_bytes("250-tiny-smtp\r\n");
            extend(&mut r, "250-SIZE 10240\r\n".as_bytes());
            extend(&mut r, "250 OK\r\n".as_bytes());
            return (r, false);
        }
        if starts_with_ci(cmd, len, "helo".as_bytes()) {
            self.line = rest;
            self.reset_greeted();
            return (lit_bytes("250 tiny-smtp\r\n"), false);
        }
        if starts_with_ci(cmd, len, "mail from:".as_bytes()) {
            self.line = rest;
            if st == SmtpState::Init {
                return (lit_bytes("503 Say EHLO first\r\n"), false);
            }
            if st != SmtpState::Greeted {
                return (lit_bytes("503 Bad sequence\r\n"), false);
            }
            let (a, n) = address(cmd, "mail from:".as_bytes().len());
            self.from = a;
            self.from_len = n;
            self.state = SmtpState::Mail;
            return (lit_bytes("250 OK\r\n"), false);
        }
        if starts_with_ci(cmd, len, "rcpt to:".as_bytes()) {
            self.line = rest;
            if st != SmtpState::Mail && st != SmtpState::Rcpt {
                return (lit_bytes("503 Bad sequence\r\n"), false);
            }
            let (a, n) = address(cmd, "rcpt to:".as_bytes().len());
            self.to = a;
            self.to_len = n;
            self.state = SmtpState::Rcpt;
            return (lit_bytes("250 OK\r\n"), false);
        }
        if starts_with_ci(cmd, len, "data".as_bytes()) {
            if st != SmtpState::Rcpt {
                self.line = rest;
                return (lit_bytes("503 Bad sequence\r\n"), false);
            }
            self.line = Vec::new();
            self.data = rest;
            self.state = SmtpState::Data;
            return (lit_bytes("354 Start mail input; end with <CRLF>.<CRLF>\r\n"), false);
        }
        self.line = rest;
        (lit_bytes("500 Unrecognized command\r\n"), false)
    }
}

impl Session {
    /// Takes message bytes while a message is coming in.
    fn on_message_bytes(&mut self, chunk: &[u8], count: &mut u32) -> (res: Outcome)
        requires
            old(self).wf(),
            old(self).state == SmtpState::Data,
            chunk@.len() <= old(self).room_spec(),
        ensures
            final(self).wf(),
            ({
                let (m2, reply, log, close, abort, c2) = read_step(old(self)@, chunk@, *old(count));
                &&& final(self)@ == m2
                &&& res.reply@ == reply
                &&& res.log@ == log
                &&& res.close == close
                &&& res.abort == abort
                &&& *final(count) == c2
            }),
    {
        extend(&mut self.data, chunk);
        match first_dot(self.data.as_slice()) {
            Some(pos) => {
                let c = count.wrapping_add(1);
                *count = c;
                let mut log = lit_bytes("[#");
                let cd = format_u32(c);
                extend(&mut log, cd.as_slice());
                extend(&mut log, "] MAIL FROM:".as_bytes());
                let mut abort = true;
                if self.from_len <= MAX_ADDR {
                    extend(&mut log, self.from.as_slice());
                    extend(&mut log, " TO:".as_bytes());
                    if self.to_len <= MAX_ADDR {
                        extend(&mut log, self.to.as_slice());
                        extend(&mut log, " (".as_bytes());
                        let sd = format_u32(pos as u32);
                        extend(&mut log, sd.as_slice());
                        extend(&mut log, " bytes)\n".as_bytes());
                        abort = false;
                    }
                }
                self.state = SmtpState::Greeted;
                self.data = Vec::new();
                let reply = if abort {
                    Vec::new()
                } else {
                    lit_bytes("250 OK\r\n")
                };
                Outcome { reply, log, close: false, abort }
            },
            None => {
                if self.data.len() >= MAX_MSG_SIZE {
                    self.state = SmtpState::Greeted;
                    self.data = Vec::new();
                    return Outcome {
                        reply: lit_bytes("552 Message too large\r\n"),
                        log: Vec::new(),
                        close: false,
                        abort: false,
                    };
                }
                Outcome { reply: Vec::new(), log: Vec::new(), close: false, abort: false }
            },
        }
    }

    /// Runs every complete command line in the buffer.
    fn run_commands(&mut self) -> (res: (Vec<u8>, bool))
        requires
            old(self).from@.len() <= MAX_ADDR,
            old(self).to@.len() <= MAX_ADDR,
            old(self).line@.len() <= MAX_LINE,
            old(self).state != SmtpState::Data,
        ensures
            (final(self)@, res.0@, res.1) == run_lines(old(self)@, Seq::empty()),
            final(self).from@.len() <= MAX_ADDR,
            final(self).to@.len() <= MAX_ADDR,
            final(self).line@.len() <= MAX_LINE,
            final(self).state == SmtpState::Data ==> final(self).data@.len() < MAX_LINE && final(self).line@.len() == 0,
            res.1 ==> final(self).state != SmtpState::Data && final(self).line@.len() < MAX_LINE,
    {
        let ghost whole = run_lines(self@, Seq::empty());
        let mut reply: Vec<u8> = Vec::new();
        loop
            invariant
                whole == run_lines(old(self)@, Seq::empty()),
                run_lines(self@, reply@) == whole,
                self.from@.len() <= MAX_ADDR,
                self.to@.len() <= MAX_ADDR,
                self.line@.len() <= MAX_LINE,
                self.state == SmtpState::Data ==> self.data@.len() < MAX_LINE && self.line@.len() == 0,
            ensures
                whole == run_lines(old(self)@, Seq::empty()),
                run_lines(self@, reply@) == (self@, reply@, false),
                self.from@.len() <= MAX_ADDR,
                self.to@.len() <= MAX_ADDR,
                self.line@.len() <= MAX_LINE,
                self.state == SmtpState::Data ==> self.data@.len() < MAX_LINE && self.line@.len() == 0,
            decreases self.line@.len(),
        {
            if self.state == SmtpState::Data {
                assert(run_lines(self@, reply@) == (self@, reply@, false));
                break;
            }
            match first_crlf(self.line.as_slice()) {
                None => {
                    assert(run_lines(self@, reply@) == (self@, reply@, false));
                    break;
                },
                Some(i) => {
                    let ghost before = self@;
                    let cmd = range_copy(self.line.as_slice(), 0, i);
                    let rest = tail_copy(self.line.as_slice(), i + 2);
                    assert(cmd@ == self.line@.take(i as int));
                    proof {
                        lemma_command_line(before, cmd@, rest@);
                    }
                    let (r, close) = self.command(cmd.as_slice(), rest);
                    extend(&mut reply, r.as_slice());
                    if close {
                        return (reply, true);
                    }
                },
            }
        }
        (reply, false)
    }

    /// Handles a chunk of bytes from the client, `count` being the number of messages
    /// delivered so far (across sessions).
    pub fn on_read(&mut self, chunk: &[u8], count: &mut u32) -> (res: Outcome)
        requires
            old(self).wf(),
            chunk@.len() <= old(self).room_spec(),
        ensures
            final(self).wf(),
            ({
                let (m2, reply, log, close, abort, c2) = read_step(old(self)@, chunk@, *old(count));
                &&& final(self)@ == m2
                &&& res.reply@ == reply
                &&& res.log@ == log
                &&& res.close == close
                &&& res.abort == abort
                &&& *final(count) == c2
            }),
    {
        if self.state == SmtpState::Data {
            return self.on_message_bytes(chunk, count);
        }
        extend(&mut self.line, chunk);
        let (mut reply, close) = self.run_commands();
        if close {
            return Outcome { reply, log: Vec::new(), close: true, abort: false };
        }
        if self.state != SmtpState::Data && self.line.len() >= MAX_LINE {
            self.line = Vec::new();
            extend(&mut reply, "500 Line too long\r\n".as_bytes());
        }
        Outcome { reply, log: Vec::new(), close: false, abort: false }
    }
}

} // verus!
