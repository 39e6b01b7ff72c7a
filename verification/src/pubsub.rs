//! A publish/subscribe hub: up to `MAX_SUBSCRIBERS` connected clients, each of which may
//! subscribe with a topic prefix; a `PUBLISH topic message` line is fanned out to every
//! subscribed client whose prefix the topic starts with.  The hub decides; the caller
//! performs the writes it hands back.

use vstd::prelude::*;
use crate::bytes::{bytes_eq, starts_with, has_prefix, extend, min, scan_until, lemma_scan_until_bounds};
use crate::http::{lit, lit_bytes};
use crate::numfmt::{dec_digits, format_u32};

verus! {

/// How many clients the hub holds at once.
pub const MAX_SUBSCRIBERS: usize = 16;
/// How many bytes of a subscription prefix are kept.
pub const MAX_FILTER_LEN: usize = 32;

/// One client slot.
pub struct Subscriber {
    pub fd: i32,
    pub filter: Vec<u8>,
    pub active: bool,
    pub subscribed: bool,
}

/// A client slot as the specification sees it.
pub struct SubModel {
    pub fd: i32,
    pub filter: Seq<u8>,
    pub active: bool,
    pub subscribed: bool,
}

impl View for Subscriber {
    type V = SubModel;

    open spec fn view(&self) -> SubModel {
        SubModel { fd: self.fd, filter: self.filter@, active: self.active, subscribed: self.subscribed }
    }
}

/// The hub: a fixed table of client slots.
pub struct Publisher {
    pub subscribers: Vec<Subscriber>,
}

/// One write the caller is to perform: `data` to the descriptor `fd`.
pub struct Write {
    pub fd: i32,
    pub data: Vec<u8>,
}

/// The writes as pairs of descriptor and bytes.
pub open spec fn writes_view(ws: Seq<Write>) -> Seq<(i32, Seq<u8>)> {
    ws.map_values(|w: Write| (w.fd, w.data@))
}

/// An empty slot.
pub open spec fn empty_slot() -> SubModel {
    SubModel { fd: -1i32, filter: Seq::empty(), active: false, subscribed: false }
}

/// Every slot's prefix fits.
pub open spec fn slots_ok(s: Seq<SubModel>) -> bool {
    &&& s.len() == MAX_SUBSCRIBERS
    &&& forall|i: int| 0 <= i < s.len() ==> (#[trigger] s[i]).filter.len() <= MAX_FILTER_LEN
}

/// The first slot at or after `i` that is free (or the length when none is).
pub open spec fn first_free(s: Seq<SubModel>, i: int) -> int
    decreases s.len() - i,
{
    if i >= s.len() || !s[i].active {
        i
    } else {
        first_free(s, i + 1)
    }
}

/// Where a connection on `fd` lands: the first free slot, freshly set up; `None` when every
/// slot is taken.
pub open spec fn add_sub(s: Seq<SubModel>, fd: i32) -> Option<Seq<SubModel>> {
    let k = first_free(s, 0);
    if k < s.len() {
        Some(s.update(k, SubModel { fd: fd, filter: Seq::empty(), active: true, subscribed: false }))
    } else {
        None
    }
}

/// The slots after slot `idx` is dropped (nothing changes when it is out of range or free).
pub open spec fn remove_sub(s: Seq<SubModel>, idx: int) -> Seq<SubModel> {
    if 0 <= idx < s.len() && s[idx].active {
        s.update(idx, empty_slot())
    } else {
        s
    }
}

/// A client that receives messages on `topic`: connected, subscribed, and its prefix empty
/// or a prefix of the topic.
pub open spec fn receives(m: SubModel, topic: Seq<u8>) -> bool {
    m.active && m.subscribed && (m.filter.len() == 0 || has_prefix(topic, m.filter))
}

/// The descriptors that receive a message on `topic`, in slot order.
pub open spec fn recipients(s: Seq<SubModel>, topic: Seq<u8>) -> Seq<i32>
    decreases s.len(),
{
    if s.len() == 0 {
        Seq::empty()
    } else {
        let r = recipients(s.drop_last(), topic);
        if receives(s.last(), topic) {
            r.push(s.last().fd)
        } else {
            r
        }
    }
}

/// What a subscriber receives for a message on `topic`.
pub open spec fn frame(topic: Seq<u8>, message: Seq<u8>) -> Seq<u8> {
    lit("MSG ") + topic + lit(" 0 ") + message + lit("\n")
}

/// The slots after slot `idx` subscribes with `filter` (of which `MAX_FILTER_LEN` bytes are
/// kept).
pub open spec fn subscribe(s: Seq<SubModel>, idx: int, filter: Seq<u8>) -> Seq<SubModel> {
    s.update(
        idx,
        SubModel { subscribed: true, filter: filter.take(min(filter.len() as int, MAX_FILTER_LEN as int)), ..s[idx] },
    )
}

impl Publisher {
    /// The slots as the specification sees them.
    pub open spec fn slots(&self) -> Seq<SubModel> {
        self.subscribers@.map_values(|s: Subscriber| s@)
    }

    pub open spec fn wf(&self) -> bool {
        slots_ok(self.slots())
    }

    /// A hub with every slot free.
    pub fn new() -> (p: Publisher)
        ensures
            p.wf(),
            p.slots() == Seq::new(MAX_SUBSCRIBERS as nat, |i: int| empty_slot()),
    {
        let mut subscribers: Vec<Subscriber> = Vec::new();
        let mut i: usize = 0;
        while i < MAX_SUBSCRIBERS
            invariant
                i <= MAX_SUBSCRIBERS,
                subscribers@.len() == i,
                forall|k: int| 0 <= k < i ==> (#[trigger] subscribers@[k])@ == empty_slot(),
            decreases MAX_SUBSCRIBERS - i,
        {
            subscribers.push(Subscriber { fd: -1, filter: Vec::new(), active: false, subscribed: false });
            i += 1;
        }
        let p = Publisher { subscribers };
        assert(p.slots() =~= Seq::new(MAX_SUBSCRIBERS as nat, |i: int| empty_slot()));
        p
    }

    /// Takes a new connection on `fd` into the first free slot; false when every slot is
    /// taken (and nothing changes).
    pub fn add_subscriber(&mut self, fd: i32) -> (res: bool)
        requires
            old(self).wf(),
        ensures
            final(self).wf(),
            res == add_sub(old(self).slots(), fd) is Some,
            res ==> final(self).slots() == add_sub(old(self).slots(), fd)->0,
            !res ==> final(self).slots() == old(self).slots(),
    {
        let ghost s0 = self.slots();
        let mut i: usize = 0;
        while i < MAX_SUBSCRIBERS
            invariant
                i <= MAX_SUBSCRIBERS,
                self.slots() == s0,
                s0 == old(self).slots(),
                self.subscribers@.len() == MAX_SUBSCRIBERS,
                slots_ok(s0),
                first_free(s0, 0) == first_free(s0, i as int),
            decreases MAX_SUBSCRIBERS - i,
        {
            if !self.subscribers[i].active {
                assert(s0[i as int] == self.subscribers@[i as int]@);
                assert(first_free(s0, i as int) == i);
                self.subscribers[i].fd = fd;
                self.subscribers[i].filter = Vec::new();
                self.subscribers[i].active = true;
                self.subscribers[i].subscribed = false;
                proof {
                    let want = s0.update(
                        i as int,
                        SubModel { fd: fd, filter: Seq::empty(), active: true, subscribed: false },
                    );
                    assert(self.slots() =~= want);
                }
                return true;
            }
            i += 1;
        }
        false
    }

    /// Frees slot `idx` and hands back the descriptor the caller is to close; `None` (and
    /// nothing changes) when the slot is out of range or already free.
    pub fn remove_subscriber(&mut self, idx: usize) -> (res: Option<i32>)
        requires
            old(self).wf(),
        ensures
            final(self).wf(),
            final(self).slots() == remove_sub(old(self).slots(), idx as int),
            res == (if idx < MAX_SUBSCRIBERS && old(self).slots()[idx as int].active {
                Some(old(self).slots()[idx as int].fd)
            } else {
                None::<i32>
            }),
    {
        let ghost s0 = self.slots();
        if idx < MAX_SUBSCRIBERS && self.subscribers[idx].active {
            let fd = self.subscribers[idx].fd;
            self.subscribers[idx].active = false;
            self.subscribers[idx].fd = -1;
            self.subscribers[idx].filter = Vec::new();
            self.subscribers[idx].subscribed = false;
            assert(self.slots() =~= s0.update(idx as int, empty_slot()));
            Some(fd)
        } else {
            None
        }
    }
}


/// Each descriptor of `fds`, paired with the same bytes.
pub open spec fn deliveries(fds: Seq<i32>, data: Seq<u8>) -> Seq<(i32, Seq<u8>)> {
    fds.map_values(|fd: i32| (fd, data))
}

/// No more descriptors receive a message than there are slots.
pub proof fn lemma_recipients_len(s: Seq<SubModel>, topic: Seq<u8>)
    ensures
        recipients(s, topic).len() <= s.len(),
    decreases s.len(),
{
    if s.len() > 0 {
        lemma_recipients_len(s.drop_last(), topic);
    }
}

/// The first space at or after `start` (or the end of `buf`).
pub fn find_space(buf: &[u8], start: usize) -> (res: usize)
    ensures
        res == scan_until(buf@, start as int, |c: u8| c == 32),
{
    let mut i = start;
    while i < buf.len() && buf[i] != 32
        invariant
            start <= i,
            scan_until(buf@, start as int, |c: u8| c == 32) == scan_until(buf@, i as int, |c: u8| c == 32),
        decreases buf@.len() - i,
    {
        i += 1;
    }
    i
}

/// The first newline at or after `start` (or the end of `buf`).
pub fn find_newline(buf: &[u8], start: usize) -> (res: usize)
    ensures
        res == scan_until(buf@, start as int, |c: u8| c == 10),
{
    let mut i = start;
    while i < buf.len() && buf[i] != 10
        invariant
            start <= i,
            scan_until(buf@, start as int, |c: u8| c == 10) == scan_until(buf@, i as int, |c: u8| c == 10),
        decreases buf@.len() - i,
    {
        i += 1;
    }
    i
}

/// A fresh copy of `s`.
fn copy_of(s: &[u8]) -> (res: Vec<u8>)
    ensures
        res@ == s@,
{
    let mut v: Vec<u8> = Vec::new();
    extend(&mut v, s);
    v
}

impl Publisher {
    /// The message on `topic` for every client that receives it, in slot order.
    pub fn broadcast(&self, topic: &[u8], message: &[u8]) -> (res: Vec<Write>)
        requires
            self.wf(),
        ensures
            writes_view(res@) == deliveries(recipients(self.slots(), topic@), frame(topic@, message@)),
            res@.len() <= MAX_SUBSCRIBERS,
    {
        let mut f = lit_bytes("MSG ");
        extend(&mut f, topic);
        extend(&mut f, " 0 ".as_bytes());
        extend(&mut f, message);
        extend(&mut f, "\n".as_bytes());
        let ghost s = self.slots();
        let mut out: Vec<Write> = Vec::new();
        let mut i: usize = 0;
        while i < MAX_SUBSCRIBERS
            invariant
                i <= MAX_SUBSCRIBERS,
                self.wf(),
                s == self.slots(),
                f@ == frame(topic@, message@),
                writes_view(out@) == deliveries(recipients(s.take(i as int), topic@), f@),
            decreases MAX_SUBSCRIBERS - i,
        {
            let sub = &self.subscribers[i];
            assert(s[i as int] == sub@);
            assert(s.take(i + 1).drop_last() =~= s.take(i as int));
            if sub.active && sub.subscribed && (sub.filter.len() == 0 || starts_with(topic, sub.filter.as_slice())) {
                let ghost before = out@;
                out.push(Write { fd: sub.fd, data: copy_of(f.as_slice()) });
                assert(writes_view(out@) =~= writes_view(before).push((sub.fd, f@)));
                assert(writes_view(out@) =~= deliveries(recipients(s.take(i + 1), topic@), f@));
            } else {
                assert(recipients(s.take(i + 1), topic@) == recipients(s.take(i as int), topic@));
            }
            i += 1;
        }
        assert(s.take(MAX_SUBSCRIBERS as int) =~= s);
        proof {
            lemma_recipients_len(s, topic@);
        }
        out
    }

    /// Slot `idx` subscribes with `filter`; the answer goes to its descriptor.
    pub fn handle_subscribe(&mut self, idx: usize, filter: &[u8]) -> (res: Vec<Write>)
        requires
            old(self).wf(),
            idx < MAX_SUBSCRIBERS,
        ensures
            final(self).wf(),
            final(self).slots() == subscribe(old(self).slots(), idx as int, filter@),
            writes_view(res@) == seq![(old(self).slots()[idx as int].fd, lit("OK subscribed\n"))],
    {
        let ghost s0 = self.slots();
        let n = if filter.len() < MAX_FILTER_LEN {
            filter.len()
        } else {
            MAX_FILTER_LEN
        };
        self.subscribers[idx].subscribed = true;
        self.subscribers[idx].filter = copy_of(&filter[0..n]);
        assert(filter@.subrange(0, n as int) =~= filter@.take(min(filter@.len() as int, MAX_FILTER_LEN as int)));
        assert(self.slots() =~= subscribe(s0, idx as int, filter@));
        let mut out: Vec<Write> = Vec::new();
        out.push(Write { fd: self.subscribers[idx].fd, data: lit_bytes("OK subscribed\n") });
        assert(writes_view(out@) =~= seq![(s0[idx as int].fd, lit("OK subscribed\n"))]);
        out
    }
}


/// What a command line asks for.
pub enum PubCommand {
    /// A blank line: nothing happens.
    Empty,
    /// `SUBSCRIBE [prefix]`.
    Subscribe(Seq<u8>),
    /// `PUBLISH topic message`.
    Publish(Seq<u8>, Seq<u8>),
    /// A `PUBLISH` line without both a topic and a message.
    BadPublish,
    /// Anything else.
    Unknown,
}

/// The line without one trailing carriage return.
pub open spec fn strip_cr(l: Seq<u8>) -> Seq<u8> {
    if l.len() > 0 && l.last() == 13 {
        l.drop_last()
    } else {
        l
    }
}

/// How a command line reads.
pub open spec fn parse_command(line: Seq<u8>) -> PubCommand {
    let l = strip_cr(line);
    let sn = lit("SUBSCRIBE ").len() as int;
    let pn = lit("PUBLISH ").len() as int;
    if l.len() == 0 {
        PubCommand::Empty
    } else if l == lit("SUBSCRIBE") || has_prefix(l, lit("SUBSCRIBE ")) {
        PubCommand::Subscribe(
            if l.len() > sn {
                l.subrange(sn, l.len() as int)
            } else {
                Seq::empty()
            },
        )
    } else if has_prefix(l, lit("PUBLISH ")) {
        let rest = l.subrange(pn, l.len() as int);
        let te = scan_until(rest, 0, |c: u8| c == 32);
        if te == 0 || te >= rest.len() {
            PubCommand::BadPublish
        } else {
            PubCommand::Publish(rest.take(te), rest.subrange(te + 1, rest.len() as int))
        }
    } else {
        PubCommand::Unknown
    }
}

/// The slots after slot `idx` sends `line`.
pub open spec fn command_state(s: Seq<SubModel>, idx: int, line: Seq<u8>) -> Seq<SubModel> {
    match parse_command(line) {
        PubCommand::Subscribe(f) => subscribe(s, idx, f),
        _ => s,
    }
}

/// The log line for a subscription with prefix `f`.
pub open spec fn subscribed_log(f: Seq<u8>) -> Seq<u8> {
    lit("tiny-kafka: client subscribed") + (if f.len() > 0 {
        lit(" filter=") + f
    } else {
        Seq::empty()
    }) + lit("\n")
}

/// The writes that follow when slot `idx` sends `line`: answers to its descriptor, messages
/// to subscribers, and log lines to descriptor 1.
pub open spec fn command_writes(s: Seq<SubModel>, idx: int, line: Seq<u8>) -> Seq<(i32, Seq<u8>)> {
    let me = s[idx].fd;
    match parse_command(line) {
        PubCommand::Empty => Seq::empty(),
        PubCommand::Subscribe(f) => seq![(me, lit("OK subscribed\n")), (1i32, subscribed_log(f))],
        PubCommand::Publish(t, m) => {
            let r = recipients(s, t);
            deliveries(r, frame(t, m)) + seq![
                (me, lit("OK published ") + dec_digits(r.len()) + lit("\n")),
                (1i32, lit("tiny-kafka: published to ") + dec_digits(r.len()) + lit(" subscriber(s) topic=") + t + lit("\n")),
            ]
        },
        PubCommand::BadPublish => seq![(me, lit("ERR bad publish\n"))],
        PubCommand::Unknown => seq![(me, lit("ERR unknown command\n"))],
    }
}

impl Publisher {
    /// Carries out one command line from slot `idx`.
    pub fn handle_command(&mut self, idx: usize, line: &[u8]) -> (res: Vec<Write>)
        requires
            old(self).wf(),
            idx < MAX_SUBSCRIBERS,
        ensures
            final(self).wf(),
            final(self).slots() == command_state(old(self).slots(), idx as int, line@),
            writes_view(res@) == command_writes(old(self).slots(), idx as int, line@),
    {
        let ghost s0 = self.slots();
        let n = line.len();
        let l: &[u8] = if n > 0 && line[n - 1] == 13 {
            &line[0..n - 1]
        } else {
            line
        };
        assert(l@ =~= strip_cr(line@));
        let mut out: Vec<Write> = Vec::new();
        if l.len() == 0 {
            assert(writes_view(out@) =~= Seq::empty());
            return out;
        }
        let me = self.subscribers[idx].fd;
        assert(me == s0[idx as int].fd);
        let sp = "SUBSCRIBE ".as_bytes();
        if bytes_eq(l, "SUBSCRIBE".as_bytes()) || starts_with(l, sp) {
            let filter: &[u8] = if l.len() > sp.len() {
                &l[sp.len()..l.len()]
            } else {
                &l[0..0]
            };
            assert(sp@ == lit("SUBSCRIBE "));
            assert(l@.len() <= sp@.len() ==> filter@ =~= Seq::<u8>::empty());
            assert(l@.len() > sp@.len() ==> filter@ =~= l@.subrange(sp@.len() as int, l@.len() as int));
            assert(parse_command(line@) == PubCommand::Subscribe(filter@));
            out = self.handle_subscribe(idx, filter);
            let mut log = lit_bytes("tiny-kafka: client subscribed");
            if filter.len() > 0 {
                extend(&mut log, " filter=".as_bytes());
                extend(&mut log, filter);
            }
            extend(&mut log, "\n".as_bytes());
            assert(log@ =~= subscribed_log(filter@));
            let ghost before = out@;
            out.push(Write { fd: 1, data: log });
            assert(writes_view(out@) =~= writes_view(before).push((1i32, log@)));
            return out;
        }
        let pp = "PUBLISH ".as_bytes();
        if starts_with(l, pp) {
            let rest = &l[pp.len()..l.len()];
            let te = find_space(rest, 0);
            proof {
                lemma_scan_until_bounds(rest@, 0, |c: u8| c == 32);
            }
            if te == 0 || te >= rest.len() {
                out.push(Write { fd: me, data: lit_bytes("ERR bad publish\n") });
                assert(writes_view(out@) =~= seq![(me, lit("ERR bad publish\n"))]);
                return out;
            }
            let topic = &rest[0..te];
            let message = &rest[te + 1..rest.len()];
            assert(parse_command(line@) == PubCommand::Publish(topic@, message@));
            out = self.broadcast(topic, message);
            let ghost sent = out@;
            let count = out.len() as u32;
            let digits = format_u32(count);
            let mut rep = lit_bytes("OK published ");
            extend(&mut rep, digits.as_slice());
            extend(&mut rep, "\n".as_bytes());
            out.push(Write { fd: me, data: rep });
            let mut log = lit_bytes("tiny-kafka: published to ");
            extend(&mut log, digits.as_slice());
            extend(&mut log, " subscriber(s) topic=".as_bytes());
            extend(&mut log, topic);
            extend(&mut log, "\n".as_bytes());
            out.push(Write { fd: 1, data: log });
            proof {
                let r = recipients(s0, topic@);
                assert(writes_view(sent).len() == r.len());
                assert(writes_view(out@) =~= writes_view(sent) + seq![
                    (me, lit("OK published ") + dec_digits(r.len()) + lit("\n")),
                    (1i32, lit("tiny-kafka: published to ") + dec_digits(r.len()) + lit(" subscriber(s) topic=") + topic@ + lit("\n")),
                ]);
            }
            return out;
        }
        out.push(Write { fd: me, data: lit_bytes("ERR unknown command\n") });
        assert(writes_view(out@) =~= seq![(me, lit("ERR unknown command\n"))]);
        out
    }
}


/// The command lines of a chunk read from a client, from `pos` on: each line that a newline
/// ends (without it), then whatever follows the last newline, if anything does.
pub open spec fn chunk_lines_from(data: Seq<u8>, pos: nat) -> Seq<Seq<u8>>
    decreases data.len() - pos,
{
    if pos >= data.len() {
        Seq::empty()
    } else {
        let e = scan_until(data, pos as int, |c: u8| c == 10);
        if e >= data.len() {
            seq![data.subrange(pos as int, data.len() as int)]
        } else {
            proof {
                lemma_scan_until_bounds(data, pos as int, |c: u8| c == 10);
            }
            seq![data.subrange(pos as int, e)] + chunk_lines_from(data, (e + 1) as nat)
        }
    }
}

/// The slots, and the writes, after slot `idx` sends the command lines `lines` in turn.
pub open spec fn run_lines(s: Seq<SubModel>, idx: int, lines: Seq<Seq<u8>>) -> (Seq<SubModel>, Seq<(i32, Seq<u8>)>)
    decreases lines.len(),
{
    if lines.len() == 0 {
        (s, Seq::empty())
    } else {
        let rest = run_lines(command_state(s, idx, lines[0]), idx, lines.drop_first());
        (rest.0, command_writes(s, idx, lines[0]) + rest.1)
    }
}

/// The descriptors of the connected clients, in slot order.
pub open spec fn active_fds(s: Seq<SubModel>) -> Seq<i32>
    decreases s.len(),
{
    if s.len() == 0 {
        Seq::empty()
    } else if s.last().active {
        active_fds(s.drop_last()).push(s.last().fd)
    } else {
        active_fds(s.drop_last())
    }
}

/// The writes for a new connection on `fd`, by whether a slot was free.
pub open spec fn connect_writes(fd: i32, accepted: bool) -> Seq<(i32, Seq<u8>)> {
    if accepted {
        seq![(fd, lit("OK connected\n")), (1i32, lit("tiny-kafka: new client connected\n"))]
    } else {
        seq![(fd, lit("ERR max subscribers\n"))]
    }
}

impl Publisher {
    /// Carries out every command line of a chunk that slot `idx` sent.
    pub fn on_read(&mut self, idx: usize, data: &[u8]) -> (res: Vec<Write>)
        requires
            old(self).wf(),
            idx < MAX_SUBSCRIBERS,
        ensures
            final(self).wf(),
            (final(self).slots(), writes_view(res@)) == run_lines(old(self).slots(), idx as int, chunk_lines_from(data@, 0)),
    {
        let ghost all = run_lines(self.slots(), idx as int, chunk_lines_from(data@, 0));
        let mut out: Vec<Write> = Vec::new();
        let mut pos: usize = 0;
        assert(writes_view(out@) =~= Seq::empty());
        while pos < data.len()
            invariant
                self.wf(),
                idx < MAX_SUBSCRIBERS,
                pos <= data@.len(),
                all == (
                    run_lines(self.slots(), idx as int, chunk_lines_from(data@, pos as nat)).0,
                    writes_view(out@) + run_lines(self.slots(), idx as int, chunk_lines_from(data@, pos as nat)).1,
                ),
            decreases data@.len() - pos,
        {
            let e = find_newline(data, pos);
            proof {
                lemma_scan_until_bounds(data@, pos as int, |c: u8| c == 10);
            }
            let line = &data[pos..e];
            let ghost cur = self.slots();
            let ghost lines = chunk_lines_from(data@, pos as nat);
            let next: usize = if e < data.len() {
                e + 1
            } else {
                data.len()
            };
            assert(lines[0] == line@);
            assert(lines.drop_first() =~= chunk_lines_from(data@, next as nat));
            let mut ws = self.handle_command(idx, line);
            let ghost before = out@;
            let ghost added = ws@;
            out.append(&mut ws);
            assert(writes_view(out@) =~= writes_view(before) + writes_view(added));
            assert(writes_view(before) + writes_view(added) + run_lines(self.slots(), idx as int, chunk_lines_from(data@, next as nat)).1
                =~= writes_view(before) + (writes_view(added) + run_lines(self.slots(), idx as int, chunk_lines_from(data@, next as nat)).1));
            pos = next;
        }
        assert(writes_view(out@) + Seq::empty() =~= writes_view(out@));
        out
    }

    /// Takes a new connection on `fd`: the writes that answer it, and whether it got a slot
    /// (when it did not, the caller closes it).
    pub fn on_connect(&mut self, fd: i32) -> (res: (Vec<Write>, bool))
        requires
            old(self).wf(),
        ensures
            final(self).wf(),
            res.1 == add_sub(old(self).slots(), fd) is Some,
            res.1 ==> final(self).slots() == add_sub(old(self).slots(), fd)->0,
            !res.1 ==> final(self).slots() == old(self).slots(),
            writes_view(res.0@) == connect_writes(fd, res.1),
    {
        let ok = self.add_subscriber(fd);
        let mut out: Vec<Write> = Vec::new();
        if ok {
            out.push(Write { fd: fd, data: lit_bytes("OK connected\n") });
            out.push(Write { fd: 1, data: lit_bytes("tiny-kafka: new client connected\n") });
        } else {
            out.push(Write { fd: fd, data: lit_bytes("ERR max subscribers\n") });
        }
        assert(writes_view(out@) =~= connect_writes(fd, ok));
        (out, ok)
    }

    /// The descriptors to watch besides the listening one: every connected client's, in
    /// slot order.
    pub fn poll_set(&self) -> (res: Vec<i32>)
        requires
            self.wf(),
        ensures
            res@ == active_fds(self.slots()),
    {
        let ghost s = self.slots();
        let mut out: Vec<i32> = Vec::new();
        let mut i: usize = 0;
        while i < MAX_SUBSCRIBERS
            invariant
                i <= MAX_SUBSCRIBERS,
                self.wf(),
                s == self.slots(),
                out@ == active_fds(s.take(i as int)),
            decreases MAX_SUBSCRIBERS - i,
        {
            assert(s[i as int] == self.subscribers@[i as int]@);
            assert(s.take(i + 1).drop_last() =~= s.take(i as int));
            if self.subscribers[i].active {
                out.push(self.subscribers[i].fd);
            }
            i += 1;
        }
        assert(s.take(MAX_SUBSCRIBERS as int) =~= s);
        out
    }
}

/// The second NUL-separated field of a command line as `/proc/self/cmdline` holds it, if
/// there is one.
pub open spec fn second_arg(cmdline: Seq<u8>) -> Option<Seq<u8>> {
    let start = scan_until(cmdline, 0, |c: u8| c == 0) + 1;
    if start >= cmdline.len() {
        None
    } else {
        Some(cmdline.subrange(start, scan_until(cmdline, start, |c: u8| c == 0)))
    }
}

/// True when the program's first argument is `sub`: it then runs as a subscriber.
pub fn argv1_is_sub(cmdline: &[u8]) -> (res: bool)
    ensures
        res == (second_arg(cmdline@) == Some(lit("sub"))),
{
    let mut i: usize = 0;
    while i < cmdline.len() && cmdline[i] != 0
        invariant
            i <= cmdline@.len(),
            scan_until(cmdline@, 0, |c: u8| c == 0) == scan_until(cmdline@, i as int, |c: u8| c == 0),
        decreases cmdline@.len() - i,
    {
        i += 1;
    }
    if i >= cmdline.len() || i + 1 >= cmdline.len() {
        return false;
    }
    let start = i + 1;
    let mut j = start;
    while j < cmdline.len() && cmdline[j] != 0
        invariant
            start <= j <= cmdline@.len(),
            scan_until(cmdline@, start as int, |c: u8| c == 0) == scan_until(cmdline@, j as int, |c: u8| c == 0),
        decreases cmdline@.len() - j,
    {
        j += 1;
    }
    let arg = &cmdline[start..j];
    let r = bytes_eq(arg, "sub".as_bytes());
    assert(r == (arg@ == lit("sub")));
    r
}

/// Every slot that receives a message on `topic` is among its recipients.
pub proof fn lemma_recipients_contain(s: Seq<SubModel>, topic: Seq<u8>, k: int)
    requires
        0 <= k < s.len(),
        receives(s[k], topic),
    ensures
        recipients(s, topic).contains(s[k].fd),
    decreases s.len(),
{
    if k == s.len() - 1 {
        assert(recipients(s, topic).last() == s[k].fd);
    } else {
        assert(s.drop_last()[k] == s[k]);
        lemma_recipients_contain(s.drop_last(), topic, k);
        let r = recipients(s.drop_last(), topic);
        let j = choose|j: int| 0 <= j < r.len() && r[j] == s[k].fd;
        if receives(s.last(), topic) {
            assert(r.push(s.last().fd)[j] == s[k].fd);
        }
    }
}

/// A message on `topic` goes only where it should: every descriptor it is sent to belongs to a
/// connected, subscribed client whose prefix is empty or is exactly the first bytes of the
/// topic.
pub proof fn law_only_matching_receive(s: Seq<SubModel>, topic: Seq<u8>, k: int)
    requires
        0 <= k < recipients(s, topic).len(),
    ensures
        exists|j: int|
            #![trigger s[j]]
            0 <= j < s.len() && s[j].fd == recipients(s, topic)[k] && s[j].active && s[j].subscribed && (
            s[j].filter.len() == 0 || (s[j].filter.len() <= topic.len() && forall|i: int|
                0 <= i < s[j].filter.len() ==> topic[i] == s[j].filter[i])),
    decreases s.len(),
{
    let r = recipients(s.drop_last(), topic);
    if k < r.len() {
        law_only_matching_receive(s.drop_last(), topic, k);
        let j = choose|j: int|
            #![trigger s.drop_last()[j]]
            0 <= j < s.drop_last().len() && s.drop_last()[j].fd == r[k] && s.drop_last()[j].active
                && s.drop_last()[j].subscribed && (s.drop_last()[j].filter.len() == 0 || (s.drop_last()[j].filter.len()
                <= topic.len() && forall|i: int|
                0 <= i < s.drop_last()[j].filter.len() ==> topic[i] == s.drop_last()[j].filter[i]));
        assert(s.drop_last()[j] == s[j]);
        if receives(s.last(), topic) {
            assert(recipients(s, topic)[k] == r[k]);
        }
    } else {
        let j = s.len() - 1;
        assert(receives(s.last(), topic));
        let f = s[j].filter;
        if f.len() > 0 {
            assert forall|i: int| 0 <= i < f.len() implies topic[i] == f[i] by {
                assert(topic.take(f.len() as int)[i] == topic[i]);
            }
        }
        assert(s[j].fd == recipients(s, topic)[k]);
    }
}

/// A connected client that subscribes with a prefix (of at most `MAX_FILTER_LEN` bytes)
/// receives every later message whose topic starts with that prefix; with an empty prefix,
/// every message.
pub proof fn law_subscriber_receives(s: Seq<SubModel>, idx: int, filter: Seq<u8>, topic: Seq<u8>)
    requires
        0 <= idx < s.len(),
        s[idx].active,
        filter.len() <= MAX_FILTER_LEN,
        filter.len() == 0 || has_prefix(topic, filter),
    ensures
        recipients(subscribe(s, idx, filter), topic).contains(s[idx].fd),
{
    let s1 = subscribe(s, idx, filter);
    assert(filter.take(min(filter.len() as int, MAX_FILTER_LEN as int)) =~= filter);
    assert(receives(s1[idx], topic));
    lemma_recipients_contain(s1, topic, idx);
}

} // verus!
