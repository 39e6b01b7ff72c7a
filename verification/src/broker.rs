//! A single-request message broker: topics whose partitions take messages round-robin into
//! rings of fixed size, consumers that read by offset, and consumer groups that keep one
//! committed offset per partition.  Each connection carries one command line.

use vstd::prelude::*;
use crate::bytes::{bytes_eq, extend, slice_prefix, min, same_except, scan_until, lemma_scan_until_bounds,
    is_word_end, next_space, skip_spaces};
use crate::http::{lit, lit_bytes};
use crate::numfmt::{dec_digits, format_u32, format_u64, parse_u32, parse_u64, lead_u32, lead_u64, is_digit,
    is_digit_exec};

verus! {

/// How many topics the broker holds.
pub const MAX_TOPICS: usize = 8;
/// How many partitions a topic may have.
pub const MAX_PARTITIONS: usize = 4;
/// How many messages a partition keeps.
pub const MAX_MESSAGES: usize = 64;
/// How many bytes of a message are kept.
pub const MAX_MSG_LEN: usize = 256;
/// The longest topic name, and how much of a group name is kept.
pub const MAX_NAME_LEN: usize = 32;
/// How many committed offsets the broker keeps.
pub const MAX_OFFSETS: usize = 64;
/// The longest answer; the rest of a longer one is dropped.
pub const MAX_RESPONSE: usize = 4096;

/// One stored message.
pub struct Message {
    pub data: Vec<u8>,
    pub offset: u64,
}

/// A partition: a ring of `MAX_MESSAGES` slots written in turn, and the offset the next
/// message gets.
pub struct Partition {
    pub messages: Vec<Message>,
    pub next_offset: u64,
    pub head: usize,
}

/// A topic slot; messages go to its partitions in turn, starting with `next_partition`.
pub struct Topic {
    pub name: Vec<u8>,
    pub partitions: Vec<Partition>,
    pub num_partitions: usize,
    pub active: bool,
    pub next_partition: usize,
}

/// The offset a consumer group has reached in one partition of a topic.
pub struct ConsumerOffset {
    pub group: Vec<u8>,
    pub topic_idx: usize,
    pub partition_idx: usize,
    pub offset: u64,
    pub active: bool,
}

/// The broker's state.
pub struct Broker {
    pub topics: Vec<Topic>,
    pub offsets: Vec<ConsumerOffset>,
}

impl Partition {
    pub open spec fn wf(&self) -> bool {
        &&& self.messages@.len() == MAX_MESSAGES
        &&& self.head < MAX_MESSAGES
        &&& self.head == self.next_offset % (MAX_MESSAGES as u64)
        &&& forall|i: int| 0 <= i < MAX_MESSAGES ==> (#[trigger] self.messages@[i]).data@.len() <= MAX_MSG_LEN
    }

    pub fn new() -> (p: Partition)
        ensures
            p.wf(),
            p.next_offset == 0,
    {
        let mut messages: Vec<Message> = Vec::new();
        let mut i: usize = 0;
        while i < MAX_MESSAGES
            invariant
                i <= MAX_MESSAGES,
                messages@.len() == i,
                forall|k: int| 0 <= k < i ==> (#[trigger] messages@[k]).data@.len() == 0,
            decreases MAX_MESSAGES - i,
        {
            messages.push(Message { data: Vec::new(), offset: 0 });
            i += 1;
        }
        assert(0u64 % (MAX_MESSAGES as u64) == 0);
        Partition { messages, next_offset: 0, head: 0 }
    }
}

/// The slot after the one for offset `off` is the one for the offset after it, also when
/// the offset wraps around.
proof fn lemma_ring_step(off: u64)
    ensures
        ((off % (MAX_MESSAGES as u64)) as int + 1) % (MAX_MESSAGES as int) == off.wrapping_add(1) % (
        MAX_MESSAGES as u64),
{
    if off == u64::MAX {
        assert(0xffff_ffff_ffff_ffffu64 % 64u64 == 63u64);
    } else {
        assert(off < 0xffff_ffff_ffff_ffffu64 ==> ((off % 64u64) + 1) % 64 == (off + 1) % 64) by (bit_vector);
    }
}

impl Topic {
    pub open spec fn wf(&self) -> bool {
        &&& self.name@.len() <= MAX_NAME_LEN
        &&& self.partitions@.len() == MAX_PARTITIONS
        &&& self.num_partitions <= MAX_PARTITIONS
        &&& self.active ==> 1 <= self.num_partitions && self.next_partition < self.num_partitions
        &&& forall|p: int| 0 <= p < MAX_PARTITIONS ==> (#[trigger] self.partitions@[p]).wf()
    }

    pub fn new() -> (t: Topic)
        ensures
            t.wf(),
            !t.active,
            forall|p: int| 0 <= p < MAX_PARTITIONS ==> (#[trigger] t.partitions@[p]).next_offset == 0,
    {
        let mut partitions: Vec<Partition> = Vec::new();
        let mut i: usize = 0;
        while i < MAX_PARTITIONS
            invariant
                i <= MAX_PARTITIONS,
                partitions@.len() == i,
                forall|k: int| 0 <= k < i ==> (#[trigger] partitions@[k]).wf() && partitions@[k].next_offset == 0,
            decreases MAX_PARTITIONS - i,
        {
            partitions.push(Partition::new());
            i += 1;
        }
        Topic { name: Vec::new(), partitions, num_partitions: 0, active: false, next_partition: 0 }
    }
}

impl Broker {
    pub open spec fn wf(&self) -> bool {
        &&& self.topics@.len() == MAX_TOPICS
        &&& forall|t: int| 0 <= t < MAX_TOPICS ==> (#[trigger] self.topics@[t]).wf()
        &&& self.offsets@.len() == MAX_OFFSETS
        &&& forall|o: int| 0 <= o < MAX_OFFSETS ==> (#[trigger] self.offsets@[o]).group@.len() <= MAX_NAME_LEN
    }

    /// A broker with no topics and no offsets.
    pub fn new() -> (b: Broker)
        ensures
            b.wf(),
            forall|t: int| 0 <= t < MAX_TOPICS ==> !(#[trigger] b.topics@[t]).active,
            forall|o: int| 0 <= o < MAX_OFFSETS ==> !(#[trigger] b.offsets@[o]).active,
            forall|t: int, p: int| 0 <= t < MAX_TOPICS && 0 <= p < MAX_PARTITIONS ==> (#[trigger] b.topics@[t].partitions@[p]).next_offset == 0,
    {
        let mut topics: Vec<Topic> = Vec::new();
        let mut i: usize = 0;
        while i < MAX_TOPICS
            invariant
                i <= MAX_TOPICS,
                topics@.len() == i,
                forall|k: int| 0 <= k < i ==> (#[trigger] topics@[k]).wf() && !topics@[k].active,
                forall|k: int, p: int| 0 <= k < i && 0 <= p < MAX_PARTITIONS ==> (#[trigger] topics@[k].partitions@[p]).next_offset == 0,
            decreases MAX_TOPICS - i,
        {
            topics.push(Topic::new());
            i += 1;
        }
        let mut offsets: Vec<ConsumerOffset> = Vec::new();
        i = 0;
        while i < MAX_OFFSETS
            invariant
                i <= MAX_OFFSETS,
                offsets@.len() == i,
                forall|k: int| 0 <= k < i ==> (#[trigger] offsets@[k]).group@.len() == 0 && !offsets@[k].active,
            decreases MAX_OFFSETS - i,
        {
            offsets.push(ConsumerOffset { group: Vec::new(), topic_idx: 0, partition_idx: 0, offset: 0, active: false });
            i += 1;
        }
        Broker { topics, offsets }
    }

    /// The first active topic at or after slot `i` named `name`.
    pub open spec fn topic_from(&self, name: Seq<u8>, i: int) -> Option<usize>
        decreases MAX_TOPICS - i,
    {
        if i < 0 || i >= MAX_TOPICS {
            None
        } else if self.topics@[i].active && self.topics@[i].name@ == name {
            Some(i as usize)
        } else {
            self.topic_from(name, i + 1)
        }
    }

    /// The first unused topic slot at or after `i`.
    pub open spec fn free_topic_from(&self, i: int) -> Option<usize>
        decreases MAX_TOPICS - i,
    {
        if i < 0 || i >= MAX_TOPICS {
            None
        } else if !self.topics@[i].active {
            Some(i as usize)
        } else {
            self.free_topic_from(i + 1)
        }
    }

    /// Offset entry `o` is the active one of `group` for partition `p` of topic `t`.
    pub open spec fn offset_matches(&self, o: int, group: Seq<u8>, t: usize, p: usize) -> bool {
        let e = self.offsets@[o];
        e.active && e.group@ == group && e.topic_idx == t && e.partition_idx == p
    }

    /// The first offset entry at or after `i` of `group` for partition `p` of topic `t`.
    pub open spec fn offset_from(&self, group: Seq<u8>, t: usize, p: usize, i: int) -> Option<usize>
        decreases MAX_OFFSETS - i,
    {
        if i < 0 || i >= MAX_OFFSETS {
            None
        } else if self.offset_matches(i, group, t, p) {
            Some(i as usize)
        } else {
            self.offset_from(group, t, p, i + 1)
        }
    }

    /// The first unused offset entry at or after `i`.
    pub open spec fn free_offset_from(&self, i: int) -> Option<usize>
        decreases MAX_OFFSETS - i,
    {
        if i < 0 || i >= MAX_OFFSETS {
            None
        } else if !self.offsets@[i].active {
            Some(i as usize)
        } else {
            self.free_offset_from(i + 1)
        }
    }

    pub proof fn lemma_topic_from(&self, name: Seq<u8>, i: int)
        requires
            0 <= i,
        ensures
            self.topic_from(name, i) matches Some(t) ==> i <= t < MAX_TOPICS && self.topics@[t as int].active,
        decreases MAX_TOPICS - i,
    {
        if i < MAX_TOPICS && !(self.topics@[i].active && self.topics@[i].name@ == name) {
            self.lemma_topic_from(name, i + 1);
        }
    }

    pub proof fn lemma_free_topic_from(&self, i: int)
        requires
            0 <= i,
        ensures
            self.free_topic_from(i) matches Some(t) ==> i <= t < MAX_TOPICS && !self.topics@[t as int].active,
        decreases MAX_TOPICS - i,
    {
        if i < MAX_TOPICS && self.topics@[i].active {
            self.lemma_free_topic_from(i + 1);
        }
    }

    pub proof fn lemma_offset_from(&self, group: Seq<u8>, t: usize, p: usize, i: int)
        requires
            0 <= i,
        ensures
            self.offset_from(group, t, p, i) matches Some(o) ==> i <= o < MAX_OFFSETS && self.offset_matches(
                o as int,
                group,
                t,
                p,
            ),
        decreases MAX_OFFSETS - i,
    {
        if i < MAX_OFFSETS && !self.offset_matches(i, group, t, p) {
            self.lemma_offset_from(group, t, p, i + 1);
        }
    }

    pub proof fn lemma_free_offset_from(&self, i: int)
        requires
            0 <= i,
        ensures
            self.free_offset_from(i) matches Some(o) ==> i <= o < MAX_OFFSETS && !self.offsets@[o as int].active,
        decreases MAX_OFFSETS - i,
    {
        if i < MAX_OFFSETS && self.offsets@[i].active {
            self.lemma_free_offset_from(i + 1);
        }
    }

    /// The active topic named `name`.
    pub fn find_topic(&self, name: &[u8]) -> (res: Option<usize>)
        requires
            self.wf(),
        ensures
            res == self.topic_from(name@, 0),
            res matches Some(t) ==> t < MAX_TOPICS && self.topics@[t as int].active,
    {
        proof {
            self.lemma_topic_from(name@, 0);
        }
        let mut i: usize = 0;
        while i < MAX_TOPICS
            invariant
                self.wf(),
                i <= MAX_TOPICS,
                self.topic_from(name@, 0) == self.topic_from(name@, i as int),
            decreases MAX_TOPICS - i,
        {
            if self.topics[i].active && bytes_eq(self.topics[i].name.as_slice(), name) {
                return Some(i);
            }
            i += 1;
        }
        None
    }

    /// The offset entry of `group` for partition `p` of topic `t`.
    pub fn find_offset(&self, group: &[u8], t: usize, p: usize) -> (res: Option<usize>)
        requires
            self.wf(),
        ensures
            res == self.offset_from(group@, t, p, 0),
            res matches Some(o) ==> o < MAX_OFFSETS && self.offset_matches(o as int, group@, t, p),
    {
        proof {
            self.lemma_offset_from(group@, t, p, 0);
        }
        let mut i: usize = 0;
        while i < MAX_OFFSETS
            invariant
                self.wf(),
                i <= MAX_OFFSETS,
                self.offset_from(group@, t, p, 0) == self.offset_from(group@, t, p, i as int),
            decreases MAX_OFFSETS - i,
        {
            if self.offsets[i].active && bytes_eq(self.offsets[i].group.as_slice(), group)
                && self.offsets[i].topic_idx == t && self.offsets[i].partition_idx == p {
                return Some(i);
            }
            i += 1;
        }
        None
    }

    /// The offset entry of `group` for partition `p` of topic `t`, created at offset 0 in
    /// the first unused entry when there is none (the group name cut to `MAX_NAME_LEN`).
    pub fn find_or_create_offset(&mut self, group: &[u8], t: usize, p: usize) -> (res: Option<usize>)
        requires
            old(self).wf(),
        ensures
            final(self).wf(),
            find_or_create_post(*old(self), *final(self), group@, t, p, res),
            res matches Some(o) ==> o < MAX_OFFSETS,
            ensure_entry(entries(*old(self)), group@, t, p) matches Some((_, o)) ==> 0 <= o < MAX_OFFSETS,
    {
        proof {
            lemma_lookup_entry(*self, group@, t, p, 0);
            lemma_free_entry(*self, 0);
        }
        match self.find_offset(group, t, p) {
            Some(o) => {
                return Some(o);
            },
            None => {},
        }
        proof {
            self.lemma_free_offset_from(0);
        }
        let mut i: usize = 0;
        while i < MAX_OFFSETS
            invariant
                self.wf(),
                *self == *old(self),
                i <= MAX_OFFSETS,
                self.offset_from(group@, t, p, 0) is None,
                self.free_offset_from(0) == self.free_offset_from(i as int),
            decreases MAX_OFFSETS - i,
        {
            if !self.offsets[i].active {
                let n = if group.len() > MAX_NAME_LEN {
                    MAX_NAME_LEN
                } else {
                    group.len()
                };
                let mut g: Vec<u8> = Vec::new();
                extend(&mut g, slice_prefix(group, n));
                let ghost before = *self;
                proof {
                    lemma_lookup_entry(before, group@, t, p, 0);
                    lemma_free_entry(before, 0);
                }
                self.offsets[i] = ConsumerOffset { group: g, topic_idx: t, partition_idx: p, offset: 0, active: true };
                assert forall|o: int| 0 <= o < MAX_OFFSETS implies (#[trigger] self.offsets@[o]).group@.len()
                    <= MAX_NAME_LEN by {
                    if o != i {
                        assert(self.offsets@[o] == before.offsets@[o]);
                    }
                }
                assert(entries(*self) =~= entries(before).update(
                    i as int,
                    OffsetEntry {
                        group: group@.take(min(group@.len() as int, MAX_NAME_LEN as int)),
                        topic_idx: t,
                        partition_idx: p,
                        offset: 0,
                        active: true,
                    },
                ));
                return Some(i);
            }
            i += 1;
        }
        None
    }
}

/// An offset entry as the specification sees it.
pub struct OffsetEntry {
    pub group: Seq<u8>,
    pub topic_idx: usize,
    pub partition_idx: usize,
    pub offset: u64,
    pub active: bool,
}

/// The entry a stored offset stands for.
pub open spec fn entry_of(e: ConsumerOffset) -> OffsetEntry {
    OffsetEntry {
        group: e.group@,
        topic_idx: e.topic_idx,
        partition_idx: e.partition_idx,
        offset: e.offset,
        active: e.active,
    }
}

/// The offset entries of a broker.
pub open spec fn entries(b: Broker) -> Seq<OffsetEntry> {
    b.offsets@.map_values(|e: ConsumerOffset| entry_of(e))
}

/// Entry `o` is the active one of `group` for partition `p` of topic `t`.
pub open spec fn entry_matches(es: Seq<OffsetEntry>, o: int, group: Seq<u8>, t: usize, p: usize) -> bool {
    es[o].active && es[o].group == group && es[o].topic_idx == t && es[o].partition_idx == p
}

/// The first entry at or after `i` of `group` for partition `p` of topic `t`.
pub open spec fn lookup_entry(es: Seq<OffsetEntry>, group: Seq<u8>, t: usize, p: usize, i: int) -> Option<int>
    decreases es.len() - i,
{
    if i < 0 || i >= es.len() {
        None
    } else if entry_matches(es, i, group, t, p) {
        Some(i)
    } else {
        lookup_entry(es, group, t, p, i + 1)
    }
}

/// The first unused entry at or after `i`.
pub open spec fn free_entry(es: Seq<OffsetEntry>, i: int) -> Option<int>
    decreases es.len() - i,
{
    if i < 0 || i >= es.len() {
        None
    } else if !es[i].active {
        Some(i)
    } else {
        free_entry(es, i + 1)
    }
}

/// The entries once `group` has an entry for partition `p` of topic `t` (a new one at offset
/// 0 in the first unused entry when it had none), and that entry; none when there is no room.
pub open spec fn ensure_entry(es: Seq<OffsetEntry>, group: Seq<u8>, t: usize, p: usize) -> Option<(Seq<OffsetEntry>, int)> {
    match lookup_entry(es, group, t, p, 0) {
        Some(o) => Some((es, o)),
        None => match free_entry(es, 0) {
            None => None,
            Some(o) => Some(
                (
                    es.update(
                        o,
                        OffsetEntry {
                            group: group.take(min(group.len() as int, MAX_NAME_LEN as int)),
                            topic_idx: t,
                            partition_idx: p,
                            offset: 0,
                            active: true,
                        },
                    ),
                    o,
                ),
            ),
        },
    }
}

/// What looking up, or creating, the offset entry of `group` for partition `p` of topic `t`
/// does.
pub open spec fn find_or_create_post(old: Broker, new: Broker, group: Seq<u8>, t: usize, p: usize, res: Option<usize>) -> bool {
    &&& new.topics == old.topics
    &&& match ensure_entry(entries(old), group, t, p) {
        None => entries(new) == entries(old) && res is None,
        Some((es, o)) => entries(new) == es && res == Some(o as usize),
    }
}

proof fn lemma_lookup_entry(b: Broker, group: Seq<u8>, t: usize, p: usize, i: int)
    requires
        0 <= i,
        b.offsets@.len() == MAX_OFFSETS,
    ensures
        lookup_entry(entries(b), group, t, p, i) == match b.offset_from(group, t, p, i) {
            Some(o) => Some(o as int),
            None => None::<int>,
        },
    decreases MAX_OFFSETS - i,
{
    if i < MAX_OFFSETS {
        lemma_lookup_entry(b, group, t, p, i + 1);
    }
}

proof fn lemma_free_entry(b: Broker, i: int)
    requires
        0 <= i,
        b.offsets@.len() == MAX_OFFSETS,
    ensures
        free_entry(entries(b), i) == match b.free_offset_from(i) {
            Some(o) => Some(o as int),
            None => None::<int>,
        },
    decreases MAX_OFFSETS - i,
{
    if i < MAX_OFFSETS {
        lemma_free_entry(b, i + 1);
    }
}

/// Where the word after position `from` starts: the first byte that is not a space.
pub open spec fn wstart(a: Seq<u8>, from: int) -> int {
    scan_until(a, from, |c: u8| c != 32)
}

/// Where the word after position `from` ends: the first space, newline or carriage return
/// after its start.
pub open spec fn wend(a: Seq<u8>, from: int) -> int {
    scan_until(a, wstart(a, from), |c: u8| is_word_end(c))
}

/// The word after position `from`.
pub open spec fn word(a: Seq<u8>, from: int) -> Seq<u8> {
    a.subrange(wstart(a, from), wend(a, from))
}

proof fn lemma_word_bounds(a: Seq<u8>, from: int)
    requires
        0 <= from <= a.len(),
    ensures
        from <= wstart(a, from) <= wend(a, from) <= a.len(),
{
    lemma_scan_until_bounds(a, from, |c: u8| c != 32);
    lemma_scan_until_bounds(a, wstart(a, from), |c: u8| is_word_end(c));
}

/// Finds the word after position `from`.
fn next_word(a: &[u8], from: usize) -> (res: (usize, usize))
    requires
        from <= a@.len(),
    ensures
        res.0 == wstart(a@, from as int),
        res.1 == wend(a@, from as int),
        from <= res.0 <= res.1 <= a@.len(),
{
    proof {
        lemma_word_bounds(a@, from as int);
    }
    let s = skip_spaces(a, from);
    let e = next_space(a, s);
    (s, e)
}

/// A number given where a word may start: when the byte at `pos` is a digit, the run of
/// digits from there (read modulo 2^32).
pub open spec fn count_at(a: Seq<u8>, pos: int) -> Option<u32> {
    if 0 <= pos < a.len() && is_digit(a[pos]) {
        Some(lead_u32(a.skip(pos)))
    } else {
        None
    }
}

/// The end of `a[lo..hi]` without its trailing newlines and carriage returns.
pub open spec fn eol_trimmed(a: Seq<u8>, lo: int, hi: int) -> int
    decreases hi - lo,
{
    if hi > lo && (a[hi - 1] == 10 || a[hi - 1] == 13) {
        eol_trimmed(a, lo, hi - 1)
    } else {
        hi
    }
}

/// Trims the trailing newlines and carriage returns of `a[lo..hi]`.
fn trim_eol(a: &[u8], lo: usize, hi: usize) -> (res: usize)
    requires
        lo <= hi <= a@.len(),
    ensures
        res == eol_trimmed(a@, lo as int, hi as int),
        lo <= res <= hi,
{
    let mut e = hi;
    while e > lo && (a[e - 1] == 10 || a[e - 1] == 13)
        invariant
            lo <= e <= hi,
            hi <= a@.len(),
            eol_trimmed(a@, lo as int, hi as int) == eol_trimmed(a@, lo as int, e as int),
        decreases e,
    {
        e -= 1;
    }
    e
}

/// The partition count `CREATE_TOPIC` asks for: 1 when none is given, else the number
/// given, kept between 1 and `MAX_PARTITIONS`.
pub open spec fn partition_count(c: Option<u32>) -> usize {
    match c {
        None => 1,
        Some(n) => if n < 1 {
            1
        } else if n > MAX_PARTITIONS {
            MAX_PARTITIONS
        } else {
            n as usize
        },
    }
}

/// What `CREATE_TOPIC name [partitions]` does (`a` holds the arguments).
pub open spec fn create_topic_post(old: Broker, new: Broker, a: Seq<u8>, res: Seq<u8>) -> bool {
    let name = word(a, 0);
    let n = partition_count(count_at(a, wstart(a, wend(a, 0))));
    if name.len() == 0 || name.len() > MAX_NAME_LEN {
        new == old && res == lit("ERR invalid topic name\n")
    } else if old.topic_from(name, 0) is Some {
        new == old && res == lit("ERR topic already exists\n")
    } else if old.free_topic_from(0) is None {
        new == old && res == lit("ERR max topics reached\n")
    } else {
        let t = old.free_topic_from(0)->0 as int;
        &&& new.offsets == old.offsets
        &&& same_except(old.topics@, new.topics@, t)
        &&& new.topics@[t].active
        &&& new.topics@[t].name@ == name
        &&& new.topics@[t].num_partitions == n
        &&& new.topics@[t].next_partition == 0
        &&& new.topics@[t].partitions == old.topics@[t].partitions
        &&& res == lit("OK topic created with ") + dec_digits(n as nat) + lit(" partition(s)\n")
    }
}

/// What `PRODUCE topic message` does: the rest of the line (without trailing line ends)
/// goes, cut to `MAX_MSG_LEN` bytes, to the topic's next partition in turn, into the slot
/// after the last one written.
pub open spec fn produce_post(old: Broker, new: Broker, a: Seq<u8>, res: Seq<u8>) -> bool {
    let topic = word(a, 0);
    let ms = wstart(a, wend(a, 0));
    let me = eol_trimmed(a, ms, a.len() as int);
    if topic.len() == 0 {
        new == old && res == lit("ERR missing topic\n")
    } else if ms >= a.len() {
        new == old && res == lit("ERR missing message\n")
    } else if me == ms {
        new == old && res == lit("ERR empty message\n")
    } else if old.topic_from(topic, 0) is None {
        new == old && res == lit("ERR topic not found\n")
    } else {
        let msg = a.subrange(ms, me);
        let t = old.topic_from(topic, 0)->0 as int;
        let top = old.topics@[t];
        let p = top.next_partition as int;
        let part = top.partitions@[p];
        let ntop = new.topics@[t];
        let npart = ntop.partitions@[p];
        let slot = part.head as int;
        &&& new.offsets == old.offsets
        &&& same_except(old.topics@, new.topics@, t)
        &&& ntop.name == top.name
        &&& ntop.active == top.active
        &&& ntop.num_partitions == top.num_partitions
        &&& ntop.next_partition == (top.next_partition + 1) % (top.num_partitions as int)
        &&& same_except(top.partitions@, ntop.partitions@, p)
        &&& same_except(part.messages@, npart.messages@, slot)
        &&& npart.messages@[slot].data@ == msg.take(min(msg.len() as int, MAX_MSG_LEN as int))
        &&& npart.messages@[slot].offset == part.next_offset
        &&& npart.next_offset == part.next_offset.wrapping_add(1)
        &&& npart.head == (part.head + 1) % (MAX_MESSAGES as int)
        &&& res == lit("OK partition=") + dec_digits(p as nat) + lit(" offset=") + dec_digits(
            part.next_offset as nat,
        ) + lit("\n")
    }
}

/// The lines for up to `left` messages from offset `off` on: a `MSG` line for each while the
/// message is still in its slot, an eviction error at the first that is not.
pub open spec fn consume_lines(part: Partition, off: u64, left: nat) -> Seq<u8>
    decreases left,
{
    if left == 0 || off >= part.next_offset {
        Seq::empty()
    } else {
        let m = part.messages@[(off % (MAX_MESSAGES as u64)) as int];
        if m.offset != off {
            lit("ERR message at offset ") + dec_digits(off as nat) + lit(" was evicted\n")
        } else {
            lit("MSG ") + dec_digits(off as nat) + lit(" ") + m.data@ + lit("\n") + consume_lines(
                part,
                (off + 1) as u64,
                (left - 1) as nat,
            )
        }
    }
}

/// An answer as sent: its first `MAX_RESPONSE` bytes.
pub open spec fn capped(s: Seq<u8>) -> Seq<u8> {
    if s.len() <= MAX_RESPONSE {
        s
    } else {
        s.take(MAX_RESPONSE as int)
    }
}

fn cap_response(v: Vec<u8>) -> (res: Vec<u8>)
    ensures
        res@ == capped(v@),
{
    let mut v = v;
    if v.len() > MAX_RESPONSE {
        v.truncate(MAX_RESPONSE);
    }
    v
}

/// The answer to `CONSUME topic partition offset [count]` (one message when no count, or
/// 0, is given).
pub open spec fn consume_reply(b: Broker, a: Seq<u8>) -> Seq<u8> {
    let e1 = wend(a, 0);
    let e2 = wend(a, e1);
    let e3 = wend(a, e2);
    let topic = word(a, 0);
    let ptok = word(a, e1);
    let otok = word(a, e2);
    let count: nat = match count_at(a, wstart(a, e3)) {
        None => 1,
        Some(c) => if c == 0 {
            1
        } else {
            c as nat
        },
    };
    if topic.len() == 0 {
        lit("ERR missing topic\n")
    } else if ptok.len() == 0 {
        lit("ERR missing partition\n")
    } else if otok.len() == 0 {
        lit("ERR missing offset\n")
    } else if b.topic_from(topic, 0) is None {
        lit("ERR topic not found\n")
    } else {
        let t = b.topic_from(topic, 0)->0 as int;
        let p = lead_u32(ptok) as int;
        if p >= b.topics@[t].num_partitions {
            lit("ERR invalid partition\n")
        } else {
            capped(consume_lines(b.topics@[t].partitions@[p], lead_u64(otok), count) + lit("END\n"))
        }
    }
}

/// Where a `PRODUCE` with arguments `a` puts its message when it succeeds: the topic's slot
/// and the partition.
pub open spec fn produce_target(b: Broker, a: Seq<u8>) -> Option<(int, int)> {
    let topic = word(a, 0);
    let ms = wstart(a, wend(a, 0));
    let me = eol_trimmed(a, ms, a.len() as int);
    if topic.len() == 0 || ms >= a.len() || me == ms || b.topic_from(topic, 0) is None {
        None
    } else {
        let t = b.topic_from(topic, 0)->0 as int;
        Some((t, b.topics@[t].next_partition as int))
    }
}

/// The message a successful `PRODUCE` with arguments `a` stores: the rest of the line after
/// the topic, without trailing line ends, cut to `MAX_MSG_LEN` bytes.
pub open spec fn produced_message(a: Seq<u8>) -> Seq<u8> {
    let ms = wstart(a, wend(a, 0));
    let msg = a.subrange(ms, eol_trimmed(a, ms, a.len() as int));
    msg.take(min(msg.len() as int, MAX_MSG_LEN as int))
}

/// What a `PRODUCE` stores is what a `CONSUME` of the partition and offset it reported gives
/// back: right after it, one message read from that offset is that message (unless the
/// partition's offset counter stood at its very last value, so that the next one wraps to
/// zero).
pub proof fn law_consume_after_produce(old: Broker, new: Broker, a: Seq<u8>, res: Seq<u8>, t: int, p: int)
    requires
        old.wf(),
        produce_post(old, new, a, res),
        produce_target(old, a) == Some((t, p)),
        old.topics@[t].partitions@[p].next_offset < u64::MAX,
    ensures
        consume_lines(new.topics@[t].partitions@[p], old.topics@[t].partitions@[p].next_offset, 1) == lit("MSG ")
            + dec_digits(old.topics@[t].partitions@[p].next_offset as nat) + lit(" ") + produced_message(a) + lit(
            "\n",
        ),
{
    old.lemma_topic_from(word(a, 0), 0);
    let part = old.topics@[t].partitions@[p];
    let npart = new.topics@[t].partitions@[p];
    let off = part.next_offset;
    assert(old.topics@[t].wf());
    assert(part.wf());
    assert(npart.next_offset == off + 1);
    assert(off % (MAX_MESSAGES as u64) == part.head);
    let m = npart.messages@[(off % (MAX_MESSAGES as u64)) as int];
    assert(m.offset == off);
    assert(consume_lines(npart, (off + 1) as u64, 0) == Seq::<u8>::empty());
    assert(lit("MSG ") + dec_digits(off as nat) + lit(" ") + m.data@ + lit("\n") + Seq::<u8>::empty() =~= lit("MSG ")
        + dec_digits(off as nat) + lit(" ") + m.data@ + lit("\n"));
}

/// One line per active topic from slot `i` on: `TOPIC name partitions`.
pub open spec fn topic_lines(ts: Seq<Topic>, i: int) -> Seq<u8>
    decreases ts.len() - i,
{
    if i < 0 || i >= ts.len() {
        Seq::empty()
    } else {
        (if ts[i].active {
            lit("TOPIC ") + ts[i].name@ + lit(" ") + dec_digits(ts[i].num_partitions as nat) + lit("\n")
        } else {
            Seq::empty()
        }) + topic_lines(ts, i + 1)
    }
}

/// How many of the first `n` topics are active.
pub open spec fn active_topics(b: Broker, n: int) -> nat
    decreases n,
{
    if n <= 0 {
        0
    } else {
        active_topics(b, n - 1) + if b.topics@[n - 1].active {
            1nat
        } else {
            0nat
        }
    }
}

/// How many of the first `n` offset entries are in use.
pub open spec fn active_offsets(b: Broker, n: int) -> nat
    decreases n,
{
    if n <= 0 {
        0
    } else {
        active_offsets(b, n - 1) + if b.offsets@[n - 1].active {
            1nat
        } else {
            0nat
        }
    }
}

/// `acc` with the next offsets of the first `n` partitions of a topic added (wrapping
/// modulo 2^64).
pub open spec fn add_partitions(acc: u64, t: Topic, n: int) -> u64
    decreases n,
{
    if n <= 0 {
        acc
    } else {
        add_partitions(acc, t, n - 1).wrapping_add(t.partitions@[n - 1].next_offset)
    }
}

/// The number of messages ever produced to the first `n` topics (wrapping modulo 2^64): the
/// sum of the next offsets of the partitions in use of the active ones.
pub open spec fn message_total(b: Broker, n: int) -> u64
    decreases n,
{
    if n <= 0 {
        0
    } else {
        let t = b.topics@[n - 1];
        if t.active {
            add_partitions(message_total(b, n - 1), t, t.num_partitions as int)
        } else {
            message_total(b, n - 1)
        }
    }
}

proof fn lemma_seq_assoc(a: Seq<u8>, b: Seq<u8>, c: Seq<u8>)
    ensures
        a + b + c == a + (b + c),
{
    assert(a + b + c =~= a + (b + c));
}

/// Reads the number given at `pos`, if a digit stands there.
fn read_count(a: &[u8], pos: usize) -> (res: Option<u32>)
    requires
        pos <= a@.len(),
    ensures
        res == count_at(a@, pos as int),
{
    if pos < a.len() && is_digit_exec(a[pos]) {
        let r = parse_u32(&a[pos..a.len()]);
        assert(a@.subrange(pos as int, a@.len() as int) =~= a@.skip(pos as int));
        Some(r)
    } else {
        None
    }
}

impl Broker {
    /// The first unused topic slot.
    fn free_topic(&self) -> (res: Option<usize>)
        requires
            self.wf(),
        ensures
            res == self.free_topic_from(0),
            res matches Some(t) ==> t < MAX_TOPICS && !self.topics@[t as int].active,
    {
        proof {
            self.lemma_free_topic_from(0);
        }
        let mut i: usize = 0;
        while i < MAX_TOPICS
            invariant
                self.wf(),
                i <= MAX_TOPICS,
                self.free_topic_from(0) == self.free_topic_from(i as int),
            decreases MAX_TOPICS - i,
        {
            if !self.topics[i].active {
                return Some(i);
            }
            i += 1;
        }
        None
    }

    /// `CREATE_TOPIC name [partitions]`, with `a` the arguments.
    pub fn cmd_create_topic(&mut self, a: &[u8]) -> (res: Vec<u8>)
        requires
            old(self).wf(),
        ensures
            final(self).wf(),
            create_topic_post(*old(self), *final(self), a@, res@),
    {
        let (s, e) = next_word(a, 0);
        if e == s || e - s > MAX_NAME_LEN {
            return lit_bytes("ERR invalid topic name\n");
        }
        let name = &a[s..e];
        if self.find_topic(name).is_some() {
            return lit_bytes("ERR topic already exists\n");
        }
        let (ps, _) = next_word(a, e);
        let n: usize = match read_count(a, ps) {
            None => 1,
            Some(c) => if c < 1 {
                1
            } else if c > 4 {
                4
            } else {
                c as usize
            },
        };
        let t = match self.free_topic() {
            Some(i) => i,
            None => {
                return lit_bytes("ERR max topics reached\n");
            },
        };
        let ghost before = *self;
        let mut stored: Vec<u8> = Vec::new();
        extend(&mut stored, name);
        assert(self.topics@[t as int].wf());
        self.topics[t].active = true;
        self.topics[t].name = stored;
        self.topics[t].num_partitions = n;
        self.topics[t].next_partition = 0;
        assert(self.topics@[t as int].wf());
        assert forall|j: int| 0 <= j < MAX_TOPICS implies (#[trigger] self.topics@[j]).wf() by {
            if j != t {
                assert(self.topics@[j] == before.topics@[j]);
            }
        }
        let mut out = lit_bytes("OK topic created with ");
        let d = format_u32(n as u32);
        extend(&mut out, d.as_slice());
        extend(&mut out, " partition(s)\n".as_bytes());
        out
    }

    /// `PRODUCE topic message`, with `a` the arguments.
    pub fn cmd_produce(&mut self, a: &[u8]) -> (res: Vec<u8>)
        requires
            old(self).wf(),
        ensures
            final(self).wf(),
            produce_post(*old(self), *final(self), a@, res@),
    {
        let (s, e) = next_word(a, 0);
        if e == s {
            return lit_bytes("ERR missing topic\n");
        }
        let (ms, _) = next_word(a, e);
        if ms >= a.len() {
            return lit_bytes("ERR missing message\n");
        }
        let me = trim_eol(a, ms, a.len());
        if me == ms {
            return lit_bytes("ERR empty message\n");
        }
        let msg = &a[ms..me];
        let t = match self.find_topic(&a[s..e]) {
            Some(i) => i,
            None => {
                return lit_bytes("ERR topic not found\n");
            },
        };
        let ghost before = *self;
        assert(self.topics@[t as int].wf());
        let p = self.topics[t].next_partition;
        let n = self.topics[t].num_partitions;
        self.topics[t].next_partition = (p + 1) % n;
        assert(self.topics@[t as int].partitions@[p as int].wf());
        let head = self.topics[t].partitions[p].head;
        let off = self.topics[t].partitions[p].next_offset;
        let keep = if msg.len() > MAX_MSG_LEN {
            MAX_MSG_LEN
        } else {
            msg.len()
        };
        let mut data: Vec<u8> = Vec::new();
        extend(&mut data, slice_prefix(msg, keep));
        self.topics[t].partitions[p].messages[head] = Message { data, offset: off };
        self.topics[t].partitions[p].next_offset = off.wrapping_add(1);
        self.topics[t].partitions[p].head = (head + 1) % MAX_MESSAGES;
        proof {
            lemma_ring_step(off);
            let top = self.topics@[t as int];
            let part = top.partitions@[p as int];
            let opart = before.topics@[t as int].partitions@[p as int];
            assert forall|i: int| 0 <= i < MAX_MESSAGES implies (#[trigger] part.messages@[i]).data@.len() <= MAX_MSG_LEN by {
                if i != head {
                    assert(part.messages@[i] == opart.messages@[i]);
                }
            }
            assert(part.wf());
            assert forall|q: int| 0 <= q < MAX_PARTITIONS implies (#[trigger] top.partitions@[q]).wf() by {
                if q != p {
                    assert(top.partitions@[q] == before.topics@[t as int].partitions@[q]);
                }
            }
            assert(top.wf());
            assert forall|j: int| 0 <= j < MAX_TOPICS implies (#[trigger] self.topics@[j]).wf() by {
                if j != t {
                    assert(self.topics@[j] == before.topics@[j]);
                }
            }
        }
        let mut out = lit_bytes("OK partition=");
        let d = format_u32(p as u32);
        extend(&mut out, d.as_slice());
        extend(&mut out, " offset=".as_bytes());
        let d = format_u64(off);
        extend(&mut out, d.as_slice());
        extend(&mut out, "\n".as_bytes());
        out
    }

    /// `CONSUME topic partition offset [count]`, with `a` the arguments.
    pub fn cmd_consume(&self, a: &[u8]) -> (res: Vec<u8>)
        requires
            self.wf(),
        ensures
            res@ == consume_reply(*self, a@),
    {
        let (s1, e1) = next_word(a, 0);
        if e1 == s1 {
            return lit_bytes("ERR missing topic\n");
        }
        let (s2, e2) = next_word(a, e1);
        if e2 == s2 {
            return lit_bytes("ERR missing partition\n");
        }
        let p = parse_u32(&a[s2..e2]) as usize;
        let (s3, e3) = next_word(a, e2);
        if e3 == s3 {
            return lit_bytes("ERR missing offset\n");
        }
        let from = parse_u64(&a[s3..e3]);
        let (cs, _) = next_word(a, e3);
        let count: u32 = match read_count(a, cs) {
            None => 1,
            Some(c) => if c == 0 {
                1
            } else {
                c
            },
        };
        let t = match self.find_topic(&a[s1..e1]) {
            Some(i) => i,
            None => {
                return lit_bytes("ERR topic not found\n");
            },
        };
        assert(self.topics@[t as int].wf());
        if p >= self.topics[t].num_partitions {
            return lit_bytes("ERR invalid partition\n");
        }
        let part = &self.topics[t].partitions[p];
        assert(part.wf());
        let ghost whole = consume_lines(*part, from, count as nat);
        let mut out: Vec<u8> = Vec::new();
        let mut off = from;
        let mut fetched: u32 = 0;
        while fetched < count && off < part.next_offset
            invariant_except_break
                out@ + consume_lines(*part, off, (count - fetched) as nat) == whole,
            invariant
                part.wf(),
                fetched <= count,
            ensures
                out@ == whole,
            decreases count - fetched,
        {
            let idx = (off % (MAX_MESSAGES as u64)) as usize;
            let m = &part.messages[idx];
            if m.offset != off {
                extend(&mut out, "ERR message at offset ".as_bytes());
                let d = format_u64(off);
                extend(&mut out, d.as_slice());
                extend(&mut out, " was evicted\n".as_bytes());
                assert(out@ =~= whole);
                break;
            }
            let ghost prev = out@;
            extend(&mut out, "MSG ".as_bytes());
            let d = format_u64(off);
            extend(&mut out, d.as_slice());
            extend(&mut out, " ".as_bytes());
            extend(&mut out, m.data.as_slice());
            extend(&mut out, "\n".as_bytes());
            proof {
                let line = lit("MSG ") + dec_digits(off as nat) + lit(" ") + m.data@ + lit("\n");
                assert(out@ =~= prev + line);
                lemma_seq_assoc(prev, line, consume_lines(*part, (off + 1) as u64, (count - fetched - 1) as nat));
            }
            off = off + 1;
            fetched = fetched + 1;
        }
        extend(&mut out, "END\n".as_bytes());
        cap_response(out)
    }

    /// `LIST_TOPICS`: one line per active topic, then `END`.
    pub fn cmd_list_topics(&self) -> (res: Vec<u8>)
        requires
            self.wf(),
        ensures
            res@ == capped(topic_lines(self.topics@, 0) + lit("END\n")),
    {
        let mut out: Vec<u8> = Vec::new();
        let mut i: usize = 0;
        while i < MAX_TOPICS
            invariant
                self.wf(),
                i <= MAX_TOPICS,
                out@ + topic_lines(self.topics@, i as int) == topic_lines(self.topics@, 0),
            decreases MAX_TOPICS - i,
        {
            let ghost prev = out@;
            if self.topics[i].active {
                extend(&mut out, "TOPIC ".as_bytes());
                extend(&mut out, self.topics[i].name.as_slice());
                extend(&mut out, " ".as_bytes());
                let d = format_u32(self.topics[i].num_partitions as u32);
                extend(&mut out, d.as_slice());
                extend(&mut out, "\n".as_bytes());
            }
            proof {
                let line = if self.topics@[i as int].active {
                    lit("TOPIC ") + self.topics@[i as int].name@ + lit(" ") + dec_digits(
                        self.topics@[i as int].num_partitions as nat,
                    ) + lit("\n")
                } else {
                    Seq::empty()
                };
                assert(self.topics@[i as int].wf());
                assert(out@ =~= prev + line);
                lemma_seq_assoc(prev, line, topic_lines(self.topics@, i + 1));
            }
            i += 1;
        }
        assert(out@ =~= topic_lines(self.topics@, 0));
        extend(&mut out, "END\n".as_bytes());
        cap_response(out)
    }

    /// `STATS`: the number of active topics, of messages ever produced to them and of
    /// offset entries in use.
    pub fn cmd_stats(&self) -> (res: Vec<u8>)
        requires
            self.wf(),
        ensures
            res@ == stats_reply(*self),
    {
        let mut topics: u32 = 0;
        let mut total: u64 = 0;
        let mut i: usize = 0;
        while i < MAX_TOPICS
            invariant
                self.wf(),
                i <= MAX_TOPICS,
                topics == active_topics(*self, i as int),
                topics <= i,
                total == message_total(*self, i as int),
            decreases MAX_TOPICS - i,
        {
            if self.topics[i].active {
                topics += 1;
                assert(self.topics@[i as int].wf());
                let ghost start = total;
                let mut p: usize = 0;
                while p < self.topics[i].num_partitions
                    invariant
                        self.wf(),
                        i < MAX_TOPICS,
                        self.topics@[i as int].wf(),
                        p <= self.topics@[i as int].num_partitions,
                        total == add_partitions(start, self.topics@[i as int], p as int),
                    decreases self.topics@[i as int].num_partitions - p,
                {
                    total = total.wrapping_add(self.topics[i].partitions[p].next_offset);
                    p += 1;
                }
            }
            i += 1;
        }
        let mut offsets: u32 = 0;
        i = 0;
        while i < MAX_OFFSETS
            invariant
                self.wf(),
                i <= MAX_OFFSETS,
                offsets == active_offsets(*self, i as int),
                offsets <= i,
            decreases MAX_OFFSETS - i,
        {
            if self.offsets[i].active {
                offsets += 1;
            }
            i += 1;
        }
        let mut out = lit_bytes("OK topics=");
        let d = format_u32(topics);
        extend(&mut out, d.as_slice());
        extend(&mut out, " messages=".as_bytes());
        let d = format_u64(total);
        extend(&mut out, d.as_slice());
        extend(&mut out, " consumer_offsets=".as_bytes());
        let d = format_u32(offsets);
        extend(&mut out, d.as_slice());
        extend(&mut out, "\n".as_bytes());
        out
    }
}

/// The entries once `group` has an entry for each partition from `p` up to `n` of topic `t`,
/// and whether there was room for all of them (entries made before running out of room
/// stay).
pub open spec fn subscribe_entries(es: Seq<OffsetEntry>, group: Seq<u8>, t: usize, p: int, n: int) -> (
    Seq<OffsetEntry>,
    bool,
)
    decreases n - p,
{
    if p >= n {
        (es, true)
    } else {
        match ensure_entry(es, group, t, p as usize) {
            None => (es, false),
            Some((es2, _)) => subscribe_entries(es2, group, t, p + 1, n),
        }
    }
}

/// What `SUBSCRIBE group topic` does.
pub open spec fn subscribe_post(old: Broker, new: Broker, a: Seq<u8>, res: Seq<u8>) -> bool {
    let group = word(a, 0);
    let topic = word(a, wend(a, 0));
    if group.len() == 0 {
        new == old && res == lit("ERR missing group\n")
    } else if topic.len() == 0 {
        new == old && res == lit("ERR missing topic\n")
    } else if old.topic_from(topic, 0) is None {
        new == old && res == lit("ERR topic not found\n")
    } else {
        let t = old.topic_from(topic, 0)->0;
        let (es, ok) = subscribe_entries(entries(old), group, t, 0, old.topics@[t as int].num_partitions as int);
        &&& new.topics == old.topics
        &&& entries(new) == es
        &&& res == if ok {
            capped(lit("OK subscribed ") + group + lit(" to ") + topic + lit("\n"))
        } else {
            lit("ERR max consumer offsets reached\n")
        }
    }
}

/// Among the partitions from `p` up to `n` of topic `t`, the one where `group` has the lowest
/// committed offset below the partition's next offset (the first such on ties), with that
/// offset; `best` is the choice among the partitions before `p`.
pub open spec fn poll_best(b: Broker, group: Seq<u8>, t: usize, p: int, n: int, best: Option<(usize, u64)>) -> Option<
    (usize, u64),
>
    decreases n - p,
{
    if p >= n {
        best
    } else {
        let bound: u64 = match best {
            None => u64::MAX,
            Some((_, x)) => x,
        };
        let cand = match lookup_entry(entries(b), group, t, p as usize, 0) {
            None => best,
            Some(o) => {
                let off = entries(b)[o].offset;
                if off < b.topics@[t as int].partitions@[p].next_offset && off < bound {
                    Some((p as usize, off))
                } else {
                    best
                }
            },
        };
        poll_best(b, group, t, p + 1, n, cand)
    }
}

/// What `POLL group topic` does: the next message of the partition where the group is
/// furthest behind, and the group's offset there moves past it.
pub open spec fn poll_post(old: Broker, new: Broker, a: Seq<u8>, res: Seq<u8>) -> bool {
    let group = word(a, 0);
    let topic = word(a, wend(a, 0));
    if group.len() == 0 {
        new == old && res == lit("ERR missing group\n")
    } else if topic.len() == 0 {
        new == old && res == lit("ERR missing topic\n")
    } else if old.topic_from(topic, 0) is None {
        new == old && res == lit("ERR topic not found\n")
    } else {
        let t = old.topic_from(topic, 0)->0;
        match poll_best(old, group, t, 0, old.topics@[t as int].num_partitions as int, None) {
            None => new == old && res == lit("ERR no messages available\n"),
            Some((p, off)) => {
                let m = old.topics@[t as int].partitions@[p as int].messages@[(off % (MAX_MESSAGES as u64)) as int];
                if m.offset != off {
                    new == old && res == lit("ERR message was evicted\n")
                } else {
                    let o = lookup_entry(entries(old), group, t, p, 0)->0;
                    let es = entries(old);
                    &&& new.topics == old.topics
                    &&& entries(new) == es.update(o, OffsetEntry { offset: (off + 1) as u64, ..es[o] })
                    &&& res == lit("MSG partition=") + dec_digits(p as nat) + lit(" offset=") + dec_digits(off as nat)
                        + lit(" ") + m.data@ + lit("\n")
                }
            },
        }
    }
}

/// What `COMMIT group topic partition offset` does.
pub open spec fn commit_post(old: Broker, new: Broker, a: Seq<u8>, res: Seq<u8>) -> bool {
    let e1 = wend(a, 0);
    let e2 = wend(a, e1);
    let e3 = wend(a, e2);
    let group = word(a, 0);
    let topic = word(a, e1);
    let ptok = word(a, e2);
    let otok = word(a, e3);
    if group.len() == 0 {
        new == old && res == lit("ERR missing group\n")
    } else if topic.len() == 0 {
        new == old && res == lit("ERR missing topic\n")
    } else if ptok.len() == 0 {
        new == old && res == lit("ERR missing partition\n")
    } else if otok.len() == 0 {
        new == old && res == lit("ERR missing offset\n")
    } else if old.topic_from(topic, 0) is None {
        new == old && res == lit("ERR topic not found\n")
    } else {
        let t = old.topic_from(topic, 0)->0;
        let p = lead_u32(ptok) as usize;
        if p >= old.topics@[t as int].num_partitions {
            new == old && res == lit("ERR invalid partition\n")
        } else {
            &&& new.topics == old.topics
            &&& match ensure_entry(entries(old), group, t, p) {
                None => entries(new) == entries(old) && res == lit("ERR max consumer offsets reached\n"),
                Some((es, o)) => entries(new) == es.update(o, OffsetEntry { offset: lead_u64(otok), ..es[o] })
                    && res == lit("OK committed\n"),
            }
        }
    }
}

impl Broker {
    /// `SUBSCRIBE group topic`, with `a` the arguments: the group gets an offset entry for
    /// every partition of the topic.
    #[verifier::loop_isolation(false)]
    pub fn cmd_subscribe(&mut self, a: &[u8]) -> (res: Vec<u8>)
        requires
            old(self).wf(),
        ensures
            final(self).wf(),
            subscribe_post(*old(self), *final(self), a@, res@),
    {
        let (s1, e1) = next_word(a, 0);
        if e1 == s1 {
            return lit_bytes("ERR missing group\n");
        }
        let (s2, e2) = next_word(a, e1);
        if e2 == s2 {
            return lit_bytes("ERR missing topic\n");
        }
        let group = &a[s1..e1];
        let topic = &a[s2..e2];
        let t = match self.find_topic(topic) {
            Some(i) => i,
            None => {
                return lit_bytes("ERR topic not found\n");
            },
        };
        let n = self.topics[t].num_partitions;
        let ghost whole = subscribe_entries(entries(*self), group@, t, 0, n as int);
        let mut p: usize = 0;
        while p < n
            invariant
                self.wf(),
                self.topics == old(self).topics,
                t < MAX_TOPICS,
                n == self.topics@[t as int].num_partitions,
                p <= n,
                subscribe_entries(entries(*self), group@, t, p as int, n as int) == whole,
            decreases n - p,
        {
            if self.find_or_create_offset(group, t, p).is_none() {
                return lit_bytes("ERR max consumer offsets reached\n");
            }
            p += 1;
        }
        let mut out = lit_bytes("OK subscribed ");
        extend(&mut out, group);
        extend(&mut out, " to ".as_bytes());
        extend(&mut out, topic);
        extend(&mut out, "\n".as_bytes());
        cap_response(out)
    }

    /// `POLL group topic`, with `a` the arguments.
    #[verifier::loop_isolation(false)]
    pub fn cmd_poll(&mut self, a: &[u8]) -> (res: Vec<u8>)
        requires
            old(self).wf(),
        ensures
            final(self).wf(),
            poll_post(*old(self), *final(self), a@, res@),
    {
        let (s1, e1) = next_word(a, 0);
        if e1 == s1 {
            return lit_bytes("ERR missing group\n");
        }
        let (s2, e2) = next_word(a, e1);
        if e2 == s2 {
            return lit_bytes("ERR missing topic\n");
        }
        let group = &a[s1..e1];
        let t = match self.find_topic(&a[s2..e2]) {
            Some(i) => i,
            None => {
                return lit_bytes("ERR topic not found\n");
            },
        };
        assert(self.topics@[t as int].wf());
        let n = self.topics[t].num_partitions;
        let ghost whole = poll_best(*self, group@, t, 0, n as int, None);
        let mut best: Option<(usize, u64)> = None;
        let mut best_off: u64 = u64::MAX;
        let mut p: usize = 0;
        while p < n
            invariant
                self.wf(),
                t < MAX_TOPICS,
                n == self.topics@[t as int].num_partitions,
                n <= MAX_PARTITIONS,
                p <= n,
                best_off == match best {
                    None => u64::MAX,
                    Some((_, x)) => x,
                },
                best matches Some((bp, x)) ==> bp < n && x < self.topics@[t as int].partitions@[bp as int].next_offset,
                poll_best(*self, group@, t, p as int, n as int, best) == whole,
            decreases n - p,
        {
            proof {
                lemma_lookup_entry(*self, group@, t, p, 0);
            }
            match self.find_offset(group, t, p) {
                Some(o) => {
                    let off = self.offsets[o].offset;
                    if off < self.topics[t].partitions[p].next_offset && off < best_off {
                        best_off = off;
                        best = Some((p, off));
                    }
                },
                None => {},
            }
            p += 1;
        }
        match best {
            None => lit_bytes("ERR no messages available\n"),
            Some((bp, off)) => {
                assert(self.topics@[t as int].partitions@[bp as int].wf());
                let idx = (off % (MAX_MESSAGES as u64)) as usize;
                if self.topics[t].partitions[bp].messages[idx].offset != off {
                    return lit_bytes("ERR message was evicted\n");
                }
                let mut out = lit_bytes("MSG partition=");
                let d = format_u32(bp as u32);
                extend(&mut out, d.as_slice());
                extend(&mut out, " offset=".as_bytes());
                let d = format_u64(off);
                extend(&mut out, d.as_slice());
                extend(&mut out, " ".as_bytes());
                extend(&mut out, self.topics[t].partitions[bp].messages[idx].data.as_slice());
                extend(&mut out, "\n".as_bytes());
                proof {
                    lemma_poll_best_found(*self, group@, t, 0, n as int, None);
                    lemma_lookup_entry(*self, group@, t, bp, 0);
                }
                let o = match self.find_offset(group, t, bp) {
                    Some(o) => o,
                    None => {
                        return out;
                    },
                };
                let ghost before = *self;
                self.offsets[o].offset = off + 1;
                proof {
                    assert forall|j: int| 0 <= j < MAX_OFFSETS implies (#[trigger] self.offsets@[j]).group@.len()
                        <= MAX_NAME_LEN by {
                        if j != o {
                            assert(self.offsets@[j] == before.offsets@[j]);
                        }
                    }
                    assert(entries(*self) =~= entries(before).update(
                        o as int,
                        OffsetEntry { offset: (off + 1) as u64, ..entries(before)[o as int] },
                    ));
                }
                out
            },
        }
    }

    /// `COMMIT group topic partition offset`, with `a` the arguments.
    pub fn cmd_commit(&mut self, a: &[u8]) -> (res: Vec<u8>)
        requires
            old(self).wf(),
        ensures
            final(self).wf(),
            commit_post(*old(self), *final(self), a@, res@),
    {
        let (s1, e1) = next_word(a, 0);
        if e1 == s1 {
            return lit_bytes("ERR missing group\n");
        }
        let (s2, e2) = next_word(a, e1);
        if e2 == s2 {
            return lit_bytes("ERR missing topic\n");
        }
        let (s3, e3) = next_word(a, e2);
        if e3 == s3 {
            return lit_bytes("ERR missing partition\n");
        }
        let p = parse_u32(&a[s3..e3]) as usize;
        let (s4, e4) = next_word(a, e3);
        if e4 == s4 {
            return lit_bytes("ERR missing offset\n");
        }
        let c = parse_u64(&a[s4..e4]);
        let t = match self.find_topic(&a[s2..e2]) {
            Some(i) => i,
            None => {
                return lit_bytes("ERR topic not found\n");
            },
        };
        if p >= self.topics[t].num_partitions {
            return lit_bytes("ERR invalid partition\n");
        }
        match self.find_or_create_offset(&a[s1..e1], t, p) {
            Some(o) => {
                let ghost before = *self;
                self.offsets[o].offset = c;
                proof {
                    assert forall|j: int| 0 <= j < MAX_OFFSETS implies (#[trigger] self.offsets@[j]).group@.len()
                        <= MAX_NAME_LEN by {
                        if j != o {
                            assert(self.offsets@[j] == before.offsets@[j]);
                        }
                    }
                    assert(entries(*self) =~= entries(before).update(
                        o as int,
                        OffsetEntry { offset: c, ..entries(before)[o as int] },
                    ));
                }
                lit_bytes("OK committed\n")
            },
            None => lit_bytes("ERR max consumer offsets reached\n"),
        }
    }
}

/// The partition `poll_best` picks is one where the group has an entry, with that entry's
/// offset.
proof fn lemma_poll_best_found(b: Broker, group: Seq<u8>, t: usize, p: int, n: int, best: Option<(usize, u64)>)
    requires
        0 <= p,
        best matches Some((bp, off)) ==> lookup_entry(entries(b), group, t, bp, 0) matches Some(o)
            && entries(b)[o].offset == off,
    ensures
        poll_best(b, group, t, p, n, best) matches Some((bp, off)) ==> lookup_entry(entries(b), group, t, bp, 0) matches Some(o)
            && entries(b)[o].offset == off,
    decreases n - p,
{
    if p < n {
        let bound: u64 = match best {
            None => u64::MAX,
            Some((_, x)) => x,
        };
        let cand = match lookup_entry(entries(b), group, t, p as usize, 0) {
            None => best,
            Some(o) => {
                let off = entries(b)[o].offset;
                if off < b.topics@[t as int].partitions@[p].next_offset && off < bound {
                    Some((p as usize, off))
                } else {
                    best
                }
            },
        };
        lemma_poll_best_found(b, group, t, p + 1, n, cand);
    }
}

/// The answer to `STATS`.
pub open spec fn stats_reply(b: Broker) -> Seq<u8> {
    lit("OK topics=") + dec_digits(active_topics(b, MAX_TOPICS as int)) + lit(" messages=") + dec_digits(
        message_total(b, MAX_TOPICS as int) as nat,
    ) + lit(" consumer_offsets=") + dec_digits(active_offsets(b, MAX_OFFSETS as int)) + lit("\n")
}

proof fn lemma_eol_trimmed(a: Seq<u8>, lo: int, hi: int)
    requires
        0 <= lo <= hi <= a.len(),
    ensures
        lo <= eol_trimmed(a, lo, hi) <= hi,
        forall|k: int| eol_trimmed(a, lo, hi) <= k < hi ==> a[k] == 10 || a[k] == 13,
    decreases hi - lo,
{
    if hi > lo && (a[hi - 1] == 10 || a[hi - 1] == 13) {
        lemma_eol_trimmed(a, lo, hi - 1);
    }
}

proof fn lemma_scan_stops_by(a: Seq<u8>, start: int, bound: int, stop: spec_fn(u8) -> bool)
    requires
        0 <= start <= bound <= a.len(),
        bound == a.len() || stop(a[bound]),
    ensures
        scan_until(a, start, stop) <= bound,
    decreases bound - start,
{
    if start < bound && !stop(a[start]) {
        lemma_scan_stops_by(a, start + 1, bound, stop);
    }
}

/// What one request line does to the broker: nothing (and no answer) for an empty one;
/// otherwise the log line and the answer.  The line is what the client sent, without its
/// trailing line ends; the first word names the command and the rest are its arguments.
pub open spec fn request_post(old: Broker, new: Broker, buf: Seq<u8>, res: Option<(Seq<u8>, Seq<u8>)>) -> bool {
    let ll = eol_trimmed(buf, 0, buf.len() as int);
    if ll == 0 {
        new == old && res is None
    } else {
        let ce = scan_until(buf, 0, |c: u8| is_word_end(c));
        let cmd = buf.take(ce);
        let a = buf.subrange(scan_until(buf, ce, |c: u8| c != 32), ll);
        match res {
            None => false,
            Some((log, resp)) => {
                &&& log == lit("CMD: ") + buf.take(ll) + lit("\n")
                &&& if cmd == lit("CREATE_TOPIC") {
                    create_topic_post(old, new, a, resp)
                } else if cmd == lit("PRODUCE") {
                    produce_post(old, new, a, resp)
                } else if cmd == lit("CONSUME") {
                    new == old && resp == consume_reply(old, a)
                } else if cmd == lit("LIST_TOPICS") {
                    new == old && resp == capped(topic_lines(old.topics@, 0) + lit("END\n"))
                } else if cmd == lit("STATS") {
                    new == old && resp == stats_reply(old)
                } else if cmd == lit("SUBSCRIBE") {
                    subscribe_post(old, new, a, resp)
                } else if cmd == lit("POLL") {
                    poll_post(old, new, a, resp)
                } else if cmd == lit("COMMIT") {
                    commit_post(old, new, a, resp)
                } else {
                    new == old && resp == lit("ERR unknown command\n")
                }
            },
        }
    }
}

impl Broker {
    /// Handles what a client sent: the log line and the answer, or nothing for an empty
    /// line.
    pub fn handle_request(&mut self, buf: &[u8]) -> (res: Option<(Vec<u8>, Vec<u8>)>)
        requires
            old(self).wf(),
        ensures
            final(self).wf(),
            request_post(
                *old(self),
                *final(self),
                buf@,
                match res {
                    None => None,
                    Some((l, r)) => Some((l@, r@)),
                },
            ),
    {
        let ll = trim_eol(buf, 0, buf.len());
        if ll == 0 {
            return None;
        }
        proof {
            lemma_eol_trimmed(buf@, 0, buf@.len() as int);
            lemma_scan_stops_by(buf@, 0, ll as int, |c: u8| is_word_end(c));
        }
        let ce = next_space(buf, 0);
        proof {
            lemma_scan_stops_by(buf@, ce as int, ll as int, |c: u8| c != 32);
        }
        let ast = skip_spaces(buf, ce);
        let cmd = &buf[0..ce];
        let a = &buf[ast..ll];
        let mut log = lit_bytes("CMD: ");
        extend(&mut log, &buf[0..ll]);
        extend(&mut log, "\n".as_bytes());
        let resp = if bytes_eq(cmd, "CREATE_TOPIC".as_bytes()) {
            self.cmd_create_topic(a)
        } else if bytes_eq(cmd, "PRODUCE".as_bytes()) {
            self.cmd_produce(a)
        } else if bytes_eq(cmd, "CONSUME".as_bytes()) {
            self.cmd_consume(a)
        } else if bytes_eq(cmd, "LIST_TOPICS".as_bytes()) {
            self.cmd_list_topics()
        } else if bytes_eq(cmd, "STATS".as_bytes()) {
            self.cmd_stats()
        } else if bytes_eq(cmd, "SUBSCRIBE".as_bytes()) {
            self.cmd_subscribe(a)
        } else if bytes_eq(cmd, "POLL".as_bytes()) {
            self.cmd_poll(a)
        } else if bytes_eq(cmd, "COMMIT".as_bytes()) {
            self.cmd_commit(a)
        } else {
            lit_bytes("ERR unknown command\n")
        };
        Some((log, resp))
    }
}

} // verus!
