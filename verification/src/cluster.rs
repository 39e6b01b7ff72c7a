//! A partitioned message broker with consumer groups.
//!
//! Topics are split into partitions; each partition keeps its latest messages in a ring of
//! fixed size. Consumer groups follow one topic, and the partitions of that topic are shared
//! round-robin among the group's active members. Clients drive the broker with a line-based
//! text protocol (`handle_command`).

use vstd::prelude::*;
use crate::bytes::{bytes_eq, extend, slice_prefix, min, same_except, nth_token, nth_token_from, next_token,
    lemma_nth_token_from_bounds, has_prefix, starts_with, scan_until, lemma_scan_until_bounds, token_after,
    find_line_end};
use crate::hash::{fnv1a, fnv1a_hash};
use crate::http::{lit, lit_bytes};
use crate::numfmt::{dec_digits, format_u32, format_u64, parse_u32, parse_u64, lead_u32, lead_u64, is_digit,
    is_digit_exec};

verus! {

/// How many topics the broker holds.
pub const MAX_TOPICS: usize = 8;
/// How many partitions a topic may have.
pub const MAX_PARTITIONS: usize = 4;
/// How many messages a partition keeps.
pub const MAX_MESSAGES: usize = 64;
/// How many bytes of a message value are kept.
pub const MAX_MSG_LEN: usize = 128;
/// How many bytes of a message key are kept.
pub const MAX_KEY_LEN: usize = 32;
/// The longest topic or group name.
pub const MAX_NAME_LEN: usize = 32;
/// How many consumer groups the broker holds.
pub const MAX_GROUPS: usize = 8;
/// How many members a consumer group may have.
pub const MAX_MEMBERS: usize = 8;
/// The longest response; the rest of a longer one is dropped.
pub const MAX_RESPONSE: usize = 2048;

/// One stored message.
pub struct Message {
    pub key: Vec<u8>,
    pub data: Vec<u8>,
    pub offset: u64,
    pub timestamp: u64,
}

/// A partition: a ring of `MAX_MESSAGES` slots, the offset the next message gets, and the
/// slot that the next message overwrites once the ring is full.
pub struct Partition {
    pub messages: Vec<Message>,
    pub next_offset: u64,
    pub head: usize,
}

/// A topic slot.
pub struct Topic {
    pub name: Vec<u8>,
    pub partitions: Vec<Partition>,
    pub num_partitions: usize,
    pub active: bool,
}

/// A member slot of a consumer group, with the partitions assigned to it.
pub struct GroupMember {
    pub client_fd: i32,
    pub partitions: Vec<usize>,
    pub active: bool,
}

/// A consumer group slot: its topic, its members and the offsets it has committed.
pub struct ConsumerGroup {
    pub name: Vec<u8>,
    pub topic_idx: usize,
    pub members: Vec<GroupMember>,
    pub offsets: Vec<u64>,
    pub active: bool,
}

/// The broker's state.
pub struct Broker {
    pub topics: Vec<Topic>,
    pub groups: Vec<ConsumerGroup>,
}

impl Message {
    /// Key and value within their limits.
    pub open spec fn wf(&self) -> bool {
        self.key@.len() <= MAX_KEY_LEN && self.data@.len() <= MAX_MSG_LEN
    }

    /// An empty slot.
    pub fn empty() -> (m: Message)
        ensures
            m.wf(),
            m.key@.len() == 0,
            m.data@.len() == 0,
            m.offset == 0,
            m.timestamp == 0,
    {
        Message { key: Vec::new(), data: Vec::new(), offset: 0, timestamp: 0 }
    }
}

impl Partition {
    /// A full ring of well-formed slots and a head inside it.
    pub open spec fn wf(&self) -> bool {
        &&& self.messages@.len() == MAX_MESSAGES
        &&& self.head < MAX_MESSAGES
        &&& forall|i: int| 0 <= i < MAX_MESSAGES ==> #[trigger] self.messages@[i].wf()
    }

    /// How many slots hold messages.
    pub open spec fn stored(&self) -> int {
        if self.next_offset < MAX_MESSAGES as u64 {
            self.next_offset as int
        } else {
            MAX_MESSAGES as int
        }
    }

    /// The slot the next message goes to: the next free one, or the oldest once all are used.
    pub open spec fn next_slot(&self) -> int {
        if self.next_offset < MAX_MESSAGES as u64 {
            self.next_offset as int
        } else {
            self.head as int
        }
    }

    /// The head after the next message.
    pub open spec fn next_head(&self) -> usize {
        if self.next_offset < MAX_MESSAGES as u64 {
            self.head
        } else {
            ((self.head + 1) % (MAX_MESSAGES as int)) as usize
        }
    }

    /// An empty partition.
    pub fn new() -> (p: Partition)
        ensures
            p.wf(),
            p.next_offset == 0,
            p.head == 0,
    {
        let mut messages: Vec<Message> = Vec::new();
        let mut i: usize = 0;
        while i < MAX_MESSAGES
            invariant
                i <= MAX_MESSAGES,
                messages@.len() == i,
                forall|j: int| 0 <= j < i ==> #[trigger] messages@[j].wf(),
            decreases MAX_MESSAGES - i,
        {
            messages.push(Message::empty());
            i += 1;
        }
        Partition { messages, next_offset: 0, head: 0 }
    }
}

impl Topic {
    /// A short name, `MAX_PARTITIONS` well-formed partitions, and at least one of them in use
    /// once the topic is active.
    pub open spec fn wf(&self) -> bool {
        &&& self.name@.len() <= MAX_NAME_LEN
        &&& self.partitions@.len() == MAX_PARTITIONS
        &&& self.num_partitions <= MAX_PARTITIONS
        &&& self.active ==> 1 <= self.num_partitions
        &&& forall|p: int| 0 <= p < MAX_PARTITIONS ==> #[trigger] self.partitions@[p].wf()
    }

    /// An unused topic slot.
    pub fn new() -> (t: Topic)
        ensures
            t.wf(),
            !t.active,
    {
        let mut partitions: Vec<Partition> = Vec::new();
        let mut i: usize = 0;
        while i < MAX_PARTITIONS
            invariant
                i <= MAX_PARTITIONS,
                partitions@.len() == i,
                forall|j: int| 0 <= j < i ==> #[trigger] partitions@[j].wf(),
            decreases MAX_PARTITIONS - i,
        {
            partitions.push(Partition::new());
            i += 1;
        }
        Topic { name: Vec::new(), partitions, num_partitions: 0, active: false }
    }
}

impl GroupMember {
    /// An inactive member holds no partitions.
    pub open spec fn wf(&self) -> bool {
        !self.active ==> self.partitions@.len() == 0
    }

    /// An unused member slot.
    pub fn new() -> (m: GroupMember)
        ensures
            m.wf(),
            !m.active,
    {
        GroupMember { client_fd: 0, partitions: Vec::new(), active: false }
    }
}

impl ConsumerGroup {
    /// A short name, a topic slot, `MAX_MEMBERS` well-formed members and one offset per
    /// partition.
    pub open spec fn wf(&self) -> bool {
        &&& self.name@.len() <= MAX_NAME_LEN
        &&& self.topic_idx < MAX_TOPICS
        &&& self.members@.len() == MAX_MEMBERS
        &&& self.offsets@.len() == MAX_PARTITIONS
        &&& forall|m: int| 0 <= m < MAX_MEMBERS ==> #[trigger] self.members@[m].wf()
    }

    /// An unused group slot.
    pub fn new() -> (g: ConsumerGroup)
        ensures
            g.wf(),
            !g.active,
    {
        let mut members: Vec<GroupMember> = Vec::new();
        let mut i: usize = 0;
        while i < MAX_MEMBERS
            invariant
                i <= MAX_MEMBERS,
                members@.len() == i,
                forall|j: int| 0 <= j < i ==> #[trigger] members@[j].wf(),
            decreases MAX_MEMBERS - i,
        {
            members.push(GroupMember::new());
            i += 1;
        }
        let offsets: Vec<u64> = vec![0u64, 0u64, 0u64, 0u64];
        ConsumerGroup { name: Vec::new(), topic_idx: 0, members, offsets, active: false }
    }
}

/// How many of the first `m` members are active.
pub open spec fn active_before(ms: Seq<GroupMember>, m: int) -> nat
    decreases m,
{
    if m <= 0 {
        0
    } else {
        active_before(ms, m - 1) + if ms[m - 1].active {
            1nat
        } else {
            0nat
        }
    }
}

/// The partitions below `n` that round-robin assignment over `k` members gives to the
/// member of rank `r`: those whose number leaves remainder `r` when divided by `k`, in order.
pub open spec fn rr_share(n: nat, k: nat, r: nat) -> Seq<usize>
    decreases n,
{
    if n == 0 {
        Seq::empty()
    } else {
        rr_share((n - 1) as nat, k, r) + if (n - 1) % (k as int) == r {
            seq![(n - 1) as usize]
        } else {
            Seq::empty()
        }
    }
}

/// The partitions that member `m` holds once the `n` partitions of the topic are shared
/// among the active members: nothing for an inactive member.
pub open spec fn share_of(ms: Seq<GroupMember>, m: int, n: nat) -> Seq<usize> {
    if ms[m].active {
        rr_share(n, active_before(ms, ms.len() as int), active_before(ms, m))
    } else {
        Seq::empty()
    }
}

/// Every member holds exactly its round-robin share of the `n` partitions.
pub open spec fn balanced(ms: Seq<GroupMember>, n: nat) -> bool {
    forall|m: int| 0 <= m < ms.len() ==> (#[trigger] ms[m]).partitions@ == share_of(ms, m, n)
}

proof fn lemma_active_before_bounds(ms: Seq<GroupMember>, a: int, b: int)
    requires
        0 <= a <= b,
    ensures
        active_before(ms, a) <= active_before(ms, b),
        active_before(ms, b) <= active_before(ms, a) + (b - a),
    decreases b - a,
{
    if a < b {
        lemma_active_before_bounds(ms, a, b - 1);
    }
}

/// Active members are ranked in index order, and no two share a rank.
proof fn lemma_rank_distinct(ms: Seq<GroupMember>, a: int, b: int)
    requires
        0 <= a < b <= ms.len(),
        ms[a].active,
    ensures
        active_before(ms, a) < active_before(ms, b),
{
    lemma_active_before_bounds(ms, a + 1, b);
}

/// Shares the `n` partitions round-robin among the active members, in index order; every
/// other field stays.
fn rebalance_members(members: &mut Vec<GroupMember>, n: usize)
    requires
        forall|m: int| 0 <= m < old(members)@.len() ==> #[trigger] old(members)@[m].wf(),
    ensures
        final(members)@.len() == old(members)@.len(),
        forall|m: int| 0 <= m < final(members)@.len() ==> (#[trigger] final(members)@[m]).client_fd
            == old(members)@[m].client_fd && final(members)@[m].active == old(members)@[m].active,
        balanced(final(members)@, n as nat),
        forall|m: int| 0 <= m < final(members)@.len() ==> #[trigger] final(members)@[m].wf(),
{
    let ghost ms = members@;
    let len = members.len();
    let mut ranks: Vec<usize> = Vec::new();
    let mut m: usize = 0;
    while m < len
        invariant
            len == ms.len(),
            members@ == ms,
            m <= len,
            ranks@.len() == active_before(ms, m as int),
            forall|r: int| 0 <= r < ranks@.len() ==> ranks@[r] < m && ms[ranks@[r] as int].active
                && active_before(ms, #[trigger] ranks@[r] as int) == r,
        decreases len - m,
    {
        if members[m].active {
            ranks.push(m);
        }
        m += 1;
    }
    let k = ranks.len();
    if k == 0 {
        assert forall|j: int| 0 <= j < ms.len() implies (#[trigger] ms[j]).partitions@ == share_of(ms, j, n as nat) by {
            if ms[j].active {
                lemma_rank_distinct(ms, j, ms.len() as int);
            }
            assert(ms[j].wf());
        }
        return;
    }
    m = 0;
    while m < len
        invariant
            len == ms.len(),
            members@.len() == len,
            m <= len,
            forall|j: int| 0 <= j < len ==> (#[trigger] members@[j]).client_fd == ms[j].client_fd
                && members@[j].active == ms[j].active,
            forall|j: int| 0 <= j < m ==> (#[trigger] members@[j]).partitions@.len() == 0,
            forall|j: int| m <= j < len ==> (#[trigger] members@[j]) == ms[j],
        decreases len - m,
    {
        members[m].partitions = Vec::new();
        m += 1;
    }
    let mut p: usize = 0;
    while p < n
        invariant
            len == ms.len(),
            members@.len() == len,
            k == ranks@.len(),
            k == active_before(ms, len as int),
            k > 0,
            p <= n,
            forall|r: int| 0 <= r < k ==> ranks@[r] < len && ms[ranks@[r] as int].active
                && active_before(ms, #[trigger] ranks@[r] as int) == r,
            forall|j: int| 0 <= j < len ==> (#[trigger] members@[j]).client_fd == ms[j].client_fd
                && members@[j].active == ms[j].active,
            forall|j: int| 0 <= j < len ==> (#[trigger] members@[j]).partitions@ == if ms[j].active {
                rr_share(p as nat, k as nat, active_before(ms, j))
            } else {
                Seq::empty()
            },
        decreases n - p,
    {
        let target = ranks[p % k];
        let ghost before = members@;
        members[target].partitions.push(p);
        proof {
            let r = (p % k) as int;
            assert(active_before(ms, target as int) == r);
            assert forall|j: int| 0 <= j < len implies (#[trigger] members@[j]).partitions@ == if ms[j].active {
                rr_share((p + 1) as nat, k as nat, active_before(ms, j))
            } else {
                Seq::empty()
            } by {
                if j == target as int {
                    assert(rr_share((p + 1) as nat, k as nat, r as nat) =~= rr_share(p as nat, k as nat, r as nat).push(p));
                } else {
                    assert(members@[j] == before[j]);
                    if ms[j].active {
                        if j < target {
                            lemma_rank_distinct(ms, j, target as int);
                        } else {
                            lemma_rank_distinct(ms, target as int, j);
                        }
                        assert(rr_share((p + 1) as nat, k as nat, active_before(ms, j)) =~= rr_share(p as nat, k as nat, active_before(ms, j)));
                    }
                }
            }
        }
        p += 1;
    }
    proof {
        assert forall|j: int| 0 <= j < len implies (#[trigger] members@[j]).partitions@ == share_of(members@, j, n as nat) by {
            lemma_active_before_same(ms, members@, j);
            lemma_active_before_same(ms, members@, len as int);
        }
    }
}

/// Counting active members only looks at the `active` flags.
proof fn lemma_active_before_same(a: Seq<GroupMember>, b: Seq<GroupMember>, m: int)
    requires
        a.len() == b.len(),
        0 <= m <= a.len(),
        forall|j: int| 0 <= j < a.len() ==> (#[trigger] a[j]).active == b[j].active,
    ensures
        active_before(a, m) == active_before(b, m),
    decreases m,
{
    if m > 0 {
        lemma_active_before_same(a, b, m - 1);
    }
}

impl Broker {
    /// Every slot is well formed.
    pub open spec fn wf(&self) -> bool {
        &&& self.topics@.len() == MAX_TOPICS
        &&& forall|t: int| 0 <= t < MAX_TOPICS ==> #[trigger] self.topics@[t].wf()
        &&& self.groups@.len() == MAX_GROUPS
        &&& forall|g: int| 0 <= g < MAX_GROUPS ==> #[trigger] self.groups@[g].wf()
    }

    /// Topic slot `t` is in use under `name`.
    pub open spec fn topic_named(&self, t: int, name: Seq<u8>) -> bool {
        self.topics@[t].active && self.topics@[t].name@ == name
    }

    /// The first topic slot at or after `i` in use under `name`.
    pub open spec fn topic_from(&self, name: Seq<u8>, i: int) -> Option<usize>
        decreases MAX_TOPICS - i,
    {
        if i >= MAX_TOPICS {
            None
        } else if self.topic_named(i, name) {
            Some(i as usize)
        } else {
            self.topic_from(name, i + 1)
        }
    }

    /// The slot of the topic called `name`, if there is one.
    pub open spec fn topic_index(&self, name: Seq<u8>) -> Option<usize> {
        self.topic_from(name, 0)
    }

    /// The first unused topic slot at or after `i`.
    pub open spec fn free_topic_from(&self, i: int) -> Option<usize>
        decreases MAX_TOPICS - i,
    {
        if i >= MAX_TOPICS {
            None
        } else if !self.topics@[i].active {
            Some(i as usize)
        } else {
            self.free_topic_from(i + 1)
        }
    }

    /// Group slot `g` is in use under `name`.
    pub open spec fn group_named(&self, g: int, name: Seq<u8>) -> bool {
        self.groups@[g].active && self.groups@[g].name@ == name
    }

    /// The first group slot at or after `i` in use under `name`.
    pub open spec fn group_from(&self, name: Seq<u8>, i: int) -> Option<usize>
        decreases MAX_GROUPS - i,
    {
        if i >= MAX_GROUPS {
            None
        } else if self.group_named(i, name) {
            Some(i as usize)
        } else {
            self.group_from(name, i + 1)
        }
    }

    /// The slot of the group called `name`, if there is one.
    pub open spec fn group_index(&self, name: Seq<u8>) -> Option<usize> {
        self.group_from(name, 0)
    }

    /// The first unused group slot at or after `i`.
    pub open spec fn free_group_from(&self, i: int) -> Option<usize>
        decreases MAX_GROUPS - i,
    {
        if i >= MAX_GROUPS {
            None
        } else if !self.groups@[i].active {
            Some(i as usize)
        } else {
            self.free_group_from(i + 1)
        }
    }

    /// What the topic search finds: the first slot in use under `name`, or none.
    pub proof fn lemma_topic_from(&self, name: Seq<u8>, i: int)
        requires
            0 <= i,
        ensures
            self.topic_from(name, i) matches Some(t) ==> i <= t < MAX_TOPICS && self.topic_named(
                t as int,
                name,
            ),
            self.topic_from(name, i) is None ==> forall|j: int| i <= j < MAX_TOPICS ==> !self.topic_named(j, name),
        decreases MAX_TOPICS - i,
    {
        if i < MAX_TOPICS && !self.topic_named(i, name) {
            self.lemma_topic_from(name, i + 1);
        }
    }

    /// What the free-slot search finds: the first unused topic slot, or none.
    pub proof fn lemma_free_topic_from(&self, i: int)
        requires
            0 <= i,
        ensures
            self.free_topic_from(i) matches Some(t) ==> i <= t < MAX_TOPICS && !self.topics@[t as int].active,
            self.free_topic_from(i) is None ==> forall|j: int| i <= j < MAX_TOPICS ==> self.topics@[j].active,
        decreases MAX_TOPICS - i,
    {
        if i < MAX_TOPICS && self.topics@[i].active {
            self.lemma_free_topic_from(i + 1);
        }
    }

    /// What the group search finds: the first slot in use under `name`, or none.
    pub proof fn lemma_group_from(&self, name: Seq<u8>, i: int)
        requires
            0 <= i,
        ensures
            self.group_from(name, i) matches Some(g) ==> i <= g < MAX_GROUPS && self.group_named(
                g as int,
                name,
            ),
            self.group_from(name, i) is None ==> forall|j: int| i <= j < MAX_GROUPS ==> !self.group_named(j, name),
        decreases MAX_GROUPS - i,
    {
        if i < MAX_GROUPS && !self.group_named(i, name) {
            self.lemma_group_from(name, i + 1);
        }
    }

    /// What the free-slot search finds: the first unused group slot, or none.
    pub proof fn lemma_free_group_from(&self, i: int)
        requires
            0 <= i,
        ensures
            self.free_group_from(i) matches Some(g) ==> i <= g < MAX_GROUPS && !self.groups@[g as int].active,
            self.free_group_from(i) is None ==> forall|j: int| i <= j < MAX_GROUPS ==> self.groups@[j].active,
        decreases MAX_GROUPS - i,
    {
        if i < MAX_GROUPS && self.groups@[i].active {
            self.lemma_free_group_from(i + 1);
        }
    }

    /// A broker with no topics and no groups.
    pub fn new() -> (b: Broker)
        ensures
            b.wf(),
            forall|t: int| 0 <= t < MAX_TOPICS ==> !(#[trigger] b.topics@[t]).active,
            forall|g: int| 0 <= g < MAX_GROUPS ==> !(#[trigger] b.groups@[g]).active,
    {
        let mut topics: Vec<Topic> = Vec::new();
        let mut i: usize = 0;
        while i < MAX_TOPICS
            invariant
                i <= MAX_TOPICS,
                topics@.len() == i,
                forall|j: int| 0 <= j < i ==> (#[trigger] topics@[j]).wf() && !topics@[j].active,
            decreases MAX_TOPICS - i,
        {
            topics.push(Topic::new());
            i += 1;
        }
        let mut groups: Vec<ConsumerGroup> = Vec::new();
        i = 0;
        while i < MAX_GROUPS
            invariant
                i <= MAX_GROUPS,
                groups@.len() == i,
                forall|j: int| 0 <= j < i ==> (#[trigger] groups@[j]).wf() && !groups@[j].active,
            decreases MAX_GROUPS - i,
        {
            groups.push(ConsumerGroup::new());
            i += 1;
        }
        Broker { topics, groups }
    }

    /// The slot of the topic called `name`.
    pub fn find_topic(&self, name: &[u8]) -> (res: Option<usize>)
        requires
            self.wf(),
        ensures
            res == self.topic_index(name@),
            res matches Some(t) ==> t < MAX_TOPICS && self.topics@[t as int].active,
    {
        proof {
            self.lemma_topic_from(name@, 0);
        }
        let mut i: usize = 0;
        while i < MAX_TOPICS
            invariant
                self.wf(),
                i <= MAX_TOPICS,
                self.topic_index(name@) == self.topic_from(name@, i as int),
            decreases MAX_TOPICS - i,
        {
            if self.topics[i].active && bytes_eq(self.topics[i].name.as_slice(), name) {
                return Some(i);
            }
            i += 1;
        }
        None
    }

    /// The first unused topic slot.
    pub fn free_topic(&self) -> (res: Option<usize>)
        requires
            self.wf(),
        ensures
            res == self.free_topic_from(0),
            res matches Some(t) ==> t < MAX_TOPICS && !self.topics@[t as int].active,
    {
        proof {
            self.lemma_free_topic_from(0);
        }
        let mut i: usize = 0;
        while i < MAX_TOPICS
            invariant
                self.wf(),
                i <= MAX_TOPICS,
                self.free_topic_from(0) == self.free_topic_from(i as int),
            decreases MAX_TOPICS - i,
        {
            if !self.topics[i].active {
                return Some(i);
            }
            i += 1;
        }
        None
    }

    /// The slot of the group called `name`.
    pub fn find_group(&self, name: &[u8]) -> (res: Option<usize>)
        requires
            self.wf(),
        ensures
            res == self.group_index(name@),
            res matches Some(g) ==> g < MAX_GROUPS && self.groups@[g as int].active,
    {
        proof {
            self.lemma_group_from(name@, 0);
        }
        let mut i: usize = 0;
        while i < MAX_GROUPS
            invariant
                self.wf(),
                i <= MAX_GROUPS,
                self.group_index(name@) == self.group_from(name@, i as int),
            decreases MAX_GROUPS - i,
        {
            if self.groups[i].active && bytes_eq(self.groups[i].name.as_slice(), name) {
                return Some(i);
            }
            i += 1;
        }
        None
    }

    /// The first unused group slot.
    pub fn free_group(&self) -> (res: Option<usize>)
        requires
            self.wf(),
        ensures
            res == self.free_group_from(0),
            res matches Some(g) ==> g < MAX_GROUPS && !self.groups@[g as int].active,
    {
        proof {
            self.lemma_free_group_from(0);
        }
        let mut i: usize = 0;
        while i < MAX_GROUPS
            invariant
                self.wf(),
                i <= MAX_GROUPS,
                self.free_group_from(0) == self.free_group_from(i as int),
            decreases MAX_GROUPS - i,
        {
            if !self.groups[i].active {
                return Some(i);
            }
            i += 1;
        }
        None
    }

    /// Shares the partitions of group `g`'s topic among its active members.
    pub fn rebalance_group(&mut self, g: usize)
        requires
            old(self).wf(),
            g < MAX_GROUPS,
        ensures
            final(self).wf(),
            final(self).topics == old(self).topics,
            forall|j: int| 0 <= j < MAX_GROUPS && j != g ==> final(self).groups@[j] == old(self).groups@[j],
            regrouped(old(self).groups@[g as int], final(self).groups@[g as int]),
            balanced(
                final(self).groups@[g as int].members@,
                old(self).topics@[old(self).groups@[g as int].topic_idx as int].num_partitions as nat,
            ),
    {
        assert(self.groups@[g as int].wf());
        let n = self.topics[self.groups[g].topic_idx].num_partitions;
        rebalance_members(&mut self.groups[g].members, n);
    }
}

/// `new` is group `old` with only the partitions of its members changed.
pub open spec fn regrouped(old: ConsumerGroup, new: ConsumerGroup) -> bool {
    &&& new.name == old.name
    &&& new.topic_idx == old.topic_idx
    &&& new.offsets == old.offsets
    &&& new.active == old.active
    &&& new.members@.len() == old.members@.len()
    &&& forall|m: int| 0 <= m < new.members@.len() ==> (#[trigger] new.members@[m]).client_fd
        == old.members@[m].client_fd && new.members@[m].active == old.members@[m].active
}

/// The partition count that `CREATE_TOPIC` asks for: the number given when it is between 1
/// and `MAX_PARTITIONS`, else 2.
pub open spec fn requested_partitions(count: Seq<u8>) -> usize {
    if count.len() > 0 && 1 <= lead_u32(count) <= MAX_PARTITIONS {
        lead_u32(count) as usize
    } else {
        2
    }
}

/// What `CREATE_TOPIC name [partitions]` does.
pub open spec fn create_topic_post(old: Broker, new: Broker, name: Seq<u8>, count: Seq<u8>, res: Seq<u8>) -> bool {
    if name.len() == 0 {
        new == old && res == lit("ERR missing topic name\n")
    } else if name.len() > MAX_NAME_LEN {
        new == old && res == lit("ERR topic name too long\n")
    } else if old.topic_index(name) is Some {
        new == old && res == lit("OK topic already exists\n")
    } else if old.free_topic_from(0) is None {
        new == old && res == lit("ERR max topics reached\n")
    } else {
        let t = old.free_topic_from(0)->0 as int;
        let n = requested_partitions(count);
        &&& new.groups == old.groups
        &&& same_except(old.topics@, new.topics@, t)
        &&& new.topics@[t].name@ == name
        &&& new.topics@[t].num_partitions == n
        &&& new.topics@[t].active
        &&& new.topics@[t].partitions == old.topics@[t].partitions
        &&& res == lit("OK topic created partitions=") + dec_digits(n as nat) + lit("\n")
    }
}

/// The partition of a topic with `n` partitions that a message with key `key` goes to.
pub open spec fn key_partition(key: Seq<u8>, n: usize) -> int {
    (fnv1a(key) % (n as u64)) as int
}

/// What `PRODUCE topic key value` does, at time `now`.
pub open spec fn produce_post(
    old: Broker,
    new: Broker,
    topic: Seq<u8>,
    key: Seq<u8>,
    value: Seq<u8>,
    now: u64,
    res: Seq<u8>,
) -> bool {
    if topic.len() == 0 || key.len() == 0 || value.len() == 0 {
        new == old && res == lit("ERR usage: PRODUCE topic key value\n")
    } else if old.topic_index(topic) is None {
        new == old && res == lit("ERR topic not found\n")
    } else {
        let t = old.topic_index(topic)->0 as int;
        let top = old.topics@[t];
        let p = key_partition(key, top.num_partitions);
        let part = top.partitions@[p];
        let slot = part.next_slot();
        let ntop = new.topics@[t];
        let npart = ntop.partitions@[p];
        let msg = npart.messages@[slot];
        &&& new.groups == old.groups
        &&& same_except(old.topics@, new.topics@, t)
        &&& ntop.name == top.name
        &&& ntop.num_partitions == top.num_partitions
        &&& ntop.active == top.active
        &&& same_except(top.partitions@, ntop.partitions@, p)
        &&& npart.next_offset == part.next_offset.wrapping_add(1)
        &&& npart.head == part.next_head()
        &&& same_except(part.messages@, npart.messages@, slot)
        &&& msg.key@ == key.take(min(key.len() as int, MAX_KEY_LEN as int))
        &&& msg.data@ == value.take(min(value.len() as int, MAX_MSG_LEN as int))
        &&& msg.offset == part.next_offset
        &&& msg.timestamp == now
        &&& res == lit("OK partition=") + dec_digits(p as nat) + lit(" offset=") + dec_digits(
            part.next_offset as nat,
        ) + lit("\n")
    }
}

/// The first `min(len, limit)` bytes of `s`, in a fresh vector.
fn truncated_copy(s: &[u8], limit: usize) -> (res: Vec<u8>)
    ensures
        res@ == s@.take(min(s@.len() as int, limit as int)),
{
    let n = if s.len() > limit {
        limit
    } else {
        s.len()
    };
    let mut v: Vec<u8> = Vec::new();
    extend(&mut v, slice_prefix(s, n));
    v
}

impl Broker {
    /// `CREATE_TOPIC name [partitions]`: creates the topic with the given number of
    /// partitions (2 when none or an unusable one is given).
    pub fn create_topic(&mut self, name: &[u8], count: &[u8]) -> (res: Vec<u8>)
        requires
            old(self).wf(),
        ensures
            final(self).wf(),
            create_topic_post(*old(self), *final(self), name@, count@, res@),
    {
        if name.len() == 0 {
            return lit_bytes("ERR missing topic name\n");
        }
        if name.len() > MAX_NAME_LEN {
            return lit_bytes("ERR topic name too long\n");
        }
        let mut n: usize = 2;
        if count.len() > 0 {
            let c = parse_u32(count);
            if c >= 1 && c <= 4 {
                n = c as usize;
            }
        }
        if self.find_topic(name).is_some() {
            return lit_bytes("OK topic already exists\n");
        }
        let slot = match self.free_topic() {
            Some(i) => i,
            None => {
                return lit_bytes("ERR max topics reached\n");
            },
        };
        let mut stored: Vec<u8> = Vec::new();
        extend(&mut stored, name);
        let ghost before = *self;
        assert(self.topics@[slot as int].wf());
        self.topics[slot].name = stored;
        self.topics[slot].num_partitions = n;
        self.topics[slot].active = true;
        assert(self.topics@[slot as int].wf());
        assert forall|t: int| 0 <= t < MAX_TOPICS implies #[trigger] self.topics@[t].wf() by {
            if t != slot {
                assert(self.topics@[t] == before.topics@[t]);
            }
        }
        let mut out = lit_bytes("OK topic created partitions=");
        let digits = format_u32(n as u32);
        extend(&mut out, digits.as_slice());
        extend(&mut out, "\n".as_bytes());
        out
    }

    /// `PRODUCE topic key value`: appends the message, stamped `now`, to the partition its
    /// key hashes to; once the partition's ring is full the oldest message makes way.
    pub fn produce(&mut self, topic: &[u8], key: &[u8], value: &[u8], now: u64) -> (res: Vec<u8>)
        requires
            old(self).wf(),
        ensures
            final(self).wf(),
            produce_post(*old(self), *final(self), topic@, key@, value@, now, res@),
    {
        if topic.len() == 0 || key.len() == 0 || value.len() == 0 {
            return lit_bytes("ERR usage: PRODUCE topic key value\n");
        }
        let t = match self.find_topic(topic) {
            Some(i) => i,
            None => {
                return lit_bytes("ERR topic not found\n");
            },
        };
        assert(self.topics@[t as int].wf());
        let n = self.topics[t].num_partitions;
        let p = (fnv1a_hash(key) % (n as u64)) as usize;
        assert(self.topics@[t as int].partitions@[p as int].wf());
        let ghost before = *self;
        let next = self.topics[t].partitions[p].next_offset;
        let slot = if next < MAX_MESSAGES as u64 {
            next as usize
        } else {
            let h = self.topics[t].partitions[p].head;
            self.topics[t].partitions[p].head = (h + 1) % MAX_MESSAGES;
            h
        };
        let msg = Message {
            key: truncated_copy(key, MAX_KEY_LEN),
            data: truncated_copy(value, MAX_MSG_LEN),
            offset: next,
            timestamp: now,
        };
        self.topics[t].partitions[p].messages[slot] = msg;
        self.topics[t].partitions[p].next_offset = next.wrapping_add(1);
        proof {
            let top = self.topics@[t as int];
            let part = top.partitions@[p as int];
            assert forall|i: int| 0 <= i < MAX_MESSAGES implies #[trigger] part.messages@[i].wf() by {
                if i != slot {
                    assert(part.messages@[i] == before.topics@[t as int].partitions@[p as int].messages@[i]);
                }
            }
            assert(part.wf());
            assert forall|q: int| 0 <= q < MAX_PARTITIONS implies #[trigger] top.partitions@[q].wf() by {
                if q != p {
                    assert(top.partitions@[q] == before.topics@[t as int].partitions@[q]);
                }
            }
            assert(top.wf());
            assert forall|j: int| 0 <= j < MAX_TOPICS implies #[trigger] self.topics@[j].wf() by {
                if j != t {
                    assert(self.topics@[j] == before.topics@[j]);
                }
            }
        }
        let mut out = lit_bytes("OK partition=");
        let pd = format_u32(p as u32);
        extend(&mut out, pd.as_slice());
        extend(&mut out, " offset=".as_bytes());
        let od = format_u64(next);
        extend(&mut out, od.as_slice());
        extend(&mut out, "\n".as_bytes());
        out
    }
}

/// A response as sent: its first `MAX_RESPONSE` bytes.
pub open spec fn capped(s: Seq<u8>) -> Seq<u8> {
    if s.len() <= MAX_RESPONSE {
        s
    } else {
        s.take(MAX_RESPONSE as int)
    }
}

/// Cuts a response down to `MAX_RESPONSE` bytes.
fn cap_response(v: Vec<u8>) -> (res: Vec<u8>)
    ensures
        res@ == capped(v@),
{
    let mut v = v;
    if v.len() > MAX_RESPONSE {
        v.truncate(MAX_RESPONSE);
    }
    v
}

/// The line that reports a fetched message: `MSG offset key value`.
pub open spec fn msg_line(m: Message) -> Seq<u8> {
    lit("MSG ") + dec_digits(m.offset as nat) + lit(" ") + m.key@ + lit(" ") + m.data@ + lit("\n")
}

/// The lines for the messages in slots `idx..total` whose offset is at least `from`, at
/// most `left` of them, in slot order.
pub open spec fn fetch_lines(msgs: Seq<Message>, idx: int, total: int, from: u64, left: nat) -> Seq<u8>
    decreases total - idx,
{
    if idx >= total || left == 0 {
        Seq::empty()
    } else if msgs[idx].offset >= from {
        msg_line(msgs[idx]) + fetch_lines(msgs, idx + 1, total, from, (left - 1) as nat)
    } else {
        fetch_lines(msgs, idx + 1, total, from, left)
    }
}

/// Every message a partition holds has an offset below the next one it hands out.
pub open spec fn offsets_below(part: Partition) -> bool {
    forall|i: int| 0 <= i < part.stored() ==> #[trigger] part.messages@[i].offset < part.next_offset
}

/// Where a `PRODUCE` of `key` and `value` to `topic` puts its message when it succeeds: the
/// topic's slot and the partition its key selects.
pub open spec fn produce_target(b: Broker, topic: Seq<u8>, key: Seq<u8>, value: Seq<u8>) -> Option<(int, int)> {
    if topic.len() == 0 || key.len() == 0 || value.len() == 0 || b.topic_index(topic) is None {
        None
    } else {
        let t = b.topic_index(topic)->0 as int;
        Some((t, key_partition(key, b.topics@[t].num_partitions)))
    }
}

/// With no message at or after `from` among slots `idx..total`, nothing is fetched.
proof fn lemma_fetch_none(msgs: Seq<Message>, idx: int, total: int, from: u64, left: nat)
    requires
        forall|i: int| idx <= i < total ==> #[trigger] msgs[i].offset < from,
    ensures
        fetch_lines(msgs, idx, total, from, left) == Seq::<u8>::empty(),
    decreases total - idx,
{
    if idx < total && left > 0 {
        lemma_fetch_none(msgs, idx + 1, total, from, left);
    }
}

/// With exactly one message at or after `from` among slots `idx..total`, its line is all that
/// is fetched.
proof fn lemma_fetch_single(msgs: Seq<Message>, idx: int, total: int, from: u64, left: nat, s: int)
    requires
        idx <= s < total,
        left >= 1,
        msgs[s].offset >= from,
        forall|i: int| idx <= i < total && i != s ==> #[trigger] msgs[i].offset < from,
    ensures
        fetch_lines(msgs, idx, total, from, left) == msg_line(msgs[s]),
    decreases total - idx,
{
    if idx == s {
        lemma_fetch_none(msgs, s + 1, total, from, (left - 1) as nat);
        assert(msg_line(msgs[s]) + Seq::<u8>::empty() =~= msg_line(msgs[s]));
    } else {
        lemma_fetch_single(msgs, idx + 1, total, from, left, s);
    }
}

/// What a `PRODUCE` stores is what a `FETCH` from the offset it reported gives back: right
/// after it, fetching from that offset (any count from one up) yields exactly that message,
/// with its key and value as stored.  This is stated for a partition whose messages are all
/// below its next offset (an empty partition is such a one), and the produce leaves the
/// partition so; it is not stated when the offset counter stands at its very last value, as
/// the next one then wraps to zero.
pub proof fn law_fetch_after_produce(
    old: Broker,
    new: Broker,
    topic: Seq<u8>,
    key: Seq<u8>,
    value: Seq<u8>,
    now: u64,
    res: Seq<u8>,
    t: int,
    p: int,
    count: nat,
)
    requires
        old.wf(),
        produce_post(old, new, topic, key, value, now, res),
        produce_target(old, topic, key, value) == Some((t, p)),
        offsets_below(old.topics@[t].partitions@[p]),
        old.topics@[t].partitions@[p].next_offset < u64::MAX,
        count >= 1,
    ensures
        fetch_lines(
            new.topics@[t].partitions@[p].messages@,
            0,
            new.topics@[t].partitions@[p].stored(),
            old.topics@[t].partitions@[p].next_offset,
            count,
        ) == lit("MSG ") + dec_digits(old.topics@[t].partitions@[p].next_offset as nat) + lit(" ") + key.take(
            min(key.len() as int, MAX_KEY_LEN as int),
        ) + lit(" ") + value.take(min(value.len() as int, MAX_MSG_LEN as int)) + lit("\n"),
        offsets_below(new.topics@[t].partitions@[p]),
{
    old.lemma_topic_from(topic, 0);
    let top = old.topics@[t];
    assert(top.wf());
    let part = top.partitions@[p];
    assert(part.wf());
    let npart = new.topics@[t].partitions@[p];
    let off = part.next_offset;
    let s = part.next_slot();
    assert(npart.next_offset == off + 1);
    assert(0 <= s < npart.stored());
    assert forall|i: int| 0 <= i < npart.stored() && i != s implies #[trigger] npart.messages@[i].offset < off by {
        assert(i < part.stored());
        assert(npart.messages@[i] == part.messages@[i]);
    }
    lemma_fetch_single(npart.messages@, 0, npart.stored(), off, count, s);
}

/// The response to `FETCH topic partition offset [count]` (10 messages when no count is
/// given).
pub open spec fn fetch_reply(b: Broker, topic: Seq<u8>, part: Seq<u8>, from: Seq<u8>, count: Seq<u8>) -> Seq<u8> {
    if topic.len() == 0 || part.len() == 0 || from.len() == 0 {
        lit("ERR usage: FETCH topic partition offset [count]\n")
    } else if b.topic_index(topic) is None {
        lit("ERR topic not found\n")
    } else {
        let t = b.topic_index(topic)->0 as int;
        let p = lead_u32(part) as int;
        if p >= b.topics@[t].num_partitions {
            lit("ERR invalid partition\n")
        } else {
            let pt = b.topics@[t].partitions@[p];
            let n: nat = if count.len() > 0 {
                lead_u32(count) as nat
            } else {
                10
            };
            capped(fetch_lines(pt.messages@, 0, pt.stored(), lead_u64(from), n) + lit("END\n"))
        }
    }
}

/// One line per active topic from slot `i` on: `name partitions=n`.
pub open spec fn topic_lines(ts: Seq<Topic>, i: int) -> Seq<u8>
    decreases ts.len() - i,
{
    if i >= ts.len() {
        Seq::empty()
    } else {
        (if ts[i].active {
            ts[i].name@ + lit(" partitions=") + dec_digits(ts[i].num_partitions as nat) + lit("\n")
        } else {
            Seq::empty()
        }) + topic_lines(ts, i + 1)
    }
}

/// One line per partition from `p` up to `n`: `OFFSET partition committed-offset`.
pub open spec fn offset_lines(offsets: Seq<u64>, p: int, n: int) -> Seq<u8>
    decreases n - p,
{
    if p >= n {
        Seq::empty()
    } else {
        lit("OFFSET ") + dec_digits(p as nat) + lit(" ") + dec_digits(offsets[p] as nat) + lit("\n")
            + offset_lines(offsets, p + 1, n)
    }
}

/// The response to `OFFSETS group topic`.
pub open spec fn offsets_reply(b: Broker, group: Seq<u8>, topic: Seq<u8>) -> Seq<u8> {
    if group.len() == 0 || topic.len() == 0 {
        lit("ERR usage: OFFSETS group topic\n")
    } else if b.group_index(group) is None {
        lit("ERR group not found\n")
    } else if b.topic_index(topic) is None {
        lit("ERR topic not found\n")
    } else {
        let g = b.group_index(group)->0 as int;
        let t = b.topic_index(topic)->0 as int;
        capped(offset_lines(b.groups@[g].offsets@, 0, b.topics@[t].num_partitions as int) + lit("END\n"))
    }
}

proof fn lemma_seq_assoc(a: Seq<u8>, b: Seq<u8>, c: Seq<u8>)
    ensures
        a + b + c == a + (b + c),
{
    assert(a + b + c =~= a + (b + c));
}

impl Broker {
    /// `FETCH topic partition offset [count]`: the stored messages of the partition whose
    /// offset is at least `offset`, in slot order, at most `count` of them, then `END`.
    pub fn fetch(&self, topic: &[u8], part: &[u8], from: &[u8], count: &[u8]) -> (res: Vec<u8>)
        requires
            self.wf(),
        ensures
            res@ == fetch_reply(*self, topic@, part@, from@, count@),
    {
        if topic.len() == 0 || part.len() == 0 || from.len() == 0 {
            return lit_bytes("ERR usage: FETCH topic partition offset [count]\n");
        }
        let p = parse_u32(part) as usize;
        let from_offset = parse_u64(from);
        let n: usize = if count.len() > 0 {
            parse_u32(count) as usize
        } else {
            10
        };
        let t = match self.find_topic(topic) {
            Some(i) => i,
            None => {
                return lit_bytes("ERR topic not found\n");
            },
        };
        assert(self.topics@[t as int].wf());
        if p >= self.topics[t].num_partitions {
            return lit_bytes("ERR invalid partition\n");
        }
        let pt = &self.topics[t].partitions[p];
        assert(pt.wf());
        let total: usize = if pt.next_offset < MAX_MESSAGES as u64 {
            pt.next_offset as usize
        } else {
            MAX_MESSAGES
        };
        let ghost msgs = pt.messages@;
        let ghost whole = fetch_lines(msgs, 0, total as int, from_offset, n as nat);
        let mut out: Vec<u8> = Vec::new();
        let mut idx: usize = 0;
        let mut sent: usize = 0;
        while idx < total && sent < n
            invariant
                pt.wf(),
                msgs == pt.messages@,
                total <= MAX_MESSAGES,
                idx <= total,
                sent <= n,
                out@ + fetch_lines(msgs, idx as int, total as int, from_offset, (n - sent) as nat) == whole,
            decreases total - idx,
        {
            let m = &pt.messages[idx];
            if m.offset >= from_offset {
                let ghost prev = out@;
                extend(&mut out, "MSG ".as_bytes());
                let od = format_u64(m.offset);
                extend(&mut out, od.as_slice());
                extend(&mut out, " ".as_bytes());
                extend(&mut out, m.key.as_slice());
                extend(&mut out, " ".as_bytes());
                extend(&mut out, m.data.as_slice());
                extend(&mut out, "\n".as_bytes());
                proof {
                    assert(out@ =~= prev + msg_line(*m));
                    lemma_seq_assoc(prev, msg_line(*m), fetch_lines(msgs, idx + 1, total as int, from_offset, (n - sent - 1) as nat));
                }
                sent += 1;
            }
            idx += 1;
        }
        assert(out@ =~= whole);
        extend(&mut out, "END\n".as_bytes());
        cap_response(out)
    }

    /// `LIST_TOPICS`: one line per active topic, then `END`.
    pub fn list_topics(&self) -> (res: Vec<u8>)
        requires
            self.wf(),
        ensures
            res@ == capped(topic_lines(self.topics@, 0) + lit("END\n")),
    {
        let mut out: Vec<u8> = Vec::new();
        let mut i: usize = 0;
        while i < MAX_TOPICS
            invariant
                self.wf(),
                i <= MAX_TOPICS,
                out@ + topic_lines(self.topics@, i as int) == topic_lines(self.topics@, 0),
            decreases MAX_TOPICS - i,
        {
            let ghost prev = out@;
            if self.topics[i].active {
                extend(&mut out, self.topics[i].name.as_slice());
                extend(&mut out, " partitions=".as_bytes());
                let d = format_u32(self.topics[i].num_partitions as u32);
                extend(&mut out, d.as_slice());
                extend(&mut out, "\n".as_bytes());
            }
            proof {
                let line = if self.topics@[i as int].active {
                    self.topics@[i as int].name@ + lit(" partitions=") + dec_digits(
                        self.topics@[i as int].num_partitions as nat,
                    ) + lit("\n")
                } else {
                    Seq::empty()
                };
                assert(self.topics@[i as int].wf());
                assert(out@ =~= prev + line);
                lemma_seq_assoc(prev, line, topic_lines(self.topics@, i + 1));
            }
            i += 1;
        }
        assert(out@ =~= topic_lines(self.topics@, 0));
        extend(&mut out, "END\n".as_bytes());
        cap_response(out)
    }

    /// `OFFSETS group topic`: the offset the group has committed for each partition of the
    /// topic, then `END`.
    pub fn offsets(&self, group: &[u8], topic: &[u8]) -> (res: Vec<u8>)
        requires
            self.wf(),
        ensures
            res@ == offsets_reply(*self, group@, topic@),
    {
        if group.len() == 0 || topic.len() == 0 {
            return lit_bytes("ERR usage: OFFSETS group topic\n");
        }
        let g = match self.find_group(group) {
            Some(i) => i,
            None => {
                return lit_bytes("ERR group not found\n");
            },
        };
        let t = match self.find_topic(topic) {
            Some(i) => i,
            None => {
                return lit_bytes("ERR topic not found\n");
            },
        };
        assert(self.topics@[t as int].wf());
        assert(self.groups@[g as int].wf());
        let n = self.topics[t].num_partitions;
        let ghost offs = self.groups@[g as int].offsets@;
        let mut out: Vec<u8> = Vec::new();
        let mut p: usize = 0;
        while p < n
            invariant
                self.wf(),
                g < MAX_GROUPS,
                offs == self.groups@[g as int].offsets@,
                offs.len() == MAX_PARTITIONS,
                n <= MAX_PARTITIONS,
                p <= n,
                out@ + offset_lines(offs, p as int, n as int) == offset_lines(offs, 0, n as int),
            decreases n - p,
        {
            let ghost prev = out@;
            extend(&mut out, "OFFSET ".as_bytes());
            let pd = format_u32(p as u32);
            extend(&mut out, pd.as_slice());
            extend(&mut out, " ".as_bytes());
            let od = format_u64(self.groups[g].offsets[p]);
            extend(&mut out, od.as_slice());
            extend(&mut out, "\n".as_bytes());
            proof {
                let line = lit("OFFSET ") + dec_digits(p as nat) + lit(" ") + dec_digits(offs[p as int] as nat) + lit("\n");
                assert(out@ =~= prev + line);
                lemma_seq_assoc(prev, line, offset_lines(offs, p + 1, n as int));
            }
            p += 1;
        }
        assert(out@ =~= offset_lines(offs, 0, n as int));
        extend(&mut out, "END\n".as_bytes());
        cap_response(out)
    }
}

/// The first inactive member slot at or after `i`.
pub open spec fn free_member_from(ms: Seq<GroupMember>, i: int) -> Option<usize>
    decreases MAX_MEMBERS - i,
{
    if i >= MAX_MEMBERS || i >= ms.len() {
        None
    } else if !ms[i].active {
        Some(i as usize)
    } else {
        free_member_from(ms, i + 1)
    }
}

proof fn lemma_free_member_from(ms: Seq<GroupMember>, i: int)
    requires
        0 <= i,
    ensures
        free_member_from(ms, i) matches Some(m) ==> i <= m < MAX_MEMBERS && m < ms.len() && !ms[m as int].active,
    decreases MAX_MEMBERS - i,
{
    if i < MAX_MEMBERS && i < ms.len() && ms[i].active {
        lemma_free_member_from(ms, i + 1);
    }
}

/// Partition numbers in decimal, separated by commas.
pub open spec fn join_list(ps: Seq<usize>) -> Seq<u8>
    decreases ps.len(),
{
    if ps.len() == 0 {
        Seq::empty()
    } else if ps.len() == 1 {
        dec_digits(ps[0] as nat)
    } else {
        join_list(ps.drop_last()) + lit(",") + dec_digits(ps.last() as nat)
    }
}

/// Some active member is the client `fd`.
pub open spec fn has_member(ms: Seq<GroupMember>, fd: i32) -> bool {
    exists|j: int| 0 <= j < ms.len() && (#[trigger] ms[j]).active && ms[j].client_fd == fd
}

/// `new` is `old` with every active member that is the client `fd` made inactive; the
/// partitions are left to the caller.
pub open spec fn members_without(old: Seq<GroupMember>, new: Seq<GroupMember>, fd: i32) -> bool {
    &&& new.len() == old.len()
    &&& forall|j: int| 0 <= j < new.len() ==> (#[trigger] new[j]).client_fd == old[j].client_fd
        && new[j].active == (old[j].active && old[j].client_fd != fd)
}

/// What `JOIN_GROUP group topic` from client `fd` does: the group is created for the topic
/// when it does not exist yet, the client becomes a member, and the topic's partitions are
/// shared anew.
pub open spec fn join_post(old: Broker, new: Broker, group: Seq<u8>, topic: Seq<u8>, fd: i32, res: Seq<u8>) -> bool {
    if group.len() == 0 || topic.len() == 0 {
        new == old && res == lit("ERR usage: JOIN_GROUP group topic\n")
    } else if old.topic_index(topic) is None {
        new == old && res == lit("ERR topic not found\n")
    } else if old.group_index(group) is None && old.free_group_from(0) is None {
        new == old && res == lit("ERR max groups reached\n")
    } else {
        let t = old.topic_index(topic)->0;
        let created = old.group_index(group) is None;
        let g = if created {
            old.free_group_from(0)->0 as int
        } else {
            old.group_index(group)->0 as int
        };
        let og = old.groups@[g];
        let ng = new.groups@[g];
        &&& new.topics == old.topics
        &&& same_except(old.groups@, new.groups@, g)
        &&& ng.name@ == if created {
            group.take(min(group.len() as int, MAX_NAME_LEN as int))
        } else {
            og.name@
        }
        &&& ng.topic_idx == if created {
            t
        } else {
            og.topic_idx
        }
        &&& ng.active
        &&& ng.offsets == og.offsets
        &&& match free_member_from(og.members@, 0) {
            None => ng.members == og.members && res == lit("ERR group full\n"),
            Some(m) => {
                &&& ng.members@.len() == og.members@.len()
                &&& forall|j: int| 0 <= j < ng.members@.len() ==> (#[trigger] ng.members@[j]).client_fd == (
                if j == m {
                    fd
                } else {
                    og.members@[j].client_fd
                }) && ng.members@[j].active == (j == m || og.members@[j].active)
                &&& balanced(ng.members@, old.topics@[ng.topic_idx as int].num_partitions as nat)
                &&& res == capped(lit("OK partitions ") + join_list(ng.members@[m as int].partitions@) + lit("\n"))
            },
        }
    }
}

/// What `LEAVE_GROUP group` from client `fd` does.
pub open spec fn leave_post(old: Broker, new: Broker, group: Seq<u8>, fd: i32, res: Seq<u8>) -> bool {
    if group.len() == 0 {
        new == old && res == lit("ERR usage: LEAVE_GROUP group\n")
    } else if old.group_index(group) is None {
        new == old && res == lit("ERR group not found\n")
    } else {
        let g = old.group_index(group)->0 as int;
        let og = old.groups@[g];
        let ng = new.groups@[g];
        &&& new.topics == old.topics
        &&& same_except(old.groups@, new.groups@, g)
        &&& ng.name == og.name
        &&& ng.topic_idx == og.topic_idx
        &&& ng.offsets == og.offsets
        &&& ng.active == og.active
        &&& members_without(og.members@, ng.members@, fd)
        &&& balanced(ng.members@, old.topics@[og.topic_idx as int].num_partitions as nat)
        &&& res == lit("OK left group\n")
    }
}

/// What `COMMIT group topic partition offset` does: the group records the offset for the
/// partition (when the partition number is below `MAX_PARTITIONS`).
pub open spec fn commit_post(
    old: Broker,
    new: Broker,
    group: Seq<u8>,
    topic: Seq<u8>,
    part: Seq<u8>,
    offset: Seq<u8>,
    res: Seq<u8>,
) -> bool {
    if group.len() == 0 || topic.len() == 0 || part.len() == 0 || offset.len() == 0 {
        new == old && res == lit("ERR usage: COMMIT group topic partition offset\n")
    } else if old.group_index(group) is None {
        new == old && res == lit("ERR group not found\n")
    } else {
        let g = old.group_index(group)->0 as int;
        let p = lead_u32(part) as int;
        let og = old.groups@[g];
        let ng = new.groups@[g];
        &&& new.topics == old.topics
        &&& same_except(old.groups@, new.groups@, g)
        &&& ng.name == og.name
        &&& ng.topic_idx == og.topic_idx
        &&& ng.members == og.members
        &&& ng.active == og.active
        &&& ng.offsets@ == if p < MAX_PARTITIONS {
            og.offsets@.update(p, lead_u64(offset))
        } else {
            og.offsets@
        }
        &&& res == lit("OK committed\n")
    }
}

/// The first inactive member slot.
fn free_member(members: &Vec<GroupMember>) -> (res: Option<usize>)
    ensures
        res == free_member_from(members@, 0),
        res matches Some(m) ==> m < MAX_MEMBERS && m < members@.len() && !members@[m as int].active,
{
    proof {
        lemma_free_member_from(members@, 0);
    }
    let mut i: usize = 0;
    while i < MAX_MEMBERS && i < members.len()
        invariant
            i <= MAX_MEMBERS,
            free_member_from(members@, 0) == free_member_from(members@, i as int),
        decreases MAX_MEMBERS - i,
    {
        if !members[i].active {
            return Some(i);
        }
        i += 1;
    }
    None
}

/// Whether some active member is the client `fd`.
fn has_member_fd(members: &Vec<GroupMember>, fd: i32) -> (res: bool)
    ensures
        res == has_member(members@, fd),
{
    let mut i: usize = 0;
    while i < members.len()
        invariant
            i <= members@.len(),
            forall|j: int| 0 <= j < i ==> !((#[trigger] members@[j]).active && members@[j].client_fd == fd),
        decreases members@.len() - i,
    {
        if members[i].active && members[i].client_fd == fd {
            return true;
        }
        i += 1;
    }
    false
}

/// Makes every active member that is the client `fd` inactive, and empties its partitions.
fn drop_member_fd(members: &mut Vec<GroupMember>, fd: i32)
    requires
        forall|m: int| 0 <= m < old(members)@.len() ==> #[trigger] old(members)@[m].wf(),
    ensures
        members_without(old(members)@, final(members)@, fd),
        forall|m: int| 0 <= m < final(members)@.len() ==> #[trigger] final(members)@[m].wf(),
{
    let ghost start = members@;
    let mut i: usize = 0;
    while i < members.len()
        invariant
            members@.len() == start.len(),
            i <= start.len(),
            forall|j: int| 0 <= j < start.len() ==> (#[trigger] members@[j]).wf(),
            forall|j: int| 0 <= j < start.len() ==> (#[trigger] members@[j]).client_fd == start[j].client_fd,
            forall|j: int| 0 <= j < i ==> (#[trigger] members@[j]).active == (start[j].active && start[j].client_fd != fd),
            forall|j: int| i <= j < start.len() ==> (#[trigger] members@[j]).active == start[j].active,
        decreases start.len() - i,
    {
        if members[i].active && members[i].client_fd == fd {
            members[i].active = false;
            members[i].partitions = Vec::new();
        }
        i += 1;
    }
}

/// Writes partition numbers, comma-separated, after `out`.
fn push_join_list(out: &mut Vec<u8>, ps: &Vec<usize>)
    ensures
        final(out)@ == old(out)@ + join_list(ps@),
{
    let ghost start = out@;
    let mut i: usize = 0;
    while i < ps.len()
        invariant
            i <= ps@.len(),
            out@ == start + join_list(ps@.take(i as int)),
        decreases ps@.len() - i,
    {
        let ghost prev = out@;
        if i > 0 {
            extend(out, ",".as_bytes());
        }
        let d = format_u64(ps[i] as u64);
        extend(out, d.as_slice());
        proof {
            let t = ps@.take(i + 1);
            assert(t.drop_last() =~= ps@.take(i as int));
            if i == 0 {
                assert(join_list(t) == dec_digits(ps@[0] as nat));
                assert(out@ =~= start + join_list(t));
            } else {
                assert(out@ =~= start + join_list(t));
            }
        }
        i += 1;
    }
    assert(ps@.take(i as int) =~= ps@);
}

impl Broker {
    /// `JOIN_GROUP group topic` from client `fd`: creates the group for the topic if needed,
    /// adds the client as a member, shares the partitions anew and reports the member's
    /// share.
    pub fn join_group(&mut self, group: &[u8], topic: &[u8], fd: i32) -> (res: Vec<u8>)
        requires
            old(self).wf(),
        ensures
            final(self).wf(),
            join_post(*old(self), *final(self), group@, topic@, fd, res@),
    {
        if group.len() == 0 || topic.len() == 0 {
            return lit_bytes("ERR usage: JOIN_GROUP group topic\n");
        }
        let t = match self.find_topic(topic) {
            Some(i) => i,
            None => {
                return lit_bytes("ERR topic not found\n");
            },
        };
        let ghost start = *self;
        let g = match self.find_group(group) {
            Some(i) => i,
            None => {
                let slot = match self.free_group() {
                    Some(i) => i,
                    None => {
                        return lit_bytes("ERR max groups reached\n");
                    },
                };
                assert(self.groups@[slot as int].wf());
                self.groups[slot].name = truncated_copy(group, MAX_NAME_LEN);
                self.groups[slot].topic_idx = t;
                self.groups[slot].active = true;
                assert(self.groups@[slot as int].wf());
                assert forall|j: int| 0 <= j < MAX_GROUPS implies #[trigger] self.groups@[j].wf() by {
                    if j != slot {
                        assert(self.groups@[j] == start.groups@[j]);
                    }
                }
                slot
            },
        };
        let ghost mid = *self;
        assert(self.groups@[g as int].wf());
        let m = match free_member(&self.groups[g].members) {
            Some(i) => i,
            None => {
                return lit_bytes("ERR group full\n");
            },
        };
        self.groups[g].members[m].client_fd = fd;
        self.groups[g].members[m].active = true;
        self.groups[g].members[m].partitions = Vec::new();
        proof {
            let ng = self.groups@[g as int];
            assert forall|j: int| 0 <= j < MAX_MEMBERS implies #[trigger] ng.members@[j].wf() by {
                if j != m {
                    assert(ng.members@[j] == mid.groups@[g as int].members@[j]);
                }
            }
            assert forall|j: int| 0 <= j < MAX_GROUPS implies #[trigger] self.groups@[j].wf() by {
                if j != g {
                    assert(self.groups@[j] == mid.groups@[j]);
                }
            }
        }
        self.rebalance_group(g);
        assert(self.groups@[g as int].wf());
        let mut out = lit_bytes("OK partitions ");
        push_join_list(&mut out, &self.groups[g].members[m].partitions);
        extend(&mut out, "\n".as_bytes());
        cap_response(out)
    }

    /// `LEAVE_GROUP group` from client `fd`: the client stops being a member and the
    /// partitions are shared anew.
    pub fn leave_group(&mut self, group: &[u8], fd: i32) -> (res: Vec<u8>)
        requires
            old(self).wf(),
        ensures
            final(self).wf(),
            leave_post(*old(self), *final(self), group@, fd, res@),
    {
        if group.len() == 0 {
            return lit_bytes("ERR usage: LEAVE_GROUP group\n");
        }
        let g = match self.find_group(group) {
            Some(i) => i,
            None => {
                return lit_bytes("ERR group not found\n");
            },
        };
        let ghost start = *self;
        assert(self.groups@[g as int].wf());
        drop_member_fd(&mut self.groups[g].members, fd);
        assert(self.groups@[g as int].wf());
        assert forall|j: int| 0 <= j < MAX_GROUPS implies #[trigger] self.groups@[j].wf() by {
            if j != g {
                assert(self.groups@[j] == start.groups@[j]);
            }
        }
        self.rebalance_group(g);
        lit_bytes("OK left group\n")
    }

    /// `COMMIT group topic partition offset`: records the group's offset for the partition.
    pub fn commit(&mut self, group: &[u8], topic: &[u8], part: &[u8], offset: &[u8]) -> (res: Vec<u8>)
        requires
            old(self).wf(),
        ensures
            final(self).wf(),
            commit_post(*old(self), *final(self), group@, topic@, part@, offset@, res@),
    {
        if group.len() == 0 || topic.len() == 0 || part.len() == 0 || offset.len() == 0 {
            return lit_bytes("ERR usage: COMMIT group topic partition offset\n");
        }
        let p = parse_u32(part) as usize;
        let off = parse_u64(offset);
        let g = match self.find_group(group) {
            Some(i) => i,
            None => {
                return lit_bytes("ERR group not found\n");
            },
        };
        let ghost start = *self;
        assert(self.groups@[g as int].wf());
        if p < MAX_PARTITIONS {
            self.groups[g].offsets[p] = off;
        }
        assert(self.groups@[g as int].wf());
        assert forall|j: int| 0 <= j < MAX_GROUPS implies #[trigger] self.groups@[j].wf() by {
            if j != g {
                assert(self.groups@[j] == start.groups@[j]);
            }
        }
        lit_bytes("OK committed\n")
    }
}

/// What the command line `line` from client `fd`, received at time `now`, does to the
/// broker and what it answers. The first token names the command, the next ones are its
/// arguments; an empty line is ignored and gets no answer.
pub open spec fn command_post(old: Broker, new: Broker, line: Seq<u8>, fd: i32, now: u64, res: Seq<u8>) -> bool {
    let cmd = nth_token(line, 0);
    let a1 = nth_token(line, 1);
    let a2 = nth_token(line, 2);
    let a3 = nth_token(line, 3);
    let a4 = nth_token(line, 4);
    if cmd.len() == 0 {
        new == old && res.len() == 0
    } else if cmd == lit("CREATE_TOPIC") {
        create_topic_post(old, new, a1, a2, res)
    } else if cmd == lit("PRODUCE") {
        produce_post(old, new, a1, a2, a3, now, res)
    } else if cmd == lit("FETCH") {
        new == old && res == fetch_reply(old, a1, a2, a3, a4)
    } else if cmd == lit("LIST_TOPICS") {
        new == old && res == capped(topic_lines(old.topics@, 0) + lit("END\n"))
    } else if cmd == lit("JOIN_GROUP") {
        join_post(old, new, a1, a2, fd, res)
    } else if cmd == lit("LEAVE_GROUP") {
        leave_post(old, new, a1, fd, res)
    } else if cmd == lit("COMMIT") {
        commit_post(old, new, a1, a2, a3, a4, res)
    } else if cmd == lit("OFFSETS") {
        new == old && res == offsets_reply(old, a1, a2)
    } else {
        new == old && res == lit("ERR unknown command\n")
    }
}

/// What a client's disconnection does to group `og`: when the group is in use and the
/// client is one of its active members, the client leaves and the partitions of the topic
/// (`n` of them) are shared anew; otherwise the group stays as it is.
pub open spec fn disconnected(og: ConsumerGroup, ng: ConsumerGroup, fd: i32, n: nat) -> bool {
    if og.active && has_member(og.members@, fd) {
        &&& ng.name == og.name
        &&& ng.topic_idx == og.topic_idx
        &&& ng.offsets == og.offsets
        &&& ng.active == og.active
        &&& members_without(og.members@, ng.members@, fd)
        &&& balanced(ng.members@, n)
    } else {
        ng == og
    }
}

impl Broker {
    /// Runs one command line from client `fd`, received at time `now`, and returns the
    /// answer to send back (nothing for an empty line).
    pub fn handle_command(&mut self, fd: i32, line: &[u8], now: u64) -> (res: Vec<u8>)
        requires
            old(self).wf(),
        ensures
            final(self).wf(),
            command_post(*old(self), *final(self), line@, fd, now, res@),
    {
        proof {
            lemma_nth_token_from_bounds(line@, 0);
            lemma_nth_token_from_bounds(line@, 1);
            lemma_nth_token_from_bounds(line@, 2);
            lemma_nth_token_from_bounds(line@, 3);
            lemma_nth_token_from_bounds(line@, 4);
        }
        let (s0, e0) = next_token(line, 0);
        let (s1, e1) = next_token(line, e0);
        let (s2, e2) = next_token(line, e1);
        let (s3, e3) = next_token(line, e2);
        let (s4, e4) = next_token(line, e3);
        proof {
            assert(nth_token_from(line@, 1) == e0);
            assert(nth_token_from(line@, 2) == e1);
            assert(nth_token_from(line@, 3) == e2);
            assert(nth_token_from(line@, 4) == e3);
        }
        let cmd = &line[s0..e0];
        let a1 = &line[s1..e1];
        let a2 = &line[s2..e2];
        let a3 = &line[s3..e3];
        let a4 = &line[s4..e4];
        assert(cmd@ == nth_token(line@, 0));
        assert(a1@ == nth_token(line@, 1));
        assert(a2@ == nth_token(line@, 2));
        assert(a3@ == nth_token(line@, 3));
        assert(a4@ == nth_token(line@, 4));
        if cmd.len() == 0 {
            return Vec::new();
        }
        if bytes_eq(cmd, "CREATE_TOPIC".as_bytes()) {
            self.create_topic(a1, a2)
        } else if bytes_eq(cmd, "PRODUCE".as_bytes()) {
            self.produce(a1, a2, a3, now)
        } else if bytes_eq(cmd, "FETCH".as_bytes()) {
            self.fetch(a1, a2, a3, a4)
        } else if bytes_eq(cmd, "LIST_TOPICS".as_bytes()) {
            self.list_topics()
        } else if bytes_eq(cmd, "JOIN_GROUP".as_bytes()) {
            self.join_group(a1, a2, fd)
        } else if bytes_eq(cmd, "LEAVE_GROUP".as_bytes()) {
            self.leave_group(a1, fd)
        } else if bytes_eq(cmd, "COMMIT".as_bytes()) {
            self.commit(a1, a2, a3, a4)
        } else if bytes_eq(cmd, "OFFSETS".as_bytes()) {
            self.offsets(a1, a2)
        } else {
            lit_bytes("ERR unknown command\n")
        }
    }

    /// Client `fd` went away: it leaves every group it was an active member of, and those
    /// groups share their partitions anew.
    pub fn on_client_disconnect(&mut self, fd: i32)
        requires
            old(self).wf(),
        ensures
            final(self).wf(),
            final(self).topics == old(self).topics,
            final(self).groups@.len() == old(self).groups@.len(),
            forall|g: int| 0 <= g < MAX_GROUPS ==> disconnected(
                #[trigger] old(self).groups@[g],
                final(self).groups@[g],
                fd,
                old(self).topics@[old(self).groups@[g].topic_idx as int].num_partitions as nat,
            ),
    {
        let ghost start = *self;
        let mut g: usize = 0;
        while g < MAX_GROUPS
            invariant
                self.wf(),
                g <= MAX_GROUPS,
                self.topics == start.topics,
                forall|j: int| 0 <= j < g ==> disconnected(
                    #[trigger] start.groups@[j],
                    self.groups@[j],
                    fd,
                    start.topics@[start.groups@[j].topic_idx as int].num_partitions as nat,
                ),
                forall|j: int| g <= j < MAX_GROUPS ==> #[trigger] self.groups@[j] == start.groups@[j],
            decreases MAX_GROUPS - g,
        {
            assert(self.groups@[g as int].wf());
            if self.groups[g].active && has_member_fd(&self.groups[g].members, fd) {
                let ghost before = *self;
                drop_member_fd(&mut self.groups[g].members, fd);
                assert(self.groups@[g as int].wf());
                assert forall|j: int| 0 <= j < MAX_GROUPS implies #[trigger] self.groups@[j].wf() by {
                    if j != g {
                        assert(self.groups@[j] == before.groups@[j]);
                    }
                }
                let ghost mid = *self;
                self.rebalance_group(g);
                assert forall|j: int| 0 <= j < g implies disconnected(
                    #[trigger] start.groups@[j],
                    self.groups@[j],
                    fd,
                    start.topics@[start.groups@[j].topic_idx as int].num_partitions as nat,
                ) by {
                    assert(self.groups@[j] == mid.groups@[j]);
                    assert(mid.groups@[j] == before.groups@[j]);
                }
                assert forall|j: int| g < j < MAX_GROUPS implies #[trigger] self.groups@[j] == start.groups@[j] by {
                    assert(self.groups@[j] == mid.groups@[j]);
                    assert(mid.groups@[j] == before.groups@[j]);
                }
            }
            g += 1;
        }
    }
}

/// How long a request that a client sends may be; the rest of a longer one is dropped.
pub const MAX_REQUEST: usize = 256;

/// The first `n` bytes of `s`, or all of it when shorter.
pub open spec fn at_most(s: Seq<u8>, n: int) -> Seq<u8> {
    if s.len() <= n {
        s
    } else {
        s.take(n)
    }
}

fn cap_request(v: Vec<u8>) -> (res: Vec<u8>)
    ensures
        res@ == at_most(v@, MAX_REQUEST as int),
{
    let mut v = v;
    if v.len() > MAX_REQUEST {
        v.truncate(MAX_REQUEST);
    }
    v
}

/// The request a producer sends first: create the topic with 2 partitions.
pub fn create_topic_request(topic: &[u8]) -> (res: Vec<u8>)
    ensures
        res@ == at_most(lit("CREATE_TOPIC ") + topic@ + lit(" 2\n"), MAX_REQUEST as int),
{
    let mut v = lit_bytes("CREATE_TOPIC ");
    extend(&mut v, topic);
    extend(&mut v, " 2\n".as_bytes());
    cap_request(v)
}

/// The key of a producer's `counter`-th message: `key-0` to `key-3` in turn.
pub open spec fn producer_key(counter: u32) -> Seq<u8> {
    lit("key-") + dec_digits((counter % 4) as nat)
}

/// The producer's `counter`-th message: key `key-(counter mod 4)`, value `value-counter`.
pub fn produce_request(topic: &[u8], counter: u32) -> (res: Vec<u8>)
    ensures
        res@ == at_most(
            lit("PRODUCE ") + topic@ + lit(" ") + producer_key(counter) + lit(" value-") + dec_digits(
                counter as nat,
            ) + lit("\n"),
            MAX_REQUEST as int,
        ),
{
    let mut v = lit_bytes("PRODUCE ");
    extend(&mut v, topic);
    extend(&mut v, " ".as_bytes());
    extend(&mut v, "key-".as_bytes());
    let k = format_u32(counter % 4);
    extend(&mut v, k.as_slice());
    extend(&mut v, " value-".as_bytes());
    let d = format_u32(counter);
    extend(&mut v, d.as_slice());
    extend(&mut v, "\n".as_bytes());
    proof {
        assert(v@ =~= lit("PRODUCE ") + topic@ + lit(" ") + producer_key(counter) + lit(" value-") + dec_digits(
            counter as nat,
        ) + lit("\n"));
    }
    cap_request(v)
}

/// The request with which a consumer joins `group` for `topic`.
pub fn join_request(group: &[u8], topic: &[u8]) -> (res: Vec<u8>)
    ensures
        res@ == at_most(lit("JOIN_GROUP ") + group@ + lit(" ") + topic@ + lit("\n"), MAX_REQUEST as int),
{
    let mut v = lit_bytes("JOIN_GROUP ");
    extend(&mut v, group);
    extend(&mut v, " ".as_bytes());
    extend(&mut v, topic);
    extend(&mut v, "\n".as_bytes());
    cap_request(v)
}

/// The request for up to 10 messages of a partition from `offset` on.
pub fn fetch_request(topic: &[u8], part: u32, offset: u64) -> (res: Vec<u8>)
    ensures
        res@ == at_most(
            lit("FETCH ") + topic@ + lit(" ") + dec_digits(part as nat) + lit(" ") + dec_digits(offset as nat)
                + lit(" 10\n"),
            MAX_REQUEST as int,
        ),
{
    let mut v = lit_bytes("FETCH ");
    extend(&mut v, topic);
    extend(&mut v, " ".as_bytes());
    let p = format_u32(part);
    extend(&mut v, p.as_slice());
    extend(&mut v, " ".as_bytes());
    let o = format_u64(offset);
    extend(&mut v, o.as_slice());
    extend(&mut v, " 10\n".as_bytes());
    cap_request(v)
}

/// The request that commits `offset` for a partition on behalf of `group`.
pub fn commit_request(group: &[u8], topic: &[u8], part: u32, offset: u64) -> (res: Vec<u8>)
    ensures
        res@ == at_most(
            lit("COMMIT ") + group@ + lit(" ") + topic@ + lit(" ") + dec_digits(part as nat) + lit(" ")
                + dec_digits(offset as nat) + lit("\n"),
            MAX_REQUEST as int,
        ),
{
    let mut v = lit_bytes("COMMIT ");
    extend(&mut v, group);
    extend(&mut v, " ".as_bytes());
    extend(&mut v, topic);
    extend(&mut v, " ".as_bytes());
    let p = format_u32(part);
    extend(&mut v, p.as_slice());
    extend(&mut v, " ".as_bytes());
    let o = format_u64(offset);
    extend(&mut v, o.as_slice());
    extend(&mut v, "\n".as_bytes());
    cap_request(v)
}

/// The partition numbers listed from `pos` on, comma-separated: at most `left` of them, a
/// run of digits each (read modulo 2^64); the list ends at the first byte after a run that
/// is not a comma.
pub open spec fn assignment_from(s: Seq<u8>, pos: int, left: nat) -> Seq<u64>
    decreases s.len() - pos,
{
    if pos < 0 || pos >= s.len() || left == 0 {
        Seq::empty()
    } else {
        let e = scan_until(s, pos, |c: u8| !is_digit(c));
        let got = e > pos;
        let here: Seq<u64> = if got {
            seq![lead_u64(s.subrange(pos, e))]
        } else {
            Seq::empty()
        };
        let rest: nat = if got {
            (left - 1) as nat
        } else {
            left
        };
        if pos <= e < s.len() && s[e] == 44 {
            here + assignment_from(s, e + 1, rest)
        } else {
            here
        }
    }
}

/// The partitions that a `JOIN_GROUP` answer assigns: the list after `OK partitions `
/// (nothing when the answer does not start so).
pub open spec fn assignment(s: Seq<u8>) -> Seq<u64> {
    if has_prefix(s, lit("OK partitions ")) {
        assignment_from(s, lit("OK partitions ").len() as int, MAX_PARTITIONS as nat)
    } else {
        Seq::empty()
    }
}

/// Reads the partitions that a `JOIN_GROUP` answer assigns.
pub fn parse_assignment(resp: &[u8]) -> (res: Vec<u64>)
    ensures
        res@ == assignment(resp@),
{
    let mut out: Vec<u64> = Vec::new();
    let prefix = "OK partitions ".as_bytes();
    if !starts_with(resp, prefix) {
        return out;
    }
    let ghost whole = assignment_from(resp@, prefix@.len() as int, MAX_PARTITIONS as nat);
    let mut pos: usize = prefix.len();
    assert(whole == assignment(resp@));
    loop
        invariant
            whole == assignment(resp@),
            pos <= resp@.len(),
            out@.len() <= MAX_PARTITIONS,
            out@ + assignment_from(resp@, pos as int, (MAX_PARTITIONS - out@.len()) as nat) == whole,
        decreases resp@.len() - pos,
    {
        if pos >= resp.len() || out.len() >= MAX_PARTITIONS {
            assert(out@ =~= whole);
            return out;
        }
        let start = pos;
        while pos < resp.len() && is_digit_exec(resp[pos])
            invariant
                start <= pos <= resp@.len(),
                scan_until(resp@, start as int, |c: u8| !is_digit(c)) == scan_until(
                    resp@,
                    pos as int,
                    |c: u8| !is_digit(c),
                ),
            decreases resp@.len() - pos,
        {
            pos += 1;
        }
        let ghost prev = out@;
        let ghost left = (MAX_PARTITIONS - out@.len()) as nat;
        if pos > start {
            let v = parse_u64(&resp[start..pos]);
            out.push(v);
        }
        let ghost rest = (MAX_PARTITIONS - out@.len()) as nat;
        if pos < resp.len() && resp[pos] == 44 {
            proof {
                let here = out@.subrange(prev.len() as int, out@.len() as int);
                assert(out@ =~= prev + here);
                assert(prev + assignment_from(resp@, start as int, left) =~= prev + (here + assignment_from(
                    resp@,
                    pos + 1,
                    rest,
                )));
                assert(prev + (here + assignment_from(resp@, pos + 1, rest)) =~= out@ + assignment_from(
                    resp@,
                    pos + 1,
                    rest,
                ));
            }
            pos += 1;
        } else {
            assert(out@ =~= whole);
            return out;
        }
    }
}

/// The offset to fetch from next after the answer line `line`: one past the offset of a
/// `MSG offset key value` line when that is further than `max` (wrapping like the
/// arithmetic of the release build), else `max`.
pub open spec fn offset_after(max: u64, line: Seq<u8>) -> u64 {
    let tok = token_after(line, 4);
    if line.len() > 4 && has_prefix(line, lit("MSG ")) && tok.len() > 0 && lead_u64(tok).wrapping_add(1) > max {
        lead_u64(tok).wrapping_add(1)
    } else {
        max
    }
}

/// Advances a consumer's next offset past the message reported by `line`.
pub fn next_offset_after(max: u64, line: &[u8]) -> (res: u64)
    ensures
        res == offset_after(max, line@),
{
    if line.len() > 4 && starts_with(line, "MSG ".as_bytes()) {
        let (s, e) = next_token(line, 4);
        if s < e {
            let off = parse_u64(&line[s..e]);
            let next = off.wrapping_add(1);
            if next > max {
                return next;
            }
        }
    }
    max
}

/// What a consumer does with a line of a `FETCH` answer, holding `next` as the offset to go
/// on from: print it and go on (with the offset advanced past it) unless it is the `END`
/// that closes the answer.
pub enum FetchStep {
    /// The answer is over.
    Done,
    /// Print the line and read the next one; the offset to go on from.
    Show(u64),
}

/// Reads one line of a `FETCH` answer (without its `\n`).
pub fn fetch_step(next: u64, line: &[u8]) -> (res: FetchStep)
    ensures
        res == if line@ == lit("END") {
            FetchStep::Done
        } else {
            FetchStep::Show(offset_after(next, line@))
        },
{
    if bytes_eq(line, "END".as_bytes()) {
        FetchStep::Done
    } else {
        FetchStep::Show(next_offset_after(next, line))
    }
}

/// After a `FETCH` answer: the `COMMIT` to send when the offset moved on from `before` to
/// `next`, none when it did not move on.
pub fn commit_after_fetch(group: &[u8], topic: &[u8], part: u32, before: u64, next: u64) -> (res: Option<Vec<u8>>)
    ensures
        match res {
            Some(r) => next > before && r@ == at_most(
                lit("COMMIT ") + group@ + lit(" ") + topic@ + lit(" ") + dec_digits(part as nat) + lit(" ")
                    + dec_digits(next as nat) + lit("\n"),
                MAX_REQUEST as int,
            ),
            None => next <= before,
        },
{
    if next > before {
        Some(commit_request(group, topic, part, next))
    } else {
        None
    }
}

/// The state of the address scanner: the four octets so far, how many are complete, and the
/// number being read.
pub open spec fn addr_step(st: (Seq<u8>, nat, u32), c: u8) -> (Seq<u8>, nat, u32) {
    if st.1 >= 4 {
        st
    } else if c == 46 {
        (st.0.update(st.1 as int, st.2 as u8), st.1 + 1, 0u32)
    } else if 48 <= c <= 57 {
        (st.0, st.1, st.2.wrapping_mul(10).wrapping_add((c - 48) as u32))
    } else {
        st
    }
}

/// The scanner's state after reading all of `s`.
pub open spec fn addr_scan(s: Seq<u8>) -> (Seq<u8>, nat, u32)
    decreases s.len(),
{
    if s.len() == 0 {
        (seq![0u8, 0u8, 0u8, 0u8], 0nat, 0u32)
    } else {
        addr_step(addr_scan(s.drop_last()), s.last())
    }
}

/// The octets of a dotted address: digits accumulate (wrapping) into a number, each `.` closes
/// an octet (truncated to a byte), other bytes are skipped, and the number read last fills the
/// next octet if there is one.
pub open spec fn addr_octets(s: Seq<u8>) -> Seq<u8> {
    let st = addr_scan(s);
    if st.1 < 4 {
        st.0.update(st.1 as int, st.2 as u8)
    } else {
        st.0
    }
}

/// The address in network byte order: the first octet in the lowest byte.
pub open spec fn host_addr(s: Seq<u8>) -> u32 {
    let o = addr_octets(s);
    (o[0] + o[1] * 0x100 + o[2] * 0x1_0000 + o[3] * 0x100_0000) as u32
}

proof fn lemma_addr_scan_shape(s: Seq<u8>)
    ensures
        addr_scan(s).0.len() == 4,
        addr_scan(s).1 <= 4,
    decreases s.len(),
{
    if s.len() > 0 {
        lemma_addr_scan_shape(s.drop_last());
    }
}

/// The address that a producer or consumer connects to, from a dotted `host` argument.
pub fn host_to_addr(host: &[u8]) -> (res: u32)
    ensures
        res == host_addr(host@),
{
    let mut octets: Vec<u8> = vec![0u8, 0u8, 0u8, 0u8];
    let mut idx: usize = 0;
    let mut val: u32 = 0;
    let mut i: usize = 0;
    while i < host.len()
        invariant
            0 <= i <= host@.len(),
            octets@.len() == 4,
            idx <= 4,
            (octets@, idx as nat, val) == addr_scan(host@.take(i as int)),
        decreases host@.len() - i,
    {
        proof {
            assert(host@.take(i + 1).drop_last() =~= host@.take(i as int));
        }
        let c = host[i];
        if idx < 4 {
            if c == 46 {
                octets.set(idx, val as u8);
                idx += 1;
                val = 0;
            } else if 48 <= c && c <= 57 {
                val = val.wrapping_mul(10).wrapping_add((c - 48) as u32);
            }
        }
        i += 1;
    }
    proof {
        assert(host@.take(host@.len() as int) =~= host@);
    }
    if idx < 4 {
        octets.set(idx, val as u8);
    }
    let a: u32 = octets[0] as u32;
    let b: u32 = octets[1] as u32;
    let c: u32 = octets[2] as u32;
    let d: u32 = octets[3] as u32;
    a + b * 0x100 + c * 0x1_0000 + d * 0x100_0000
}

/// How many bytes a client's read buffer holds; reading stops while it is full.
pub const READ_BUFFER: usize = 1024;

/// Takes the first complete line (without its `\n`) out of a client's read buffer, leaving the
/// bytes after it; `None`, with the buffer unchanged, while no `\n` has arrived.
pub fn take_line(buf: &mut Vec<u8>) -> (res: Option<Vec<u8>>)
    ensures
        match res {
            Some(line) => {
                let p = line@.len() as int;
                &&& p < old(buf)@.len()
                &&& old(buf)@[p] == 10
                &&& !line@.contains(10u8)
                &&& line@ == old(buf)@.take(p)
                &&& final(buf)@ == old(buf)@.skip(p + 1)
            },
            None => !old(buf)@.contains(10u8) && final(buf)@ == old(buf)@,
        },
{
    let len = buf.len();
    match find_line_end(buf.as_slice(), len) {
        Some(p) => {
            let mut line: Vec<u8> = Vec::new();
            extend(&mut line, slice_prefix(buf.as_slice(), p));
            let mut rest: Vec<u8> = Vec::new();
            let mut j: usize = p + 1;
            while j < len
                invariant
                    len == buf@.len(),
                    p + 1 <= j <= len,
                    rest@ == buf@.subrange(p + 1, j as int),
                decreases len - j,
            {
                rest.push(buf[j]);
                j += 1;
            }
            proof {
                assert(!line@.contains(10u8)) by {
                    assert forall|k: int| 0 <= k < line@.len() implies line@[k] != 10u8 by {}
                }
                assert(rest@ =~= buf@.skip(p + 1));
            }
            *buf = rest;
            Some(line)
        },
        None => {
            proof {
                assert(!buf@.contains(10u8)) by {
                    assert forall|k: int| 0 <= k < buf@.len() implies buf@[k] != 10u8 by {}
                }
            }
            None
        },
    }
}

} // verus!
